//! The record level of the IEEE CDF reader: findings located at a line, and
//! the typed reads of a record's fields.

use vstd::prelude::*;

use super::card::{field, field_spec, parse_int, parse_int_spec, Columns};
use super::model::{Finding, FindingCode, FindingV, Line, findings_view};
use crate::decimal::{finite_real, real_finite};
use crate::text::{
    int_text, nat_text, push_chars, push_int, push_nat, push_str, string_of,
};

verus! {

broadcast use vstd::string::group_string_axioms;

/// `line N: ` in front of a message.
pub open spec fn at_line(line: Line, msg: Seq<char>) -> Seq<char> {
    "line "@ + nat_text(line.number as nat) + ": "@ + msg
}

/// The byte range of a line inside the retained buffer.
pub open spec fn span_of(origin: Option<u64>, line: Line) -> Option<(u64, u64)> {
    match origin {
        Some(o) => Some(((o + line.start) as u64, (o + line.end) as u64)),
        None => None,
    }
}

pub open spec fn report(
    fs: Seq<FindingV>,
    origin: Option<u64>,
    code: FindingCode,
    line: Line,
    msg: Seq<char>,
) -> Seq<FindingV> {
    fs.push(FindingV { code, message: at_line(line, msg), span: span_of(origin, line) })
}

/// A failure at `line`: a `PARSE.IEEE_CDF.MALFORMED` finding and the error
/// message that ends the read.
pub open spec fn fail<T>(fs: Seq<FindingV>, origin: Option<u64>, line: Line, msg: Seq<char>) -> (
    Seq<FindingV>,
    Result<T, Seq<char>>,
) {
    (report(fs, origin, FindingCode::ParseMalformed, line, msg), Err(at_line(line, msg)))
}

pub open spec fn cols_text(c: Columns) -> Seq<char> {
    nat_text(c.0 as nat) + "-"@ + nat_text(c.1 as nat)
}

/// How a record reads one field.
#[derive(Clone, Copy)]
pub enum Want {
    /// A real number, absent when blank.
    Real,
    /// A real number, read as zero with a finding when blank.
    RequiredReal,
    /// An integer, absent when blank.
    Int,
    /// An integer, read as the default with a finding when blank.
    RequiredInt(i64),
    /// A bus number that identifies the record.
    Id,
    /// A bus number when the record states a positive one.
    Bus,
}

/// One field read: its columns, its name in findings, and how it reads.
#[derive(Clone, Copy)]
pub struct Req {
    pub cols: Columns,
    pub what: &'static str,
    pub want: Want,
}

/// The value a field read gives.
pub enum Got {
    Text(Option<Vec<char>>),
    Num(Option<i64>),
}

pub enum GotV {
    Text(Option<Seq<char>>),
    Num(Option<int>),
}

impl View for Got {
    type V = GotV;

    open spec fn view(&self) -> GotV {
        match self {
            Got::Text(Some(v)) => GotV::Text(Some(v@)),
            Got::Text(None) => GotV::Text(None),
            Got::Num(Some(n)) => GotV::Num(Some(*n as int)),
            Got::Num(None) => GotV::Num(None),
        }
    }
}

pub open spec fn got_view(g: Seq<Got>) -> Seq<GotV> {
    g.map_values(|x: Got| x@)
}

/// A real text the comparisons can take: a number, short enough to hold a
/// small exponent.
pub open spec fn numeric(t: Seq<char>) -> bool {
    crate::decimal::number_syntax(crate::decimal::unsigned_part(t)) && t.len() <= 21
}

/// The fields a reader reads are at most this wide.
pub open spec fn narrow(q: Req) -> bool {
    1 <= q.cols.0 <= q.cols.1 && q.cols.1 - q.cols.0 < 21
}

/// Every real a read gives is numeric.
pub open spec fn reals_numeric(g: Seq<GotV>) -> bool {
    forall|k: int| 0 <= k < g.len() ==> (#[trigger] g[k] matches GotV::Text(Some(t)) ==> numeric(t))
}

pub proof fn lemma_zero_numeric()
    ensures
        numeric(zero_text()),
{
    let z = zero_text();
    assert(crate::decimal::unsigned_part(z) == z);
    assert(z.drop_first() =~= Seq::<char>::empty());
    assert(z.len() == 1 && z[0] == '0');
    assert(crate::decimal::e_pos(z.drop_first()) == 0);
    assert(!crate::decimal::is_e(z[0]));
    assert(crate::decimal::e_pos(z) == 1);
    assert(crate::decimal::mantissa(z) =~= z);
    assert(crate::decimal::dot_pos(z.drop_first()) == 0);
    assert(crate::decimal::dot_pos(z) == 1);
    assert(crate::decimal::int_digits(z) =~= z);
    assert(crate::decimal::frac_digits(z) =~= Seq::<char>::empty());
    assert(crate::text::all_digits(z));
}

/// The text a zero value reads as.
pub open spec fn zero_text() -> Seq<char> {
    seq!['0']
}

/// `record has no {what} in columns {a}-{b}; read as {read_as}`.
pub open spec fn truncated_msg(c: Columns, what: Seq<char>, read_as: Seq<char>) -> Seq<char> {
    "record has no "@ + what + " in columns "@ + cols_text(c) + "; read as "@ + read_as
}

/// One field read, threading the findings.
pub open spec fn read_one(
    b: Seq<u8>,
    origin: Option<u64>,
    fs: Seq<FindingV>,
    line: Line,
    q: Req,
) -> (Seq<FindingV>, Result<GotV, Seq<char>>) {
    let raw = field_spec(b, line.start as int, line.end as int, q.cols);
    let what = q.what@;
    match q.want {
        Want::Real | Want::RequiredReal => match raw {
            Some(t) => if finite_real(t) {
                (fs, Ok(GotV::Text(Some(t))))
            } else {
                fail(
                    fs,
                    origin,
                    line,
                    what + " `"@ + t + "` in columns "@ + cols_text(q.cols) + " is not a number"@,
                )
            },
            None => if q.want is RequiredReal {
                (
                    report(
                        fs,
                        origin,
                        FindingCode::RecordTruncated,
                        line,
                        truncated_msg(q.cols, what, "zero"@),
                    ),
                    Ok(GotV::Text(Some(zero_text()))),
                )
            } else {
                (fs, Ok(GotV::Text(None)))
            },
        },
        _ => match raw {
            Some(t) => match parse_int_spec(t) {
                Some(v) => match q.want {
                    Want::Id => if 0 <= v <= usize::MAX {
                        (fs, Ok(GotV::Num(Some(v))))
                    } else {
                        fail(fs, origin, line, what + " "@ + int_text(v) + " is negative"@)
                    },
                    Want::Bus => if 0 < v <= usize::MAX {
                        (fs, Ok(GotV::Num(Some(v))))
                    } else {
                        (fs, Ok(GotV::Num(None)))
                    },
                    _ => (fs, Ok(GotV::Num(Some(v)))),
                },
                None => fail(
                    fs,
                    origin,
                    line,
                    what + " `"@ + t + "` in columns "@ + cols_text(q.cols) + " is not an integer"@,
                ),
            },
            None => match q.want {
                Want::RequiredInt(d) => (
                    report(
                        fs,
                        origin,
                        FindingCode::RecordTruncated,
                        line,
                        truncated_msg(q.cols, what, int_text(d as int)),
                    ),
                    Ok(GotV::Num(Some(d as int))),
                ),
                Want::Id => fail(
                    fs,
                    origin,
                    line,
                    "record has no "@ + what + " in columns "@ + cols_text(q.cols),
                ),
                _ => (fs, Ok(GotV::Num(None))),
            },
        },
    }
}

/// The fields of `reqs` read in order; the first failure ends the reads.
pub open spec fn read_all(
    b: Seq<u8>,
    origin: Option<u64>,
    fs: Seq<FindingV>,
    line: Line,
    reqs: Seq<Req>,
) -> (Seq<FindingV>, Result<Seq<GotV>, Seq<char>>)
    decreases reqs.len(),
{
    if reqs.len() == 0 {
        (fs, Ok(Seq::empty()))
    } else {
        let (fs1, r1) = read_all(b, origin, fs, line, reqs.drop_last());
        match r1 {
            Err(e) => (fs1, Err(e)),
            Ok(vs) => {
                let (fs2, r2) = read_one(b, origin, fs1, line, reqs.last());
                match r2 {
                    Err(e) => (fs2, Err(e)),
                    Ok(v) => (fs2, Ok(vs.push(v))),
                }
            },
        }
    }
}

/// The reader's buffer and the findings it has recorded.
pub struct Reader<'a> {
    pub bytes: &'a [u8],
    pub origin: Option<u64>,
    pub findings: Vec<Finding>,
}

impl<'a> Reader<'a> {
    /// Spans stay inside `u64`.
    pub open spec fn wf(&self) -> bool {
        self.origin matches Some(o) ==> o + self.bytes@.len() <= u64::MAX
    }

    pub open spec fn fs(&self) -> Seq<FindingV> {
        findings_view(self.findings@)
    }

    /// Record a finding located at `line`.
    pub fn report(&mut self, code: FindingCode, line: Line, msg: &Vec<char>)
        requires
            old(self).wf(),
            line.start <= line.end <= old(self).bytes@.len(),
        ensures
            final(self).wf(),
            final(self).bytes == old(self).bytes,
            final(self).origin == old(self).origin,
            final(self).fs() == report(old(self).fs(), old(self).origin, code, line, msg@),
    {
        let text = self.message_at(line, msg);
        let span = match self.origin {
            Some(o) => Some((o + line.start as u64, o + line.end as u64)),
            None => None,
        };
        let ghost before = self.findings@;
        self.findings.push(Finding { code, message: text, span });
        proof {
            assert(self.findings@ == before.push(Finding { code, message: text, span }));
            assert(findings_view(self.findings@) =~= findings_view(before).push(
                FindingV { code, message: text@, span },
            ));
        }
    }

    /// `line N: msg` as a string.
    pub fn message_at(&self, line: Line, msg: &Vec<char>) -> (r: String)
        ensures
            r@ == at_line(line, msg@),
    {
        let mut out: Vec<char> = Vec::new();
        push_str(&mut out, "line ");
        push_nat(&mut out, line.number as u64);
        push_str(&mut out, ": ");
        push_chars(&mut out, msg);
        string_of(&out)
    }

    /// Record a failure at `line` and return the message that ends the read.
    pub fn fail(&mut self, line: Line, msg: &Vec<char>) -> (r: String)
        requires
            old(self).wf(),
            line.start <= line.end <= old(self).bytes@.len(),
        ensures
            final(self).wf(),
            final(self).bytes == old(self).bytes,
            final(self).origin == old(self).origin,
            (final(self).fs(), Err::<(), Seq<char>>(r@)) == fail::<()>(
                old(self).fs(),
                old(self).origin,
                line,
                msg@,
            ),
    {
        self.report(FindingCode::ParseMalformed, line, msg);
        self.message_at(line, msg)
    }

    /// Read one field of the record at `line`.
    pub fn read_one(&mut self, line: Line, q: Req) -> (r: Result<Got, String>)
        requires
            old(self).wf(),
            line.start <= line.end <= old(self).bytes@.len(),
            narrow(q),
        ensures
            r matches Ok(Got::Text(Some(t))) ==> numeric(t@),
            final(self).wf(),
            final(self).bytes == old(self).bytes,
            final(self).origin == old(self).origin,
            ({
                let (fs, res) = read_one(old(self).bytes@, old(self).origin, old(self).fs(), line, q);
                &&& final(self).fs() == fs
                &&& match r {
                    Ok(g) => res == Ok::<GotV, Seq<char>>(g@),
                    Err(e) => res == Err::<GotV, Seq<char>>(e@),
                }
            }),
    {
        let raw = field(self.bytes, line.start, line.end, q.cols);
        proof {
            super::card::lemma_field_len(self.bytes@, line.start as int, line.end as int, q.cols);
        }
        let what = crate::text::chars_of(q.what);
        match q.want {
            Want::Real | Want::RequiredReal => match raw {
                Some(t) => {
                    if real_finite(&t, 0, t.len()) {
                        assert(t@.subrange(0, t@.len() as int) =~= t@);
                        Ok(Got::Text(Some(t)))
                    } else {
                        assert(t@.subrange(0, t@.len() as int) =~= t@);
                        let mut m = what.clone();
                        assert(m@ == what@);
                        push_str(&mut m, " `");
                        push_chars(&mut m, &t);
                        push_str(&mut m, "` in columns ");
                        self.push_cols(&mut m, q.cols);
                        push_str(&mut m, " is not a number");
                        Err(self.fail(line, &m))
                    }
                },
                None => {
                    if let Want::RequiredReal = q.want {
                        let m = self.truncated_text(&what, q.cols, "zero");
                        self.report(FindingCode::RecordTruncated, line, &m);
                        let mut z: Vec<char> = Vec::new();
                        z.push('0');
                        proof {
                            lemma_zero_numeric();
                            assert(z@ =~= zero_text());
                        }
                        Ok(Got::Text(Some(z)))
                    } else {
                        Ok(Got::Text(None))
                    }
                },
            },
            _ => match raw {
                Some(t) => match parse_int(&t) {
                    Some(v) => match q.want {
                        Want::Id => {
                            if 0 <= v && (v as u64) <= (usize::MAX as u64) {
                                Ok(Got::Num(Some(v)))
                            } else {
                                let mut m = what.clone();
                                assert(m@ == what@);
                                push_str(&mut m, " ");
                                push_int(&mut m, v);
                                push_str(&mut m, " is negative");
                                Err(self.fail(line, &m))
                            }
                        },
                        Want::Bus => {
                            if 0 < v && (v as u64) <= (usize::MAX as u64) {
                                Ok(Got::Num(Some(v)))
                            } else {
                                Ok(Got::Num(None))
                            }
                        },
                        _ => Ok(Got::Num(Some(v))),
                    },
                    None => {
                        let mut m = what.clone();
                        assert(m@ == what@);
                        push_str(&mut m, " `");
                        push_chars(&mut m, &t);
                        push_str(&mut m, "` in columns ");
                        self.push_cols(&mut m, q.cols);
                        push_str(&mut m, " is not an integer");
                        Err(self.fail(line, &m))
                    },
                },
                None => match q.want {
                    Want::RequiredInt(d) => {
                        let mut read_as: Vec<char> = Vec::new();
                        push_int(&mut read_as, d);
                        let m = self.truncated_chars(&what, q.cols, &read_as);
                        self.report(FindingCode::RecordTruncated, line, &m);
                        Ok(Got::Num(Some(d)))
                    },
                    Want::Id => {
                        let mut m: Vec<char> = Vec::new();
                        push_str(&mut m, "record has no ");
                        push_chars(&mut m, &what);
                        push_str(&mut m, " in columns ");
                        self.push_cols(&mut m, q.cols);
                        Err(self.fail(line, &m))
                    },
                    _ => Ok(Got::Num(None)),
                },
            },
        }
    }

    /// Append `a-b`.
    pub fn push_cols(&self, m: &mut Vec<char>, c: Columns)
        ensures
            final(m)@ == old(m)@ + cols_text(c),
    {
        push_nat(m, c.0 as u64);
        push_str(m, "-");
        push_nat(m, c.1 as u64);
    }

    pub fn truncated_text(&self, what: &Vec<char>, c: Columns, read_as: &str) -> (r: Vec<char>)
        ensures
            r@ == truncated_msg(c, what@, read_as@),
    {
        let ra = crate::text::chars_of(read_as);
        self.truncated_chars(what, c, &ra)
    }

    pub fn truncated_chars(&self, what: &Vec<char>, c: Columns, read_as: &Vec<char>) -> (r: Vec<char>)
        ensures
            r@ == truncated_msg(c, what@, read_as@),
    {
        let mut m: Vec<char> = Vec::new();
        push_str(&mut m, "record has no ");
        push_chars(&mut m, what);
        push_str(&mut m, " in columns ");
        self.push_cols(&mut m, c);
        push_str(&mut m, "; read as ");
        push_chars(&mut m, read_as);
        m
    }

    /// Read the fields of `reqs` in order; the first failure ends the reads.
    pub fn read_all(&mut self, line: Line, reqs: &[Req]) -> (r: Result<Vec<Got>, String>)
        requires
            old(self).wf(),
            line.start <= line.end <= old(self).bytes@.len(),
            forall|k: int| 0 <= k < reqs@.len() ==> narrow(#[trigger] reqs@[k]),
        ensures
            r matches Ok(g) ==> reals_numeric(got_view(g@)) && g@.len() == reqs@.len(),
            final(self).wf(),
            final(self).bytes == old(self).bytes,
            final(self).origin == old(self).origin,
            ({
                let (fs, res) = read_all(old(self).bytes@, old(self).origin, old(self).fs(), line, reqs@);
                &&& final(self).fs() == fs
                &&& match r {
                    Ok(g) => res == Ok::<Seq<GotV>, Seq<char>>(got_view(g@)),
                    Err(e) => res == Err::<Seq<GotV>, Seq<char>>(e@),
                }
            }),
    {
        let ghost fs0 = self.fs();
        let mut got: Vec<Got> = Vec::new();
        let mut i: usize = 0;
        assert(reqs@.take(0) =~= Seq::<Req>::empty());
        assert(got_view(got@) =~= Seq::<GotV>::empty());
        while i < reqs.len()
            invariant
                self.wf(),
                self.bytes == old(self).bytes,
                self.origin == old(self).origin,
                fs0 == old(self).fs(),
                line.start <= line.end <= self.bytes@.len(),
                i <= reqs@.len(),
                forall|k: int| 0 <= k < reqs@.len() ==> narrow(#[trigger] reqs@[k]),
                reals_numeric(got_view(got@)),
                got@.len() == i,
                read_all(self.bytes@, self.origin, fs0, line, reqs@.take(i as int)) == (
                    self.fs(),
                    Ok::<Seq<GotV>, Seq<char>>(got_view(got@)),
                ),
            decreases reqs@.len() - i,
        {
            let q = reqs[i];
            let ghost pre = reqs@.take(i as int);
            proof {
                assert(reqs@.take(i + 1).drop_last() =~= pre);
                assert(reqs@.take(i + 1).last() == q);
            }
            match self.read_one(line, q) {
                Ok(g) => {
                    let ghost before = got@;
                    got.push(g);
                    proof {
                        assert(got_view(got@) =~= got_view(before).push(g@));
                    }
                },
                Err(e) => {
                    proof {
                        lemma_read_all_fails(self.bytes@, self.origin, fs0, line, reqs@, i as int + 1);
                    }
                    return Err(e);
                },
            }
            i = i + 1;
        }
        assert(reqs@.take(reqs@.len() as int) =~= reqs@);
        Ok(got)
    }
}

/// Once a read fails, the later reads leave the findings and the failure
/// as they are.
pub proof fn lemma_read_all_fails(
    b: Seq<u8>,
    origin: Option<u64>,
    fs: Seq<FindingV>,
    line: Line,
    reqs: Seq<Req>,
    k: int,
)
    requires
        0 <= k <= reqs.len(),
        read_all(b, origin, fs, line, reqs.take(k)).1 is Err,
    ensures
        read_all(b, origin, fs, line, reqs) == read_all(b, origin, fs, line, reqs.take(k)),
    decreases reqs.len() - k,
{
    if k < reqs.len() {
        assert(reqs.take(k + 1).drop_last() =~= reqs.take(k));
        lemma_read_all_fails(b, origin, fs, line, reqs, k + 1);
    } else {
        assert(reqs.take(k) =~= reqs);
    }
}

} // verus!