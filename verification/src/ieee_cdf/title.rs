//! The title card.

use vstd::prelude::*;

use super::card::{field, field_spec, iso_date, iso_date_spec};
use super::model::{FindingCode, FindingV, Line};
use super::read::{fail, numeric, report, Reader};
use super::tables::{positive, positive_exec};
use crate::decimal::{finite_real, real_finite};
use crate::text::{is_digit, join, push_chars, push_str, string_of};

verus! {

/// The title card: the MVA base every per unit quantity refers to, the case
/// identification, and the date the case describes.
pub struct Title {
    /// The MVA base as the card spells it.
    pub base_mva: Vec<char>,
    pub case_id: Option<String>,
    /// The case date in ISO 8601 form.
    pub case_date: Option<String>,
}

pub struct TitleV {
    pub base_mva: Seq<char>,
    pub case_id: Option<Seq<char>>,
    pub case_date: Option<Seq<char>>,
}

impl View for Title {
    type V = TitleV;

    open spec fn view(&self) -> TitleV {
        TitleV {
            base_mva: self.base_mva@,
            case_id: super::model::opt_view(self.case_id),
            case_date: super::model::opt_view(self.case_date),
        }
    }
}

/// The text holds a digit other than `0`.
pub open spec fn has_nonzero_digit(s: Seq<char>) -> bool {
    exists|k: int| 0 <= k < s.len() && is_digit(#[trigger] s[k]) && s[k] != '0'
}

/// `{what} `{raw}`` when the columns hold a value.
pub open spec fn named(what: Seq<char>, f: Option<Seq<char>>) -> Seq<Seq<char>> {
    match f {
        Some(raw) => seq![what + " `"@ + raw + "`"@],
        None => Seq::empty(),
    }
}

/// The title fields the tables do not hold, as findings name them.
pub open spec fn retained_items(b: Seq<u8>, line: Line) -> Seq<Seq<char>> {
    named("originator"@, field_spec(b, line.start as int, line.end as int, (11, 30)))
        + named("year"@, field_spec(b, line.start as int, line.end as int, (39, 42)))
        + named("season"@, field_spec(b, line.start as int, line.end as int, (44, 44)))
}

/// The title card read: a missing or non positive MVA base fails; a date
/// that is not `MM/DD/YY` is reported unless it is blank or all zeros; the
/// originator, year, and season are reported as retained in the source.
pub open spec fn title_step(b: Seq<u8>, o: Option<u64>, fs: Seq<FindingV>, line: Line) -> (
    Seq<FindingV>,
    Result<TitleV, Seq<char>>,
) {
    let f = |c: (usize, usize)| field_spec(b, line.start as int, line.end as int, c);
    match f((32, 37)) {
        None => fail(fs, o, line, "title card has no MVA base in columns 32-37"@),
        Some(raw) => if finite_real(raw) && positive(raw) {
            let date = f((2, 9));
            let fs1 = match date {
                Some(d) => if iso_date_spec(d) is None && has_nonzero_digit(d) {
                    report(
                        fs,
                        o,
                        FindingCode::SourceMalformed,
                        line,
                        "title card date `"@ + d + "` is not MM/DD/YY; no case date recorded"@,
                    )
                } else {
                    fs
                },
                None => fs,
            };
            let kept = retained_items(b, line);
            let fs2 = if kept.len() > 0 {
                report(
                    fs1,
                    o,
                    FindingCode::RetainedSourceOnly,
                    line,
                    "title card "@ + join(kept, ", "@) + " survive in the retained source only"@,
                )
            } else {
                fs1
            };
            (
                fs2,
                Ok(
                    TitleV {
                        base_mva: raw,
                        case_id: f((46, 73)),
                        case_date: match date {
                            Some(d) => iso_date_spec(d),
                            None => None,
                        },
                    },
                ),
            )
        } else {
            fail(fs, o, line, "title card MVA base `"@ + raw + "` is not a positive number"@)
        },
    }
}

fn nonzero_digit(s: &Vec<char>) -> (r: bool)
    ensures
        r == has_nonzero_digit(s@),
{
    let mut i: usize = 0;
    while i < s.len()
        invariant
            i <= s@.len(),
            forall|k: int| 0 <= k < i ==> !(is_digit(#[trigger] s@[k]) && s@[k] != '0'),
        decreases s@.len() - i,
    {
        if '1' <= s[i] && s[i] <= '9' {
            assert(is_digit(s@[i as int]) && s@[i as int] != '0');
            return true;
        }
        i = i + 1;
    }
    false
}

/// Append `{what} `{raw}`` to the retained list when the columns hold a
/// value.
fn push_named(items: &mut Vec<Vec<char>>, what: &str, f: Option<Vec<char>>)
    ensures
        final(items)@.map_values(|v: Vec<char>| v@) == old(items)@.map_values(|v: Vec<char>| v@) + named(
            what@,
            match f {
                Some(v) => Some(v@),
                None => None,
            },
        ),
{
    let ghost before = items@;
    if let Some(raw) = f {
        let mut m: Vec<char> = Vec::new();
        push_str(&mut m, what);
        push_str(&mut m, " `");
        push_chars(&mut m, &raw);
        push_str(&mut m, "`");
        items.push(m);
        assert(items@.map_values(|v: Vec<char>| v@) =~= before.map_values(|v: Vec<char>| v@).push(m@));
    } else {
        assert(items@.map_values(|v: Vec<char>| v@) =~= before.map_values(|v: Vec<char>| v@));
    }
}

/// The items joined by `, `.
fn join_items(items: &Vec<Vec<char>>) -> (r: Vec<char>)
    ensures
        r@ == join(items@.map_values(|v: Vec<char>| v@), ", "@),
{
    let ghost all = items@.map_values(|v: Vec<char>| v@);
    let mut out: Vec<char> = Vec::new();
    let mut i: usize = 0;
    while i < items.len()
        invariant
            i <= items@.len(),
            all == items@.map_values(|v: Vec<char>| v@),
            out@ == join(all.take(i as int), ", "@),
        decreases items@.len() - i,
    {
        if i > 0 {
            push_str(&mut out, ", ");
        }
        push_chars(&mut out, &items[i]);
        proof {
            let next = all.take(i + 1);
            assert(next.drop_last() =~= all.take(i as int));
            assert(next.last() == items@[i as int]@);
            if i == 0 {
                assert(next.len() == 1);
                assert(join(all.take(0), ", "@) =~= Seq::<char>::empty());
            }
        }
        i = i + 1;
    }
    assert(all.take(items@.len() as int) =~= all);
    out
}

impl<'a> Reader<'a> {
    /// Read the title card.
    #[verifier::rlimit(40)]
    pub fn title(&mut self, line: Line) -> (r: Result<Title, String>)
        requires
            old(self).wf(),
            line.start <= line.end <= old(self).bytes@.len(),
        ensures
            final(self).wf(),
            final(self).bytes == old(self).bytes,
            final(self).origin == old(self).origin,
            r matches Ok(tt) ==> numeric(tt.base_mva@) && tt.base_mva@.len() <= 6,
            ({
                let (fs, res) = title_step(old(self).bytes@, old(self).origin, old(self).fs(), line);
                &&& final(self).fs() == fs
                &&& match r {
                    Ok(tt) => res == Ok::<TitleV, Seq<char>>(tt@),
                    Err(e) => res == Err::<TitleV, Seq<char>>(e@),
                }
            }),
    {
        let raw = match field(self.bytes, line.start, line.end, (32, 37)) {
            Some(raw) => raw,
            None => {
                let mut m: Vec<char> = Vec::new();
                push_str(&mut m, "title card has no MVA base in columns 32-37");
                return Err(self.fail(line, &m));
            },
        };
        proof {
            super::card::lemma_field_len(self.bytes@, line.start as int, line.end as int, (32, 37));
        }
        assert(raw@.subrange(0, raw@.len() as int) =~= raw@);
        let finite = real_finite(&raw, 0, raw.len());
        if !finite || !positive_exec(&raw) {
            let mut m: Vec<char> = Vec::new();
            push_str(&mut m, "title card MVA base `");
            push_chars(&mut m, &raw);
            push_str(&mut m, "` is not a positive number");
            return Err(self.fail(line, &m));
        }
        let date = field(self.bytes, line.start, line.end, (2, 9));
        let case_date = match &date {
            Some(d) => {
                let iso = iso_date(d);
                if iso.is_none() && nonzero_digit(d) {
                    let mut m: Vec<char> = Vec::new();
                    push_str(&mut m, "title card date `");
                    push_chars(&mut m, d);
                    push_str(&mut m, "` is not MM/DD/YY; no case date recorded");
                    self.report(FindingCode::SourceMalformed, line, &m);
                }
                match iso {
                    Some(v) => Some(string_of(&v)),
                    None => None,
                }
            },
            None => None,
        };
        let mut kept: Vec<Vec<char>> = Vec::new();
        assert(kept@.map_values(|v: Vec<char>| v@) =~= Seq::<Seq<char>>::empty());
        push_named(&mut kept, "originator", field(self.bytes, line.start, line.end, (11, 30)));
        push_named(&mut kept, "year", field(self.bytes, line.start, line.end, (39, 42)));
        push_named(&mut kept, "season", field(self.bytes, line.start, line.end, (44, 44)));
        proof {
            assert(kept@.map_values(|v: Vec<char>| v@) =~= retained_items(self.bytes@, line));
        }
        if kept.len() > 0 {
            let mut m: Vec<char> = Vec::new();
            push_str(&mut m, "title card ");
            let joined = join_items(&kept);
            push_chars(&mut m, &joined);
            push_str(&mut m, " survive in the retained source only");
            self.report(FindingCode::RetainedSourceOnly, line, &m);
        }
        let case_id = match field(self.bytes, line.start, line.end, (46, 73)) {
            Some(v) => Some(string_of(&v)),
            None => None,
        };
        Ok(Title { base_mva: raw, case_id, case_date })
    }
}

} // verus!
