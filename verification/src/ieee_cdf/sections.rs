//! The loss zone, interchange, and tie line records.

use vstd::prelude::*;

use super::card::{field, field_spec};
use super::model::{CdfArea, CdfAreaV, FindingCode, FindingV, Line};
use super::read::{got_view, read_all, report, truncated_msg, Got, GotV, Reader, Req, Want};
use super::tables::{
    bump, bump_exec, num, num_of, opt_num, text_of, txt, usize_or_zero, usize_or_zero_exec, views,
    Counts, Pending, Tables, TablesV, Target,
};
use crate::text::string_of;

verus! {

pub open spec fn zone_reqs() -> Seq<Req> {
    seq![Req { cols: (1, 3), what: "loss zone number", want: Want::Int }]
}

/// A loss zone record: a record without its number is reported and
/// skipped; a named zone is counted.
pub open spec fn loss_zone_step(
    b: Seq<u8>,
    o: Option<u64>,
    fs: Seq<FindingV>,
    t: TablesV,
    line: Line,
) -> (Seq<FindingV>, Result<TablesV, Seq<char>>) {
    let (fs1, r1) = read_all(b, o, fs, line, zone_reqs());
    match r1 {
        Err(e) => (fs1, Err(e)),
        Ok(v) => match opt_num(v[0]) {
            None => (
                report(
                    fs1,
                    o,
                    FindingCode::RecordTruncated,
                    line,
                    truncated_msg((1, 3), "loss zone number"@, "no zone"@),
                ),
                Ok(t),
            ),
            Some(_) => (
                fs1,
                Ok(
                    if field_spec(b, line.start as int, line.end as int, (5, 16)) is Some {
                        TablesV {
                            counts: Counts { loss_zones: bump(t.counts.loss_zones), ..t.counts },
                            ..t
                        }
                    } else {
                        t
                    },
                ),
            ),
        },
    }
}

pub open spec fn interchange_reqs() -> Seq<Req> {
    seq![
        Req { cols: (1, 2), what: "area number", want: Want::Id },
        Req { cols: (4, 7), what: "interchange slack bus", want: Want::Bus },
        Req { cols: (21, 28), what: "interchange export", want: Want::RequiredReal },
        Req { cols: (29, 35), what: "interchange tolerance", want: Want::RequiredReal },
    ]
}

/// The tables after an interchange record whose fields are read.
pub open spec fn interchange_tables(b: Seq<u8>, t: TablesV, line: Line, v: Seq<GotV>) -> TablesV {
    let code = field_spec(b, line.start as int, line.end as int, (38, 43));
    let name = field_spec(b, line.start as int, line.end as int, (46, 75));
    let swing = field_spec(b, line.start as int, line.end as int, (9, 20));
    let area = CdfAreaV {
        number: usize_or_zero(num(v[0])),
        slack_bus: None,
        net_interchange: txt(v[2]),
        tolerance: txt(v[3]),
        name: match name {
            Some(n) => Some(n),
            None => code,
        },
    };
    TablesV {
        areas: t.areas.push(area),
        pending: match opt_num(v[1]) {
            Some(s) => t.pending.push(
                Pending { line, bus: usize_or_zero(s), target: Target::AreaSlack(t.areas.len() as usize) },
            ),
            None => t.pending,
        },
        counts: Counts {
            retained_area_fields: if swing is Some || (name is Some && code is Some) {
                bump(t.counts.retained_area_fields)
            } else {
                t.counts.retained_area_fields
            },
            ..t.counts
        },
        ..t
    }
}

/// An interchange record: an area with its export and tolerance, the name
/// or else the code, and its slack bus resolved once every bus is read.
pub open spec fn interchange_step(
    b: Seq<u8>,
    o: Option<u64>,
    fs: Seq<FindingV>,
    t: TablesV,
    line: Line,
) -> (Seq<FindingV>, Result<TablesV, Seq<char>>) {
    let (fs1, r1) = read_all(b, o, fs, line, interchange_reqs());
    match r1 {
        Err(e) => (fs1, Err(e)),
        Ok(v) => (fs1, Ok(interchange_tables(b, t, line, v))),
    }
}

pub open spec fn tie_reqs() -> Seq<Req> {
    seq![
        Req { cols: (1, 4), what: "metered bus number", want: Want::Int },
        Req { cols: (11, 14), what: "non-metered bus number", want: Want::Int },
    ]
}

/// A tie line record: counted when it states both bus numbers, else
/// reported and skipped.
pub open spec fn tie_line_step(
    b: Seq<u8>,
    o: Option<u64>,
    fs: Seq<FindingV>,
    t: TablesV,
    line: Line,
) -> (Seq<FindingV>, Result<TablesV, Seq<char>>) {
    let (fs1, r1) = read_all(b, o, fs, line, tie_reqs());
    match r1 {
        Err(e) => (fs1, Err(e)),
        Ok(v) => if opt_num(v[0]) is None || opt_num(v[1]) is None {
            (
                report(
                    fs1,
                    o,
                    FindingCode::RecordTruncated,
                    line,
                    truncated_msg((11, 14), "tie line bus numbers"@, "no tie line"@),
                ),
                Ok(t),
            )
        } else {
            (fs1, Ok(TablesV { counts: Counts { tie_lines: bump(t.counts.tie_lines), ..t.counts }, ..t }))
        },
    }
}

/// An optional field as a string.
fn opt_field(b: &[u8], line: Line, c: (usize, usize)) -> (r: Option<Vec<char>>)
    requires
        line.start <= line.end <= b@.len(),
        1 <= c.0 <= c.1,
    ensures
        match r {
            Some(v) => field_spec(b@, line.start as int, line.end as int, c) == Some(v@),
            None => field_spec(b@, line.start as int, line.end as int, c) is None,
        },
{
    field(b, line.start, line.end, c)
}

impl<'a> Reader<'a> {
    /// Read a loss zone record.
    pub fn loss_zone(&mut self, line: Line, t: &mut Tables) -> (r: Result<(), String>)
        requires
            old(self).wf(),
            line.start <= line.end <= old(self).bytes@.len(),
        ensures
            final(self).wf(),
            final(self).bytes == old(self).bytes,
            final(self).origin == old(self).origin,
            ({
                let (fs, res) = loss_zone_step(old(self).bytes@, old(self).origin, old(self).fs(), old(t)@, line);
                &&& final(self).fs() == fs
                &&& match r {
                    Ok(()) => res == Ok::<TablesV, Seq<char>>(final(t)@),
                    Err(e) => res == Err::<TablesV, Seq<char>>(e@),
                }
            }),
    {
        let reqs = [Req { cols: (1, 3), what: "loss zone number", want: Want::Int }];
        assert(reqs@ =~= zone_reqs());
        let v = match self.read_all(line, &reqs) {
            Ok(v) => v,
            Err(e) => {
                return Err(e);
            },
        };
        proof {
            assert(got_view(v@)[0] == v@[0]@);
        }
        match num_of(&v[0]) {
            None => {
                let what = crate::text::chars_of("loss zone number");
                let m = self.truncated_text(&what, (1, 3), "no zone");
                self.report(FindingCode::RecordTruncated, line, &m);
            },
            Some(_) => {
                if opt_field(self.bytes, line, (5, 16)).is_some() {
                    t.counts.loss_zones = bump_exec(t.counts.loss_zones);
                }
            },
        }
        Ok(())
    }

    /// Read an interchange record into the tables.
    pub fn interchange(&mut self, line: Line, t: &mut Tables) -> (r: Result<(), String>)
        requires
            old(self).wf(),
            line.start <= line.end <= old(self).bytes@.len(),
        ensures
            final(self).wf(),
            final(self).bytes == old(self).bytes,
            final(self).origin == old(self).origin,
            ({
                let (fs, res) = interchange_step(old(self).bytes@, old(self).origin, old(self).fs(), old(t)@, line);
                &&& final(self).fs() == fs
                &&& match r {
                    Ok(()) => res == Ok::<TablesV, Seq<char>>(final(t)@),
                    Err(e) => res == Err::<TablesV, Seq<char>>(e@),
                }
            }),
    {
        let reqs = [
            Req { cols: (1, 2), what: "area number", want: Want::Id },
            Req { cols: (4, 7), what: "interchange slack bus", want: Want::Bus },
            Req { cols: (21, 28), what: "interchange export", want: Want::RequiredReal },
            Req { cols: (29, 35), what: "interchange tolerance", want: Want::RequiredReal },
        ];
        assert(reqs@ =~= interchange_reqs());
        let v = match self.read_all(line, &reqs) {
            Ok(v) => v,
            Err(e) => {
                return Err(e);
            },
        };
        let ghost gv = got_view(v@);
        proof {
            assert(gv[0] == v@[0]@);
            assert(gv[1] == v@[1]@);
            assert(gv[2] == v@[2]@);
            assert(gv[3] == v@[3]@);
        }
        let number = match num_of(&v[0]) {
            Some(n) => usize_or_zero_exec(n),
            None => 0,
        };
        let slack = num_of(&v[1]);
        let export = text_of(&v[2]);
        let tolerance = text_of(&v[3]);
        let code = opt_field(self.bytes, line, (38, 43));
        let name = opt_field(self.bytes, line, (46, 75));
        let swing = opt_field(self.bytes, line, (9, 20));
        let retained = swing.is_some() || (name.is_some() && code.is_some());
        let area_name = match name {
            Some(n) => Some(string_of(&n)),
            None => match code {
                Some(c) => Some(string_of(&c)),
                None => None,
            },
        };
        let area = CdfArea {
            number,
            slack_bus: None,
            net_interchange: string_of(&export),
            tolerance: string_of(&tolerance),
            name: area_name,
        };
        if let Some(s) = slack {
            let index = t.areas.len();
            t.pending.push(Pending { line, bus: usize_or_zero_exec(s), target: Target::AreaSlack(index) });
        }
        let ghost before = t.areas@;
        t.areas.push(area);
        assert(views(t.areas@) =~= views(before).push(area@));
        if retained {
            t.counts.retained_area_fields = bump_exec(t.counts.retained_area_fields);
        }
        proof {
            let want = interchange_tables(self.bytes@, old(t)@, line, gv);
            assert(t@.areas == want.areas);
            assert(t@.pending == want.pending);
            assert(t@.counts == want.counts);
        }
        Ok(())
    }

    /// Read a tie line record.
    pub fn tie_line(&mut self, line: Line, t: &mut Tables) -> (r: Result<(), String>)
        requires
            old(self).wf(),
            line.start <= line.end <= old(self).bytes@.len(),
        ensures
            final(self).wf(),
            final(self).bytes == old(self).bytes,
            final(self).origin == old(self).origin,
            ({
                let (fs, res) = tie_line_step(old(self).bytes@, old(self).origin, old(self).fs(), old(t)@, line);
                &&& final(self).fs() == fs
                &&& match r {
                    Ok(()) => res == Ok::<TablesV, Seq<char>>(final(t)@),
                    Err(e) => res == Err::<TablesV, Seq<char>>(e@),
                }
            }),
    {
        let reqs = [
            Req { cols: (1, 4), what: "metered bus number", want: Want::Int },
            Req { cols: (11, 14), what: "non-metered bus number", want: Want::Int },
        ];
        assert(reqs@ =~= tie_reqs());
        let v = match self.read_all(line, &reqs) {
            Ok(v) => v,
            Err(e) => {
                return Err(e);
            },
        };
        proof {
            assert(got_view(v@)[0] == v@[0]@);
            assert(got_view(v@)[1] == v@[1]@);
        }
        if num_of(&v[0]).is_none() || num_of(&v[1]).is_none() {
            let what = crate::text::chars_of("tie line bus numbers");
            let m = self.truncated_text(&what, (11, 14), "no tie line");
            self.report(FindingCode::RecordTruncated, line, &m);
        } else {
            t.counts.tie_lines = bump_exec(t.counts.tie_lines);
        }
        Ok(())
    }
}

} // verus!
