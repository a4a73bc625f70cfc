//! The whole CDF read: the title card, the card scan, the checks and
//! references that need every bus, and the file level findings.

use vstd::prelude::*;

use super::branch::branch_name;
use super::model::{
    findings_view, CdfArea, CdfAreaV, CdfBranch, CdfBranchV, CdfBus, CdfBusV, CdfControlV, CdfGenerator,
    CdfGeneratorV, CdfLoad, CdfLoadV, CdfShunt, CdfShuntV, Finding, FindingCode, FindingV, Line,
};
use super::read::{fail, numeric, report, Reader};
use super::scan::{cut_open, lemma_record_wf, lemma_scan_settled, line_at, lines_from, scan, tables_wf, Open, Scan};
use super::step::scan_state;
use super::tables::{empty_tables, views, Pending, Tables, TablesV, Target};
use super::title::{Title, TitleV, title_step};
use crate::decimal_text::{exponent_bounded, lemma_short_exponent, show_number, shown};
use crate::text::{chars_of, nat_text, push_chars, push_nat, push_str, string_of};

verus! {

broadcast use vstd::std_specs::hash::group_hash_axioms;

/// A reference once every bus is known: a declared bus is recorded; an
/// undeclared one is reported and dropped.
pub open spec fn resolve_one(o: Option<u64>, fs: Seq<FindingV>, t: TablesV, p: Pending) -> (
    Seq<FindingV>,
    TablesV,
) {
    let declared = t.bus_lines.contains_key(p.bus);
    match p.target {
        Target::GeneratorRemote(i) => if declared {
            (
                fs,
                TablesV {
                    generators: t.generators.update(
                        i as int,
                        CdfGeneratorV { regulated_bus: Some(p.bus), ..t.generators[i as int] },
                    ),
                    ..t
                },
            )
        } else {
            (
                report(
                    fs,
                    o,
                    FindingCode::SourceMalformed,
                    p.line,
                    "remote controlled bus "@ + nat_text(p.bus as nat) + " is not declared; the generator at bus "@
                        + nat_text(t.generators[i as int].bus as nat) + " regulates its own bus"@,
                ),
                t,
            )
        },
        Target::BranchControl(i) => if declared {
            (fs, t)
        } else {
            let br = t.branches[i as int];
            (
                report(
                    fs,
                    o,
                    FindingCode::SourceMalformed,
                    p.line,
                    "control bus "@ + nat_text(p.bus as nat) + " is not declared; transformer "@ + nat_text(
                        br.from as nat,
                    ) + "-"@ + nat_text(br.to as nat) + " regulates its own terminal"@,
                ),
                TablesV {
                    branches: t.branches.update(
                        i as int,
                        CdfBranchV {
                            control: match br.control {
                                Some(c) => Some(CdfControlV { controlled_bus: None, ..c }),
                                None => None,
                            },
                            ..br
                        },
                    ),
                    ..t
                },
            )
        },
        Target::AreaSlack(i) => if declared {
            (
                fs,
                TablesV {
                    areas: t.areas.update(i as int, CdfAreaV { slack_bus: Some(p.bus), ..t.areas[i as int] }),
                    ..t
                },
            )
        } else {
            (
                report(
                    fs,
                    o,
                    FindingCode::SourceMalformed,
                    p.line,
                    "interchange slack bus "@ + nat_text(p.bus as nat) + " of area "@ + nat_text(
                        t.areas[i as int].number as nat,
                    ) + " is not declared; the area has no slack bus"@,
                ),
                t,
            )
        },
    }
}

/// The references of `ps` resolved in order.
pub open spec fn resolve_all(o: Option<u64>, fs: Seq<FindingV>, t: TablesV, ps: Seq<Pending>) -> (
    Seq<FindingV>,
    TablesV,
)
    decreases ps.len(),
{
    if ps.len() == 0 {
        (fs, t)
    } else {
        let (fs1, t1) = resolve_all(o, fs, t, ps.drop_last());
        resolve_one(o, fs1, t1, ps.last())
    }
}

/// Resolving keeps the row counts and the references awaiting resolution.
pub proof fn lemma_resolve_shape(o: Option<u64>, fs: Seq<FindingV>, t: TablesV, ps: Seq<Pending>)
    requires
        forall|k: int| 0 <= k < ps.len() ==> super::scan::target_ok(t, #[trigger] ps[k].target),
    ensures
        resolve_all(o, fs, t, ps).1.generators.len() == t.generators.len(),
        resolve_all(o, fs, t, ps).1.branches.len() == t.branches.len(),
        resolve_all(o, fs, t, ps).1.areas.len() == t.areas.len(),
        resolve_all(o, fs, t, ps).1.pending == t.pending,
        resolve_all(o, fs, t, ps).1.bus_lines == t.bus_lines,
    decreases ps.len(),
{
    if ps.len() > 0 {
        let ps0 = ps.drop_last();
        assert forall|k: int| 0 <= k < ps0.len() implies super::scan::target_ok(t, #[trigger] ps0[k].target) by {
            assert(ps0[k] == ps[k]);
        }
        lemma_resolve_shape(o, fs, t, ps0);
        assert(super::scan::target_ok(t, ps[ps.len() - 1].target));
    }
}

/// A file level finding, when `cond` holds.
pub open spec fn note(fs: Seq<FindingV>, cond: bool, code: FindingCode, msg: Seq<char>) -> Seq<FindingV> {
    if cond {
        fs.push(FindingV { code, message: msg, span: None })
    } else {
        fs
    }
}

/// The findings that summarize the whole case rather than one record.
pub open spec fn summary(fs: Seq<FindingV>, t: TablesV, base: Seq<char>) -> Seq<FindingV> {
    let c = t.counts;
    let f1 = note(
        fs,
        c.defaulted_voltage_limits > 0,
        FindingCode::ValueDefaulted,
        nat_text(c.defaulted_voltage_limits as nat)
            + " bus(es) state no voltage limits; vmax 1.1 and vmin 0.9 p.u. assumed"@,
    );
    let f2 = note(
        f1,
        t.generators.len() > 0,
        FindingCode::ValueDefaulted,
        nat_text(t.generators.len())
            + " generator(s): the format states no active power limits or machine base; pmin 0 MW, pmax 9999 MW, and mbase equal to the "@
            + base + " MVA system base assumed"@,
    );
    let f3 = note(
        f2,
        c.unity_taps > 0,
        FindingCode::ValueDefaulted,
        nat_text(c.unity_taps as nat)
            + " transformer(s) of type 1 through 4 state no turns ratio; unity ratio assumed"@,
    );
    let f4 = note(
        f3,
        c.defaulted_tap_limits > 0,
        FindingCode::ValueDefaulted,
        nat_text(c.defaulted_tap_limits as nat)
            + " regulating transformer(s) state no tap limits; the PSS/E default control block values assumed"@,
    );
    let f5 = note(
        f4,
        c.defaulted_bands > 0,
        FindingCode::ValueDefaulted,
        nat_text(c.defaulted_bands as nat)
            + " regulating transformer(s) state no controlled quantity band; the PSS/E default control block values assumed"@,
    );
    let f6 = note(
        f5,
        c.defaulted_steps > 0,
        FindingCode::ValueDefaulted,
        nat_text(c.defaulted_steps as nat)
            + " regulating transformer(s) state no step size; the PSS/E default control block values assumed"@,
    );
    let f7 = note(
        f6,
        c.unregulated_limits > 0,
        FindingCode::RetainedSourceOnly,
        nat_text(c.unregulated_limits as nat)
            + " unregulated (type 0) bus(es) state MVAr or voltage limits, which survive in the retained source only"@,
    );
    let f8 = note(
        f7,
        t.branches.len() > 0,
        FindingCode::RetainedSourceOnly,
        "branch area, loss zone, and sequence columns of "@ + nat_text(t.branches.len())
            + " branch(es) survive in the retained source only"@,
    );
    let f9 = note(
        f8,
        c.loss_zones > 0,
        FindingCode::RetainedSourceOnly,
        nat_text(c.loss_zones as nat)
            + " loss zone name(s) survive in the retained source only; each bus keeps its zone number"@,
    );
    let f10 = note(
        f9,
        c.retained_area_fields > 0,
        FindingCode::RetainedSourceOnly,
        "alternate swing bus names and area codes of "@ + nat_text(c.retained_area_fields as nat)
            + " area(s) survive in the retained source only"@,
    );
    note(
        f10,
        c.tie_lines > 0,
        FindingCode::RetainedSourceOnly,
        nat_text(c.tie_lines as nat)
            + " tie line record(s) survive in the retained source only; the balanced model has no metered tie line table"@,
    )
}

/// The first branch, from index `i` on, with an end on an undeclared bus:
/// its index and that bus, the tap bus checked before the Z bus.
pub open spec fn dangling_from(t: TablesV, i: int) -> Option<(int, usize)>
    decreases t.branches.len() - i,
{
    if i < 0 || i >= t.branches.len() {
        None
    } else if !t.bus_lines.contains_key(t.branches[i].from) {
        Some((i, t.branches[i].from))
    } else if !t.bus_lines.contains_key(t.branches[i].to) {
        Some((i, t.branches[i].to))
    } else {
        dangling_from(t, i + 1)
    }
}

/// A CDF case: its name, MVA base, date, and tables.
pub struct CdfCase {
    pub name: String,
    /// The MVA base as the title card spells it.
    pub base_mva: String,
    /// The case date in ISO 8601 form.
    pub case_date: Option<String>,
    pub buses: Vec<CdfBus>,
    pub loads: Vec<CdfLoad>,
    pub shunts: Vec<CdfShunt>,
    pub generators: Vec<CdfGenerator>,
    pub branches: Vec<CdfBranch>,
    pub areas: Vec<CdfArea>,
}

pub struct CdfCaseV {
    pub name: Seq<char>,
    pub base_mva: Seq<char>,
    pub case_date: Option<Seq<char>>,
    pub buses: Seq<CdfBusV>,
    pub loads: Seq<CdfLoadV>,
    pub shunts: Seq<CdfShuntV>,
    pub generators: Seq<CdfGeneratorV>,
    pub branches: Seq<CdfBranchV>,
    pub areas: Seq<CdfAreaV>,
}

impl View for CdfCase {
    type V = CdfCaseV;

    open spec fn view(&self) -> CdfCaseV {
        CdfCaseV {
            name: self.name@,
            base_mva: self.base_mva@,
            case_date: super::model::opt_view(self.case_date),
            buses: views(self.buses@),
            loads: views(self.loads@),
            shunts: views(self.shunts@),
            generators: views(self.generators@),
            branches: views(self.branches@),
            areas: views(self.areas@),
        }
    }
}

/// The case a read yields: named by the hint, else by the case
/// identification, else `case`.
pub open spec fn case_of(hint: Option<Seq<char>>, title: TitleV, t: TablesV) -> CdfCaseV {
    CdfCaseV {
        name: match hint {
            Some(h) => h,
            None => match title.case_id {
                Some(c) => c,
                None => "case"@,
            },
        },
        base_mva: title.base_mva,
        case_date: title.case_date,
        buses: t.buses,
        loads: t.loads,
        shunts: t.shunts,
        generators: t.generators,
        branches: t.branches,
        areas: t.areas,
    }
}

/// After the scan: a section left open is reported at the end of the text;
/// a branch on an undeclared bus fails the read; otherwise the references
/// are resolved and the file level findings follow.
pub open spec fn finish(
    b: Seq<u8>,
    hint: Option<Seq<char>>,
    o: Option<u64>,
    title: TitleV,
    s: Scan,
    count: nat,
) -> (Seq<FindingV>, Result<CdfCaseV, Seq<char>>) {
    let end = Line { number: count as usize, start: b.len() as usize, end: b.len() as usize };
    let fs3 = cut_open(s.fs, o, s.open, end);
    match dangling_from(s.t, 0) {
        Some((i, bus)) => {
            let br = s.t.branches[i];
            fail(
                fs3,
                o,
                s.t.branch_lines[i],
                branch_name(br.from, br.to) + " references undeclared bus "@ + nat_text(bus as nat),
            )
        },
        None => {
            let (fs4, t4) = resolve_all(o, fs3, s.t, s.t.pending);
            (summary(fs4, t4, shown(title.base_mva)), Ok(case_of(hint, title, t4)))
        },
    }
}

/// The scan state before the first line after the title card.
pub open spec fn scan_start(fs: Seq<FindingV>, base: Seq<char>) -> Scan {
    scan_state(fs, empty_tables(base), None, false, false)
}

/// A CDF read of the text `b`: its findings and its case or failure.
pub open spec fn parse_spec(b: Seq<u8>, hint: Option<Seq<char>>, o: Option<u64>) -> (
    Seq<FindingV>,
    Result<CdfCaseV, Seq<char>>,
) {
    let ls = lines_from(b, 0, 1);
    if ls.len() == 0 {
        (Seq::empty(), Err("the source is empty; a CDF case opens with a title card"@))
    } else {
        let (fs1, r1) = title_step(b, o, Seq::empty(), ls[0]);
        match r1 {
            Err(e) => (fs1, Err(e)),
            Ok(title) => match scan(b, o, scan_start(fs1, title.base_mva), ls.drop_first()) {
                Err((fs2, e)) => (fs2, Err(e)),
                Ok(s) => finish(b, hint, o, title, s, ls.len()),
            },
        }
    }
}

} // verus!
