//! The CDF reader's entry point.

use vstd::prelude::*;
use vstd::string::StringSliceAdditionalSpecFns;

use super::case::{
    case_of, dangling_from, finish, lemma_resolve_shape, note, parse_spec, resolve_all,
    resolve_one, scan_start, summary, CdfCase, CdfCaseV,
};
use super::model::{findings_view, Finding, FindingCode, FindingV, Line};
use super::read::{numeric, Reader};
use super::scan::{
    lemma_line_step_wf, lemma_scan_settled, line_at, line_in, lines_from, scan, tables_wf, target_ok, Open,
};
use super::step::scan_state;
use super::title::title_step;
use super::tables::{views, Pending, Tables, TablesV, Target};
use crate::decimal_text::{lemma_short_exponent, show_number, shown};
use crate::text::{chars_of, push_chars, push_nat, push_str, string_of};

verus! {

broadcast use vstd::std_specs::hash::group_hash_axioms;

pub open spec fn hint_view(hint: Option<&str>) -> Option<Seq<char>> {
    match hint {
        Some(h) => Some(h@),
        None => None,
    }
}

impl<'a> Reader<'a> {
    /// Record a file level finding, which locates no line.
    pub fn note(&mut self, code: FindingCode, msg: &Vec<char>)
        requires
            old(self).wf(),
        ensures
            final(self).wf(),
            final(self).bytes == old(self).bytes,
            final(self).origin == old(self).origin,
            final(self).fs() == old(self).fs().push(FindingV { code, message: msg@, span: None }),
    {
        let ghost before = self.findings@;
        let f = Finding { code, message: string_of(msg), span: None };
        self.findings.push(f);
        assert(findings_view(self.findings@) =~= findings_view(before).push(f@));
    }

    fn note_count(&mut self, code: FindingCode, n: usize, rest: &str)
        requires
            old(self).wf(),
        ensures
            final(self).wf(),
            final(self).bytes == old(self).bytes,
            final(self).origin == old(self).origin,
            final(self).fs() == note(old(self).fs(), n > 0, code, crate::text::nat_text(n as nat) + rest@),
    {
        if n > 0 {
            let mut m: Vec<char> = Vec::new();
            push_nat(&mut m, n as u64);
            push_str(&mut m, rest);
            self.note(code, &m);
        }
    }

    fn note_lead_count(&mut self, code: FindingCode, lead: &str, n: usize, rest: &str)
        requires
            old(self).wf(),
        ensures
            final(self).wf(),
            final(self).bytes == old(self).bytes,
            final(self).origin == old(self).origin,
            final(self).fs() == note(old(self).fs(), n > 0, code, lead@ + crate::text::nat_text(n as nat) + rest@),
    {
        if n > 0 {
            let mut m: Vec<char> = Vec::new();
            push_str(&mut m, lead);
            push_nat(&mut m, n as u64);
            push_str(&mut m, rest);
            self.note(code, &m);
        }
    }

    /// The findings that summarize the whole case.
    pub fn summarize(&mut self, t: &Tables, base: &Vec<char>)
        requires
            old(self).wf(),
        ensures
            final(self).wf(),
            final(self).bytes == old(self).bytes,
            final(self).origin == old(self).origin,
            final(self).fs() == summary(old(self).fs(), t@, base@),
    {
        let c = t.counts;
        let vd = FindingCode::ValueDefaulted;
        let rs = FindingCode::RetainedSourceOnly;
        self.note_count(vd, c.defaulted_voltage_limits, " bus(es) state no voltage limits; vmax 1.1 and vmin 0.9 p.u. assumed");
        let ng = t.generators.len();
        if ng > 0 {
            let mut m: Vec<char> = Vec::new();
            push_nat(&mut m, ng as u64);
            push_str(
                &mut m,
                " generator(s): the format states no active power limits or machine base; pmin 0 MW, pmax 9999 MW, and mbase equal to the ",
            );
            push_chars(&mut m, base);
            push_str(&mut m, " MVA system base assumed");
            self.note(vd, &m);
        }
        self.note_count(vd, c.unity_taps, " transformer(s) of type 1 through 4 state no turns ratio; unity ratio assumed");
        self.note_count(vd, c.defaulted_tap_limits, " regulating transformer(s) state no tap limits; the PSS/E default control block values assumed");
        self.note_count(vd, c.defaulted_bands, " regulating transformer(s) state no controlled quantity band; the PSS/E default control block values assumed",
        );
        self.note_count(vd, c.defaulted_steps, " regulating transformer(s) state no step size; the PSS/E default control block values assumed");
        self.note_count(rs, c.unregulated_limits, " unregulated (type 0) bus(es) state MVAr or voltage limits, which survive in the retained source only",
        );
        self.note_lead_count(
            rs,
            "branch area, loss zone, and sequence columns of ",
            t.branches.len(),
            " branch(es) survive in the retained source only",
        );
        self.note_count(rs, c.loss_zones, " loss zone name(s) survive in the retained source only; each bus keeps its zone number",
        );
        self.note_lead_count(
            rs,
            "alternate swing bus names and area codes of ",
            c.retained_area_fields,
            " area(s) survive in the retained source only",
        );
        self.note_count(rs, c.tie_lines, " tie line record(s) survive in the retained source only; the balanced model has no metered tie line table",
        );
        proof {
            assert(t@.generators.len() == t.generators@.len());
            assert(t@.branches.len() == t.branches@.len());
        }
    }

    /// Resolve one reference against the declared buses.
    #[verifier::rlimit(30)]
    fn resolve_step(&mut self, p: Pending, t: &mut Tables)
        requires
            old(self).wf(),
            target_ok(old(t)@, p.target),
            line_in(p.line, old(self).bytes@.len() as int),
        ensures
            final(self).wf(),
            final(self).bytes == old(self).bytes,
            final(self).origin == old(self).origin,
            (final(self).fs(), final(t)@) == resolve_one(old(self).origin, old(self).fs(), old(t)@, p),
    {
        let declared = t.bus_lines.contains_key(&p.bus);
        match p.target {
            Target::GeneratorRemote(i) => {
                if declared {
                    let ghost before = t.generators@;
                    t.generators[i].regulated_bus = Some(p.bus);
                    assert(views(t.generators@) =~= views(before).update(
                        i as int,
                        super::model::CdfGeneratorV { regulated_bus: Some(p.bus), ..before[i as int]@ },
                    ));
                } else {
                    let mut m: Vec<char> = Vec::new();
                    push_str(&mut m, "remote controlled bus ");
                    push_nat(&mut m, p.bus as u64);
                    push_str(&mut m, " is not declared; the generator at bus ");
                    push_nat(&mut m, t.generators[i].bus as u64);
                    push_str(&mut m, " regulates its own bus");
                    self.report(FindingCode::SourceMalformed, p.line, &m);
                }
            },
            Target::BranchControl(i) => {
                if !declared {
                    let mut m: Vec<char> = Vec::new();
                    push_str(&mut m, "control bus ");
                    push_nat(&mut m, p.bus as u64);
                    push_str(&mut m, " is not declared; transformer ");
                    push_nat(&mut m, t.branches[i].from as u64);
                    push_str(&mut m, "-");
                    push_nat(&mut m, t.branches[i].to as u64);
                    push_str(&mut m, " regulates its own terminal");
                    self.report(FindingCode::SourceMalformed, p.line, &m);
                    let ghost before = t.branches@;
                    match &mut t.branches[i].control {
                        Some(c) => {
                            c.controlled_bus = None;
                        },
                        None => {},
                    }
                    proof {
                        let br = before[i as int]@;
                        assert(views(t.branches@) =~= views(before).update(
                            i as int,
                            super::model::CdfBranchV {
                                control: match br.control {
                                    Some(c) => Some(super::model::CdfControlV { controlled_bus: None, ..c }),
                                    None => None,
                                },
                                ..br
                            },
                        ));
                    }
                }
            },
            Target::AreaSlack(i) => {
                if declared {
                    let ghost before = t.areas@;
                    t.areas[i].slack_bus = Some(p.bus);
                    assert(views(t.areas@) =~= views(before).update(
                        i as int,
                        super::model::CdfAreaV { slack_bus: Some(p.bus), ..before[i as int]@ },
                    ));
                } else {
                    let mut m: Vec<char> = Vec::new();
                    push_str(&mut m, "interchange slack bus ");
                    push_nat(&mut m, p.bus as u64);
                    push_str(&mut m, " of area ");
                    push_nat(&mut m, t.areas[i].number as u64);
                    push_str(&mut m, " is not declared; the area has no slack bus");
                    self.report(FindingCode::SourceMalformed, p.line, &m);
                }
            },
        }
    }

    /// Point every stored bus reference at a declared bus, dropping the
    /// references the case cannot satisfy.
    pub fn resolve(&mut self, t: &mut Tables)
        requires
            old(self).wf(),
            tables_wf(old(t)@, old(self).bytes@.len() as int),
        ensures
            final(self).wf(),
            final(self).bytes == old(self).bytes,
            final(self).origin == old(self).origin,
            (final(self).fs(), final(t)@) == resolve_all(
                old(self).origin,
                old(self).fs(),
                old(t)@,
                old(t)@.pending,
            ),
    {
        let ghost t0 = t@;
        let ghost fs0 = self.fs();
        let n = t.pending.len();
        let mut i: usize = 0;
        assert(t0.pending.take(0) =~= Seq::<Pending>::empty());
        while i < n
            invariant
                self.wf(),
                self.bytes == old(self).bytes,
                self.origin == old(self).origin,
                tables_wf(t0, self.bytes@.len() as int),
                n == t0.pending.len(),
                i <= n,
                t@.pending == t0.pending,
                t@.generators.len() == t0.generators.len(),
                t@.branches.len() == t0.branches.len(),
                t@.areas.len() == t0.areas.len(),
                (self.fs(), t@) == resolve_all(self.origin, fs0, t0, t0.pending.take(i as int)),
            decreases n - i,
        {
            let p = t.pending[i];
            proof {
                assert(t0.pending[i as int] == p);
                assert(target_ok(t0, t0.pending[i as int].target));
                assert(line_in(t0.pending[i as int].line, self.bytes@.len() as int));
                let pre = t0.pending.take(i as int);
                assert(t0.pending.take(i + 1).drop_last() =~= pre);
                assert(t0.pending.take(i + 1).last() == p);
            }
            self.resolve_step(p, t);
            proof {
                let ps = t0.pending.take(i + 1);
                assert forall|k: int| 0 <= k < ps.len() implies target_ok(t0, #[trigger] ps[k].target) by {
                    assert(ps[k] == t0.pending[k]);
                }
                lemma_resolve_shape(self.origin, fs0, t0, ps);
            }
            i = i + 1;
        }
        assert(t0.pending.take(n as int) =~= t0.pending);
    }
}

proof fn lemma_dangling_index(t: TablesV, j: int)
    requires
        0 <= j,
    ensures
        dangling_from(t, j) matches Some((i, _)) ==> j <= i < t.branches.len(),
    decreases t.branches.len() - j,
{
    if j < t.branches.len() {
        lemma_dangling_index(t, j + 1);
    }
}

/// The first branch with an end on an undeclared bus, and that bus.
fn dangling(t: &Tables) -> (r: Option<(usize, usize)>)
    ensures
        match r {
            Some((i, bus)) => dangling_from(t@, 0) == Some((i as int, bus)),
            None => dangling_from(t@, 0) is None,
        },
{
    let n = t.branches.len();
    let mut i: usize = 0;
    while i < n
        invariant
            i <= n == t@.branches.len(),
            dangling_from(t@, 0) == dangling_from(t@, i as int),
        decreases n - i,
    {
        let from = t.branches[i].from;
        let to = t.branches[i].to;
        assert(t@.branches[i as int] == t.branches@[i as int]@);
        if !t.bus_lines.contains_key(&from) {
            return Some((i, from));
        }
        if !t.bus_lines.contains_key(&to) {
            return Some((i, to));
        }
        i = i + 1;
    }
    None
}

/// The tables of a finished scan, moved into the case.
fn case_from(name: String, title: super::title::Title, t: Tables) -> (r: CdfCase)
    ensures
        r@ == (CdfCaseV {
            name: name@,
            base_mva: title.base_mva@,
            case_date: super::model::opt_view(title.case_date),
            buses: t@.buses,
            loads: t@.loads,
            shunts: t@.shunts,
            generators: t@.generators,
            branches: t@.branches,
            areas: t@.areas,
        }),
{
    CdfCase {
        name,
        base_mva: string_of(&title.base_mva),
        case_date: title.case_date,
        buses: t.buses,
        loads: t.loads,
        shunts: t.shunts,
        generators: t.generators,
        branches: t.branches,
        areas: t.areas,
    }
}

/// The outcome of the card scan: the open section, whether the end card
/// was read, whether the scan stopped, and the number the next line would
/// carry.
pub struct Scanned {
    pub open: Option<Open>,
    pub ended: bool,
    pub stopped: bool,
    pub next_number: usize,
}

/// Scan the lines from `p1` on, numbered from 2.
#[verifier::rlimit(60)]
fn scan_lines(reader: &mut Reader, t: &mut Tables, p1: usize) -> (r: Result<Scanned, String>)
    requires
        old(reader).wf(),
        old(reader).bytes@.len() < usize::MAX,
        1 <= p1 <= old(reader).bytes@.len(),
        old(t)@ == super::tables::empty_tables(old(t)@.base),
    ensures
        final(reader).wf(),
        final(reader).bytes == old(reader).bytes,
        final(reader).origin == old(reader).origin,
        ({
            let b = old(reader).bytes@;
            let o = old(reader).origin;
            let outcome = scan(b, o, scan_start(old(reader).fs(), old(t)@.base), lines_from(b, p1 as int, 2));
            match r {
                Ok(sc) => {
                    &&& outcome == Ok::<super::scan::Scan, (Seq<FindingV>, Seq<char>)>(
                        scan_state(final(reader).fs(), final(t)@, sc.open, sc.ended, sc.stopped),
                    )
                    &&& tables_wf(final(t)@, b.len() as int)
                    &&& sc.open matches Some(sec) ==> line_in(sec.header, b.len() as int)
                    &&& sc.open is Some ==> sc.next_number == lines_from(b, p1 as int, 2).len() + 2
                },
                Err(e) => outcome == Err::<super::scan::Scan, (Seq<FindingV>, Seq<char>)>((final(reader).fs(), e@)),
            }
        }),
{
    let bytes = reader.bytes;
    let n = bytes.len();
    let ghost b = bytes@;
    let ghost o = reader.origin;
    let ghost fs1 = reader.fs();
    let ghost base0 = t@.base;
    let ghost rest = lines_from(b, p1 as int, 2);
    let mut open: Option<Open> = None;
    let mut ended = false;
    let mut stopped = false;
    let mut p = p1;
    let mut num: usize = 2;
    let ghost mut done: Seq<Line> = Seq::empty();
    proof {
        assert(tables_wf(t@, n as int));
        assert(rest =~= done + lines_from(b, p as int, num as nat));
    }
    while p < n && !stopped
        invariant
            reader.wf(),
            reader.bytes@ == b,
            reader.bytes == bytes,
            bytes == old(reader).bytes,
            o == old(reader).origin,
            fs1 == old(reader).fs(),
            base0 == old(t)@.base,
            rest == lines_from(b, p1 as int, 2),
            bytes@ == b,
            reader.origin == o,
            n == b.len(),
            n < usize::MAX,
            1 <= p <= n,
            num == done.len() + 2,
            num <= p + 1,
            rest == done + lines_from(b, p as int, num as nat),
            scan(b, o, scan_start(fs1, base0), done) == Ok::<super::scan::Scan, (Seq<FindingV>, Seq<char>)>(
                scan_state(reader.fs(), t@, open, ended, stopped),
            ),
            tables_wf(t@, n as int),
            open matches Some(sec) ==> line_in(sec.header, n as int),
            ended ==> open is None,
            stopped ==> ended,
        decreases n - p,
    {
        let (line, next) = line_at(bytes, p, num);
        let ghost s_before = scan_state(reader.fs(), t@, open, ended, false);
        let ghost done2 = done.push(line);
        proof {
            assert(done2.drop_last() =~= done);
            assert(done2.last() == line);
            assert(rest =~= done2 + lines_from(b, next as int, (num + 1) as nat));
            lemma_line_step_wf(b, o, s_before, line, n as int);
        }
        match reader.step_line(line, t, &mut open, &mut ended) {
            Ok(stop) => {
                stopped = stop;
            },
            Err(e) => {
                proof {
                    assert(scan(b, o, scan_start(fs1, base0), done2) == Err::<super::scan::Scan, (Seq<FindingV>, Seq<char>)>(
                        (reader.fs(), e@),
                    ));
                    assert(rest.take(done2.len() as int) =~= done2);
                    lemma_scan_settled(b, o, scan_start(fs1, base0), rest, done2.len() as int);
                }
                return Err(e);
            },
        }
        proof {
            done = done2;
        }
        p = next;
        num = num + 1;
    }
    proof {
        if stopped {
            assert(rest.take(done.len() as int) =~= done);
            lemma_scan_settled(b, o, scan_start(fs1, base0), rest, done.len() as int);
        } else {
            assert(lines_from(b, p as int, num as nat) =~= Seq::<Line>::empty());
            assert(rest =~= done);
        }
    }
    Ok(Scanned { open, ended, stopped, next_number: num })
}

/// After the scan: report a section left open at the end of the text, fail
/// on a branch with an end on an undeclared bus, resolve the references,
/// and add the file level findings.
#[verifier::rlimit(40)]
fn finish_case(
    reader: &mut Reader,
    hint: Option<&str>,
    title: super::title::Title,
    t: Tables,
    sc: Scanned,
    count: usize,
) -> (r: Result<CdfCase, String>)
    requires
        old(reader).wf(),
        tables_wf(t@, old(reader).bytes@.len() as int),
        sc.open matches Some(sec) ==> line_in(sec.header, old(reader).bytes@.len() as int),
        numeric(title.base_mva@),
        title.base_mva@.len() <= 6,
    ensures
        ({
            let s = scan_state(old(reader).fs(), t@, sc.open, sc.ended, sc.stopped);
            let (fs, res) = finish(old(reader).bytes@, hint_view(hint), old(reader).origin, title@, s, count as nat);
            &&& final(reader).fs() == fs
            &&& match r {
                Ok(c) => res == Ok::<CdfCaseV, Seq<char>>(c@),
                Err(e) => res == Err::<CdfCaseV, Seq<char>>(e@),
            }
        }),
{
    let mut t = t;
    let n = reader.bytes.len();
    if let Some(sec) = sc.open {
        let end = Line { number: count, start: n, end: n };
        reader.unterminated(sec, end);
    }
    if let Some((i, bus)) = dangling(&t) {
        proof {
            lemma_dangling_index(t@, 0);
            assert(line_in(t@.branch_lines[i as int], n as int));
            assert(t@.branches[i as int] == t.branches@[i as int]@);
        }
        let mut m: Vec<char> = Vec::new();
        push_str(&mut m, "branch ");
        push_nat(&mut m, t.branches[i].from as u64);
        push_str(&mut m, "-");
        push_nat(&mut m, t.branches[i].to as u64);
        push_str(&mut m, " references undeclared bus ");
        push_nat(&mut m, bus as u64);
        let line = t.branch_lines[i];
        return Err(reader.fail(line, &m));
    }
    reader.resolve(&mut t);
    proof {
        lemma_short_exponent(title.base_mva@);
    }
    let base = show_number(&title.base_mva);
    reader.summarize(&t, &base);
    let name = match hint {
        Some(h) => {
            let cs = chars_of(h);
            string_of(&cs)
        },
        None => match &title.case_id {
            Some(c) => {
                let cs = chars_of(c.as_str());
                string_of(&cs)
            },
            None => {
                let cs = chars_of("case");
                string_of(&cs)
            },
        },
    };
    Ok(case_from(name, title, t))
}

/// Read a whole case with a reader whose findings start empty.
fn read_case(reader: &mut Reader, hint: Option<&str>) -> (r: Result<CdfCase, String>)
    requires
        old(reader).wf(),
        old(reader).findings@.len() == 0,
        old(reader).bytes@.len() < usize::MAX,
    ensures
        ({
            let (fs, res) = parse_spec(old(reader).bytes@, hint_view(hint), old(reader).origin);
            &&& final(reader).fs() == fs
            &&& match r {
                Ok(c) => res == Ok::<CdfCaseV, Seq<char>>(c@),
                Err(e) => res == Err::<CdfCaseV, Seq<char>>(e@),
            }
        }),
{
    let bytes = reader.bytes;
    let n = bytes.len();
    let ghost b = bytes@;
    assert(reader.fs() =~= Seq::<FindingV>::empty());
    if n == 0 {
        let m = chars_of("the source is empty; a CDF case opens with a title card");
        return Err(string_of(&m));
    }
    let (title_line, p1) = line_at(bytes, 0, 1);
    let ghost ls = lines_from(b, 0, 1);
    assert(ls.drop_first() =~= lines_from(b, p1 as int, 2));
    let title = match reader.title(title_line) {
        Ok(tt) => tt,
        Err(e) => {
            return Err(e);
        },
    };
    let mut base: Vec<char> = Vec::new();
    push_chars(&mut base, &title.base_mva);
    let mut t = Tables::new(base);
    let sc = match scan_lines(reader, &mut t, p1) {
        Ok(sc) => sc,
        Err(e) => {
            return Err(e);
        },
    };
    let count = if sc.next_number > 0 {
        sc.next_number - 1
    } else {
        0
    };
    finish_case(reader, hint, title, t, sc, count)
}

/// Parse a CDF case. `origin` locates the text inside the retained buffer
/// so record findings carry byte spans; the findings are appended to
/// `findings`.
///
/// A title card without a positive MVA base, a record without its bus
/// numbers or with a field that is not a number, a bus declared twice, and
/// a branch on an undeclared bus end the read; every such failure also
/// leaves a spanned `PARSE.IEEE_CDF.MALFORMED` finding.
pub fn parse_ieee_cdf_source(
    text: &str,
    name_hint: Option<&str>,
    origin: Option<u64>,
    findings: &mut Vec<Finding>,
) -> (r: Result<CdfCase, String>)
    requires
        text.spec_bytes().len() < usize::MAX,
        origin matches Some(o) ==> o + text.spec_bytes().len() <= u64::MAX,
    ensures
        ({
            let (fs, res) = parse_spec(text.spec_bytes(), hint_view(name_hint), origin);
            &&& findings_view(final(findings)@) == findings_view(old(findings)@) + fs
            &&& match r {
                Ok(c) => res == Ok::<CdfCaseV, Seq<char>>(c@),
                Err(e) => res == Err::<CdfCaseV, Seq<char>>(e@),
            }
        }),
{
    let bytes = text.as_bytes();
    let mut reader = Reader { bytes, origin, findings: Vec::new() };
    let r = read_case(&mut reader, name_hint);
    let ghost before = findings@;
    let ghost added = reader.findings@;
    findings.append(&mut reader.findings);
    assert(findings_view(findings@) =~= findings_view(before) + findings_view(added));
    r
}

} // verus!
