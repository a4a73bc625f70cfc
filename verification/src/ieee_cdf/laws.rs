//! What holds of every CDF read.

use vstd::prelude::*;

use super::branch::{branch_rest, branch_step, branch_tail, limit_reqs, wide_limits};
use super::bus::{bus_code_reqs, bus_id_reqs, bus_step, bus_value_reqs};
use super::case::{finish, parse_spec};
use super::model::{FindingCode, FindingV, Line};
use super::read::{read_all, read_one, Req};
use super::scan::{line_step, lines_from, record_step, scan, Scan};
use super::sections::{interchange_reqs, interchange_step, loss_zone_step, tie_line_step, tie_reqs, zone_reqs};
use super::tables::TablesV;
use super::title::{title_step, TitleV};

verus! {

/// The findings end with the failure `e`: a `PARSE.IEEE_CDF.MALFORMED`
/// finding whose message is the failure's, spanned wherever the reader
/// knows where the text sits.
pub open spec fn ends_with_failure(fs: Seq<FindingV>, e: Seq<char>, o: Option<u64>) -> bool {
    &&& fs.len() > 0
    &&& fs.last().code == FindingCode::ParseMalformed
    &&& fs.last().message == e
    &&& (o is Some ==> fs.last().span is Some)
}

proof fn lemma_read_one_failure(b: Seq<u8>, o: Option<u64>, fs: Seq<FindingV>, line: Line, q: Req)
    ensures
        read_one(b, o, fs, line, q).1 matches Err(e) ==> ends_with_failure(read_one(b, o, fs, line, q).0, e, o),
{
}

proof fn lemma_read_all_failure(b: Seq<u8>, o: Option<u64>, fs: Seq<FindingV>, line: Line, reqs: Seq<Req>)
    ensures
        read_all(b, o, fs, line, reqs).1 matches Err(e) ==> ends_with_failure(read_all(b, o, fs, line, reqs).0, e, o),
    decreases reqs.len(),
{
    if reqs.len() > 0 {
        lemma_read_all_failure(b, o, fs, line, reqs.drop_last());
        let (fs1, r1) = read_all(b, o, fs, line, reqs.drop_last());
        lemma_read_one_failure(b, o, fs1, line, reqs.last());
    }
}

proof fn lemma_bus_failure(b: Seq<u8>, o: Option<u64>, fs: Seq<FindingV>, t: TablesV, line: Line)
    ensures
        bus_step(b, o, fs, t, line).1 matches Err(e) ==> ends_with_failure(bus_step(b, o, fs, t, line).0, e, o),
{
    lemma_read_all_failure(b, o, fs, line, bus_id_reqs());
    let (fs1, r1) = read_all(b, o, fs, line, bus_id_reqs());
    lemma_read_all_failure(b, o, fs1, line, bus_code_reqs());
    let (fs2, r2) = read_all(b, o, fs1, line, bus_code_reqs());
    if let Ok(v2) = r2 {
        let code0 = super::tables::num(v2[2]);
        let id = super::tables::usize_or_zero(super::tables::num(r1->Ok_0[0]));
        let fs3 = if 0 <= code0 <= 3 {
            fs2
        } else {
            super::read::report(
                fs2,
                o,
                FindingCode::ValueSubstituted,
                line,
                "bus "@ + crate::text::nat_text(id as nat) + " type "@ + crate::text::int_text(code0)
                    + " is outside 0 through 3; read as type 0 (PQ)"@,
            )
        };
        lemma_read_all_failure(b, o, fs3, line, bus_value_reqs());
    }
}

proof fn lemma_branch_failure(b: Seq<u8>, o: Option<u64>, fs: Seq<FindingV>, t: TablesV, line: Line)
    ensures
        branch_step(b, o, fs, t, line).1 matches Err(e) ==> ends_with_failure(branch_step(b, o, fs, t, line).0, e, o),
{
    lemma_read_all_failure(b, o, fs, line, super::branch::branch_head_reqs());
    let (fs1, r1) = read_all(b, o, fs, line, super::branch::branch_head_reqs());
    if let Ok(h) = r1 {
        let from = super::tables::usize_or_zero(super::tables::num(h[0]));
        let to = super::tables::usize_or_zero(super::tables::num(h[1]));
        let kind0 = match super::tables::opt_num(h[3]) {
            Some(k) => k,
            None => 0,
        };
        let fs2 = if 0 <= kind0 <= 4 {
            fs1
        } else {
            super::read::report(
                fs1,
                o,
                FindingCode::ValueSubstituted,
                line,
                super::branch::branch_name(from, to) + " type "@ + crate::text::int_text(kind0)
                    + " is outside 0 through 4; read as a line when the turns ratio is zero and as a fixed tap transformer otherwise"@,
            )
        };
        let kind = if 0 <= kind0 <= 4 {
            kind0
        } else {
            0
        };
        lemma_branch_rest_failure(b, o, fs2, t, line, from, to, super::tables::opt_num(h[2]), kind);
    }
}

proof fn lemma_branch_rest_failure(
    b: Seq<u8>,
    o: Option<u64>,
    fs2: Seq<FindingV>,
    t: TablesV,
    line: Line,
    from: usize,
    to: usize,
    circuit: Option<int>,
    kind: int,
)
    ensures
        branch_rest(b, o, fs2, t, line, from, to, circuit, kind).1 matches Err(e) ==> ends_with_failure(
            branch_rest(b, o, fs2, t, line, from, to, circuit, kind).0,
            e,
            o,
        ),
{
    lemma_read_all_failure(b, o, fs2, line, super::branch::branch_impedance_reqs());
    let (fs3, r3) = read_all(b, o, fs2, line, super::branch::branch_impedance_reqs());
    if let Ok(z) = r3 {
        let fs4 = if !super::tables::nonzero(super::tables::txt(z[0])) && !super::tables::nonzero(
            super::tables::txt(z[1]),
        ) {
            super::read::report(
                fs3,
                o,
                FindingCode::SourceMalformed,
                line,
                super::branch::branch_name(from, to)
                    + " states zero series impedance, which the format forbids; the matrix builders reject the branch"@,
            )
        } else {
            fs3
        };
        lemma_read_all_failure(b, o, fs4, line, super::branch::branch_rating_reqs());
        let (fs5, r5) = read_all(b, o, fs4, line, super::branch::branch_rating_reqs());
        lemma_read_all_failure(b, o, fs5, line, limit_reqs(wide_limits(b, line)));
        assert(branch_tail(b, o, fs4, t, line, from, to, circuit, kind, z).1 matches Err(e) ==> ends_with_failure(
            branch_tail(b, o, fs4, t, line, from, to, circuit, kind, z).0,
            e,
            o,
        ));
    }
}

proof fn lemma_record_failure(
    b: Seq<u8>,
    o: Option<u64>,
    fs: Seq<FindingV>,
    t: TablesV,
    section: super::card::Section,
    line: Line,
)
    ensures
        record_step(b, o, fs, t, section, line).1 matches Err(e) ==> ends_with_failure(
            record_step(b, o, fs, t, section, line).0,
            e,
            o,
        ),
{
    lemma_bus_failure(b, o, fs, t, line);
    lemma_branch_failure(b, o, fs, t, line);
    lemma_read_all_failure(b, o, fs, line, zone_reqs());
    lemma_read_all_failure(b, o, fs, line, interchange_reqs());
    lemma_read_all_failure(b, o, fs, line, tie_reqs());
}

proof fn lemma_line_failure(b: Seq<u8>, o: Option<u64>, s: Scan, line: Line)
    ensures
        line_step(b, o, s, line) matches Err((fs, e)) ==> ends_with_failure(fs, e, o),
{
    reveal(line_step);
    if let Some(sec) = s.open {
        lemma_record_failure(b, o, s.fs, s.t, sec.section, line);
    }
}

proof fn lemma_scan_failure(b: Seq<u8>, o: Option<u64>, s0: Scan, ls: Seq<Line>)
    ensures
        scan(b, o, s0, ls) matches Err((fs, e)) ==> ends_with_failure(fs, e, o),
    decreases ls.len(),
{
    if ls.len() > 0 {
        lemma_scan_failure(b, o, s0, ls.drop_last());
        if let Ok(s) = scan(b, o, s0, ls.drop_last()) {
            lemma_line_failure(b, o, s, ls.last());
        }
    }
}

/// Every failed read of a text that holds at least one line ends its
/// findings with a `PARSE.IEEE_CDF.MALFORMED` finding that carries the
/// failure's message, spanned wherever the reader knows where the text
/// sits. (An empty text fails before any card is read, with no finding.)
pub proof fn law_failures_leave_a_malformed_finding(b: Seq<u8>, hint: Option<Seq<char>>, o: Option<u64>)
    requires
        b.len() > 0,
    ensures
        parse_spec(b, hint, o).1 matches Err(e) ==> ends_with_failure(parse_spec(b, hint, o).0, e, o),
{
    let ls = lines_from(b, 0, 1);
    assert(ls.len() > 0);
    let (fs1, r1) = title_step(b, o, Seq::empty(), ls[0]);
    if let Ok(title) = r1 {
        lemma_scan_failure(b, o, super::case::scan_start(fs1, title.base_mva), ls.drop_first());
    }
}

/// The name hint names the case: a successful read takes the hint as the
/// case name when one is given, else the title card's case identification,
/// else `case`.
pub proof fn law_the_name_hint_wins(b: Seq<u8>, hint: Option<Seq<char>>, o: Option<u64>)
    ensures
        parse_spec(b, hint, o).1 matches Ok(c) ==> c.name == match hint {
            Some(h) => h,
            None => {
                let title = title_step(b, o, Seq::empty(), lines_from(b, 0, 1)[0]).1->Ok_0;
                match title.case_id {
                    Some(id) => id,
                    None => "case"@,
                }
            },
        },
{
}

/// The hint changes nothing but the name: two reads of the same text with
/// different hints record the same findings, fail alike, and fill the same
/// tables.
pub proof fn law_the_hint_only_names(b: Seq<u8>, h1: Option<Seq<char>>, h2: Option<Seq<char>>, o: Option<u64>)
    ensures
        parse_spec(b, h1, o).0 == parse_spec(b, h2, o).0,
        parse_spec(b, h1, o).1 is Ok <==> parse_spec(b, h2, o).1 is Ok,
        parse_spec(b, h1, o).1 matches Err(e1) ==> parse_spec(b, h2, o).1 == Err::<super::case::CdfCaseV, Seq<char>>(e1),
        parse_spec(b, h1, o).1 matches Ok(c1) ==> parse_spec(b, h2, o).1 matches Ok(c2) && c1.buses == c2.buses
            && c1.loads == c2.loads && c1.shunts == c2.shunts && c1.generators == c2.generators
            && c1.branches == c2.branches && c1.areas == c2.areas && c1.base_mva == c2.base_mva
            && c1.case_date == c2.case_date,
{
}

} // verus!
