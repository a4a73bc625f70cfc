//! The card scan of a CDF case: physical lines, the section a card opens or
//! closes, and the record each line inside a section holds.

use vstd::prelude::*;

use super::branch::branch_step;
use super::bus::bus_step;
use super::card::{
    declared_items, declared_items_spec, first_word, is_terminator, section_of, terminator_word, upper,
    words, Section,
};
use super::model::{FindingCode, FindingV, Line};
use super::read::{report, GotV, Reader};
use super::sections::{interchange_step, loss_zone_step, tie_line_step};
use super::tables::{bump, bump_exec, Pending, Tables, TablesV, Target};
use crate::text::{chars_of, nat_text, push_chars, push_nat, push_str, trim, trim_bounds, utf8_strict};

verus! {

/// The offset of the first line feed at or after `p`, or the length.
pub open spec fn nl_from(b: Seq<u8>, p: int) -> int
    decreases b.len() - p,
{
    if p < 0 || p >= b.len() {
        b.len() as int
    } else if b[p] == 10 {
        p
    } else {
        nl_from(b, p + 1)
    }
}

pub proof fn lemma_nl_from(b: Seq<u8>, p: int)
    requires
        0 <= p <= b.len(),
    ensures
        p <= nl_from(b, p) <= b.len(),
        nl_from(b, p) < b.len() ==> b[nl_from(b, p)] == 10,
        forall|k: int| p <= k < nl_from(b, p) ==> b[k] != 10,
    decreases b.len() - p,
{
    if p < b.len() && b[p] != 10 {
        lemma_nl_from(b, p + 1);
    }
}

/// Where the piece that starts at `p` ends: after its line feed, or at the
/// end of the text (`str::split_inclusive('\n')`).
pub open spec fn piece_end(b: Seq<u8>, p: int) -> int {
    if nl_from(b, p) < b.len() {
        nl_from(b, p) + 1
    } else {
        b.len() as int
    }
}

/// `e` with the carriage returns before it stripped.
pub open spec fn strip_cr(b: Seq<u8>, p: int, e: int) -> int
    decreases e - p,
{
    if p < e && b[e - 1] == 13 {
        strip_cr(b, p, e - 1)
    } else {
        e
    }
}

/// The end of the line text that starts at `p`: its line feed and the
/// carriage returns before it are not part of it.
pub open spec fn text_end(b: Seq<u8>, p: int) -> int {
    strip_cr(b, p, nl_from(b, p))
}

/// The physical lines from offset `p` on, numbered from `n`.
pub open spec fn lines_from(b: Seq<u8>, p: int, n: nat) -> Seq<Line>
    decreases b.len() - p,
{
    if p < 0 || p >= b.len() {
        Seq::empty()
    } else {
        proof {
            lemma_nl_from(b, p);
        }
        seq![Line { number: n as usize, start: p as usize, end: text_end(b, p) as usize }] + lines_from(
            b,
            piece_end(b, p),
            n + 1,
        )
    }
}

/// The characters of a line.
pub open spec fn line_text(b: Seq<u8>, line: Line) -> Seq<char> {
    let s = b.subrange(line.start as int, line.end as int);
    if vstd::utf8::valid_utf8(s) {
        vstd::utf8::decode_utf8(s)
    } else {
        Seq::empty()
    }
}

pub open spec fn is_alpha(c: char) -> bool {
    ('a' <= c && c <= 'z') || ('A' <= c && c <= 'Z')
}

/// A section header and the records read under it so far.
#[derive(Clone, Copy, PartialEq, Eq, Structural)]
pub struct Open {
    pub section: Section,
    pub header: Line,
    pub declared: Option<usize>,
    pub records: usize,
}

/// Closing a section: a declared item count must match the records read.
pub open spec fn close_spec(fs: Seq<FindingV>, o: Option<u64>, open: Open) -> Seq<FindingV> {
    match open.declared {
        Some(d) => if d != open.records {
            report(
                fs,
                o,
                FindingCode::SourceMalformed,
                open.header,
                open.section.label_spec() + " header declares "@ + nat_text(d as nat) + " item(s); "@
                    + nat_text(open.records as nat) + " record(s) follow"@,
            )
        } else {
            fs
        },
        None => fs,
    }
}

/// A section the next header, the end card, or the end of the text cuts
/// short.
pub open spec fn unterminated_spec(fs: Seq<FindingV>, o: Option<u64>, open: Open, at: Line) -> Seq<FindingV> {
    close_spec(
        report(
            fs,
            o,
            FindingCode::SourceMalformed,
            at,
            open.section.label_spec() + " section is not closed by `"@ + open.section.terminator_spec() + "`"@,
        ),
        o,
        open,
    )
}

/// The state of the scan after a number of lines.
pub struct Scan {
    pub fs: Seq<FindingV>,
    pub t: TablesV,
    pub open: Option<Open>,
    /// The end card was read.
    pub ended: bool,
    /// Text after the end card was read, which stops the scan.
    pub stopped: bool,
}

/// A record read under its section's decoder.
pub open spec fn record_step(
    b: Seq<u8>,
    o: Option<u64>,
    fs: Seq<FindingV>,
    t: TablesV,
    section: Section,
    line: Line,
) -> (Seq<FindingV>, Result<TablesV, Seq<char>>) {
    match section {
        Section::Bus => bus_step(b, o, fs, t, line),
        Section::Branch => branch_step(b, o, fs, t, line),
        Section::LossZone => loss_zone_step(b, o, fs, t, line),
        Section::Interchange => interchange_step(b, o, fs, t, line),
        Section::TieLine => tie_line_step(b, o, fs, t, line),
    }
}

pub open spec fn cut_open(fs: Seq<FindingV>, o: Option<u64>, open: Option<Open>, at: Line) -> Seq<FindingV> {
    match open {
        Some(sec) => unterminated_spec(fs, o, sec, at),
        None => fs,
    }
}

/// One line of the scan. A blank line is skipped; text after the end card
/// is reported and stops the scan; a terminator closes the open section; a
/// card starting with a letter in column 1 is the end card or a section
/// header; any other line is a record of the open section. A failed
/// record read ends the scan with its findings and message.
#[verifier::opaque]
pub open spec fn line_step(b: Seq<u8>, o: Option<u64>, s: Scan, line: Line) -> Result<
    Scan,
    (Seq<FindingV>, Seq<char>),
> {
    let text = line_text(b, line);
    let trimmed = trim(text);
    let ws = words(trimmed);
    if ws.len() == 0 {
        Ok(s)
    } else {
        let first = ws[0];
        if s.ended {
            Ok(
                Scan {
                    fs: report(s.fs, o, FindingCode::SourceMalformed, line, "text after END OF DATA is ignored"@),
                    stopped: true,
                    ..s
                },
            )
        } else if terminator_word(first) {
            match s.open {
                Some(sec) => {
                    let fs1 = if first != sec.section.terminator_spec() {
                        report(
                            s.fs,
                            o,
                            FindingCode::SourceMalformed,
                            line,
                            sec.section.label_spec() + " section ends with `"@ + first + "` rather than `"@
                                + sec.section.terminator_spec() + "`"@,
                        )
                    } else {
                        s.fs
                    };
                    Ok(Scan { fs: close_spec(fs1, o, sec), open: None, ..s })
                },
                None => Ok(
                    Scan {
                        fs: report(
                            s.fs,
                            o,
                            FindingCode::SourceMalformed,
                            line,
                            "terminator `"@ + first + "` outside a section is ignored"@,
                        ),
                        ..s
                    },
                ),
            }
        } else {
            let card = text.len() > 0 && is_alpha(text[0]);
            if card && upper(first) == "END"@ {
                Ok(Scan { fs: cut_open(s.fs, o, s.open, line), open: None, ended: true, ..s })
            } else if card && section_of(first) is Some {
                Ok(
                    Scan {
                        fs: cut_open(s.fs, o, s.open, line),
                        open: Some(
                            Open {
                                section: section_of(first)->0,
                                header: line,
                                declared: declared_items_spec(trimmed),
                                records: 0,
                            },
                        ),
                        ..s
                    },
                )
            } else {
                match s.open {
                    None => Ok(
                        Scan {
                            fs: report(
                                s.fs,
                                o,
                                FindingCode::SourceMalformed,
                                line,
                                "record outside a section is ignored"@,
                            ),
                            ..s
                        },
                    ),
                    Some(sec) => {
                        let (fs1, r) = record_step(b, o, s.fs, s.t, sec.section, line);
                        match r {
                            Err(e) => Err((fs1, e)),
                            Ok(t1) => Ok(
                                Scan {
                                    fs: fs1,
                                    t: t1,
                                    open: Some(Open { records: bump(sec.records), ..sec }),
                                    ..s
                                },
                            ),
                        }
                    },
                }
            }
        }
    }
}

/// The scan over `ls`, in order, until a record read fails or text after
/// the end card stops it.
pub open spec fn scan(b: Seq<u8>, o: Option<u64>, s0: Scan, ls: Seq<Line>) -> Result<
    Scan,
    (Seq<FindingV>, Seq<char>),
>
    decreases ls.len(),
{
    if ls.len() == 0 {
        Ok(s0)
    } else {
        match scan(b, o, s0, ls.drop_last()) {
            Err(e) => Err(e),
            Ok(s) => if s.stopped {
                Ok(s)
            } else {
                line_step(b, o, s, ls.last())
            },
        }
    }
}

/// Once the scan stops or fails, the lines after leave it as it is.
pub proof fn lemma_scan_settled(b: Seq<u8>, o: Option<u64>, s0: Scan, ls: Seq<Line>, k: int)
    requires
        0 <= k <= ls.len(),
        match scan(b, o, s0, ls.take(k)) {
            Ok(s) => s.stopped,
            Err(_) => true,
        },
    ensures
        scan(b, o, s0, ls) == scan(b, o, s0, ls.take(k)),
    decreases ls.len() - k,
{
    if k < ls.len() {
        assert(ls.take(k + 1).drop_last() =~= ls.take(k));
        lemma_scan_settled(b, o, s0, ls, k + 1);
    } else {
        assert(ls.take(k) =~= ls);
    }
}

/// Every reference awaiting resolution points at a row of its table, and
/// every branch keeps its line.
pub open spec fn target_ok(t: TablesV, target: Target) -> bool {
    match target {
        Target::GeneratorRemote(i) => i < t.generators.len(),
        Target::BranchControl(i) => i < t.branches.len(),
        Target::AreaSlack(i) => i < t.areas.len(),
    }
}

/// The line lies inside a text of `len` bytes.
pub open spec fn line_in(line: Line, len: int) -> bool {
    line.start <= line.end <= len
}

pub open spec fn tables_wf(t: TablesV, len: int) -> bool {
    &&& t.branch_lines.len() == t.branches.len()
    &&& forall|k: int| 0 <= k < t.pending.len() ==> target_ok(t, #[trigger] t.pending[k].target)
    &&& forall|k: int| 0 <= k < t.pending.len() ==> line_in(#[trigger] t.pending[k].line, len)
    &&& forall|k: int| 0 <= k < t.branch_lines.len() ==> line_in(#[trigger] t.branch_lines[k], len)
}

/// A table update that appends rows and references to new rows keeps the
/// tables well formed.
pub proof fn lemma_grown_wf(t: TablesV, t2: TablesV, len: int)
    requires
        tables_wf(t, len),
        t2.branch_lines.len() == t2.branches.len(),
        t.generators.len() <= t2.generators.len(),
        t.branches.len() <= t2.branches.len(),
        t.areas.len() <= t2.areas.len(),
        t.pending.len() <= t2.pending.len(),
        forall|k: int| 0 <= k < t.pending.len() ==> t2.pending[k] == t.pending[k],
        forall|k: int| t.pending.len() <= k < t2.pending.len() ==> target_ok(t2, #[trigger] t2.pending[k].target),
        forall|k: int| t.pending.len() <= k < t2.pending.len() ==> line_in(#[trigger] t2.pending[k].line, len),
        t.branch_lines.len() <= t2.branch_lines.len(),
        forall|k: int| 0 <= k < t.branch_lines.len() ==> t2.branch_lines[k] == t.branch_lines[k],
        forall|k: int| t.branch_lines.len() <= k < t2.branch_lines.len() ==> line_in(#[trigger] t2.branch_lines[k], len),
    ensures
        tables_wf(t2, len),
{
    assert forall|k: int| 0 <= k < t2.pending.len() implies target_ok(t2, #[trigger] t2.pending[k].target) by {
        if k < t.pending.len() {
            assert(t2.pending[k] == t.pending[k]);
            assert(target_ok(t, t.pending[k].target));
        }
    }
    assert forall|k: int| 0 <= k < t2.pending.len() implies line_in(#[trigger] t2.pending[k].line, len) by {
        if k < t.pending.len() {
            assert(t2.pending[k] == t.pending[k]);
        }
    }
    assert forall|k: int| 0 <= k < t2.branch_lines.len() implies line_in(#[trigger] t2.branch_lines[k], len) by {
        if k < t.branch_lines.len() {
            assert(t2.branch_lines[k] == t.branch_lines[k]);
        }
    }
}

pub proof fn lemma_bus_tables_wf(
    t: TablesV,
    line: Line,
    id: usize,
    name: Option<Seq<char>>,
    area: int,
    zone: Option<int>,
    code: int,
    v: Seq<GotV>,
    len: int,
)
    requires
        tables_wf(t, len),
        line_in(line, len),
    ensures
        tables_wf(super::bus::bus_tables(t, line, id, name, area, zone, code, v), len),
{
    let t2 = super::bus::bus_tables(t, line, id, name, area, zone, code, v);
    lemma_grown_wf(t, t2, len);
}

pub proof fn lemma_bus_wf(b: Seq<u8>, o: Option<u64>, fs: Seq<FindingV>, t: TablesV, line: Line, len: int)
    requires
        tables_wf(t, len),
        line_in(line, len),
    ensures
        bus_step(b, o, fs, t, line).1 matches Ok(t1) ==> tables_wf(t1, len),
{
    let (fs1, r1) = super::read::read_all(b, o, fs, line, super::bus::bus_id_reqs());
    if let Ok(v1) = r1 {
        let id = super::tables::usize_or_zero(super::tables::num(v1[0]));
        if !t.bus_lines.contains_key(id) {
            let t1 = TablesV { bus_lines: t.bus_lines.insert(id, line), ..t };
            assert(tables_wf(t1, len));
            let (fs2, r2) = super::read::read_all(b, o, fs1, line, super::bus::bus_code_reqs());
            if let Ok(v2) = r2 {
                let code0 = super::tables::num(v2[2]);
                let code = if 0 <= code0 <= 3 { code0 } else { 0 };
                let name = super::card::field_spec(b, line.start as int, line.end as int, (6, 17));
                let fs3 = if 0 <= code0 <= 3 {
                    fs2
                } else {
                    report(
                        fs2,
                        o,
                        FindingCode::ValueSubstituted,
                        line,
                        "bus "@ + nat_text(id as nat) + " type "@ + crate::text::int_text(code0)
                            + " is outside 0 through 3; read as type 0 (PQ)"@,
                    )
                };
                let (fs4, r4) = super::read::read_all(b, o, fs3, line, super::bus::bus_value_reqs());
                if let Ok(v) = r4 {
                    lemma_bus_tables_wf(
                        t1,
                        line,
                        id,
                        name,
                        super::tables::num(v2[0]),
                        super::tables::opt_num(v2[1]),
                        code,
                        v,
                        len,
                    );
                }
            }
        }
    }
}

pub proof fn lemma_branch_tables_wf(
    t: TablesV,
    line: Line,
    from: usize,
    to: usize,
    circuit: Option<int>,
    kind: int,
    side: int,
    z: Seq<GotV>,
    v: Seq<GotV>,
    lims: Seq<GotV>,
    len: int,
)
    requires
        tables_wf(t, len),
        line_in(line, len),
    ensures
        tables_wf(super::branch::branch_tables(t, line, from, to, circuit, kind, side, z, v, lims), len),
{
    let t2 = super::branch::branch_tables(t, line, from, to, circuit, kind, side, z, v, lims);
    lemma_grown_wf(t, t2, len);
}

pub proof fn lemma_branch_wf(b: Seq<u8>, o: Option<u64>, fs: Seq<FindingV>, t: TablesV, line: Line, len: int)
    requires
        tables_wf(t, len),
        line_in(line, len),
    ensures
        branch_step(b, o, fs, t, line).1 matches Ok(t1) ==> tables_wf(t1, len),
{
    let (fs1, r1) = super::read::read_all(b, o, fs, line, super::branch::branch_head_reqs());
    if let Ok(h) = r1 {
        let from = super::tables::usize_or_zero(super::tables::num(h[0]));
        let to = super::tables::usize_or_zero(super::tables::num(h[1]));
        let kind0 = match super::tables::opt_num(h[3]) {
            Some(k) => k,
            None => 0,
        };
        let kind = if 0 <= kind0 <= 4 { kind0 } else { 0 };
        let fs2 = branch_step_fs2(b, o, fs, line);
        lemma_branch_rest_wf(b, o, fs2, t, line, from, to, super::tables::opt_num(h[2]), kind, len);
    }
}

/// The findings after the head of a branch record.
spec fn branch_step_fs2(b: Seq<u8>, o: Option<u64>, fs: Seq<FindingV>, line: Line) -> Seq<FindingV> {
    let (fs1, r1) = super::read::read_all(b, o, fs, line, super::branch::branch_head_reqs());
    let h = r1->Ok_0;
    let from = super::tables::usize_or_zero(super::tables::num(h[0]));
    let to = super::tables::usize_or_zero(super::tables::num(h[1]));
    let kind0 = match super::tables::opt_num(h[3]) {
        Some(k) => k,
        None => 0,
    };
    if 0 <= kind0 <= 4 {
        fs1
    } else {
        report(
            fs1,
            o,
            FindingCode::ValueSubstituted,
            line,
            super::branch::branch_name(from, to) + " type "@ + crate::text::int_text(kind0)
                + " is outside 0 through 4; read as a line when the turns ratio is zero and as a fixed tap transformer otherwise"@,
        )
    }
}

pub proof fn lemma_branch_rest_wf(
    b: Seq<u8>,
    o: Option<u64>,
    fs2: Seq<FindingV>,
    t: TablesV,
    line: Line,
    from: usize,
    to: usize,
    circuit: Option<int>,
    kind: int,
    len: int,
)
    requires
        tables_wf(t, len),
        line_in(line, len),
    ensures
        super::branch::branch_rest(b, o, fs2, t, line, from, to, circuit, kind).1 matches Ok(t1) ==> tables_wf(t1, len),
{
    let (fs3, r3) = super::read::read_all(b, o, fs2, line, super::branch::branch_impedance_reqs());
    if let Ok(z) = r3 {
        let fs4 = if !super::tables::nonzero(super::tables::txt(z[0])) && !super::tables::nonzero(
            super::tables::txt(z[1]),
        ) {
            report(
                fs3,
                o,
                FindingCode::SourceMalformed,
                line,
                super::branch::branch_name(from, to)
                    + " states zero series impedance, which the format forbids; the matrix builders reject the branch"@,
            )
        } else {
            fs3
        };
        let (fs5, r5) = super::read::read_all(b, o, fs4, line, super::branch::branch_rating_reqs());
        if let Ok(v) = r5 {
            let (fs6, r6) = super::read::read_all(
                b,
                o,
                fs5,
                line,
                super::branch::limit_reqs(super::branch::wide_limits(b, line)),
            );
            if let Ok(lims) = r6 {
                lemma_branch_tables_wf(
                    t,
                    line,
                    from,
                    to,
                    circuit,
                    kind,
                    super::branch::side_of(super::tables::opt_num(v[4])),
                    z,
                    v,
                    lims,
                    len,
                );
            }
        }
    }
}

pub proof fn lemma_record_wf(
    b: Seq<u8>,
    o: Option<u64>,
    fs: Seq<FindingV>,
    t: TablesV,
    section: Section,
    line: Line,
    len: int,
)
    requires
        tables_wf(t, len),
        line_in(line, len),
    ensures
        record_step(b, o, fs, t, section, line).1 matches Ok(t1) ==> tables_wf(t1, len),
{
    match section {
        Section::Bus => lemma_bus_wf(b, o, fs, t, line, len),
        Section::Branch => lemma_branch_wf(b, o, fs, t, line, len),
        Section::Interchange => {
            let (fs1, r1) = super::read::read_all(b, o, fs, line, super::sections::interchange_reqs());
            if let Ok(v) = r1 {
                lemma_grown_wf(t, super::sections::interchange_tables(b, t, line, v), len);
            }
        },
        _ => {},
    }
}

/// A line of the scan keeps the tables well formed and the open header
/// inside the text.
pub proof fn lemma_line_step_wf(b: Seq<u8>, o: Option<u64>, s: Scan, line: Line, len: int)
    requires
        tables_wf(s.t, len),
        line_in(line, len),
        s.open matches Some(sec) ==> line_in(sec.header, len),
        s.ended ==> s.open is None,
        s.stopped ==> s.ended,
    ensures
        line_step(b, o, s, line) matches Ok(s2) ==> {
            &&& tables_wf(s2.t, len)
            &&& s2.open matches Some(sec) ==> line_in(sec.header, len)
            &&& s2.ended ==> s2.open is None
            &&& s2.stopped ==> s2.ended
        },
{
    reveal(line_step);
    if let Some(sec) = s.open {
        lemma_record_wf(b, o, s.fs, s.t, sec.section, line, len);
    }
}

/// The index of the first line feed at or after `p`, or the length.
fn nl_index(b: &[u8], p: usize) -> (e: usize)
    requires
        p <= b@.len(),
    ensures
        e == nl_from(b@, p as int),
{
    let mut e = p;
    while e < b.len() && b[e] != 10
        invariant
            p <= e <= b@.len(),
            nl_from(b@, p as int) == nl_from(b@, e as int),
        decreases b@.len() - e,
    {
        e = e + 1;
    }
    e
}

fn strip_cr_exec(b: &[u8], p: usize, e: usize) -> (r: usize)
    requires
        p <= e <= b@.len(),
    ensures
        r == strip_cr(b@, p as int, e as int),
        p <= r <= e,
{
    let mut r = e;
    while p < r && b[r - 1] == 13
        invariant
            p <= r <= e <= b@.len(),
            strip_cr(b@, p as int, e as int) == strip_cr(b@, p as int, r as int),
        decreases r - p,
    {
        r = r - 1;
    }
    r
}

/// The line that starts at `p`, numbered `n`, and where the next starts.
pub fn line_at(b: &[u8], p: usize, n: usize) -> (r: (Line, usize))
    requires
        p < b@.len(),
    ensures
        lines_from(b@, p as int, n as nat) == seq![r.0] + lines_from(b@, r.1 as int, (n + 1) as nat),
        p < r.1 <= b@.len(),
        r.0.start == p,
        r.0.number == n,
        r.0.start <= r.0.end <= b@.len(),
{
    proof {
        lemma_nl_from(b@, p as int);
    }
    let e = nl_index(b, p);
    let te = strip_cr_exec(b, p, e);
    let next = if e < b.len() {
        e + 1
    } else {
        b.len()
    };
    (Line { number: n, start: p, end: te }, next)
}

/// The characters of a line.
pub fn line_chars(b: &[u8], line: Line) -> (r: Vec<char>)
    requires
        line.start <= line.end <= b@.len(),
    ensures
        r@ == line_text(b@, line),
{
    let slice = vstd::slice::slice_subrange(b, line.start, line.end);
    match utf8_strict(slice) {
        Some(t) => chars_of(t),
        None => Vec::new(),
    }
}

impl<'a> Reader<'a> {
    /// Report a section the next header, the end card, or the end of the
    /// text cuts short, then close it.
    pub fn unterminated(&mut self, open: Open, at: Line)
        requires
            old(self).wf(),
            at.start <= at.end <= old(self).bytes@.len(),
            open.header.start <= open.header.end <= old(self).bytes@.len(),
        ensures
            final(self).wf(),
            final(self).bytes == old(self).bytes,
            final(self).origin == old(self).origin,
            final(self).fs() == unterminated_spec(old(self).fs(), old(self).origin, open, at),
    {
        let mut m: Vec<char> = Vec::new();
        push_str(&mut m, open.section.label());
        push_str(&mut m, " section is not closed by `");
        push_str(&mut m, open.section.terminator());
        push_str(&mut m, "`");
        self.report(FindingCode::SourceMalformed, at, &m);
        self.close(open);
    }

    /// Close a section: a declared item count must match the records read.
    pub fn close(&mut self, open: Open)
        requires
            old(self).wf(),
            open.header.start <= open.header.end <= old(self).bytes@.len(),
        ensures
            final(self).wf(),
            final(self).bytes == old(self).bytes,
            final(self).origin == old(self).origin,
            final(self).fs() == close_spec(old(self).fs(), old(self).origin, open),
    {
        if let Some(d) = open.declared {
            if d != open.records {
                let mut m: Vec<char> = Vec::new();
                push_str(&mut m, open.section.label());
                push_str(&mut m, " header declares ");
                push_nat(&mut m, d as u64);
                push_str(&mut m, " item(s); ");
                push_nat(&mut m, open.records as u64);
                push_str(&mut m, " record(s) follow");
                self.report(FindingCode::SourceMalformed, open.header, &m);
            }
        }
    }

    /// Read a record under its section's decoder.
    pub fn record(&mut self, section: Section, line: Line, t: &mut Tables) -> (r: Result<(), String>)
        requires
            old(self).wf(),
            line.start <= line.end <= old(self).bytes@.len(),
        ensures
            final(self).wf(),
            final(self).bytes == old(self).bytes,
            final(self).origin == old(self).origin,
            ({
                let (fs, res) = record_step(old(self).bytes@, old(self).origin, old(self).fs(), old(t)@, section, line);
                &&& final(self).fs() == fs
                &&& match r {
                    Ok(()) => res == Ok::<TablesV, Seq<char>>(final(t)@),
                    Err(e) => res == Err::<TablesV, Seq<char>>(e@),
                }
            }),
    {
        match section {
            Section::Bus => self.bus(line, t),
            Section::Branch => self.branch(line, t),
            Section::LossZone => self.loss_zone(line, t),
            Section::Interchange => self.interchange(line, t),
            Section::TieLine => self.tie_line(line, t),
        }
    }
}

} // verus!
