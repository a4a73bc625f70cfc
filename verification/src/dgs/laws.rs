//! What holds of every DGS read and route.

use vstd::prelude::*;
use vstd::utf8::encode_utf8;

use super::document::of_class_spec;
use super::header::AttrDescV;
use super::route::{markers_upto, checks, route_spec, DgsRouteV};
use super::tokens::{
    dgs_line, dgs_scan, lemma_encode_concat, open_table, parse_spec, read_row, start_state, DgsState,
};
use super::values::{
    int_read, matrix_cells, real_read, scalar_read, value_read, values_read, vector_cells, DgsValueV,
};
use crate::ieee_cdf::model::Line;
use crate::ieee_cdf::scan::{line_text, lines_from};
use crate::text::{trim, trim_start};

verus! {

/// An export routes nowhere exactly when it declares no terminal; it is
/// balanced exactly when it declares one and no object states conductor
/// level data.
pub proof fn law_routes_follow_terminals_and_markers(d: super::tokens::DgsDocumentV)
    ensures
        route_spec(d) is Undecided <==> of_class_spec(d, "ElmTerm"@).len() == 0,
        route_spec(d) is Balanced <==> of_class_spec(d, "ElmTerm"@).len() > 0 && markers_upto(
            d,
            checks().len() as int,
        ).len() == 0,
        route_spec(d) matches DgsRouteV::Multiconductor(m) ==> m.len() > 0,
{
}

proof fn lemma_vector_keeps_commas(
    c: bool,
    a: AttrDescV,
    fs: Seq<Seq<char>>,
    line: usize,
    class: Seq<char>,
    k: nat,
    count: nat,
    acc: Seq<DgsValueV>,
)
    ensures
        c ==> vector_cells(c, a, fs, line, class, k, count, acc).0,
    decreases count - k,
{
    if k < count {
        if let Some(t) = super::values::cell(fs, a.field + 1 + k) {
            let (c2, r) = scalar_read(c, a.ty, t, class, a.name, line);
            if let Ok(v) = r {
                lemma_vector_keeps_commas(c2, a, fs, line, class, k + 1, count, acc.push(v));
            }
        }
    }
}

proof fn lemma_matrix_keeps_commas(
    c: bool,
    a: AttrDescV,
    fs: Seq<Seq<char>>,
    line: usize,
    class: Seq<char>,
    k: nat,
    count: nat,
    acc: Seq<Seq<char>>,
)
    ensures
        c ==> matrix_cells(c, a, fs, line, class, k, count, acc).0,
    decreases count - k,
{
    if k < count {
        if let Some(t) = super::values::cell(fs, a.field + 2 + k) {
            let (c2, r) = real_read(c, t, class, a.name, line);
            if let Ok(v) = r {
                lemma_matrix_keeps_commas(c2, a, fs, line, class, k + 1, count, acc.push(v));
            }
        }
    }
}

proof fn lemma_value_keeps_commas(c: bool, a: AttrDescV, fs: Seq<Seq<char>>, line: usize, class: Seq<char>)
    ensures
        c ==> value_read(c, a, fs, line, class).0,
{
    match a.shape {
        super::header::AttrShape::Vector(_) => {
            if let Some(ct) = super::values::cell(fs, a.field as int) {
                if let Some(count) = crate::text::parse_usize_spec(ct) {
                    lemma_vector_keeps_commas(c, a, fs, line, class, 0, count as nat, Seq::empty());
                }
            }
        },
        super::header::AttrShape::Matrix(_) => {
            if let (Some(rt), Some(ct)) = (super::values::cell(fs, a.field as int), super::values::cell(fs, a.field + 1)) {
                if let (Some(rows), Some(cols)) = (crate::text::parse_usize_spec(rt), crate::text::parse_usize_spec(ct)) {
                    lemma_matrix_keeps_commas(c, a, fs, line, class, 0, (rows * cols) as nat, Seq::empty());
                }
            }
        },
        _ => {},
    }
}

proof fn lemma_values_keep_commas(
    c: bool,
    attrs: Seq<AttrDescV>,
    fs: Seq<Seq<char>>,
    line: usize,
    class: Seq<char>,
    k: nat,
    acc: Seq<Option<DgsValueV>>,
)
    ensures
        c ==> values_read(c, attrs, fs, line, class, k, acc).0,
    decreases attrs.len() - k,
{
    if k < attrs.len() {
        lemma_value_keeps_commas(c, attrs[k as int], fs, line, class);
        let (c2, r) = value_read(c, attrs[k as int], fs, line, class);
        if let Ok(v) = r {
            lemma_values_keep_commas(c2, attrs, fs, line, class, k + 1, acc.push(v));
        }
    }
}

proof fn lemma_line_keeps_commas(b: Seq<u8>, st: DgsState, line: Line)
    ensures
        dgs_line(b, st, line) matches Ok(s2) ==> (st.comma ==> s2.comma),
{
    reveal(dgs_line);
    if let Some(ci) = st.current {
        let h = st.classes[ci as int];
        let text = line_text(b, line);
        let t = trim(text);
        let fs = super::tokens::split_fields(t);
        lemma_values_keep_commas(st.comma, h.attrs, fs, line.number, h.class, 0, Seq::empty());
    }
}

proof fn lemma_scan_keeps_commas(b: Seq<u8>, st: DgsState, ls: Seq<Line>)
    ensures
        dgs_scan(b, st, ls) matches Ok(s2) ==> (st.comma ==> s2.comma),
    decreases ls.len(),
{
    if ls.len() > 0 {
        lemma_scan_keeps_commas(b, st, ls.drop_last());
        if let Ok(s) = dgs_scan(b, st, ls.drop_last()) {
            lemma_line_keeps_commas(b, s, ls.last());
        }
    }
}

/// Once a real has been read with decimal commas, every later line is read
/// with them too: the lines after a state that uses decimal commas leave
/// them in use.
pub proof fn law_decimal_commas_stay_in_use(b: Seq<u8>, st: DgsState, ls: Seq<Line>)
    requires
        st.comma,
    ensures
        dgs_scan(b, st, ls) matches Ok(s2) ==> s2.comma,
{
    lemma_scan_keeps_commas(b, st, ls);
}

/// Every object row, spans included, lies inside the text: the byte range
/// of an object of a line ends no later than that line.
pub open spec fn spans_inside(st: DgsState, len: int) -> bool {
    forall|k: int| 0 <= k < st.objects.len() ==> (#[trigger] st.objects[k]).byte_start <= st.objects[k].byte_end <= len
}

proof fn lemma_line_spans(b: Seq<u8>, st: DgsState, line: Line)
    requires
        spans_inside(st, b.len() as int),
        line.start <= line.end <= b.len(),
    ensures
        dgs_line(b, st, line) matches Ok(s2) ==> spans_inside(s2, b.len() as int),
{
    reveal(dgs_line);
    let text = line_text(b, line);
    let t = trim(text);
    let sub = b.subrange(line.start as int, line.end as int);
    if vstd::utf8::valid_utf8(sub) {
        vstd::utf8::decode_utf8_encode_utf8(sub);
    } else {
        assert(text =~= Seq::<char>::empty());
    }
    assert(encode_utf8(text).len() <= line.end - line.start);
    let lead = text.len() - trim_start(text).len();
    if t.len() > 0 && !(t[0] == '*') && !crate::text::starts_with(t, "$$"@) {
        let (a, z) = trim_window(text);
        assert(text.take(lead) =~= text.subrange(0, a));
        let x = text.subrange(0, a);
        let y = text.subrange(a, z);
        let w = text.subrange(z, text.len() as int);
        assert(text =~= x + y + w);
        lemma_encode_concat(x + y, w);
        lemma_encode_concat(x, y);
        if let Ok(s2) = dgs_line(b, st, line) {
            assert forall|k: int| 0 <= k < s2.objects.len() implies (#[trigger] s2.objects[k]).byte_start
                <= s2.objects[k].byte_end <= b.len() by {
                if k < st.objects.len() {
                    assert(s2.objects[k] == st.objects[k]);
                }
            }
        }
    }
}

/// Where the trimmed text of `s` sits.
proof fn trim_window(s: Seq<char>) -> (r: (int, int))
    ensures
        0 <= r.0 <= r.1 <= s.len(),
        s.subrange(r.0, r.1) == trim(s),
        s.subrange(r.0, s.len() as int) == trim_start(s),
{
    let a = trim_start_offset(s);
    let z = trim_end_offset(s.subrange(a, s.len() as int));
    assert(s.subrange(a, s.len() as int).subrange(0, z) =~= s.subrange(a, a + z));
    (a, a + z)
}

proof fn trim_start_offset(s: Seq<char>) -> (a: int)
    ensures
        0 <= a <= s.len(),
        s.subrange(a, s.len() as int) == trim_start(s),
    decreases s.len(),
{
    if s.len() > 0 && crate::text::is_ws(s[0]) {
        let a = trim_start_offset(s.drop_first());
        assert(s.drop_first().subrange(a, s.drop_first().len() as int) =~= s.subrange(a + 1, s.len() as int));
        a + 1
    } else {
        assert(s.subrange(0, s.len() as int) =~= s);
        0
    }
}

proof fn trim_end_offset(s: Seq<char>) -> (z: int)
    ensures
        0 <= z <= s.len(),
        s.subrange(0, z) == crate::text::trim_end(s),
    decreases s.len(),
{
    if s.len() > 0 && crate::text::is_ws(s.last()) {
        let z = trim_end_offset(s.drop_last());
        assert(s.drop_last().subrange(0, z) =~= s.subrange(0, z));
        z
    } else {
        assert(s.subrange(0, s.len() as int) =~= s);
        s.len() as int
    }
}

proof fn lemma_scan_spans(b: Seq<u8>, ls: Seq<Line>, st: DgsState)
    requires
        spans_inside(st, b.len() as int),
        forall|k: int| 0 <= k < ls.len() ==> (#[trigger] ls[k]).start <= ls[k].end <= b.len(),
    ensures
        dgs_scan(b, st, ls) matches Ok(s2) ==> spans_inside(s2, b.len() as int),
    decreases ls.len(),
{
    if ls.len() > 0 {
        let ls0 = ls.drop_last();
        assert forall|k: int| 0 <= k < ls0.len() implies (#[trigger] ls0[k]).start <= ls0[k].end <= b.len() by {
            assert(ls0[k] == ls[k]);
        }
        lemma_scan_spans(b, ls0, st);
        if let Ok(s) = dgs_scan(b, st, ls0) {
            assert(ls.last() == ls[ls.len() - 1]);
            lemma_line_spans(b, s, ls.last());
        }
    }
}

proof fn lemma_lines_in(b: Seq<u8>, p: int, n: nat)
    requires
        0 <= p,
        b.len() < usize::MAX,
    ensures
        forall|k: int|
            0 <= k < lines_from(b, p, n).len() ==> (#[trigger] lines_from(b, p, n)[k]).start <= lines_from(
                b,
                p,
                n,
            )[k].end <= b.len(),
    decreases b.len() - p,
{
    if p < b.len() {
        crate::ieee_cdf::scan::lemma_nl_from(b, p);
        let next = crate::ieee_cdf::scan::piece_end(b, p);
        lemma_lines_in(b, next, n + 1);
        let rest = lines_from(b, next, n + 1);
        let all = lines_from(b, p, n);
        assert forall|k: int| 0 <= k < all.len() implies (#[trigger] all[k]).start <= all[k].end <= b.len() by {
            if k > 0 {
                assert(all[k] == rest[k - 1]);
            } else {
                lemma_strip_cr(b, p, crate::ieee_cdf::scan::nl_from(b, p));
            }
        }
    }
}

proof fn lemma_strip_cr(b: Seq<u8>, p: int, e: int)
    requires
        p <= e,
    ensures
        p <= crate::ieee_cdf::scan::strip_cr(b, p, e) <= e,
    decreases e - p,
{
    if p < e && b[e - 1] == 13 {
        lemma_strip_cr(b, p, e - 1);
    }
}

/// Every object of a successful read records a byte range that lies
/// inside the text, start before end.
pub proof fn law_rows_lie_inside_the_text(b: Seq<u8>)
    requires
        b.len() < usize::MAX,
    ensures
        parse_spec(b) matches Ok(d) ==> forall|k: int|
            0 <= k < d.objects.len() ==> (#[trigger] d.objects[k]).byte_start <= d.objects[k].byte_end <= b.len(),
{
    lemma_lines_in(b, 0, 1);
    lemma_scan_spans(b, lines_from(b, 0, 1), start_state());
}

/// Every `Version` row read so far states 5.0, and one was read when the
/// state says so.
pub open spec fn versions_read(st: DgsState) -> bool {
    &&& forall|i: int| 0 <= i < st.general.len() && (#[trigger] st.general[i]).0 == "Version"@ ==> st.general[i].1 == "5.0"@
    &&& st.version_seen ==> exists|i: int| 0 <= i < st.general.len() && (#[trigger] st.general[i]).0 == "Version"@
}

proof fn lemma_versions_line(b: Seq<u8>, st: DgsState, line: Line)
    requires
        versions_read(st),
    ensures
        dgs_line(b, st, line) matches Ok(s) ==> versions_read(s),
{
    reveal(dgs_line);
    if let Ok(s) = dgs_line(b, st, line) {
        if s.general != st.general {
            assert(s.general.len() == st.general.len() + 1);
            assert forall|i: int| 0 <= i < s.general.len() && (#[trigger] s.general[i]).0 == "Version"@ implies s.general[i].1
                == "5.0"@ by {
                if i < st.general.len() {
                    assert(s.general[i] == st.general[i]);
                }
            }
            if s.version_seen && !st.version_seen {
                assert(s.general[st.general.len() as int].0 == "Version"@);
            }
            if st.version_seen {
                let i = choose|i: int| 0 <= i < st.general.len() && (#[trigger] st.general[i]).0 == "Version"@;
                assert(s.general[i] == st.general[i]);
            }
        }
    }
}

proof fn lemma_versions_scan(b: Seq<u8>, st: DgsState, ls: Seq<Line>)
    requires
        versions_read(st),
    ensures
        dgs_scan(b, st, ls) matches Ok(s) ==> versions_read(s),
    decreases ls.len(),
{
    if ls.len() > 0 {
        lemma_versions_scan(b, st, ls.drop_last());
        if let Ok(s) = dgs_scan(b, st, ls.drop_last()) {
            lemma_versions_line(b, s, ls.last());
        }
    }
}

/// Every successful read is of version 5.0: its `$$General` table states a
/// `Version`, and every `Version` it states is 5.0.
pub proof fn law_a_read_is_of_version_5(b: Seq<u8>)
    requires
        parse_spec(b) is Ok,
    ensures
        ({
            let d = parse_spec(b)->Ok_0;
            &&& exists|i: int| 0 <= i < d.general.len() && #[trigger] d.general[i] == ("Version"@, "5.0"@)
            &&& forall|i: int|
                0 <= i < d.general.len() && (#[trigger] d.general[i]).0 == "Version"@ ==> d.general[i].1 == "5.0"@
        }),
{
    let st0 = start_state();
    lemma_versions_scan(b, st0, lines_from(b, 0, 1));
    let s = dgs_scan(b, st0, lines_from(b, 0, 1))->Ok_0;
    assert(s.version_seen);
    let d = parse_spec(b)->Ok_0;
    assert(d.general == s.general);
    let i = choose|i: int| 0 <= i < s.general.len() && (#[trigger] s.general[i]).0 == "Version"@;
    assert(s.general[i] == ("Version"@, "5.0"@));
    assert(d.general[i] == ("Version"@, "5.0"@));
}

} // verus!
