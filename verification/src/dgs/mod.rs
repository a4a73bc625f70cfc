//! DIgSILENT PowerFactory DGS V5 ASCII exports.
//!
//! PowerFactory projects live in encrypted `.pfd` files that only the
//! application decodes. Its DGS export writes the same objects as plain class
//! tables, one row per object: [`tokens`] decodes the tables into an object
//! index and [`route`] decides which network family the objects justify.

use vstd::prelude::*;

pub mod balanced;
pub mod header;
pub mod values;
pub mod tokens;
pub mod document;
pub mod route;
pub mod laws;
pub mod topology;
pub mod dc;
pub mod attach;

use crate::text::{
    chars_of, first_nl, lemma_split_lines_last, lemma_split_lines_step, line_end, lossy_utf8,
    split_lines, starts_with, trim, trim_bounds, utf8_lossy, push_str, push_chars, push_nat,
    nat_text, string_of, join, views, chars_eq, ascii_lower, to_ascii_lower,
};

verus! {

broadcast use vstd::string::group_string_axioms;

/// The significant line of a DGS head: neither blank nor a `*` comment.
pub open spec fn significant(line: Seq<char>) -> bool {
    trim(line).len() > 0 && trim(line)[0] != '*'
}

/// The trimmed text of the first significant line.
pub open spec fn first_significant(lines: Seq<Seq<char>>) -> Option<Seq<char>>
    decreases lines.len(),
{
    if lines.len() == 0 {
        None
    } else if significant(lines[0]) {
        Some(trim(lines[0]))
    } else {
        first_significant(lines.drop_first())
    }
}

/// `s` without its leading byte order marks.
pub open spec fn strip_bom(s: Seq<char>) -> Seq<char>
    decreases s.len(),
{
    if s.len() > 0 && s[0] == '\u{feff}' {
        strip_bom(s.drop_first())
    } else {
        s
    }
}

/// A DGS head: the first significant line opens with `$$` and holds a `;`.
pub open spec fn dgs_signature(text: Seq<char>) -> bool {
    match first_significant(split_lines(strip_bom(text))) {
        Some(line) => starts_with(line, seq!['$', '$']) && line.contains(';'),
        None => false,
    }
}

/// How many bytes of a source the DGS signature reads.
pub open spec fn head_len(bytes: Seq<u8>) -> int {
    if bytes.len() < 4096 {
        bytes.len() as int
    } else {
        4096
    }
}

proof fn lemma_first_significant_skip(s: Seq<char>, p: int, e: int)
    requires
        0 <= p <= e < s.len(),
        e == p + first_nl(s.skip(p)),
        !significant(s.subrange(p, e)),
    ensures
        first_significant(split_lines(s.skip(p))) == first_significant(split_lines(s.skip(e + 1))),
{
    lemma_split_lines_step(s, p, e);
    let ls = split_lines(s.skip(p));
    assert(ls.drop_first() =~= split_lines(s.skip(e + 1)));
}

fn holds_semicolon(s: &[char], lo: usize, hi: usize) -> (b: bool)
    requires
        lo <= hi <= s@.len(),
    ensures
        b == s@.subrange(lo as int, hi as int).contains(';'),
{
    let mut i = lo;
    while i < hi
        invariant
            lo <= i <= hi <= s@.len(),
            forall|k: int| lo <= k < i ==> s@[k] != ';',
        decreases hi - i,
    {
        if s[i] == ';' {
            assert(s@.subrange(lo as int, hi as int)[i - lo] == ';');
            return true;
        }
        i = i + 1;
    }
    assert forall|k: int| 0 <= k < hi - lo implies s@.subrange(lo as int, hi as int)[k] != ';' by {
        assert(s@.subrange(lo as int, hi as int)[k] == s@[lo + k]);
    }
    false
}

/// Whether `bytes` open like a DGS export: the first table header is
/// `$$General` or another `$$Class` line after optional comments.
pub fn looks_like_dgs(bytes: &[u8]) -> (b: bool)
    ensures
        b == dgs_signature(lossy_utf8(bytes@.take(head_len(bytes@)))),
        vstd::utf8::valid_utf8(bytes@.take(head_len(bytes@))) ==> b == dgs_signature(
            vstd::utf8::decode_utf8(bytes@.take(head_len(bytes@))),
        ),
{
    let n = if bytes.len() < 4096 {
        bytes.len()
    } else {
        4096
    };
    let head = vstd::slice::slice_subrange(bytes, 0, n);
    assert(head@ =~= bytes@.take(head_len(bytes@)));
    let decoded = utf8_lossy(head);
    let s = chars_of(decoded.as_str());
    let mut p: usize = 0;
    assert(s@.skip(0) =~= s@);
    while p < s.len() && s[p] == '\u{feff}'
        invariant
            s@ == lossy_utf8(bytes@.take(head_len(bytes@))),
            vstd::utf8::valid_utf8(bytes@.take(head_len(bytes@))) ==> lossy_utf8(bytes@.take(head_len(bytes@)))
                == vstd::utf8::decode_utf8(bytes@.take(head_len(bytes@))),
            p <= s@.len(),
            strip_bom(s@) == strip_bom(s@.skip(p as int)),
        decreases s@.len() - p,
    {
        proof {
            assert(s@.skip(p as int).drop_first() =~= s@.skip(p + 1));
        }
        p = p + 1;
    }
    proof {
        assert(strip_bom(s@.skip(p as int)) == s@.skip(p as int));
    }
    let ghost text = s@.skip(p as int);
    assert(dgs_signature(s@) == dgs_signature(text));
    loop
        invariant
            s@ == lossy_utf8(bytes@.take(head_len(bytes@))),
            vstd::utf8::valid_utf8(bytes@.take(head_len(bytes@))) ==> lossy_utf8(bytes@.take(head_len(bytes@)))
                == vstd::utf8::decode_utf8(bytes@.take(head_len(bytes@))),
            p <= s@.len(),
            first_significant(split_lines(text)) == first_significant(
                split_lines(s@.skip(p as int)),
            ),
            dgs_signature(s@) == (match first_significant(split_lines(text)) {
                Some(line) => starts_with(line, seq!['$', '$']) && line.contains(';'),
                None => false,
            }),
        decreases s@.len() - p,
    {
        let e = line_end(&s, p);
        let (a, z) = trim_bounds(&s, p, e);
        if a < z && s[a] != '*' {
            proof {
                if e < s@.len() {
                    lemma_split_lines_step(s@, p as int, e as int);
                } else {
                    lemma_split_lines_last(s@, p as int);
                }
                assert(trim(s@.subrange(p as int, e as int))[0] == s@[a as int]);
            }
            let dollars = z - a >= 2 && s[a] == '$' && s[a + 1] == '$';
            proof {
                let line = s@.subrange(a as int, z as int);
                if z - a >= 2 {
                    assert(dollars == (line.take(2) =~= seq!['$', '$']));
                }
            }
            return dollars && holds_semicolon(&s, a, z);
        }
        if e >= s.len() {
            proof {
                lemma_split_lines_last(s@, p as int);
                let ls = split_lines(s@.skip(p as int));
                assert(ls.drop_first() =~= Seq::<Seq<char>>::empty());
                assert(first_significant(ls.drop_first()) == None::<Seq<char>>);
            }
            return false;
        }
        proof {
            lemma_first_significant_skip(s@, p as int, e as int);
        }
        p = e + 1;
    }
}

/// The refusal for an encrypted `.pfd` project file: the bytes carry no
/// readable tables, and the way out is a DGS export.
pub fn encrypted_project_message(name: &str) -> (r: String)
    ensures
        r@ == name@ + " is a DIgSILENT PowerFactory .pfd project file, which is encrypted and readable only by the PowerFactory application; export the study case as DGS V5 ASCII (File > Export > DGS) and read the .dgs file"@,
{
    let mut out = chars_of(name);
    push_str(
        &mut out,
        " is a DIgSILENT PowerFactory .pfd project file, which is encrypted and readable only by the PowerFactory application; export the study case as DGS V5 ASCII (File > Export > DGS) and read the .dgs file",
    );
    string_of(&out)
}

/// A format name folded to ASCII lower case with every `-` and `_` removed.
pub open spec fn name_key(s: Seq<char>) -> Seq<char>
    decreases s.len(),
{
    if s.len() == 0 {
        Seq::empty()
    } else if s.last() == '-' || s.last() == '_' {
        name_key(s.drop_last())
    } else {
        name_key(s.drop_last()).push(ascii_lower(s.last()))
    }
}

/// The declared format names that mean a `.pfd` project file.
pub open spec fn project_name(s: Seq<char>) -> bool {
    let key = name_key(s);
    key == "pfd"@ || key == "powerfactorypfd"@ || key == "powerfactoryproject"@
}

/// Whether a declared format name means a `.pfd` project file.
pub fn is_project_name(name: &str) -> (b: bool)
    ensures
        b == project_name(name@),
{
    let s = chars_of(name);
    let mut key: Vec<char> = Vec::new();
    let mut i: usize = 0;
    while i < s.len()
        invariant
            i <= s@.len(),
            key@ == name_key(s@.take(i as int)),
        decreases s@.len() - i,
    {
        let c = s[i];
        proof {
            assert(s@.take(i + 1).drop_last() =~= s@.take(i as int));
        }
        if c != '-' && c != '_' {
            key.push(to_ascii_lower(c));
        }
        i = i + 1;
    }
    assert(s@.take(s@.len() as int) =~= s@);
    let a = chars_of("pfd");
    let b = chars_of("powerfactorypfd");
    let c = chars_of("powerfactoryproject");
    chars_eq(&key, &a) || chars_eq(&key, &b) || chars_eq(&key, &c)
}

/// The one line of guidance that lists route markers: the first three
/// joined by `; `, then a count of the rest.
pub open spec fn marker_summary(markers: Seq<Seq<char>>) -> Seq<char> {
    let shown = join(markers.take(if markers.len() < 3 { markers.len() as int } else { 3 }), "; "@);
    if markers.len() > 3 {
        shown + "; and "@ + nat_text((markers.len() - 3) as nat) + " more"@
    } else {
        shown
    }
}

/// The first markers and a count of the rest, for one line of guidance.
pub fn summarize_markers(markers: &[String]) -> (r: String)
    ensures
        r@ == marker_summary(views(markers@)),
{
    let ghost ms = views(markers@);
    let n = if markers.len() < 3 {
        markers.len()
    } else {
        3
    };
    let mut out: Vec<char> = Vec::new();
    let mut i: usize = 0;
    while i < n
        invariant
            n <= markers@.len(),
            n == (if markers@.len() < 3 { markers@.len() } else { 3 }),
            ms == views(markers@),
            i <= n,
            out@ == join(ms.take(i as int), "; "@),
        decreases n - i,
    {
        let item = chars_of(markers[i].as_str());
        proof {
            assert(ms.take(i + 1).drop_last() =~= ms.take(i as int));
            assert(ms.take(i + 1).last() == markers@[i as int]@);
        }
        if i > 0 {
            push_str(&mut out, "; ");
        } else {
            assert(ms.take(1) =~= seq![ms[0]]);
        }
        push_chars(&mut out, &item);
        i = i + 1;
    }
    if markers.len() > 3 {
        push_str(&mut out, "; and ");
        push_nat(&mut out, (markers.len() - 3) as u64);
        push_str(&mut out, " more");
    }
    string_of(&out)
}

/// Why an export is not read as a balanced network.
#[derive(Debug, PartialEq, Eq)]
pub enum BalancedRefusal {
    /// The export carries conductor level data; the guidance names the
    /// reader that takes it.
    NeedsMulticonductor(String),
    /// The export justifies neither family; the reason says why.
    Undecided(String),
}

/// The guidance for an export that needs the multiconductor model.
pub open spec fn multiconductor_guidance(markers: Seq<Seq<char>>) -> Seq<char> {
    "the DGS export carries conductor level data ("@ + marker_summary(markers)
        + "), which the balanced transmission parser does not read; parse it through the one module family (`powerio::parse` in Rust and `parse` in the language bindings), which routes it to the multiconductor network"@
}

/// Whether a routed export is read as a balanced network: nothing when it
/// is, else why not.
pub fn balanced_refusal(route: &route::DgsRoute) -> (r: Option<BalancedRefusal>)
    ensures
        match route@ {
            route::DgsRouteV::Balanced => r is None,
            route::DgsRouteV::Multiconductor(ms) => r matches Some(BalancedRefusal::NeedsMulticonductor(m)) && m@
                == multiconductor_guidance(ms),
            route::DgsRouteV::Undecided(reason) => r matches Some(BalancedRefusal::Undecided(m)) && m@ == reason,
        },
{
    match route {
        route::DgsRoute::Balanced => None,
        route::DgsRoute::Multiconductor(markers) => {
            let summary = summarize_markers(markers.as_slice());
            let mut m: Vec<char> = Vec::new();
            push_str(&mut m, "the DGS export carries conductor level data (");
            push_str(&mut m, summary.as_str());
            push_str(
                &mut m,
                "), which the balanced transmission parser does not read; parse it through the one module family (`powerio::parse` in Rust and `parse` in the language bindings), which routes it to the multiconductor network",
            );
            Some(BalancedRefusal::NeedsMulticonductor(string_of(&m)))
        },
        route::DgsRoute::Undecided(reason) => {
            let cs = chars_of(reason.as_str());
            Some(BalancedRefusal::Undecided(string_of(&cs)))
        },
    }
}

} // verus!
