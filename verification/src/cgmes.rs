//! CGMES (IEC 61970-552 CIMXML) text conventions: the profile documents a
//! writer emits, the escaping of element text, and the identifier spellings
//! an instance file may use.

use vstd::prelude::*;

pub mod xml;
pub mod pull;
pub mod graph;
pub mod mrid;
pub mod doc;

use crate::text::{chars_of, push_chars, push_str, starts_with, string_of};

verus! {

/// The emitted profile documents, `(file_name, xml)` in EQ/TP/SSH/SV order,
/// plus every fidelity loss the writer took.
pub struct CgmesFiles {
    pub files: Vec<(String, String)>,
    pub warnings: Vec<String>,
}

/// The escape of one character of element text.
pub open spec fn escape_char(c: char) -> Seq<char> {
    if c == '&' {
        "&amp;"@
    } else if c == '<' {
        "&lt;"@
    } else if c == '>' {
        "&gt;"@
    } else {
        seq![c]
    }
}

/// Element text with `&`, `<`, and `>` written as entities.
pub open spec fn escaped(s: Seq<char>) -> Seq<char>
    decreases s.len(),
{
    if s.len() == 0 {
        Seq::empty()
    } else {
        escaped(s.drop_last()) + escape_char(s.last())
    }
}

/// Escape element text: `&` first, then `<` and `>`.
pub fn esc(text: &str) -> (r: String)
    ensures
        r@ == escaped(text@),
{
    let cs = chars_of(text);
    let mut out: Vec<char> = Vec::new();
    let mut i: usize = 0;
    while i < cs.len()
        invariant
            i <= cs@.len(),
            cs@ == text@,
            out@ == escaped(cs@.take(i as int)),
        decreases cs@.len() - i,
    {
        let c = cs[i];
        let ghost before = out@;
        if c == '&' {
            push_str(&mut out, "&amp;");
        } else if c == '<' {
            push_str(&mut out, "&lt;");
        } else if c == '>' {
            push_str(&mut out, "&gt;");
        } else {
            out.push(c);
        }
        proof {
            assert(cs@.take(i + 1).drop_last() =~= cs@.take(i as int));
            assert(cs@.take(i + 1).last() == c);
            assert(out@ =~= before + escape_char(c));
        }
        i = i + 1;
    }
    assert(cs@.take(cs@.len() as int) =~= cs@);
    string_of(&out)
}

/// The offset of the last `c` in the first `n` characters of `s`.
pub open spec fn last_index(s: Seq<char>, c: char, n: int) -> Option<int>
    decreases n,
{
    if n <= 0 {
        None
    } else if s[n - 1] == c {
        Some(n - 1)
    } else {
        last_index(s, c, n - 1)
    }
}

/// The bare identifier the three spellings 61970-552 allows share: without
/// `urn:uuid:`, anything up to the last `#`, and one leading `_`.
pub open spec fn normalized_id(raw: Seq<char>) -> Seq<char> {
    let s1 = if starts_with(raw, "urn:uuid:"@) {
        raw.skip(9)
    } else {
        raw
    };
    let s2 = match last_index(s1, '#', s1.len() as int) {
        Some(i) => s1.skip(i + 1),
        None => s1,
    };
    if s2.len() > 0 && s2[0] == '_' {
        s2.skip(1)
    } else {
        s2
    }
}

/// Strip `urn:uuid:`, any `...#` prefix, and one leading `_`.
pub fn normalize_id(raw: &str) -> (r: String)
    ensures
        r@ == normalized_id(raw@),
{
    let cs = chars_of(raw);
    let n = cs.len();
    assert(cs@.subrange(0, n as int) =~= cs@);
    let urn = crate::text::range_starts_with(&cs, 0, n, "urn:uuid:");
    proof {
        reveal_strlit("urn:uuid:");
    }
    let a: usize = if urn {
        9
    } else {
        0
    };
    let ghost s1 = if urn {
        cs@.skip(9)
    } else {
        cs@
    };
    assert(s1 =~= cs@.subrange(a as int, n as int));
    let mut j = n;
    while j > a && cs[j - 1] != '#'
        invariant
            a <= j <= n == cs@.len(),
            s1 == cs@.subrange(a as int, n as int),
            last_index(s1, '#', s1.len() as int) == last_index(s1, '#', (j - a) as int),
        decreases j,
    {
        assert(s1[j - 1 - a] == cs@[j - 1]);
        j = j - 1;
    }
    proof {
        if j > a {
            assert(s1[j - 1 - a] == cs@[j - 1]);
        }
    }
    let b = j;
    let ghost s2 = match last_index(s1, '#', s1.len() as int) {
        Some(i) => s1.skip(i + 1),
        None => s1,
    };
    assert(s2 =~= cs@.subrange(b as int, n as int));
    let start = if b < n && cs[b] == '_' {
        b + 1
    } else {
        b
    };
    let mut out: Vec<char> = Vec::new();
    let mut i = start;
    while i < n
        invariant
            start <= i <= n == cs@.len(),
            out@ == cs@.subrange(start as int, i as int),
        decreases n - i,
    {
        out.push(cs[i]);
        i = i + 1;
        assert(out@ =~= cs@.subrange(start as int, i as int));
    }
    proof {
        if b < n && cs@[b as int] == '_' {
            assert(s2[0] == cs@[b as int]);
            assert(s2.skip(1) =~= out@);
        } else {
            if s2.len() > 0 {
                assert(s2[0] == cs@[b as int]);
            }
            assert(s2 =~= out@);
        }
    }
    string_of(&out)
}


proof fn lemma_escape_char_clean(c: char)
    ensures
        forall|i: int| 0 <= i < escape_char(c).len() ==> #[trigger] escape_char(c)[i] != '<' && escape_char(c)[i] != '>',
        !(c == '&' || c == '<' || c == '>') ==> escape_char(c) == seq![c],
{
    reveal_strlit("&amp;");
    reveal_strlit("&lt;");
    reveal_strlit("&gt;");
}

/// Escaped element text holds no `<` or `>`, so it cannot open or close an
/// element; text without `&`, `<` and `>` is written as it is.
pub proof fn law_escaped_text_holds_no_markup(s: Seq<char>)
    ensures
        forall|i: int| 0 <= i < escaped(s).len() ==> #[trigger] escaped(s)[i] != '<' && escaped(s)[i] != '>',
        (forall|i: int| 0 <= i < s.len() ==> !(#[trigger] s[i] == '&' || s[i] == '<' || s[i] == '>')) ==> escaped(s)
            == s,
    decreases s.len(),
{
    if s.len() > 0 {
        let init = s.drop_last();
        law_escaped_text_holds_no_markup(init);
        lemma_escape_char_clean(s.last());
        let a = escaped(init);
        let b = escape_char(s.last());
        assert forall|i: int| 0 <= i < escaped(s).len() implies #[trigger] escaped(s)[i] != '<' && escaped(s)[i]
            != '>' by {
            if i < a.len() {
                assert(escaped(s)[i] == a[i]);
            } else {
                assert(escaped(s)[i] == b[i - a.len()]);
            }
        }
        if forall|i: int| 0 <= i < s.len() ==> !(#[trigger] s[i] == '&' || s[i] == '<' || s[i] == '>') {
            assert forall|i: int| 0 <= i < init.len() implies !(#[trigger] init[i] == '&' || init[i] == '<' || init[i]
                == '>') by {
                assert(init[i] == s[i]);
            }
            assert(s.last() == s[s.len() - 1]);
            assert(escaped(s) =~= init + seq![s.last()]);
            assert(init + seq![s.last()] =~= s);
        }
    } else {
        assert(escaped(s) =~= s);
    }
}

proof fn lemma_last_index(s: Seq<char>, c: char, n: int)
    requires
        0 <= n <= s.len(),
    ensures
        match last_index(s, c, n) {
            Some(i) => 0 <= i < n && s[i] == c && forall|j: int| i < j < n ==> #[trigger] s[j] != c,
            None => forall|j: int| 0 <= j < n ==> #[trigger] s[j] != c,
        },
    decreases n,
{
    if n > 0 && s[n - 1] != c {
        lemma_last_index(s, c, n - 1);
    }
}

/// A normalized identifier holds no `#`: whatever came before the last one
/// is gone.
pub proof fn law_normalized_ids_hold_no_hash(raw: Seq<char>)
    ensures
        forall|i: int| 0 <= i < normalized_id(raw).len() ==> #[trigger] normalized_id(raw)[i] != '#',
{
    let s1 = if starts_with(raw, "urn:uuid:"@) {
        raw.skip(9)
    } else {
        raw
    };
    lemma_last_index(s1, '#', s1.len() as int);
    let s2 = match last_index(s1, '#', s1.len() as int) {
        Some(i) => s1.skip(i + 1),
        None => s1,
    };
    assert forall|j: int| 0 <= j < s2.len() implies #[trigger] s2[j] != '#' by {
        match last_index(s1, '#', s1.len() as int) {
            Some(i) => {
                assert(s2[j] == s1[i + 1 + j]);
            },
            None => {},
        }
    }
    let r = normalized_id(raw);
    assert forall|i: int| 0 <= i < r.len() implies #[trigger] r[i] != '#' by {
        if s2.len() > 0 && s2[0] == '_' {
            assert(r[i] == s2[i + 1]);
        } else {
            assert(r[i] == s2[i]);
        }
    }
}
} // verus!
