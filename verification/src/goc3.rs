//! Key order and bus identities of the GO Competition Challenge 3 JSON
//! format.

use vstd::prelude::*;

pub mod document;

use std::cmp::Ordering;

use crate::text::{all_digits, chars_eq, chars_less, chars_lt, chars_of, parse_u64, parse_u64_spec, parse_usize,
    parse_usize_spec, push_chars, push_str, starts_with, string_of};

verus! {

/// Whether section key `a` sorts before `b`: keys that parse as `u64` come
/// first, by value and then as text; the others follow, as text.
pub open spec fn key_lt(a: Seq<char>, b: Seq<char>) -> bool {
    match (parse_u64_spec(a), parse_u64_spec(b)) {
        (Some(x), Some(y)) => x < y || (x == y && chars_lt(a, b)),
        (Some(_), None) => true,
        (None, Some(_)) => false,
        (None, None) => chars_lt(a, b),
    }
}

/// Whether section key `a` sorts before `b`.
pub fn key_less(a: &str, b: &str) -> (r: bool)
    ensures
        r == key_lt(a@, b@),
{
    let x = chars_of(a);
    let y = chars_of(b);
    assert(x@.subrange(0, x@.len() as int) =~= x@);
    assert(y@.subrange(0, y@.len() as int) =~= y@);
    match (parse_u64(&x, 0, x.len()), parse_u64(&y, 0, y.len())) {
        (Some(p), Some(q)) => p < q || (p == q && chars_less(&x, &y)),
        (Some(_), None) => true,
        (None, Some(_)) => false,
        (None, None) => chars_less(&x, &y),
    }
}

/// Distinct keys are ordered one way or the other.
pub proof fn lemma_key_total(a: Seq<char>, b: Seq<char>)
    requires
        a != b,
    ensures
        key_lt(a, b) != key_lt(b, a),
{
    assert(a.subrange(0, a.len() as int) =~= a);
    assert(b.subrange(0, b.len() as int) =~= b);
    crate::text::lemma_lt_total(a, b, 0);
    if chars_lt(a, b) && chars_lt(b, a) {
        crate::text::lemma_lt_transitive(a, b, a, 0);
        crate::text::lemma_lt_irreflexive(a, 0);
    }
}

/// The order of two section keys: numeric keys by value ahead of
/// non-numeric keys, which order as text. The tiers keep this a total order
/// on mixed key sets.
pub fn compare_keys(a: &str, b: &str) -> (r: Ordering)
    ensures
        r == (if a@ == b@ {
            Ordering::Equal
        } else if key_lt(a@, b@) {
            Ordering::Less
        } else {
            Ordering::Greater
        }),
        r == Ordering::Greater <==> key_lt(b@, a@),
{
    let x = chars_of(a);
    let y = chars_of(b);
    if chars_eq(&x, &y) {
        proof {
            crate::text::lemma_lt_irreflexive(a@, 0);
        }
        Ordering::Equal
    } else {
        proof {
            lemma_key_total(a@, b@);
        }
        if key_less(a, b) {
            Ordering::Less
        } else {
            Ordering::Greater
        }
    }
}

/// The number of an official bus uid `bus_<digits>`, when it fits `usize`.
pub open spec fn bus_suffix_spec(uid: Seq<char>) -> Option<usize> {
    let rest = uid.skip(4);
    if starts_with(uid, "bus_"@) && rest.len() > 0 && all_digits(rest) {
        parse_usize_spec(rest)
    } else {
        None
    }
}

/// The number of an official bus uid `bus_<digits>`.
pub fn official_bus_suffix(uid: &str) -> (r: Option<usize>)
    ensures
        r == bus_suffix_spec(uid@),
{
    let cs = chars_of(uid);
    proof {
        reveal_strlit("bus_");
    }
    if cs.len() < 4 || cs[0] != 'b' || cs[1] != 'u' || cs[2] != 's' || cs[3] != '_' {
        proof {
            if cs@.len() >= 4 && starts_with(uid@, "bus_"@) {
                assert(uid@.take(4)[0] == 'b' && uid@.take(4)[1] == 'u');
                assert(uid@.take(4)[2] == 's' && uid@.take(4)[3] == '_');
            }
        }
        return None;
    }
    assert(uid@.take(4) =~= "bus_"@);
    if cs.len() == 4 {
        return None;
    }
    let mut i: usize = 4;
    while i < cs.len()
        invariant
            4 <= i <= cs@.len(),
            cs@ == uid@,
            forall|k: int| 4 <= k < i ==> crate::text::is_digit(#[trigger] cs@[k]),
        decreases cs@.len() - i,
    {
        if !('0' <= cs[i] && cs[i] <= '9') {
            proof {
                assert(uid@.skip(4)[i - 4] == cs@[i as int]);
            }
            return None;
        }
        i = i + 1;
    }
    assert(cs@.subrange(4, cs@.len() as int) =~= uid@.skip(4));
    parse_usize(&cs, 4, cs.len())
}

/// Whether every uid has an official suffix and no two share one.
pub open spec fn suffixes_unique(uids: Seq<Seq<char>>) -> bool {
    &&& forall|i: int| 0 <= i < uids.len() ==> (#[trigger] bus_suffix_spec(uids[i])) is Some
    &&& forall|i: int, j: int|
        0 <= i < j < uids.len() ==> #[trigger] bus_suffix_spec(uids[i]) != #[trigger] bus_suffix_spec(uids[j])
}

/// Whether the buses take their suffixes plus one as identities: every bus
/// has a unique suffix and every sum fits.
pub open spec fn suffix_ids(uids: Seq<Seq<char>>) -> bool {
    &&& suffixes_unique(uids)
    &&& forall|i: int| 0 <= i < uids.len() ==> (#[trigger] bus_suffix_spec(uids[i]))->Some_0 < usize::MAX
}

/// The bus identity of the `i`th bus: its suffix plus one when every bus has
/// a unique suffix whose sum fits, else, for every bus, its one-based
/// position.
pub open spec fn bus_id_spec(uids: Seq<Seq<char>>, i: int) -> usize {
    if suffix_ids(uids) {
        (bus_suffix_spec(uids[i])->Some_0 + 1) as usize
    } else {
        (i + 1) as usize
    }
}

/// The bus identities of `uids`, in order: the numeric `bus_<n>` suffix plus
/// one when every bus has one, they are unique and every sum fits, else the
/// one-based position in document order for every bus.
pub fn bus_ids(uids: &Vec<String>) -> (r: Vec<usize>)
    ensures
        r@.len() == uids@.len(),
        forall|i: int| 0 <= i < uids@.len() ==> #[trigger] r@[i] == bus_id_spec(crate::text::views(uids@), i),
{
    let ghost us = crate::text::views(uids@);
    let n = uids.len();
    let mut suffixes: Vec<Option<usize>> = Vec::new();
    let mut all_some = true;
    let mut i: usize = 0;
    while i < n
        invariant
            i <= n == uids@.len(),
            us == crate::text::views(uids@),
            suffixes@.len() == i,
            forall|k: int| 0 <= k < i ==> #[trigger] suffixes@[k] == bus_suffix_spec(us[k]),
            all_some == forall|k: int| 0 <= k < i ==> (#[trigger] bus_suffix_spec(us[k])) is Some,
        decreases n - i,
    {
        assert(us[i as int] == uids@[i as int]@);
        let s = official_bus_suffix(uids[i].as_str());
        if s.is_none() {
            all_some = false;
        }
        suffixes.push(s);
        i = i + 1;
    }
    let mut unique = all_some;
    let mut a: usize = 0;
    while a < n && unique
        invariant
            a <= n == uids@.len() == suffixes@.len(),
            us.len() == n,
            forall|k: int| 0 <= k < n ==> #[trigger] suffixes@[k] == bus_suffix_spec(us[k]),
            all_some == forall|k: int| 0 <= k < n ==> (#[trigger] bus_suffix_spec(us[k])) is Some,
            unique ==> all_some,
            unique ==> forall|k: int| 0 <= k < n ==> (#[trigger] suffixes@[k]) is Some,
            unique ==> forall|p: int, q: int|
                0 <= p < a && p < q < n ==> #[trigger] bus_suffix_spec(us[p]) != #[trigger] bus_suffix_spec(us[q]),
            !unique ==> !suffixes_unique(us),
        decreases n - a,
    {
        let mut b: usize = a + 1;
        while b < n && unique
            invariant
                a < n == uids@.len() == suffixes@.len(),
                us.len() == n,
                a + 1 <= b <= n,
                forall|k: int| 0 <= k < n ==> #[trigger] suffixes@[k] == bus_suffix_spec(us[k]),
                unique ==> forall|k: int| 0 <= k < n ==> (#[trigger] suffixes@[k]) is Some,
                unique ==> forall|q: int| a < q < b ==> bus_suffix_spec(us[a as int]) != #[trigger] bus_suffix_spec(us[q]),
                !unique ==> !suffixes_unique(us),
            decreases n - b,
        {
            let same = match (suffixes[a], suffixes[b]) {
                (Some(p), Some(q)) => p == q,
                _ => false,
            };
            if same {
                proof {
                    assert(suffixes@[a as int] == suffixes@[b as int]);
                    assert(bus_suffix_spec(us[a as int]) == bus_suffix_spec(us[b as int]));
                    assert(0 <= a < b < us.len());
                    assert(!suffixes_unique(us));
                }
                unique = false;
            } else {
                proof {
                    if unique {
                        assert(suffixes@[a as int] is Some && suffixes@[b as int] is Some);
                    }
                }
            }
            b = b + 1;
        }
        a = a + 1;
    }
    if !all_some {
        unique = false;
    }
    // The suffixes stand only when every one of them plus one fits.
    let mut fits = unique;
    let mut c: usize = 0;
    while c < n
        invariant
            c <= n == uids@.len() == suffixes@.len(),
            us == crate::text::views(uids@),
            forall|k: int| 0 <= k < n ==> #[trigger] suffixes@[k] == bus_suffix_spec(us[k]),
            unique == suffixes_unique(us),
            fits ==> unique,
            fits == (unique && forall|k: int| 0 <= k < c ==> (#[trigger] bus_suffix_spec(us[k]))->Some_0 < usize::MAX),
        decreases n - c,
    {
        match suffixes[c] {
            Some(s) => {
                if s == usize::MAX {
                    fits = false;
                }
            },
            None => {},
        }
        c = c + 1;
    }
    assert(fits == suffix_ids(us));
    let mut out: Vec<usize> = Vec::new();
    let mut i: usize = 0;
    while i < n
        invariant
            i <= n == uids@.len() == suffixes@.len(),
            us == crate::text::views(uids@),
            forall|k: int| 0 <= k < n ==> #[trigger] suffixes@[k] == bus_suffix_spec(us[k]),
            fits == suffix_ids(us),
            fits ==> forall|k: int| 0 <= k < n ==> (#[trigger] suffixes@[k]) is Some,
            out@.len() == i,
            forall|k: int| 0 <= k < i ==> #[trigger] out@[k] == bus_id_spec(us, k),
        decreases n - i,
    {
        let id = match suffixes[i] {
            Some(s) => if fits {
                s + 1
            } else {
                i + 1
            },
            None => i + 1,
        };
        out.push(id);
        i = i + 1;
    }
    out
}

/// Bus uids with their identities: a later uid that repeats an earlier one
/// wins its lookups.
pub struct Goc3BusMap {
    pub by_uid: Vec<(String, usize)>,
}

/// The identity of the last entry named `uid`.
pub open spec fn last_entry(m: Seq<(String, usize)>, uid: Seq<char>, n: int) -> Option<usize>
    decreases n,
{
    if n <= 0 {
        None
    } else if m[n - 1].0@ == uid {
        Some(m[n - 1].1)
    } else {
        last_entry(m, uid, n - 1)
    }
}

impl Goc3BusMap {
    /// The identity of bus `uid`, or an error that names it.
    pub fn get(&self, uid: &str) -> (r: Result<usize, String>)
        ensures
            match last_entry(self.by_uid@, uid@, self.by_uid@.len() as int) {
                Some(id) => r == Ok::<usize, String>(id),
                None => r matches Err(e) && e@ == "unknown bus uid `"@ + uid@ + "`"@,
            },
    {
        let want = chars_of(uid);
        let mut j = self.by_uid.len();
        while j > 0
            invariant
                j <= self.by_uid@.len(),
                want@ == uid@,
                last_entry(self.by_uid@, uid@, self.by_uid@.len() as int) == last_entry(self.by_uid@, uid@, j as int),
            decreases j,
        {
            let name = chars_of(self.by_uid[j - 1].0.as_str());
            if chars_eq(&name, &want) {
                return Ok(self.by_uid[j - 1].1);
            }
            j = j - 1;
        }
        let mut m: Vec<char> = Vec::new();
        push_str(&mut m, "unknown bus uid `");
        push_chars(&mut m, &want);
        push_str(&mut m, "`");
        Err(string_of(&m))
    }
}


/// Section keys are totally ordered, numeric and text keys mixed: no key
/// sorts before itself, the order is transitive, and of two distinct keys
/// one sorts first. A comparator for a sort needs all three.
pub proof fn law_section_keys_are_totally_ordered(a: Seq<char>, b: Seq<char>, c: Seq<char>)
    ensures
        !key_lt(a, a),
        key_lt(a, b) && key_lt(b, c) ==> key_lt(a, c),
        a != b ==> key_lt(a, b) || key_lt(b, a),
        key_lt(a, b) ==> !key_lt(b, a),
{
    crate::text::lemma_lt_irreflexive(a, 0);
    if key_lt(a, b) && key_lt(b, c) {
        if chars_lt(a, b) && chars_lt(b, c) {
            crate::text::lemma_lt_transitive(a, b, c, 0);
        }
    }
    if a != b {
        lemma_key_total(a, b);
    }
    if key_lt(a, b) && key_lt(b, a) {
        if chars_lt(a, b) && chars_lt(b, a) {
            crate::text::lemma_lt_transitive(a, b, a, 0);
        }
    }
}
/// No two buses share an identity: either every bus takes its unique suffix
/// plus one, or every bus takes its position.
pub proof fn law_bus_ids_are_distinct(uids: Seq<Seq<char>>, i: int, j: int)
    requires
        0 <= i < j < uids.len() <= usize::MAX,
    ensures
        bus_id_spec(uids, i) != bus_id_spec(uids, j),
{
    if suffix_ids(uids) {
        assert(bus_suffix_spec(uids[i]) != bus_suffix_spec(uids[j]));
        assert(bus_suffix_spec(uids[i]) is Some && bus_suffix_spec(uids[j]) is Some);
        assert(bus_suffix_spec(uids[i])->Some_0 < usize::MAX && bus_suffix_spec(uids[j])->Some_0 < usize::MAX);
    }
}

} // verus!
