//! Bus types and element key order of the Egret `ModelData` JSON format.

use vstd::prelude::*;

use crate::network::BusType;
use crate::text::{chars_eq, chars_less, chars_lt, chars_of, is_digit, parse_i64, parse_i64_spec};

verus! {

/// The Egret spelling of a bus type.
pub open spec fn bustype_text(kind: BusType) -> Seq<char> {
    match kind {
        BusType::Pq => "PQ"@,
        BusType::Pv => "PV"@,
        BusType::Ref => "ref"@,
        BusType::Isolated => "isolated"@,
    }
}

/// The Egret spelling of a bus type.
pub fn bustype(kind: BusType) -> (r: &'static str)
    ensures
        r@ == bustype_text(kind),
{
    match kind {
        BusType::Pq => "PQ",
        BusType::Pv => "PV",
        BusType::Ref => "ref",
        BusType::Isolated => "isolated",
    }
}

/// The bus type an Egret spelling names; anything unknown is a load bus.
pub open spec fn bustype_of(s: Seq<char>) -> BusType {
    if s == "PV"@ {
        BusType::Pv
    } else if s == "ref"@ {
        BusType::Ref
    } else if s == "isolated"@ {
        BusType::Isolated
    } else {
        BusType::Pq
    }
}

/// The bus type an Egret spelling names; anything unknown is a load bus.
pub fn bustype_from_str(s: &str) -> (r: BusType)
    ensures
        r == bustype_of(s@),
{
    let cs = chars_of(s);
    let pv = chars_of("PV");
    let rf = chars_of("ref");
    let iso = chars_of("isolated");
    if chars_eq(&cs, &pv) {
        BusType::Pv
    } else if chars_eq(&cs, &rf) {
        BusType::Ref
    } else if chars_eq(&cs, &iso) {
        BusType::Isolated
    } else {
        BusType::Pq
    }
}

/// Where the trailing run of ASCII digits of `s` starts.
pub open spec fn digits_start(s: Seq<char>, n: int) -> int
    decreases n,
{
    if n <= 0 {
        0
    } else if is_digit(s[n - 1]) {
        digits_start(s, n - 1)
    } else {
        n
    }
}

/// The integer the trailing digits of a key spell (`"5"` is 5, `"load_10"`
/// is 10); a key without trailing digits, or whose digits overflow `i64`,
/// sorts last.
pub open spec fn num_key_spec(k: Seq<char>) -> i64 {
    match parse_i64_spec(k.subrange(digits_start(k, k.len() as int), k.len() as int)) {
        Some(v) => v,
        None => i64::MAX,
    }
}

/// The integer the trailing digits of a key spell, `i64::MAX` without one.
pub fn num_key(k: &str) -> (r: i64)
    ensures
        r == num_key_spec(k@),
{
    let cs = chars_of(k);
    let n = cs.len();
    let mut start = n;
    while start > 0 && '0' <= cs[start - 1] && cs[start - 1] <= '9'
        invariant
            start <= n == cs@.len(),
            cs@ == k@,
            digits_start(k@, n as int) == digits_start(k@, start as int),
        decreases start,
    {
        start = start - 1;
    }
    match parse_i64(&cs, start, n) {
        Some(v) => v,
        None => i64::MAX,
    }
}


/// Whether a row keyed `a` sorts before one keyed `b`: by the trailing
/// number of the key, then by the key as text, so that `load_2` comes
/// before `load_10`.
pub open spec fn key_before(a: Seq<char>, b: Seq<char>) -> bool {
    num_key_spec(a) < num_key_spec(b) || (num_key_spec(a) == num_key_spec(b) && chars_lt(a, b))
}

/// The key order is a strict total order.
pub proof fn lemma_key_order(a: Seq<char>, b: Seq<char>, c: Seq<char>)
    ensures
        !key_before(a, a),
        key_before(a, b) && key_before(b, c) ==> key_before(a, c),
        a != b ==> key_before(a, b) || key_before(b, a),
        key_before(a, b) ==> !key_before(b, a),
{
    crate::text::lemma_lt_irreflexive(a, 0);
    if key_before(a, b) && key_before(b, c) && chars_lt(a, b) && chars_lt(b, c) {
        crate::text::lemma_lt_transitive(a, b, c, 0);
    }
    if a != b {
        assert(a.subrange(0, a.len() as int) =~= a);
        assert(b.subrange(0, b.len() as int) =~= b);
        crate::text::lemma_lt_total(a, b, 0);
    }
    if chars_lt(a, b) && chars_lt(b, a) {
        crate::text::lemma_lt_transitive(a, b, a, 0);
    }
}

/// Whether `out` is `orig` stably sorted by key, `p` saying where each row
/// of `out` came from.
pub open spec fn stably_sorted<T>(orig: Seq<(String, T)>, out: Seq<(String, T)>, p: Seq<int>) -> bool {
    &&& p.len() == out.len() == orig.len()
    &&& forall|i: int| 0 <= i < out.len() ==> 0 <= #[trigger] p[i] < orig.len() && out[i] == orig[p[i]]
    &&& forall|i: int, j: int| 0 <= i < j < out.len() ==> #[trigger] p[i] != #[trigger] p[j]
    &&& forall|i: int, j: int| 0 <= i < j < out.len() ==> !key_before(#[trigger] out[j].0@, #[trigger] out[i].0@)
    &&& forall|i: int, j: int|
        0 <= i < j < out.len() && (#[trigger] out[i]).0@ == (#[trigger] out[j]).0@ ==> p[i] < p[j]
}

fn key_less(a: &str, b: &str) -> (r: bool)
    ensures
        r == key_before(a@, b@),
{
    let x = num_key(a);
    let y = num_key(b);
    x < y || (x == y && chars_less(&chars_of(a), &chars_of(b)))
}

/// Table rows ordered by the trailing number of their key, then by the key,
/// rows of the same key keeping their order.
pub fn sorted_table<T>(rows: Vec<(String, T)>) -> (r: Vec<(String, T)>)
    ensures
        exists|p: Seq<int>| stably_sorted(rows@, r@, p),
{
    let ghost orig = rows@;
    let mut rest = rows;
    let mut out: Vec<(String, T)> = Vec::new();
    let ghost mut p: Seq<int> = Seq::empty();
    let n = rest.len();
    let mut k: usize = 0;
    while k < n
        invariant
            k <= n == orig.len(),
            rest@ == orig.skip(k as int),
            out@.len() == k,
            p.len() == k,
            forall|i: int| 0 <= i < k ==> 0 <= #[trigger] p[i] < k && out@[i] == orig[p[i]],
            forall|i: int, j: int| 0 <= i < j < k ==> #[trigger] p[i] != #[trigger] p[j],
            forall|i: int, j: int| 0 <= i < j < k ==> !key_before(#[trigger] out@[j].0@, #[trigger] out@[i].0@),
            forall|i: int, j: int|
                0 <= i < j < k && (#[trigger] out@[i]).0@ == (#[trigger] out@[j]).0@ ==> p[i] < p[j],
        decreases n - k,
    {
        assert(rest@[0] == orig[k as int]);
        let row = rest.remove(0);
        assert(rest@ =~= orig.skip(k as int + 1));
        let mut pos: usize = 0;
        while pos < out.len() && !key_less(row.0.as_str(), out[pos].0.as_str())
            invariant
                pos <= out@.len() == k,
                forall|i: int| 0 <= i < pos ==> !key_before(row.0@, #[trigger] out@[i].0@),
            decreases out@.len() - pos,
        {
            pos = pos + 1;
        }
        let ghost old_out = out@;
        let ghost old_p = p;
        let ghost rv = row;
        proof {
            if pos < k {
                assert(key_before(row.0@, old_out[pos as int].0@));
            }
        }
        out.insert(pos, row);
        proof {
            p = old_p.insert(pos as int, k as int);
            assert(out@ == old_out.insert(pos as int, rv));
            assert forall|i: int| 0 <= i < k + 1 implies 0 <= #[trigger] p[i] < k + 1 && out@[i] == orig[p[i]] by {
                if i < pos {
                    assert(p[i] == old_p[i] && out@[i] == old_out[i]);
                } else if i > pos {
                    assert(p[i] == old_p[i - 1] && out@[i] == old_out[i - 1]);
                }
            }
            assert forall|i: int, j: int| 0 <= i < j < k + 1 implies #[trigger] p[i] != #[trigger] p[j] by {
                if i != pos && j != pos {
                    let a = if i < pos { i } else { i - 1 };
                    let b = if j < pos { j } else { j - 1 };
                    assert(p[i] == old_p[a] && p[j] == old_p[b]);
                } else if i == pos {
                    let b = if j < pos { j } else { j - 1 };
                    assert(p[j] == old_p[b]);
                } else {
                    let a = if i < pos { i } else { i - 1 };
                    assert(p[i] == old_p[a]);
                }
            }
            assert forall|i: int, j: int| 0 <= i < j < k + 1 implies !key_before(
                #[trigger] out@[j].0@,
                #[trigger] out@[i].0@,
            ) by {
                let a = if i < pos { i } else { i - 1 };
                let b = if j < pos { j } else { j - 1 };
                if i != pos && j != pos {
                    assert(out@[i] == old_out[a] && out@[j] == old_out[b]);
                } else if i == pos {
                    assert(out@[i] == rv && out@[j] == old_out[b]);
                    if b > pos {
                        lemma_key_order(rv.0@, old_out[pos as int].0@, old_out[b].0@);
                        lemma_key_order(old_out[b].0@, old_out[pos as int].0@, rv.0@);
                        lemma_key_order(old_out[pos as int].0@, old_out[b].0@, rv.0@);
                    }
                    lemma_key_order(rv.0@, old_out[b].0@, rv.0@);
                } else {
                    assert(out@[j] == rv && out@[i] == old_out[a]);
                }
            }
            assert forall|i: int, j: int|
                0 <= i < j < k + 1 && (#[trigger] out@[i]).0@ == (#[trigger] out@[j]).0@ implies p[i] < p[j] by {
                let a = if i < pos { i } else { i - 1 };
                let b = if j < pos { j } else { j - 1 };
                if i != pos && j != pos {
                    assert(out@[i] == old_out[a] && out@[j] == old_out[b]);
                    assert(p[i] == old_p[a] && p[j] == old_p[b]);
                } else if i == pos {
                    assert(out@[j] == old_out[b]);
                    lemma_key_order(rv.0@, old_out[pos as int].0@, rv.0@);
                    if b > pos {
                        lemma_key_order(rv.0@, old_out[pos as int].0@, old_out[b].0@);
                    }
                } else {
                    assert(p[i] == old_p[a]);
                }
            }
        }
        k = k + 1;
    }
    assert(stably_sorted(orig, out@, p));
    out
}
} // verus!
