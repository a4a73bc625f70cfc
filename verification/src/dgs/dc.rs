//! The DC side of an export: the networks behind the DC sides of the
//! `ElmVsc` converters. A walk from each DC side terminal follows every two
//! terminal branch (`ElmLne`, `ElmCoup`, `ElmZpu`), open or closed; the
//! terminals and branches it reaches form one DC island, and the islands
//! between the same converters (the two poles of one link) form one record.

use vstd::prelude::*;

use super::document::class_of;
use super::tokens::{document_wf, DgsDocument, DgsDocumentV};
use super::topology::{
    connections_of, distinct, edge_in, find_id, labelled, lemma_linked_edge, lemma_labelled_start, lemma_linked_labels, lemma_linked_symm,
    lemma_linked_trans, lemma_merge, linked, merge_labels, merged_roots, Connection, Connections,
};
use crate::text::{chars_eq, chars_of, nat_text, push_nat, push_str, string_of};

verus! {

broadcast use vstd::string::group_string_axioms;

/// The classes of the two terminal branches the walk follows.
pub open spec fn walk_class(c: Seq<char>) -> bool {
    c == "ElmLne"@ || c == "ElmCoup"@ || c == "ElmZpu"@
}

/// The two terminal branches among the first `n` objects, in file order:
/// both terminals and the branch's id.
pub open spec fn walk_edges(d: DgsDocumentV, n: int) -> Seq<(i64, i64, i64)>
    decreases n,
{
    if n <= 0 {
        Seq::empty()
    } else {
        let c = connections_of(d, d.objects[n - 1].id);
        if walk_class(class_of(d, n - 1)) && c.len() == 2 {
            walk_edges(d, n - 1).push((c[0].terminal, c[1].terminal, d.objects[n - 1].id))
        } else {
            walk_edges(d, n - 1)
        }
    }
}

/// The terminal pairs of branches.
pub open spec fn ends(e: Seq<(i64, i64, i64)>) -> Seq<(i64, i64)> {
    e.map_values(|x: (i64, i64, i64)| (x.0, x.1))
}

/// The terminals of the DC sides (side 1 and up) among connections.
pub open spec fn dc_ends(c: Seq<Connection>) -> Seq<i64>
    decreases c.len(),
{
    if c.len() == 0 {
        Seq::empty()
    } else if c.last().side >= 1 {
        dc_ends(c.drop_last()).push(c.last().terminal)
    } else {
        dc_ends(c.drop_last())
    }
}

/// The DC side terminals of the converters among the first `n` objects, in
/// file order: where the walks start.
pub open spec fn converter_seeds(d: DgsDocumentV, n: int) -> Seq<i64>
    decreases n,
{
    if n <= 0 {
        Seq::empty()
    } else if class_of(d, n - 1) == "ElmVsc"@ {
        converter_seeds(d, n - 1) + dc_ends(connections_of(d, d.objects[n - 1].id))
    } else {
        converter_seeds(d, n - 1)
    }
}

/// Whether object `k` is a converter with a DC side in the network of `s`.
pub open spec fn feeds(d: DgsDocumentV, p: Seq<(i64, i64)>, s: i64, k: int) -> bool {
    let c = connections_of(d, d.objects[k].id);
    &&& class_of(d, k) == "ElmVsc"@
    &&& exists|m: int| #![trigger c[m]] 0 <= m < c.len() && c[m].side >= 1 && linked(p, s, c[m].terminal)
}

/// The ids of the converters among the first `n` objects with a DC side in
/// the network of `s`, in file order.
pub open spec fn island_converters(d: DgsDocumentV, p: Seq<(i64, i64)>, s: i64, n: int) -> Seq<i64>
    decreases n,
{
    if n <= 0 {
        Seq::empty()
    } else if feeds(d, p, s, n - 1) {
        island_converters(d, p, s, n - 1).push(d.objects[n - 1].id)
    } else {
        island_converters(d, p, s, n - 1)
    }
}

/// The converters of the network of `s`.
pub open spec fn converters_of(d: DgsDocumentV, p: Seq<(i64, i64)>, s: i64) -> Seq<i64> {
    island_converters(d, p, s, d.objects.len() as int)
}

/// The converter lists of the first `i` seeds, each once, in order of
/// first appearance: one island record each.
pub open spec fn island_keys(d: DgsDocumentV, p: Seq<(i64, i64)>, seeds: Seq<i64>, i: int) -> Seq<Seq<i64>>
    decreases i,
{
    if i <= 0 {
        Seq::empty()
    } else {
        let k = island_keys(d, p, seeds, i - 1);
        let c = converters_of(d, p, seeds[i - 1]);
        if k.contains(c) {
            k
        } else {
            k.push(c)
        }
    }
}

/// Whether `s` is in strictly ascending order.
pub open spec fn ascending(s: Seq<i64>) -> bool {
    forall|a: int, b: int| 0 <= a < b < s.len() ==> #[trigger] s[a] < #[trigger] s[b]
}

/// Whether terminal `x` is in the network of one of the first `i` seeds
/// whose converters are `key`.
pub open spec fn island_terminal(
    d: DgsDocumentV,
    p: Seq<(i64, i64)>,
    seeds: Seq<i64>,
    i: int,
    key: Seq<i64>,
    x: i64,
) -> bool {
    exists|j: int| #![trigger seeds[j]] 0 <= j < i && converters_of(d, p, seeds[j]) == key && linked(p, seeds[j], x)
}

/// Whether branch `l` touches the network of one of the first `i` seeds
/// whose converters are `key`.
pub open spec fn island_line(
    d: DgsDocumentV,
    e: Seq<(i64, i64, i64)>,
    seeds: Seq<i64>,
    i: int,
    key: Seq<i64>,
    l: i64,
) -> bool {
    exists|j: int, k: int|
        #![trigger seeds[j], e[k]]
        0 <= j < i && 0 <= k < e.len() && converters_of(d, ends(e), seeds[j]) == key && e[k].2 == l && linked(
            ends(e),
            seeds[j],
            e[k].0,
        )
}

/// One DC island: its terminals and branches in ascending id order, and the
/// converters at its edge in file order.
#[derive(Debug, PartialEq, Eq)]
pub struct DcIsland {
    pub terminals: Vec<i64>,
    pub lines: Vec<i64>,
    pub converters: Vec<i64>,
}

/// Whether `isl` is the island of the first `i` seeds whose converters are
/// `key`.
pub open spec fn island_of(
    isl: DcIsland,
    d: DgsDocumentV,
    e: Seq<(i64, i64, i64)>,
    seeds: Seq<i64>,
    i: int,
    key: Seq<i64>,
) -> bool {
    &&& isl.converters@ == key
    &&& ascending(isl.terminals@)
    &&& ascending(isl.lines@)
    &&& forall|x: i64| #[trigger] isl.terminals@.contains(x) <==> island_terminal(d, ends(e), seeds, i, key, x)
    &&& forall|l: i64| #[trigger] isl.lines@.contains(l) <==> island_line(d, e, seeds, i, key, l)
}

/// Adds `x` to an ascending list.
fn insert_id(v: &mut Vec<i64>, x: i64)
    requires
        ascending(old(v)@),
    ensures
        ascending(final(v)@),
        forall|y: i64| #[trigger] final(v)@.contains(y) <==> old(v)@.contains(y) || y == x,
{
    let ghost before = v@;
    let mut p: usize = 0;
    while p < v.len() && v[p] < x
        invariant
            p <= v@.len(),
            v@ == before,
            forall|a: int| 0 <= a < p ==> v@[a] < x,
        decreases v@.len() - p,
    {
        p = p + 1;
    }
    if p < v.len() && v[p] == x {
        assert forall|y: i64| #[trigger] v@.contains(y) <==> before.contains(y) || y == x by {
            if y == x {
                assert(v@[p as int] == x);
            }
        }
        return;
    }
    v.insert(p, x);
    assert(v@ == before.insert(p as int, x));
    assert forall|a: int, b: int| 0 <= a < b < v@.len() implies #[trigger] v@[a] < #[trigger] v@[b] by {
        if b < p {
            assert(v@[a] == before[a] && v@[b] == before[b]);
        } else if b == p {
            assert(v@[a] == before[a]);
        } else if a < p {
            assert(v@[a] == before[a] && v@[b] == before[b - 1]);
            assert(before[p as int] > x);
        } else if a == p {
            assert(v@[b] == before[b - 1]);
            assert(before[p as int] > x);
        } else {
            assert(v@[a] == before[a - 1] && v@[b] == before[b - 1]);
        }
    }
    assert forall|y: i64| #[trigger] v@.contains(y) <==> before.contains(y) || y == x by {
        if v@.contains(y) {
            let c = choose|c: int| 0 <= c < v@.len() && v@[c] == y;
            if c < p {
                assert(before[c] == y);
            } else if c > p {
                assert(before[c - 1] == y);
            }
        }
        if before.contains(y) {
            let c = choose|c: int| 0 <= c < before.len() && before[c] == y;
            if c < p {
                assert(v@[c] == y);
            } else {
                assert(v@[c + 1] == y);
            }
        }
        if y == x {
            assert(v@[p as int] == x);
        }
    }
}

/// Adds the members of `b` to an ascending list.
fn insert_all(a: &mut Vec<i64>, b: &Vec<i64>)
    requires
        ascending(old(a)@),
    ensures
        ascending(final(a)@),
        forall|y: i64| #[trigger] final(a)@.contains(y) <==> old(a)@.contains(y) || b@.contains(y),
{
    let ghost before = a@;
    let mut j: usize = 0;
    while j < b.len()
        invariant
            j <= b@.len(),
            ascending(a@),
            forall|y: i64| #[trigger] a@.contains(y) <==> before.contains(y) || b@.take(j as int).contains(y),
        decreases b@.len() - j,
    {
        insert_id(a, b[j]);
        let ghost t0 = b@.take(j as int);
        let ghost t1 = b@.take(j + 1);
        assert(t1 =~= t0.push(b@[j as int]));
        assert forall|y: i64| #[trigger] a@.contains(y) <==> before.contains(y) || t1.contains(y) by {
            if t0.contains(y) {
                let c = choose|c: int| 0 <= c < t0.len() && t0[c] == y;
                assert(t1[c] == y);
            }
            if t1.contains(y) && y != b@[j as int] {
                let c = choose|c: int| 0 <= c < t1.len() && t1[c] == y;
                assert(t0[c] == y);
            }
            if y == b@[j as int] {
                assert(t1[j as int] == y);
            }
        }
        j = j + 1;
    }
    assert(b@.take(b@.len() as int) =~= b@);
}

/// Whether `a` and `b` hold the same ids in the same order.
fn same_ids(a: &Vec<i64>, b: &Vec<i64>) -> (r: bool)
    ensures
        r == (a@ == b@),
{
    if a.len() != b.len() {
        return false;
    }
    let mut i: usize = 0;
    while i < a.len()
        invariant
            i <= a@.len() == b@.len(),
            forall|j: int| 0 <= j < i ==> a@[j] == b@[j],
        decreases a@.len() - i,
    {
        if a[i] != b[i] {
            return false;
        }
        i = i + 1;
    }
    assert(a@ =~= b@);
    true
}

/// The DC side terminals of every converter, in file order.
fn seeds_of(d: &DgsDocument, conns: &Connections) -> (r: Vec<i64>)
    requires
        document_wf(d@),
        conns.describes(d@),
    ensures
        r@ == converter_seeds(d@, d@.objects.len() as int),
{
    let n = d.objects.len();
    let mut seeds: Vec<i64> = Vec::new();
    let mut k: usize = 0;
    while k < n
        invariant
            k <= n == d@.objects.len(),
            document_wf(d@),
            conns.describes(d@),
            seeds@ == converter_seeds(d@, k as int),
        decreases n - k,
    {
        if chars_eq(&chars_of(d.class(k)), &chars_of("ElmVsc")) {
            assert(d@.objects[k as int] == d.objects@[k as int]@);
            let c = conns.of(d, d.objects[k].id);
            let ghost start = seeds@;
            let mut m: usize = 0;
            assert(c@.take(0) =~= Seq::<Connection>::empty());
            while m < c.len()
                invariant
                    m <= c@.len(),
                    seeds@ == start + dc_ends(c@.take(m as int)),
                decreases c@.len() - m,
            {
                assert(c@.take(m + 1).drop_last() =~= c@.take(m as int));
                if c[m].side >= 1 {
                    seeds.push(c[m].terminal);
                    assert(seeds@ =~= start + dc_ends(c@.take(m + 1)));
                }
                m = m + 1;
            }
            assert(c@.take(c@.len() as int) =~= c@);
        }
        k = k + 1;
    }
    seeds
}

/// The two terminal branches, in file order.
fn walk_edges_of(d: &DgsDocument, conns: &Connections) -> (r: Vec<(i64, i64, i64)>)
    requires
        document_wf(d@),
        conns.describes(d@),
    ensures
        r@ == walk_edges(d@, d@.objects.len() as int),
{
    let n = d.objects.len();
    let mut e: Vec<(i64, i64, i64)> = Vec::new();
    let mut k: usize = 0;
    while k < n
        invariant
            k <= n == d@.objects.len(),
            document_wf(d@),
            conns.describes(d@),
            e@ == walk_edges(d@, k as int),
        decreases n - k,
    {
        let class = chars_of(d.class(k));
        let walk = chars_eq(&class, &chars_of("ElmLne")) || chars_eq(&class, &chars_of("ElmCoup")) || chars_eq(
            &class,
            &chars_of("ElmZpu"),
        );
        if walk {
            assert(d@.objects[k as int] == d.objects@[k as int]@);
            let id = d.objects[k].id;
            let c = conns.of(d, id);
            if c.len() == 2 {
                e.push((c[0].terminal, c[1].terminal, id));
            }
        }
        k = k + 1;
    }
    e
}

/// A two terminal branch among the first `n` objects is listed among the
/// walk's edges.
proof fn lemma_walk_edge_listed(d: DgsDocumentV, n: int, k: int) -> (j: int)
    requires
        0 <= k < n,
        walk_class(class_of(d, k)),
        connections_of(d, d.objects[k].id).len() == 2,
    ensures
        0 <= j < walk_edges(d, n).len(),
        walk_edges(d, n)[j] == (
            connections_of(d, d.objects[k].id)[0].terminal,
            connections_of(d, d.objects[k].id)[1].terminal,
            d.objects[k].id,
        ),
    decreases n,
{
    if k == n - 1 {
        walk_edges(d, n - 1).len() as int
    } else {
        let j = lemma_walk_edge_listed(d, n - 1, k);
        let c = connections_of(d, d.objects[n - 1].id);
        if walk_class(class_of(d, n - 1)) && c.len() == 2 {
            assert(walk_edges(d, n)[j] == walk_edges(d, n - 1)[j]);
        }
        j
    }
}

/// Two terminals that an `ElmLne`, `ElmCoup` or `ElmZpu` with exactly two
/// connections joins lie in the same DC network: the walk links them,
/// every walk start that reaches one reaches the other, and an island holds
/// one exactly when it holds the other.
pub proof fn law_joined_terminals_share_a_dc_island(
    d: DgsDocumentV,
    k: int,
    isl: DcIsland,
    seeds: Seq<i64>,
    i: int,
    key: Seq<i64>,
)
    requires
        0 <= k < d.objects.len(),
        class_of(d, k) == "ElmLne"@ || class_of(d, k) == "ElmCoup"@ || class_of(d, k) == "ElmZpu"@,
        connections_of(d, d.objects[k].id).len() == 2,
    ensures
        ({
            let c = connections_of(d, d.objects[k].id);
            let e = walk_edges(d, d.objects.len() as int);
            &&& linked(ends(e), c[0].terminal, c[1].terminal)
            &&& forall|s: i64| linked(ends(e), s, c[0].terminal) <==> linked(ends(e), s, c[1].terminal)
            &&& island_of(isl, d, e, seeds, i, key) ==> (isl.terminals@.contains(c[0].terminal)
                <==> isl.terminals@.contains(c[1].terminal))
        }),
{
    let c = connections_of(d, d.objects[k].id);
    let n = d.objects.len() as int;
    let e = walk_edges(d, n);
    let p = ends(e);
    let a = c[0].terminal;
    let b = c[1].terminal;
    let j = lemma_walk_edge_listed(d, n, k);
    assert(p[j] == (a, b));
    assert(edge_in(p, a, b));
    lemma_linked_edge(p, a, b);
    lemma_linked_symm(p, a, b);
    assert forall|s: i64| linked(p, s, a) <==> linked(p, s, b) by {
        if linked(p, s, a) {
            lemma_linked_trans(p, s, a, b);
        }
        if linked(p, s, b) {
            lemma_linked_trans(p, s, b, a);
        }
    }
    if island_of(isl, d, e, seeds, i, key) {
        if isl.terminals@.contains(a) {
            assert(island_terminal(d, p, seeds, i, key, a));
            let q = choose|q: int| #![trigger seeds[q]] 0 <= q < i && converters_of(d, p, seeds[q]) == key && linked(p, seeds[q], a);
            assert(linked(p, seeds[q], b));
            assert(island_terminal(d, p, seeds, i, key, b));
        }
        if isl.terminals@.contains(b) {
            assert(island_terminal(d, p, seeds, i, key, b));
            let q = choose|q: int| #![trigger seeds[q]] 0 <= q < i && converters_of(d, p, seeds[q]) == key && linked(p, seeds[q], b);
            assert(linked(p, seeds[q], a));
            assert(island_terminal(d, p, seeds, i, key, a));
        }
    }
}

/// Whether terminal `x` is in the network of one of the first `i` seeds.
pub open spec fn dc_terminal(p: Seq<(i64, i64)>, seeds: Seq<i64>, i: int, x: i64) -> bool {
    exists|j: int| #![trigger seeds[j]] 0 <= j < i && linked(p, seeds[j], x)
}

/// Whether branch `l` touches the network of one of the first `i` seeds.
pub open spec fn dc_line(e: Seq<(i64, i64, i64)>, seeds: Seq<i64>, i: int, l: i64) -> bool {
    exists|j: int, k: int|
        #![trigger seeds[j], e[k]]
        0 <= j < i && 0 <= k < e.len() && e[k].2 == l && linked(ends(e), seeds[j], e[k].0)
}

/// A walk never leaves the terminals that the branches join.
proof fn lemma_linked_stays(p: Seq<(i64, i64)>, ids: Seq<i64>, a: i64, b: i64)
    requires
        forall|w: int| 0 <= w < p.len() ==> ids.contains((#[trigger] p[w]).0) && ids.contains(p[w].1),
        ids.contains(a),
        linked(p, a, b),
    ensures
        ids.contains(b),
{
    let f = |x: i64| if ids.contains(x) {
        1i64
    } else {
        0i64
    };
    assert forall|w: int| 0 <= w < p.len() implies f((#[trigger] p[w]).0) == f(p[w].1) by {}
    lemma_linked_labels(p, f, a, b);
}

proof fn lemma_keys_distinct(d: DgsDocumentV, p: Seq<(i64, i64)>, seeds: Seq<i64>, i: int)
    ensures
        forall|a: int, b: int|
            0 <= a < b < island_keys(d, p, seeds, i).len() ==> #[trigger] island_keys(d, p, seeds, i)[a]
                != #[trigger] island_keys(d, p, seeds, i)[b],
    decreases i,
{
    if i > 0 {
        lemma_keys_distinct(d, p, seeds, i - 1);
        let k = island_keys(d, p, seeds, i - 1);
        let c = converters_of(d, p, seeds[i - 1]);
        if !k.contains(c) {
            let k2 = island_keys(d, p, seeds, i);
            assert forall|a: int, b: int| 0 <= a < b < k2.len() implies #[trigger] k2[a] != #[trigger] k2[b] by {
                if b == k.len() {
                    assert(k2[a] == k[a]);
                } else {
                    assert(k2[a] == k[a] && k2[b] == k[b]);
                }
            }
        }
    }
}

proof fn lemma_keys_cover(d: DgsDocumentV, p: Seq<(i64, i64)>, seeds: Seq<i64>, i: int, j: int)
    requires
        0 <= j < i,
    ensures
        island_keys(d, p, seeds, i).contains(converters_of(d, p, seeds[j])),
    decreases i,
{
    let k = island_keys(d, p, seeds, i - 1);
    let c = converters_of(d, p, seeds[i - 1]);
    if j < i - 1 {
        lemma_keys_cover(d, p, seeds, i - 1, j);
        if !k.contains(c) {
            let w = choose|w: int| 0 <= w < k.len() && k[w] == converters_of(d, p, seeds[j]);
            assert(island_keys(d, p, seeds, i)[w] == k[w]);
        }
    } else if !k.contains(c) {
        assert(island_keys(d, p, seeds, i)[k.len() as int] == c);
    }
}

proof fn lemma_terminal_step(d: DgsDocumentV, p: Seq<(i64, i64)>, seeds: Seq<i64>, i: int, key: Seq<i64>, x: i64)
    requires
        0 <= i < seeds.len(),
    ensures
        island_terminal(d, p, seeds, i + 1, key, x) <==> island_terminal(d, p, seeds, i, key, x) || (
        converters_of(d, p, seeds[i]) == key && linked(p, seeds[i], x)),
{
    if island_terminal(d, p, seeds, i + 1, key, x) {
        let j = choose|j: int|
            #![trigger seeds[j]]
            0 <= j < i + 1 && converters_of(d, p, seeds[j]) == key && linked(p, seeds[j], x);
        if j < i {
            assert(island_terminal(d, p, seeds, i, key, x));
        }
    }
    if converters_of(d, p, seeds[i]) == key && linked(p, seeds[i], x) {
        assert(island_terminal(d, p, seeds, i + 1, key, x));
    }
}

proof fn lemma_line_step(d: DgsDocumentV, e: Seq<(i64, i64, i64)>, seeds: Seq<i64>, i: int, key: Seq<i64>, l: i64)
    requires
        0 <= i < seeds.len(),
    ensures
        island_line(d, e, seeds, i + 1, key, l) <==> island_line(d, e, seeds, i, key, l) || (converters_of(
            d,
            ends(e),
            seeds[i],
        ) == key && exists|k: int| #![trigger e[k]] 0 <= k < e.len() && e[k].2 == l && linked(ends(e), seeds[i], e[k].0)),
{
    if island_line(d, e, seeds, i + 1, key, l) {
        let (j, k) = choose|j: int, k: int|
            #![trigger seeds[j], e[k]]
            0 <= j < i + 1 && 0 <= k < e.len() && converters_of(d, ends(e), seeds[j]) == key && e[k].2 == l && linked(
                ends(e),
                seeds[j],
                e[k].0,
            );
        if j < i {
            assert(island_line(d, e, seeds, i, key, l));
        } else {
            assert(0 <= k < e.len() && e[k].2 == l && linked(ends(e), seeds[i], e[k].0));
        }
    }
    if converters_of(d, ends(e), seeds[i]) == key && exists|k: int|
        #![trigger e[k]]
        0 <= k < e.len() && e[k].2 == l && linked(ends(e), seeds[i], e[k].0) {
        let k = choose|k: int| #![trigger e[k]] 0 <= k < e.len() && e[k].2 == l && linked(ends(e), seeds[i], e[k].0);
        assert(seeds[i] == seeds[i] && e[k] == e[k]);
        assert(island_line(d, e, seeds, i + 1, key, l));
    }
}

/// Terminals the walks join see the same converters.
proof fn lemma_converters_linked(d: DgsDocumentV, p: Seq<(i64, i64)>, s: i64, t: i64, n: int)
    requires
        linked(p, s, t),
    ensures
        island_converters(d, p, s, n) == island_converters(d, p, t, n),
    decreases n,
{
    if n > 0 {
        lemma_converters_linked(d, p, s, t, n - 1);
        let c = connections_of(d, d.objects[n - 1].id);
        lemma_linked_symm(p, s, t);
        if feeds(d, p, s, n - 1) {
            let m = choose|m: int| #![trigger c[m]] 0 <= m < c.len() && c[m].side >= 1 && linked(p, s, c[m].terminal);
            lemma_linked_trans(p, t, s, c[m].terminal);
        }
        if feeds(d, p, t, n - 1) {
            let m = choose|m: int| #![trigger c[m]] 0 <= m < c.len() && c[m].side >= 1 && linked(p, t, c[m].terminal);
            lemma_linked_trans(p, s, t, c[m].terminal);
        }
    }
}

/// A terminal lies in one island at most: the islands of two different
/// converter lists share no terminal.
proof fn lemma_islands_disjoint(
    d: DgsDocumentV,
    p: Seq<(i64, i64)>,
    seeds: Seq<i64>,
    i: int,
    k1: Seq<i64>,
    k2: Seq<i64>,
    x: i64,
)
    requires
        island_terminal(d, p, seeds, i, k1, x),
        island_terminal(d, p, seeds, i, k2, x),
    ensures
        k1 == k2,
{
    let j1 = choose|j: int| #![trigger seeds[j]] 0 <= j < i && converters_of(d, p, seeds[j]) == k1 && linked(p, seeds[j], x);
    let j2 = choose|j: int| #![trigger seeds[j]] 0 <= j < i && converters_of(d, p, seeds[j]) == k2 && linked(p, seeds[j], x);
    lemma_linked_symm(p, seeds[j2], x);
    lemma_linked_trans(p, seeds[j1], x, seeds[j2]);
    lemma_converters_linked(d, p, seeds[j1], seeds[j2], d.objects.len() as int);
}

/// Every terminal the walks meet, each once: the seeds, then the ends of
/// the branches.
fn listed_ids(seeds: &Vec<i64>, e: &Vec<(i64, i64, i64)>) -> (ids: Vec<i64>)
    ensures
        distinct(ids@),
        forall|j: int| 0 <= j < seeds@.len() ==> ids@.contains(#[trigger] seeds@[j]),
        forall|w: int| 0 <= w < e@.len() ==> ids@.contains((#[trigger] e@[w]).0) && ids@.contains(e@[w].1),
{
    let mut ids: Vec<i64> = Vec::new();
    let mut i: usize = 0;
    while i < seeds.len()
        invariant
            i <= seeds@.len(),
            distinct(ids@),
            forall|j: int| 0 <= j < i ==> ids@.contains(#[trigger] seeds@[j]),
        decreases seeds@.len() - i,
    {
        add_id(&mut ids, seeds[i]);
        i = i + 1;
    }
    let mut w: usize = 0;
    while w < e.len()
        invariant
            w <= e@.len(),
            distinct(ids@),
            forall|j: int| 0 <= j < seeds@.len() ==> ids@.contains(#[trigger] seeds@[j]),
            forall|v: int| 0 <= v < w ==> ids@.contains((#[trigger] e@[v]).0) && ids@.contains(e@[v].1),
        decreases e@.len() - w,
    {
        add_id(&mut ids, e[w].0);
        add_id(&mut ids, e[w].1);
        w = w + 1;
    }
    ids
}

/// Appends `x` unless it is listed.
fn add_id(ids: &mut Vec<i64>, x: i64)
    requires
        distinct(old(ids)@),
    ensures
        distinct(final(ids)@),
        final(ids)@.contains(x),
        forall|y: i64| old(ids)@.contains(y) ==> #[trigger] final(ids)@.contains(y),
{
    let ghost before = ids@;
    match find_id(ids, x) {
        Some(_) => {},
        None => {
            ids.push(x);
            assert(ids@[ids@.len() - 1] == x);
            assert forall|y: i64| before.contains(y) implies #[trigger] ids@.contains(y) by {
                let c = choose|c: int| 0 <= c < before.len() && before[c] == y;
                assert(ids@[c] == y);
            }
            assert forall|a: int, b: int| 0 <= a < b < ids@.len() implies #[trigger] ids@[a] != #[trigger] ids@[b] by {
                if b == ids@.len() - 1 {
                    assert(ids@[a] == before[a]);
                }
            }
        },
    }
}

/// The labels of the listed terminals once every branch is read.
fn label_walk(ids: &Vec<i64>, e: &Vec<(i64, i64, i64)>) -> (r: (Vec<i64>, Ghost<Seq<int>>))
    requires
        distinct(ids@),
        forall|w: int| 0 <= w < e@.len() ==> ids@.contains((#[trigger] e@[w]).0) && ids@.contains(e@[w].1),
    ensures
        labelled(ends(e@), ids@, r.0@, r.1@),
{
    let mut labels: Vec<i64> = Vec::new();
    let mut i: usize = 0;
    while i < ids.len()
        invariant
            i <= ids@.len(),
            labels@ == ids@.take(i as int),
        decreases ids@.len() - i,
    {
        labels.push(ids[i]);
        i = i + 1;
        assert(labels@ =~= ids@.take(i as int));
    }
    assert(ids@.take(ids@.len() as int) =~= ids@);
    let ghost mut roots: Seq<int> = Seq::new(ids@.len(), |i: int| i);
    let ghost mut pp: Seq<(i64, i64)> = Seq::empty();
    proof {
        lemma_labelled_start(ids@);
    }
    let mut t: usize = 0;
    while t < e.len()
        invariant
            t <= e@.len(),
            forall|w: int| 0 <= w < e@.len() ==> ids@.contains((#[trigger] e@[w]).0) && ids@.contains(e@[w].1),
            labelled(pp, ids@, labels@, roots),
            pp == ends(e@).take(t as int),
        decreases e@.len() - t,
    {
        assert(ids@.contains(e@[t as int].0) && ids@.contains(e@[t as int].1));
        match (find_id(ids, e[t].0), find_id(ids, e[t].1)) {
            (Some(ia), Some(ib)) => {
                let ghost old_labels = labels@;
                proof {
                    lemma_merge(pp, ids@, labels@, roots, ia as int, ib as int);
                    roots = merged_roots(old_labels, roots, ia as int, ib as int);
                    pp = pp.push((ids@[ia as int], ids@[ib as int]));
                    assert(pp =~= ends(e@).take(t + 1));
                }
                merge_labels(&mut labels, ia, ib);
            },
            _ => {
                assert(false);
            },
        }
        t = t + 1;
    }
    assert(ends(e@).take(e@.len() as int) =~= ends(e@));
    (labels, Ghost(roots))
}

/// Whether the walks join listed terminal `ids[is]` to `x`.
fn joined(
    ids: &Vec<i64>,
    labels: &Vec<i64>,
    is: usize,
    x: i64,
    Ghost(p): Ghost<Seq<(i64, i64)>>,
    Ghost(roots): Ghost<Seq<int>>,
) -> (r: bool)
    requires
        labelled(p, ids@, labels@, roots),
        is < ids@.len(),
    ensures
        r == linked(p, ids@[is as int], x),
{
    match find_id(ids, x) {
        Some(ix) => labels[ix] == labels[is],
        None => {
            proof {
                if linked(p, ids@[is as int], x) {
                    lemma_linked_stays(p, ids@, ids@[is as int], x);
                }
            }
            false
        },
    }
}


/// The terminals in the network of `ids[is]`, ascending.
fn network_of(
    ids: &Vec<i64>,
    labels: &Vec<i64>,
    is: usize,
    Ghost(p): Ghost<Seq<(i64, i64)>>,
    Ghost(roots): Ghost<Seq<int>>,
) -> (r: Vec<i64>)
    requires
        labelled(p, ids@, labels@, roots),
        is < ids@.len(),
    ensures
        ascending(r@),
        forall|x: i64| #[trigger] r@.contains(x) <==> linked(p, ids@[is as int], x),
{
    let ghost s = ids@[is as int];
    let mut r: Vec<i64> = Vec::new();
    let mut j: usize = 0;
    while j < ids.len()
        invariant
            j <= ids@.len(),
            labelled(p, ids@, labels@, roots),
            is < ids@.len(),
            s == ids@[is as int],
            ascending(r@),
            forall|x: i64| #[trigger] r@.contains(x) <==> ids@.take(j as int).contains(x) && linked(p, s, x),
        decreases ids@.len() - j,
    {
        let ghost t0 = ids@.take(j as int);
        let ghost t1 = ids@.take(j + 1);
        assert(t1 =~= t0.push(ids@[j as int]));
        let ghost before = r@;
        let y = ids[j];
        let joins = labels[j] == labels[is];
        assert(joins == linked(p, s, y));
        if joins {
            insert_id(&mut r, y);
        }
        assert forall|x: i64| #[trigger] r@.contains(x) <==> t1.contains(x) && linked(p, s, x) by {
            if t0.contains(x) {
                let c = choose|c: int| 0 <= c < t0.len() && t0[c] == x;
                assert(t1[c] == x);
            }
            if t1.contains(x) && x != y {
                let c = choose|c: int| 0 <= c < t1.len() && t1[c] == x;
                assert(t0[c] == x);
            }
            if x == y {
                assert(t1[j as int] == x);
            }
        }
        j = j + 1;
    }
    proof {
        assert(ids@.take(ids@.len() as int) =~= ids@);
        assert forall|x: i64| #[trigger] r@.contains(x) <==> linked(p, s, x) by {
            if linked(p, s, x) {
                lemma_linked_stays(p, ids@, s, x);
            }
        }
    }
    r
}

/// The branches that touch the network of `ids[is]`, ascending.
fn lines_of(
    e: &Vec<(i64, i64, i64)>,
    ids: &Vec<i64>,
    labels: &Vec<i64>,
    is: usize,
    Ghost(roots): Ghost<Seq<int>>,
) -> (r: Vec<i64>)
    requires
        labelled(ends(e@), ids@, labels@, roots),
        is < ids@.len(),
    ensures
        ascending(r@),
        forall|l: i64| #[trigger]
            r@.contains(l) <==> exists|k: int|
                #![trigger e@[k]]
                0 <= k < e@.len() && e@[k].2 == l && linked(ends(e@), ids@[is as int], e@[k].0),
{
    let ghost s = ids@[is as int];
    let ghost p = ends(e@);
    let mut r: Vec<i64> = Vec::new();
    let mut t: usize = 0;
    while t < e.len()
        invariant
            t <= e@.len(),
            labelled(p, ids@, labels@, roots),
            p == ends(e@),
            is < ids@.len(),
            s == ids@[is as int],
            ascending(r@),
            forall|l: i64| #[trigger]
                r@.contains(l) <==> exists|k: int|
                    #![trigger e@[k]]
                    0 <= k < t && e@[k].2 == l && linked(p, s, e@[k].0),
        decreases e@.len() - t,
    {
        let joins = joined(ids, labels, is, e[t].0, Ghost(p), Ghost(roots));
        if joins {
            insert_id(&mut r, e[t].2);
        }
        assert forall|l: i64| #[trigger]
            r@.contains(l) <==> exists|k: int|
                #![trigger e@[k]]
                0 <= k < t + 1 && e@[k].2 == l && linked(p, s, e@[k].0) by {
            if exists|k: int| #![trigger e@[k]] 0 <= k < t + 1 && e@[k].2 == l && linked(p, s, e@[k].0) {
                let k = choose|k: int| #![trigger e@[k]] 0 <= k < t + 1 && e@[k].2 == l && linked(p, s, e@[k].0);
                if k < t {
                    assert(e@[k] == e@[k]);
                }
            }
            if joins && l == e@[t as int].2 {
                assert(e@[t as int] == e@[t as int]);
            }
        }
        t = t + 1;
    }
    r
}

/// The converters with a DC side in the network of `ids[is]`, in file
/// order.
fn converters_for(
    d: &DgsDocument,
    conns: &Connections,
    ids: &Vec<i64>,
    labels: &Vec<i64>,
    is: usize,
    Ghost(p): Ghost<Seq<(i64, i64)>>,
    Ghost(roots): Ghost<Seq<int>>,
) -> (r: Vec<i64>)
    requires
        document_wf(d@),
        conns.describes(d@),
        labelled(p, ids@, labels@, roots),
        is < ids@.len(),
    ensures
        r@ == converters_of(d@, p, ids@[is as int]),
{
    let ghost s = ids@[is as int];
    let n = d.objects.len();
    let mut r: Vec<i64> = Vec::new();
    let mut k: usize = 0;
    while k < n
        invariant
            k <= n == d@.objects.len(),
            document_wf(d@),
            conns.describes(d@),
            labelled(p, ids@, labels@, roots),
            is < ids@.len(),
            s == ids@[is as int],
            r@ == island_converters(d@, p, s, k as int),
        decreases n - k,
    {
        if chars_eq(&chars_of(d.class(k)), &chars_of("ElmVsc")) {
            assert(d@.objects[k as int] == d.objects@[k as int]@);
            let id = d.objects[k].id;
            let c = conns.of(d, id);
            let mut any = false;
            let mut m: usize = 0;
            while m < c.len()
                invariant
                    m <= c@.len(),
                    labelled(p, ids@, labels@, roots),
                    is < ids@.len(),
                    s == ids@[is as int],
                    any == exists|w: int| #![trigger c@[w]] 0 <= w < m && c@[w].side >= 1 && linked(p, s, c@[w].terminal),
                decreases c@.len() - m,
            {
                if c[m].side >= 1 && joined(ids, labels, is, c[m].terminal, Ghost(p), Ghost(roots)) {
                    any = true;
                }
                assert(c@[m as int] == c@[m as int]);
                m = m + 1;
            }
            assert(c@ == connections_of(d@, d@.objects[k as int].id));
            assert(class_of(d@, k as int) == "ElmVsc"@);
            assert(any == feeds(d@, p, s, k as int));
            if any {
                r.push(id);
            }
        }
        k = k + 1;
    }
    r
}

/// A copy of `v`.
fn copy_ids(v: &Vec<i64>) -> (r: Vec<i64>)
    ensures
        r@ == v@,
{
    let mut r: Vec<i64> = Vec::new();
    let mut i: usize = 0;
    while i < v.len()
        invariant
            i <= v@.len(),
            r@ == v@.take(i as int),
        decreases v@.len() - i,
    {
        r.push(v[i]);
        i = i + 1;
        assert(r@ =~= v@.take(i as int));
    }
    assert(v@.take(v@.len() as int) =~= v@);
    r
}

/// The finding that DC terminals become HVDC records.
pub open spec fn hvdc_message(count: nat) -> Seq<char> {
    nat_text(count) + " DC terminal(s) behind ElmVsc converters are represented by HVDC records rather than as buses"@
}

/// The DC islands behind the `ElmVsc` converters, one record per set of
/// converters in order of first appearance; every DC terminal and every
/// branch of an island, each ascending; and, when there is an island, the
/// finding that its terminals are HVDC records rather than buses.
pub fn classify_dc(d: &DgsDocument, conns: &Connections) -> (r: (Vec<DcIsland>, Vec<i64>, Vec<i64>, Option<String>))
    requires
        document_wf(d@),
        conns.describes(d@),
    ensures
        ({
            let n = d@.objects.len() as int;
            let e = walk_edges(d@, n);
            let p = ends(e);
            let seeds = converter_seeds(d@, n);
            let keys = island_keys(d@, p, seeds, seeds.len() as int);
            &&& r.0@.len() == keys.len()
            &&& forall|g: int| 0 <= g < r.0@.len() ==> island_of(#[trigger] r.0@[g], d@, e, seeds, seeds.len() as int, keys[g])
            &&& forall|g: int, h: int|
                0 <= g < h < r.0@.len() ==> (#[trigger] r.0@[g]).converters@ != (#[trigger] r.0@[h]).converters@
            &&& forall|g: int, h: int, x: i64|
                0 <= g < h < r.0@.len() && #[trigger] r.0@[g].terminals@.contains(x) ==> !#[trigger] r.0@[h].terminals@.contains(x)
            &&& ascending(r.1@)
            &&& forall|x: i64| #[trigger] r.1@.contains(x) <==> dc_terminal(p, seeds, seeds.len() as int, x)
            &&& ascending(r.2@)
            &&& forall|l: i64| #[trigger] r.2@.contains(l) <==> dc_line(e, seeds, seeds.len() as int, l)
            &&& match r.3 {
                Some(m) => seeds.len() > 0 && m@ == hvdc_message(r.1@.len()),
                None => seeds.len() == 0,
            }
        }),
{
    let n = d.objects.len();
    let seeds = seeds_of(d, conns);
    let e = walk_edges_of(d, conns);
    let ids = listed_ids(&seeds, &e);
    let (labels, Ghost(roots)) = label_walk(&ids, &e);
    let ghost p = ends(e@);
    let mut islands: Vec<DcIsland> = Vec::new();
    let mut dc_terminals: Vec<i64> = Vec::new();
    let mut dc_elements: Vec<i64> = Vec::new();
    let mut i: usize = 0;
    while i < seeds.len()
        invariant
            i <= seeds@.len(),
            n == d@.objects.len(),
            document_wf(d@),
            conns.describes(d@),
            seeds@ == converter_seeds(d@, n as int),
            e@ == walk_edges(d@, n as int),
            p == ends(e@),
            labelled(p, ids@, labels@, roots),
            forall|j: int| 0 <= j < seeds@.len() ==> ids@.contains(#[trigger] seeds@[j]),
            islands@.len() == island_keys(d@, p, seeds@, i as int).len(),
            forall|g: int|
                0 <= g < islands@.len() ==> island_of(
                    #[trigger] islands@[g],
                    d@,
                    e@,
                    seeds@,
                    i as int,
                    island_keys(d@, p, seeds@, i as int)[g],
                ),
            ascending(dc_terminals@),
            forall|x: i64| #[trigger] dc_terminals@.contains(x) <==> dc_terminal(p, seeds@, i as int, x),
            ascending(dc_elements@),
            forall|l: i64| #[trigger] dc_elements@.contains(l) <==> dc_line(e@, seeds@, i as int, l),
        decreases seeds@.len() - i,
    {
        let ghost s = seeds@[i as int];
        let ghost keys = island_keys(d@, p, seeds@, i as int);
        let ghost keys1 = island_keys(d@, p, seeds@, i + 1);
        assert(ids@.contains(seeds@[i as int]));
        let is = match find_id(&ids, seeds[i]) {
            Some(is) => is,
            None => {
                assert(false);
                0
            },
        };
        let t = network_of(&ids, &labels, is, Ghost(p), Ghost(roots));
        let l = lines_of(&e, &ids, &labels, is, Ghost(roots));
        let c = converters_for(d, conns, &ids, &labels, is, Ghost(p), Ghost(roots));
        insert_all(&mut dc_terminals, &t);
        insert_all(&mut dc_elements, &l);
        proof {
            assert forall|x: i64| #[trigger] dc_terminals@.contains(x) <==> dc_terminal(p, seeds@, i + 1, x) by {
                if dc_terminal(p, seeds@, i + 1, x) {
                    let j = choose|j: int| #![trigger seeds@[j]] 0 <= j < i + 1 && linked(p, seeds@[j], x);
                    if j < i {
                        assert(dc_terminal(p, seeds@, i as int, x));
                    }
                }
                if linked(p, s, x) {
                    assert(seeds@[i as int] == s);
                }
            }
            assert forall|w: i64| #[trigger] dc_elements@.contains(w) <==> dc_line(e@, seeds@, i + 1, w) by {
                if dc_line(e@, seeds@, i + 1, w) {
                    let (j, k) = choose|j: int, k: int|
                        #![trigger seeds@[j], e@[k]]
                        0 <= j < i + 1 && 0 <= k < e@.len() && e@[k].2 == w && linked(p, seeds@[j], e@[k].0);
                    if j < i {
                        assert(dc_line(e@, seeds@, i as int, w));
                    } else {
                        assert(e@[k] == e@[k]);
                    }
                }
                if l@.contains(w) {
                    let k = choose|k: int| #![trigger e@[k]] 0 <= k < e@.len() && e@[k].2 == w && linked(p, s, e@[k].0);
                    assert(seeds@[i as int] == s && e@[k] == e@[k]);
                }
            }
            lemma_keys_distinct(d@, p, seeds@, i as int);
        }
        let mut g: usize = 0;
        while g < islands.len() && !same_ids(&islands[g].converters, &c)
            invariant
                g <= islands@.len(),
                islands@.len() == keys.len(),
                forall|h: int| 0 <= h < islands@.len() ==> (#[trigger] islands@[h]).converters@ == keys[h],
                forall|h: int| 0 <= h < g ==> keys[h] != c@,
            decreases islands@.len() - g,
        {
            g = g + 1;
        }
        if g < islands.len() {
            assert(keys[g as int] == c@);
            assert(keys.contains(c@));
            assert(keys1 == keys);
            let mut nt = copy_ids(&islands[g].terminals);
            insert_all(&mut nt, &t);
            let mut nl = copy_ids(&islands[g].lines);
            insert_all(&mut nl, &l);
            let conv = copy_ids(&islands[g].converters);
            let ghost before = islands@;
            islands.set(g, DcIsland { terminals: nt, lines: nl, converters: conv });
            proof {
                assert forall|h: int| 0 <= h < islands@.len() implies island_of(
                    #[trigger] islands@[h],
                    d@,
                    e@,
                    seeds@,
                    i + 1,
                    keys1[h],
                ) by {
                    let key = keys[h];
                    assert forall|x: i64| #[trigger] islands@[h].terminals@.contains(x) <==> island_terminal(
                        d@,
                        p,
                        seeds@,
                        i + 1,
                        key,
                        x,
                    ) by {
                        lemma_terminal_step(d@, p, seeds@, i as int, key, x);
                        if h != g {
                            assert(islands@[h] == before[h]);
                            assert(keys[h] != keys[g as int]);
                        }
                    }
                    assert forall|w: i64| #[trigger] islands@[h].lines@.contains(w) <==> island_line(
                        d@,
                        e@,
                        seeds@,
                        i + 1,
                        key,
                        w,
                    ) by {
                        lemma_line_step(d@, e@, seeds@, i as int, key, w);
                        if h != g {
                            assert(islands@[h] == before[h]);
                            assert(keys[h] != keys[g as int]);
                        }
                    }
                }
            }
        } else {
            proof {
                assert(!keys.contains(c@)) by {
                    if keys.contains(c@) {
                        let h = choose|h: int| 0 <= h < keys.len() && keys[h] == c@;
                        assert(keys[h] != c@);
                    }
                }
                assert(keys1 == keys.push(c@));
            }
            let ghost before = islands@;
            let ghost t_view = t@;
            let ghost l_view = l@;
            islands.push(DcIsland { terminals: t, lines: l, converters: c });
            proof {
                assert forall|h: int| 0 <= h < islands@.len() implies island_of(
                    #[trigger] islands@[h],
                    d@,
                    e@,
                    seeds@,
                    i + 1,
                    keys1[h],
                ) by {
                    let key = keys1[h];
                    assert forall|x: i64| #[trigger] islands@[h].terminals@.contains(x) <==> island_terminal(
                        d@,
                        p,
                        seeds@,
                        i + 1,
                        key,
                        x,
                    ) by {
                        lemma_terminal_step(d@, p, seeds@, i as int, key, x);
                        if h < before.len() {
                            assert(islands@[h] == before[h]);
                            assert(keys1[h] == keys[h]);
                            assert(keys.contains(keys[h]));
                        } else {
                            if island_terminal(d@, p, seeds@, i as int, key, x) {
                                let j = choose|j: int|
                                    #![trigger seeds@[j]]
                                    0 <= j < i && converters_of(d@, p, seeds@[j]) == key && linked(p, seeds@[j], x);
                                lemma_keys_cover(d@, p, seeds@, i as int, j);
                            }
                        }
                    }
                    assert forall|w: i64| #[trigger] islands@[h].lines@.contains(w) <==> island_line(
                        d@,
                        e@,
                        seeds@,
                        i + 1,
                        key,
                        w,
                    ) by {
                        lemma_line_step(d@, e@, seeds@, i as int, key, w);
                        if h < before.len() {
                            assert(islands@[h] == before[h]);
                            assert(keys1[h] == keys[h]);
                            assert(keys.contains(keys[h]));
                        } else {
                            if island_line(d@, e@, seeds@, i as int, key, w) {
                                let (j, k) = choose|j: int, k: int|
                                    #![trigger seeds@[j], e@[k]]
                                    0 <= j < i && 0 <= k < e@.len() && converters_of(d@, p, seeds@[j]) == key
                                        && e@[k].2 == w && linked(p, seeds@[j], e@[k].0);
                                lemma_keys_cover(d@, p, seeds@, i as int, j);
                            }
                        }
                    }
                }
            }
        }
        i = i + 1;
    }
    proof {
        let keys = island_keys(d@, p, seeds@, seeds@.len() as int);
        lemma_keys_distinct(d@, p, seeds@, seeds@.len() as int);
        assert forall|g: int, h: int, x: i64|
            0 <= g < h < islands@.len() && #[trigger] islands@[g].terminals@.contains(x) implies !#[trigger] islands@[h].terminals@.contains(x) by {
            if islands@[h].terminals@.contains(x) {
                lemma_islands_disjoint(d@, p, seeds@, seeds@.len() as int, keys[g], keys[h], x);
            }
        }
    }
    let finding = if seeds.len() > 0 {
        let mut m: Vec<char> = Vec::new();
        push_nat(&mut m, dc_terminals.len() as u64);
        push_str(
            &mut m,
            " DC terminal(s) behind ElmVsc converters are represented by HVDC records rather than as buses",
        );
        Some(string_of(&m))
    } else {
        None
    };
    (islands, dc_terminals, dc_elements, finding)
}

} // verus!
