//! How the elements of a DGS export connect: each `StaCubic` cubicle hangs
//! from an `ElmTerm` terminal (its `fold_id`), names the element it connects
//! (`obj_id`) and the element's side (`obj_bus`), and is closed unless one
//! of its `StaSwitch` children is open.

use vstd::prelude::*;

use super::document::{
    among_class, children_spec, class_of, int_spec, name_spec, referenced_spec,
};
use super::tokens::{document_wf, DgsDocument, DgsDocumentV};
use crate::text::{chars_eq, chars_of, int_text, nat_text, push_chars, push_int, push_nat, push_str, string_of};

verus! {

broadcast use vstd::string::group_string_axioms;

/// One connection of an element: the terminal, the element's side there,
/// and whether the cubicle's switches are closed.
#[derive(Clone, Copy, Debug, PartialEq, Eq, Structural)]
pub struct Connection {
    pub terminal: i64,
    pub side: i64,
    pub closed: bool,
}

/// How a finding names an object: its class and its name.
pub open spec fn label_spec(d: DgsDocumentV, k: int) -> Seq<char> {
    class_of(d, k) + " `"@ + name_spec(d, k) + "`"@
}

/// How a finding names object `k`: its class and its name.
pub fn label(d: &DgsDocument, k: usize) -> (r: String)
    requires
        k < d.objects@.len(),
        document_wf(d@),
    ensures
        r@ == label_spec(d@, k as int),
{
    let mut m: Vec<char> = Vec::new();
    push_str(&mut m, d.class(k));
    push_str(&mut m, " `");
    let n = d.name(k);
    push_str(&mut m, n.as_str());
    push_str(&mut m, "`");
    string_of(&m)
}

/// The terminal a cubicle hangs from: its `fold_id` parent, when that is an
/// `ElmTerm`.
pub open spec fn cubicle_terminal(d: DgsDocumentV, k: int) -> Option<int> {
    match referenced_spec(d, k, "fold_id"@) {
        Some(p) => if class_of(d, p) == "ElmTerm"@ {
            Some(p)
        } else {
            None
        },
        None => None,
    }
}

/// Whether every `StaSwitch` child of object id `id` states a nonzero
/// `on_off`; a switch that states none is open.
pub open spec fn switches_closed(d: DgsDocumentV, id: i64) -> bool {
    let s = among_class(d, children_spec(d, id), "StaSwitch"@);
    forall|i: int| 0 <= i < s.len() ==> (int_spec(d, #[trigger] s[i], "on_off"@) matches Some(v) && v != 0)
}

/// The side a cubicle states, zero when it states none.
pub open spec fn side_of(d: DgsDocumentV, k: int) -> i64 {
    match int_spec(d, k, "obj_bus"@) {
        Some(v) => v,
        None => 0,
    }
}

/// The connection a cubicle states, with the id of the element it connects.
pub open spec fn cubicle_record(d: DgsDocumentV, k: int) -> Option<(i64, Connection)> {
    if class_of(d, k) == "StaCubic"@ {
        match cubicle_terminal(d, k) {
            Some(p) => match referenced_spec(d, k, "obj_id"@) {
                Some(e) => Some(
                    (
                        d.objects[e].id,
                        Connection {
                            terminal: d.objects[p].id,
                            side: side_of(d, k),
                            closed: switches_closed(d, d.objects[k].id),
                        },
                    ),
                ),
                None => None,
            },
            None => None,
        }
    } else {
        None
    }
}

/// The connections the first `n` objects state for element id `e`, in file
/// order.
pub open spec fn element_records(d: DgsDocumentV, e: i64, n: int) -> Seq<Connection>
    decreases n,
{
    if n <= 0 {
        Seq::empty()
    } else {
        match cubicle_record(d, n - 1) {
            Some((x, c)) => if x == e {
                element_records(d, e, n - 1).push(c)
            } else {
                element_records(d, e, n - 1)
            },
            None => element_records(d, e, n - 1),
        }
    }
}

/// Where a connection of side `side` goes among `t`, from `i` on: before the
/// first of a greater side.
pub open spec fn side_slot(t: Seq<Connection>, side: i64, i: int) -> int
    decreases t.len() - i,
{
    if i < 0 || i >= t.len() {
        t.len() as int
    } else if t[i].side > side {
        i
    } else {
        side_slot(t, side, i + 1)
    }
}

/// `s` ordered by side, connections of one side keeping their order.
pub open spec fn by_side(s: Seq<Connection>) -> Seq<Connection>
    decreases s.len(),
{
    if s.len() == 0 {
        Seq::empty()
    } else {
        let t = by_side(s.drop_last());
        t.insert(side_slot(t, s.last().side, 0), s.last())
    }
}

/// The connections of element id `e`, ordered by side.
pub open spec fn connections_of(d: DgsDocumentV, e: i64) -> Seq<Connection> {
    by_side(element_records(d, e, d.objects.len() as int))
}

proof fn lemma_side_slot(t: Seq<Connection>, side: i64, i: int)
    requires
        0 <= i <= t.len(),
    ensures
        i <= side_slot(t, side, i) <= t.len(),
        forall|j: int| i <= j < side_slot(t, side, i) ==> #[trigger] t[j].side <= side,
        side_slot(t, side, i) < t.len() ==> t[side_slot(t, side, i)].side > side,
    decreases t.len() - i,
{
    if i < t.len() && t[i].side <= side {
        lemma_side_slot(t, side, i + 1);
    }
}

/// A side ordered list stays side ordered and holds the same connections.
pub proof fn lemma_by_side_sorted(s: Seq<Connection>)
    ensures
        by_side(s).len() == s.len(),
        forall|i: int, j: int| 0 <= i < j < s.len() ==> (#[trigger] by_side(s)[i]).side <= (#[trigger] by_side(s)[j]).side,
    decreases s.len(),
{
    if s.len() > 0 {
        let t = by_side(s.drop_last());
        lemma_by_side_sorted(s.drop_last());
        let c = s.last();
        lemma_side_slot(t, c.side, 0);
        let pos = side_slot(t, c.side, 0);
        let u = t.insert(pos, c);
        assert forall|i: int, j: int| 0 <= i < j < s.len() implies (#[trigger] u[i]).side <= (#[trigger] u[j]).side by {
            if j < pos {
                assert(u[i] == t[i] && u[j] == t[j]);
            } else if j == pos {
                assert(u[i] == t[i]);
            } else if i < pos {
                assert(u[i] == t[i] && u[j] == t[j - 1]);
                if pos < t.len() {
                    assert(t[pos].side > c.side);
                }
            } else if i == pos {
                assert(u[j] == t[j - 1]);
                assert(t[pos].side > c.side);
                assert(t[pos].side <= t[j - 1].side || pos == j - 1);
            } else {
                assert(u[i] == t[i - 1] && u[j] == t[j - 1]);
            }
        }
    }
}

/// The connections of each element, by element id.
pub struct Connections {
    pub elements: Vec<i64>,
    pub lists: Vec<Vec<Connection>>,
}

impl Connections {
    /// Whether these are the connections `d` states: each element once,
    /// with its connections ordered by side, and no element left out.
    pub open spec fn describes(&self, d: DgsDocumentV) -> bool {
        &&& self.elements@.len() == self.lists@.len()
        &&& forall|i: int, j: int|
            0 <= i < j < self.elements@.len() ==> #[trigger] self.elements@[i] != #[trigger] self.elements@[j]
        &&& forall|i: int|
            0 <= i < self.elements@.len() ==> #[trigger] self.lists@[i]@ == connections_of(d, self.elements@[i])
        &&& forall|e: i64|
            (forall|i: int| 0 <= i < self.elements@.len() ==> self.elements@[i] != e) ==> #[trigger] element_records(
                d,
                e,
                d.objects.len() as int,
            ).len() == 0
    }

    /// The connections of element id `e`, in side order; none when the
    /// element connects nowhere.
    pub fn of(&self, d: &DgsDocument, e: i64) -> (r: Vec<Connection>)
        requires
            self.describes(d@),
        ensures
            r@ == connections_of(d@, e),
    {
        let mut i: usize = 0;
        while i < self.elements.len()
            invariant
                i <= self.elements@.len(),
                self.describes(d@),
                forall|j: int| 0 <= j < i ==> self.elements@[j] != e,
            decreases self.elements@.len() - i,
        {
            if self.elements[i] == e {
                let l = &self.lists[i];
                let mut out: Vec<Connection> = Vec::new();
                let mut k: usize = 0;
                while k < l.len()
                    invariant
                        k <= l@.len(),
                        out@ == l@.take(k as int),
                    decreases l@.len() - k,
                {
                    out.push(l[k]);
                    k = k + 1;
                    assert(out@ =~= l@.take(k as int));
                }
                assert(l@.take(l@.len() as int) =~= l@);
                return out;
            }
            i = i + 1;
        }
        assert(element_records(d@, e, d@.objects.len() as int).len() == 0);
        assert(element_records(d@, e, d@.objects.len() as int) =~= Seq::<Connection>::empty());
        Vec::new()
    }
}


/// The finding for a cubicle that hangs from no terminal.
pub open spec fn dropped_message(d: DgsDocumentV, k: int) -> Seq<char> {
    label_spec(d, k) + " names no ElmTerm terminal in `fold_id`; the connection was dropped"@
}

/// The findings for the cubicles among the first `n` objects that hang from
/// no terminal.
pub open spec fn dropped_messages(d: DgsDocumentV, n: int) -> Seq<Seq<char>>
    decreases n,
{
    if n <= 0 {
        Seq::empty()
    } else if class_of(d, n - 1) == "StaCubic"@ && cubicle_terminal(d, n - 1) is None {
        dropped_messages(d, n - 1).push(dropped_message(d, n - 1))
    } else {
        dropped_messages(d, n - 1)
    }
}

/// The cubicles among the first `n` objects that hang from a terminal but
/// name no element.
pub open spec fn dangling_count(d: DgsDocumentV, n: int) -> nat
    decreases n,
{
    if n <= 0 {
        0
    } else if class_of(d, n - 1) == "StaCubic"@ && cubicle_terminal(d, n - 1) is Some && referenced_spec(
        d,
        n - 1,
        "obj_id"@,
    ) is None {
        dangling_count(d, n - 1) + 1
    } else {
        dangling_count(d, n - 1)
    }
}

/// What collecting the connections finds: each cubicle that hangs from no
/// terminal, then the number that name no element.
pub open spec fn connection_findings(d: DgsDocumentV) -> Seq<Seq<char>> {
    let n = d.objects.len() as int;
    dropped_messages(d, n) + if dangling_count(d, n) > 0 {
        seq![nat_text(dangling_count(d, n)) + " StaCubic cubicle(s) name no element in `obj_id`"@]
    } else {
        Seq::empty()
    }
}

fn cubicle_closed(d: &DgsDocument, id: i64) -> (r: bool)
    requires
        document_wf(d@),
    ensures
        r == switches_closed(d@, id),
{
    let s = d.children_of_class(id, "StaSwitch");
    let ghost sv = s@.map_values(|i: usize| i as int);
    let mut i: usize = 0;
    while i < s.len()
        invariant
            i <= s@.len(),
            document_wf(d@),
            sv == s@.map_values(|i: usize| i as int),
            sv == among_class(d@, children_spec(d@, id), "StaSwitch"@),
            forall|t: int| 0 <= t < s@.len() ==> #[trigger] s@[t] < d@.objects.len(),
            forall|j: int| 0 <= j < i ==> (int_spec(d@, #[trigger] sv[j], "on_off"@) matches Some(v) && v != 0),
        decreases s@.len() - i,
    {
        assert(sv[i as int] == s@[i as int] as int);
        match d.int_value(s[i], "on_off") {
            Some(v) => {
                if v == 0 {
                    return false;
                }
            },
            None => {
                return false;
            },
        }
        i = i + 1;
    }
    true
}

fn insert_connection(l: &mut Vec<Connection>, c: Connection)
    ensures
        final(l)@ == old(l)@.insert(side_slot(old(l)@, c.side, 0), c),
{
    let mut j: usize = 0;
    while j < l.len() && l[j].side <= c.side
        invariant
            j <= l@.len(),
            side_slot(l@, c.side, 0) == side_slot(l@, c.side, j as int),
        decreases l@.len() - j,
    {
        j = j + 1;
    }
    l.insert(j, c);
}

/// The connections of every element, and the findings on cubicles that
/// connect nothing.
pub fn collect_connections(d: &DgsDocument) -> (r: (Connections, Vec<String>))
    requires
        document_wf(d@),
    ensures
        r.0.describes(d@),
        crate::text::views(r.1@) == connection_findings(d@),
{
    let n = d.objects.len();
    let mut elements: Vec<i64> = Vec::new();
    let mut lists: Vec<Vec<Connection>> = Vec::new();
    let mut findings: Vec<String> = Vec::new();
    let mut dangling: usize = 0;
    let mut k: usize = 0;
    while k < n
        invariant
            k <= n == d@.objects.len(),
            document_wf(d@),
            elements@.len() == lists@.len(),
            forall|i: int, j: int| 0 <= i < j < elements@.len() ==> #[trigger] elements@[i] != #[trigger] elements@[j],
            forall|i: int|
                0 <= i < elements@.len() ==> #[trigger] lists@[i]@ == by_side(element_records(d@, elements@[i], k as int)),
            forall|e: i64|
                (forall|i: int| 0 <= i < elements@.len() ==> elements@[i] != e) ==> #[trigger] element_records(
                    d@,
                    e,
                    k as int,
                ).len() == 0,
            crate::text::views(findings@) == dropped_messages(d@, k as int),
            dangling == dangling_count(d@, k as int),
            dangling <= k,
        decreases n - k,
    {
        let ghost k1 = k as int + 1;
        let is_cubicle = chars_eq(&chars_of(d.class(k)), &chars_of("StaCubic"));
        let terminal = if is_cubicle {
            match d.parent(k) {
                Some(p) => if chars_eq(&chars_of(d.class(p)), &chars_of("ElmTerm")) {
                    Some(p)
                } else {
                    None
                },
                None => None,
            }
        } else {
            None
        };
        let ghost before = findings@;
        if is_cubicle && terminal.is_none() {
            let mut m: Vec<char> = Vec::new();
            let lab = label(d, k);
            push_str(&mut m, lab.as_str());
            push_str(&mut m, " names no ElmTerm terminal in `fold_id`; the connection was dropped");
            findings.push(string_of(&m));
            assert(crate::text::views(findings@) =~= crate::text::views(before).push(dropped_message(d@, k as int)));
        }
        let mut record: Option<(i64, Connection)> = None;
        if let Some(p) = terminal {
            match d.referenced(k, "obj_id") {
                Some(e) => {
                    let side = match d.int_value(k, "obj_bus") {
                        Some(v) => v,
                        None => 0,
                    };
                    assert(d@.objects[k as int] == d.objects@[k as int]@);
                    assert(d@.objects[p as int] == d.objects@[p as int]@);
                    assert(d@.objects[e as int] == d.objects@[e as int]@);
                    let closed = cubicle_closed(d, d.objects[k].id);
                    record = Some((d.objects[e].id, Connection { terminal: d.objects[p].id, side, closed }));
                },
                None => {
                    dangling = dangling + 1;
                },
            }
        }
        assert(record == cubicle_record(d@, k as int));
        if let Some((eid, c)) = record {
            let mut i: usize = 0;
            while i < elements.len() && elements[i] != eid
                invariant
                    i <= elements@.len(),
                    forall|j: int| 0 <= j < i ==> elements@[j] != eid,
                decreases elements@.len() - i,
            {
                i = i + 1;
            }
            let ghost old_lists = lists@;
            let ghost old_elements = elements@;
            if i < elements.len() {
                let mut l = lists.remove(i);
                insert_connection(&mut l, c);
                lists.insert(i, l);
                proof {
                    assert(lists@ =~= old_lists.update(i as int, lists@[i as int]));
                    let s = element_records(d@, eid, k as int);
                    assert(element_records(d@, eid, k1) == s.push(c));
                    assert(s.push(c).drop_last() =~= s);
                    assert forall|j: int| 0 <= j < elements@.len() implies #[trigger] lists@[j]@ == by_side(
                        element_records(d@, elements@[j], k1),
                    ) by {
                        if j != i {
                            assert(lists@[j] == old_lists[j]);
                        }
                    }
                    assert forall|e: i64|
                        (forall|j: int| 0 <= j < elements@.len() ==> elements@[j] != e) implies #[trigger] element_records(
                        d@,
                        e,
                        k1,
                    ).len() == 0 by {
                        assert(elements@[i as int] != e);
                        assert(element_records(d@, e, k1) == element_records(d@, e, k as int));
                    }
                }
            } else {
                elements.push(eid);
                let mut l: Vec<Connection> = Vec::new();
                l.push(c);
                lists.push(l);
                proof {
                    let s = element_records(d@, eid, k as int);
                    assert(s.len() == 0);
                    assert(s =~= Seq::<Connection>::empty());
                    assert(element_records(d@, eid, k1) == s.push(c));
                    assert(s.push(c).drop_last() =~= s);
                    assert(by_side(s) =~= Seq::<Connection>::empty());
                    assert(lists@[i as int]@ =~= by_side(element_records(d@, eid, k1)));
                    assert forall|j: int| 0 <= j < elements@.len() implies #[trigger] lists@[j]@ == by_side(
                        element_records(d@, elements@[j], k1),
                    ) by {
                        if j < i {
                            assert(lists@[j] == old_lists[j]);
                            assert(elements@[j] == old_elements[j]);
                        }
                    }
                    assert forall|a: int, b: int| 0 <= a < b < elements@.len() implies #[trigger] elements@[a]
                        != #[trigger] elements@[b] by {
                        if b == i {
                            assert(elements@[a] == old_elements[a]);
                        }
                    }
                    assert forall|e: i64|
                        (forall|j: int| 0 <= j < elements@.len() ==> elements@[j] != e) implies #[trigger] element_records(
                        d@,
                        e,
                        k1,
                    ).len() == 0 by {
                        assert(elements@[i as int] != e);
                        assert forall|j: int| 0 <= j < old_elements.len() implies old_elements[j] != e by {
                            assert(elements@[j] == old_elements[j]);
                        }
                        assert(element_records(d@, e, k1) == element_records(d@, e, k as int));
                    }
                }
            }
        } else {
            proof {
                assert forall|j: int| 0 <= j < elements@.len() implies #[trigger] lists@[j]@ == by_side(
                    element_records(d@, elements@[j], k1),
                ) by {
                    assert(element_records(d@, elements@[j], k1) == element_records(d@, elements@[j], k as int));
                }
                assert forall|e: i64|
                    (forall|j: int| 0 <= j < elements@.len() ==> elements@[j] != e) implies #[trigger] element_records(
                    d@,
                    e,
                    k1,
                ).len() == 0 by {
                    assert(element_records(d@, e, k1) == element_records(d@, e, k as int));
                }
            }
        }
        k = k + 1;
    }
    let ghost before = findings@;
    if dangling > 0 {
        let mut m: Vec<char> = Vec::new();
        push_nat(&mut m, dangling as u64);
        push_str(&mut m, " StaCubic cubicle(s) name no element in `obj_id`");
        findings.push(string_of(&m));
        assert(crate::text::views(findings@) =~= crate::text::views(before).push(
            nat_text(dangling_count(d@, n as int)) + " StaCubic cubicle(s) name no element in `obj_id`"@,
        ));
    } else {
        assert(crate::text::views(findings@) =~= crate::text::views(before) + Seq::<Seq<char>>::empty());
    }
    (Connections { elements, lists }, findings)
}

/// Whether `a` and `b` are the two ends of one of the links.
pub open spec fn edge_in(edges: Seq<(i64, i64)>, a: i64, b: i64) -> bool {
    exists|i: int| 0 <= i < edges.len() && (#[trigger] edges[i] == (a, b) || edges[i] == (b, a))
}

/// Whether `p` walks along the links.
pub open spec fn path_in(edges: Seq<(i64, i64)>, p: Seq<i64>) -> bool {
    p.len() >= 1 && forall|i: int| 0 <= i < p.len() - 1 ==> edge_in(edges, #[trigger] p[i], p[i + 1])
}

/// Whether a walk along the links leads from `a` to `b`.
#[verifier::opaque]
pub open spec fn linked(edges: Seq<(i64, i64)>, a: i64, b: i64) -> bool {
    exists|p: Seq<i64>| #[trigger] path_in(edges, p) && p[0] == a && p.last() == b
}

pub(crate) proof fn lemma_linked_refl(edges: Seq<(i64, i64)>, a: i64)
    ensures
        linked(edges, a, a),
{
    reveal(linked);
    let p = seq![a];
    assert(path_in(edges, p));
}

pub(crate) proof fn lemma_linked_edge(edges: Seq<(i64, i64)>, a: i64, b: i64)
    requires
        edge_in(edges, a, b),
    ensures
        linked(edges, a, b),
{
    reveal(linked);
    let p = seq![a, b];
    assert forall|i: int| 0 <= i < p.len() - 1 implies edge_in(edges, #[trigger] p[i], p[i + 1]) by {
        assert(i == 0);
    }
    assert(path_in(edges, p));
}

pub(crate) proof fn lemma_linked_symm(edges: Seq<(i64, i64)>, a: i64, b: i64)
    requires
        linked(edges, a, b),
    ensures
        linked(edges, b, a),
{
    reveal(linked);
    let p = choose|p: Seq<i64>| #[trigger] path_in(edges, p) && p[0] == a && p.last() == b;
    let q = p.reverse();
    assert forall|i: int| 0 <= i < q.len() - 1 implies edge_in(edges, #[trigger] q[i], q[i + 1]) by {
        let j = p.len() - 2 - i;
        assert(q[i] == p[j + 1] && q[i + 1] == p[j]);
        assert(edge_in(edges, p[j], p[j + 1]));
        let w = choose|w: int| 0 <= w < edges.len() && (#[trigger] edges[w] == (p[j], p[j + 1]) || edges[w] == (
            p[j + 1],
            p[j],
        ));
        assert(edges[w] == (q[i], q[i + 1]) || edges[w] == (q[i + 1], q[i]));
    }
    assert(path_in(edges, q));
    assert(q[0] == b && q.last() == a);
}

pub(crate) proof fn lemma_linked_trans(edges: Seq<(i64, i64)>, a: i64, b: i64, c: i64)
    requires
        linked(edges, a, b),
        linked(edges, b, c),
    ensures
        linked(edges, a, c),
{
    reveal(linked);
    let p = choose|p: Seq<i64>| #[trigger] path_in(edges, p) && p[0] == a && p.last() == b;
    let q = choose|q: Seq<i64>| #[trigger] path_in(edges, q) && q[0] == b && q.last() == c;
    let r = p + q.drop_first();
    assert forall|i: int| 0 <= i < r.len() - 1 implies edge_in(edges, #[trigger] r[i], r[i + 1]) by {
        if i < p.len() - 1 {
            assert(r[i] == p[i] && r[i + 1] == p[i + 1]);
        } else {
            let j = i - p.len() + 1;
            assert(r[i] == q[j]);
            assert(r[i + 1] == q[j + 1]);
        }
    }
    assert(path_in(edges, r));
    if q.len() == 1 {
        assert(r =~= p);
    } else {
        assert(r.last() == q.last());
    }
}

proof fn lemma_linked_more(edges: Seq<(i64, i64)>, e: (i64, i64), a: i64, b: i64)
    requires
        linked(edges, a, b),
    ensures
        linked(edges.push(e), a, b),
{
    reveal(linked);
    let p = choose|p: Seq<i64>| #[trigger] path_in(edges, p) && p[0] == a && p.last() == b;
    assert forall|i: int| 0 <= i < p.len() - 1 implies edge_in(edges.push(e), #[trigger] p[i], p[i + 1]) by {
        assert(edge_in(edges, p[i], p[i + 1]));
        let w = choose|w: int| 0 <= w < edges.len() && (#[trigger] edges[w] == (p[i], p[i + 1]) || edges[w] == (
            p[i + 1],
            p[i],
        ));
        assert(edges.push(e)[w] == edges[w]);
    }
    assert(path_in(edges.push(e), p));
}

/// A labelling that agrees across every link agrees along every walk.
pub(crate) proof fn lemma_linked_labels(edges: Seq<(i64, i64)>, f: spec_fn(i64) -> i64, a: i64, b: i64)
    requires
        forall|i: int| 0 <= i < edges.len() ==> f((#[trigger] edges[i]).0) == f(edges[i].1),
        linked(edges, a, b),
    ensures
        f(a) == f(b),
{
    reveal(linked);
    let p = choose|p: Seq<i64>| #[trigger] path_in(edges, p) && p[0] == a && p.last() == b;
    lemma_walk_labels(edges, f, p, p.len() - 1);
}

proof fn lemma_walk_labels(edges: Seq<(i64, i64)>, f: spec_fn(i64) -> i64, p: Seq<i64>, k: int)
    requires
        forall|i: int| 0 <= i < edges.len() ==> f((#[trigger] edges[i]).0) == f(edges[i].1),
        path_in(edges, p),
        0 <= k < p.len(),
    ensures
        f(p[0]) == f(p[k]),
    decreases k,
{
    if k > 0 {
        lemma_walk_labels(edges, f, p, k - 1);
        assert(edge_in(edges, p[k - 1], p[k]));
        let w = choose|w: int| 0 <= w < edges.len() && (#[trigger] edges[w] == (p[k - 1], p[k]) || edges[w] == (
            p[k],
            p[k - 1],
        ));
        assert(f(edges[w].0) == f(edges[w].1));
    }
}


/// The offset of the first `x` in `ids`.
pub open spec fn first_at(ids: Seq<i64>, x: i64, n: int) -> int
    decreases n,
{
    if n <= 0 {
        -1
    } else if first_at(ids, x, n - 1) >= 0 {
        first_at(ids, x, n - 1)
    } else if ids[n - 1] == x {
        n - 1
    } else {
        -1
    }
}

pub open spec fn distinct(ids: Seq<i64>) -> bool {
    forall|i: int, j: int| 0 <= i < j < ids.len() ==> #[trigger] ids[i] != #[trigger] ids[j]
}

pub(crate) proof fn lemma_first_at(ids: Seq<i64>, i: int, n: int)
    requires
        distinct(ids),
        0 <= i < n <= ids.len(),
    ensures
        first_at(ids, ids[i], n) == i,
    decreases n,
{
    if i < n - 1 {
        lemma_first_at(ids, i, n - 1);
    } else {
        lemma_first_at_none(ids, ids[i], i, i);
    }
}

proof fn lemma_first_at_none(ids: Seq<i64>, x: i64, m: int, n: int)
    requires
        distinct(ids),
        0 <= m <= n < ids.len(),
        ids[n] == x,
    ensures
        first_at(ids, x, m) == -1,
    decreases m,
{
    if m > 0 {
        lemma_first_at_none(ids, x, m - 1, n);
        assert(ids[m - 1] != ids[n]);
    }
}

/// The labels of a list of ids while links are being read: two ids share a
/// label exactly when the links join them, and the label of a group is its
/// least id, itself labelled so; every link joins listed ids.
pub open spec fn labelled(edges: Seq<(i64, i64)>, ids: Seq<i64>, labels: Seq<i64>, roots: Seq<int>) -> bool {
    &&& labels.len() == ids.len()
    &&& roots.len() == ids.len()
    &&& distinct(ids)
    &&& forall|i: int, j: int|
        0 <= i < ids.len() && 0 <= j < ids.len() ==> ((#[trigger] labels[i] == #[trigger] labels[j]) == linked(
            edges,
            ids[i],
            ids[j],
        ))
    &&& forall|i: int|
        0 <= i < ids.len() ==> 0 <= #[trigger] roots[i] < ids.len() && ids[roots[i]] == labels[i] && labels[roots[i]]
            == labels[i]
    &&& forall|i: int, j: int|
        0 <= i < ids.len() && 0 <= j < ids.len() && #[trigger] labels[i] == #[trigger] labels[j] ==> labels[i] <= ids[j]
    &&& forall|e: int| 0 <= e < edges.len() ==> ids.contains((#[trigger] edges[e]).0) && ids.contains(edges[e].1)
}

/// Without links, each id is on its own.
proof fn lemma_unlinked(a: i64, b: i64)
    requires
        linked(Seq::<(i64, i64)>::empty(), a, b),
    ensures
        a == b,
{
    reveal(linked);
    let p = choose|p: Seq<i64>| #[trigger] path_in(Seq::<(i64, i64)>::empty(), p) && p[0] == a && p.last() == b;
    if p.len() > 1 {
        assert(edge_in(Seq::<(i64, i64)>::empty(), p[0], p[1]));
    }
}

pub(crate) proof fn lemma_labelled_start(ids: Seq<i64>)
    requires
        distinct(ids),
    ensures
        labelled(Seq::<(i64, i64)>::empty(), ids, ids, Seq::new(ids.len(), |i: int| i)),
{
    let e = Seq::<(i64, i64)>::empty();
    assert forall|i: int, j: int| 0 <= i < ids.len() && 0 <= j < ids.len() implies ((#[trigger] ids[i]
        == #[trigger] ids[j]) == linked(e, ids[i], ids[j])) by {
        if ids[i] == ids[j] {
            lemma_linked_refl(e, ids[i]);
        }
        if linked(e, ids[i], ids[j]) {
            lemma_unlinked(ids[i], ids[j]);
        }
    }
}

/// Where the group with the lesser of the two labels has its root.
pub open spec fn merged_roots(labels: Seq<i64>, roots: Seq<int>, ia: int, ib: int) -> Seq<int> {
    let hi = if labels[ia] < labels[ib] {
        labels[ib]
    } else {
        labels[ia]
    };
    let src = if labels[ia] < labels[ib] {
        ia
    } else {
        ib
    };
    Seq::new(roots.len(), |i: int| if labels[i] == hi {
        roots[src]
    } else {
        roots[i]
    })
}

/// The labels after a link between `ids[ia]` and `ids[ib]`: the group with
/// the greater label joins the other.
pub open spec fn merged(labels: Seq<i64>, ia: int, ib: int) -> Seq<i64> {
    let lo = if labels[ia] < labels[ib] {
        labels[ia]
    } else {
        labels[ib]
    };
    let hi = if labels[ia] < labels[ib] {
        labels[ib]
    } else {
        labels[ia]
    };
    labels.map_values(|l: i64| if l == hi {
        lo
    } else {
        l
    })
}

/// The label of id `x`.
pub open spec fn label_of(ids: Seq<i64>, labels: Seq<i64>, x: i64) -> i64 {
    let i = first_at(ids, x, ids.len() as int);
    if 0 <= i {
        labels[i]
    } else {
        0
    }
}

proof fn lemma_merge_agrees(edges: Seq<(i64, i64)>, ids: Seq<i64>, labels: Seq<i64>, roots: Seq<int>, ia: int, ib: int)
    requires
        labelled(edges, ids, labels, roots),
        0 <= ia < ids.len(),
        0 <= ib < ids.len(),
    ensures
        forall|w: int|
            0 <= w < edges.len() + 1 ==> label_of(ids, merged(labels, ia, ib), (#[trigger] edges.push((ids[ia], ids[ib]))[w]).0)
                == label_of(ids, merged(labels, ia, ib), edges.push((ids[ia], ids[ib]))[w].1),
{
    let e2 = edges.push((ids[ia], ids[ib]));
    let n = merged(labels, ia, ib);
    assert forall|w: int| 0 <= w < e2.len() implies label_of(ids, n, (#[trigger] e2[w]).0) == label_of(ids, n, e2[w].1) by {
        if w < edges.len() {
            assert(e2[w] == edges[w]);
            let x = edges[w].0;
            let y = edges[w].1;
            assert(ids.contains(x) && ids.contains(y));
            let i = choose|i: int| 0 <= i < ids.len() && ids[i] == x;
            let j = choose|j: int| 0 <= j < ids.len() && ids[j] == y;
            assert(edge_in(edges, ids[i], ids[j]));
            lemma_linked_edge(edges, ids[i], ids[j]);
            assert(labels[i] == labels[j]);
            lemma_first_at(ids, i, ids.len() as int);
            lemma_first_at(ids, j, ids.len() as int);
        } else {
            lemma_first_at(ids, ia, ids.len() as int);
            lemma_first_at(ids, ib, ids.len() as int);
        }
    }
}

#[verifier::rlimit(30)]
proof fn lemma_merge_links(
    edges: Seq<(i64, i64)>,
    ids: Seq<i64>,
    labels: Seq<i64>,
    roots: Seq<int>,
    ia: int,
    ib: int,
    i: int,
    j: int,
)
    requires
        labelled(edges, ids, labels, roots),
        0 <= ia < ids.len(),
        0 <= ib < ids.len(),
        0 <= i < ids.len(),
        0 <= j < ids.len(),
    ensures
        (merged(labels, ia, ib)[i] == merged(labels, ia, ib)[j]) == linked(edges.push((ids[ia], ids[ib])), ids[i], ids[j]),
{
    let e2 = edges.push((ids[ia], ids[ib]));
    let n = merged(labels, ia, ib);
    if linked(e2, ids[i], ids[j]) {
        lemma_merge_agrees(edges, ids, labels, roots, ia, ib);
        let f = |x: i64| label_of(ids, n, x);
        assert forall|w: int| 0 <= w < e2.len() implies f((#[trigger] e2[w]).0) == f(e2[w].1) by {}
        lemma_linked_labels(e2, f, ids[i], ids[j]);
        lemma_first_at(ids, i, ids.len() as int);
        lemma_first_at(ids, j, ids.len() as int);
    }
    if n[i] == n[j] {
        if labels[i] == labels[j] {
            lemma_linked_more(edges, (ids[ia], ids[ib]), ids[i], ids[j]);
        } else {
            assert(e2[edges.len() as int] == (ids[ia], ids[ib]));
            assert(edge_in(e2, ids[ia], ids[ib]));
            lemma_linked_edge(e2, ids[ia], ids[ib]);
            lemma_linked_symm(e2, ids[ia], ids[ib]);
            let xi = if labels[i] == labels[ia] {
                ia
            } else {
                ib
            };
            let xj = if xi == ia {
                ib
            } else {
                ia
            };
            assert(labels[i] == labels[xi]);
            assert(labels[j] == labels[xj]);
            lemma_linked_more(edges, (ids[ia], ids[ib]), ids[i], ids[xi]);
            lemma_linked_more(edges, (ids[ia], ids[ib]), ids[xj], ids[j]);
            lemma_linked_trans(e2, ids[i], ids[xi], ids[xj]);
            lemma_linked_trans(e2, ids[i], ids[xj], ids[j]);
        }
    }
}

pub(crate) proof fn lemma_merge(edges: Seq<(i64, i64)>, ids: Seq<i64>, labels: Seq<i64>, roots: Seq<int>, ia: int, ib: int)
    requires
        labelled(edges, ids, labels, roots),
        0 <= ia < ids.len(),
        0 <= ib < ids.len(),
    ensures
        labelled(edges.push((ids[ia], ids[ib])), ids, merged(labels, ia, ib), merged_roots(labels, roots, ia, ib)),
{
    let e2 = edges.push((ids[ia], ids[ib]));
    let n = merged(labels, ia, ib);
    let lo = if labels[ia] < labels[ib] {
        labels[ia]
    } else {
        labels[ib]
    };
    let hi = if labels[ia] < labels[ib] {
        labels[ib]
    } else {
        labels[ia]
    };
    assert forall|i: int, j: int| 0 <= i < ids.len() && 0 <= j < ids.len() implies ((#[trigger] n[i]
        == #[trigger] n[j]) == linked(e2, ids[i], ids[j])) by {
        lemma_merge_links(edges, ids, labels, roots, ia, ib, i, j);
    }
    let r = merged_roots(labels, roots, ia, ib);
    assert forall|i: int| 0 <= i < ids.len() implies 0 <= #[trigger] r[i] < ids.len() && ids[r[i]] == n[i] && n[r[i]]
        == n[i] by {
        let src = if labels[ia] < labels[ib] {
            ia
        } else {
            ib
        };
        if labels[i] == hi {
            assert(r[i] == roots[src]);
            assert(labels[roots[src]] == labels[src]);
        } else {
            assert(r[i] == roots[i]);
            assert(labels[roots[i]] == labels[i]);
        }
    }
    assert forall|i: int, j: int|
        0 <= i < ids.len() && 0 <= j < ids.len() && #[trigger] n[i] == #[trigger] n[j] implies n[i] <= ids[j] by {
        assert(labels[j] == labels[j]);
        if labels[i] == labels[j] {
        } else if labels[j] == hi {
            assert(labels[j] <= ids[j]);
        } else {
            assert(labels[j] <= ids[j]);
        }
    }
    assert forall|w: int| 0 <= w < e2.len() implies ids.contains((#[trigger] e2[w]).0) && ids.contains(e2[w].1) by {
        if w < edges.len() {
            assert(e2[w] == edges[w]);
        } else {
            assert(ids[ia] == ids[ia]);
            assert(ids[ib] == ids[ib]);
        }
    }
}


/// Whether an element is out of service: it states `outserv` 1.
pub open spec fn out_of_service(d: DgsDocumentV, k: int) -> bool {
    int_spec(d, k, "outserv"@) == Some(1i64)
}

/// Whether an `ElmCoup` joins its terminals: in service, closed itself (a
/// switch that states no `on_off` is read as closed), and closed at every
/// cubicle.
pub open spec fn coupler_closed_spec(d: DgsDocumentV, k: int) -> bool {
    let c = connections_of(d, d.objects[k].id);
    &&& !out_of_service(d, k)
    &&& match int_spec(d, k, "on_off"@) {
        Some(v) => v != 0,
        None => true,
    }
    &&& forall|i: int| 0 <= i < c.len() ==> (#[trigger] c[i]).closed
}

/// The finding for an in service coupler that states no `on_off`.
pub open spec fn coupler_finding(d: DgsDocumentV, k: int) -> Option<Seq<char>> {
    if !out_of_service(d, k) && int_spec(d, k, "on_off"@) is None {
        Some(label_spec(d, k) + " states no `on_off`; the switch is read as closed"@)
    } else {
        None
    }
}

/// Whether coupler `k` joins its terminals, with the finding on it.
pub fn coupler_closed(d: &DgsDocument, conns: &Connections, k: usize) -> (r: (bool, Option<String>))
    requires
        k < d@.objects.len(),
        document_wf(d@),
        conns.describes(d@),
    ensures
        r.0 == coupler_closed_spec(d@, k as int),
        int_spec(d@, k as int, "outserv"@) == Some(1i64) ==> !r.0,
        match r.1 {
            Some(m) => coupler_finding(d@, k as int) == Some(m@),
            None => coupler_finding(d@, k as int) is None,
        },
{
    let outserv = match d.int_value(k, "outserv") {
        Some(v) => v == 1,
        None => false,
    };
    if outserv {
        return (false, None);
    }
    let (own, finding) = match d.int_value(k, "on_off") {
        Some(v) => (v != 0, None),
        None => {
            let mut m: Vec<char> = Vec::new();
            let lab = label(d, k);
            push_str(&mut m, lab.as_str());
            push_str(&mut m, " states no `on_off`; the switch is read as closed");
            (true, Some(string_of(&m)))
        },
    };
    assert(d@.objects[k as int] == d.objects@[k as int]@);
    let c = conns.of(d, d.objects[k].id);
    let mut all = true;
    let mut i: usize = 0;
    while i < c.len()
        invariant
            i <= c@.len(),
            all == forall|j: int| 0 <= j < i ==> (#[trigger] c@[j]).closed,
        decreases c@.len() - i,
    {
        if !c[i].closed {
            all = false;
        }
        i = i + 1;
    }
    assert(c@ == connections_of(d@, d@.objects[k as int].id));
    assert(!out_of_service(d@, k as int));
    assert(own == match int_spec(d@, k as int, "on_off"@) {
        Some(v) => v != 0,
        None => true,
    });
    assert(all == forall|j: int| 0 <= j < c@.len() ==> (#[trigger] c@[j]).closed);
    (own && all, finding)
}

/// Whether object `k` is an AC terminal: an `ElmTerm` outside every DC
/// island.
pub open spec fn is_ac_terminal(d: DgsDocumentV, dc_terminals: Seq<i64>, k: int) -> bool {
    class_of(d, k) == "ElmTerm"@ && !dc_terminals.contains(d.objects[k].id)
}

/// The ids of the AC terminals among the first `n` objects, each once, in
/// order of first appearance.
pub open spec fn ac_ids(d: DgsDocumentV, dc_terminals: Seq<i64>, n: int) -> Seq<i64>
    decreases n,
{
    if n <= 0 {
        Seq::empty()
    } else {
        let s = ac_ids(d, dc_terminals, n - 1);
        if is_ac_terminal(d, dc_terminals, n - 1) && !s.contains(d.objects[n - 1].id) {
            s.push(d.objects[n - 1].id)
        } else {
            s
        }
    }
}

/// The AC terminals among the first `n` objects, in file order.
pub open spec fn ac_terminals(d: DgsDocumentV, dc_terminals: Seq<i64>, n: int) -> Seq<int>
    decreases n,
{
    if n <= 0 {
        Seq::empty()
    } else if is_ac_terminal(d, dc_terminals, n - 1) {
        ac_terminals(d, dc_terminals, n - 1).push(n - 1)
    } else {
        ac_terminals(d, dc_terminals, n - 1)
    }
}

/// Whether `x` is the id of an AC terminal.
pub open spec fn is_ac_id(d: DgsDocumentV, dc_terminals: Seq<i64>, x: i64) -> bool {
    ac_ids(d, dc_terminals, d.objects.len() as int).contains(x)
}

/// Whether object `k` is a coupler that joins two AC terminals.
pub open spec fn couples(d: DgsDocumentV, dc_terminals: Seq<i64>, dc_elements: Seq<i64>, k: int) -> bool {
    let c = connections_of(d, d.objects[k].id);
    &&& class_of(d, k) == "ElmCoup"@
    &&& !dc_elements.contains(d.objects[k].id)
    &&& coupler_closed_spec(d, k)
    &&& c.len() == 2
    &&& is_ac_id(d, dc_terminals, c[0].terminal)
    &&& is_ac_id(d, dc_terminals, c[1].terminal)
}

/// A coupler that states `outserv=1` is out of service: it is never
/// closed, whatever its own switch and its cubicles state, so it joins no
/// two terminals, whichever terminals and elements are on the DC side.
pub proof fn law_an_out_of_service_coupler_joins_nothing(
    d: DgsDocumentV,
    k: int,
    dc_terminals: Seq<i64>,
    dc_elements: Seq<i64>,
)
    requires
        int_spec(d, k, "outserv"@) == Some(1i64),
    ensures
        !coupler_closed_spec(d, k),
        !couples(d, dc_terminals, dc_elements, k),
{
}

/// An in service coupler joins its terminals exactly when its own switch is
/// not stated open (`on_off=0`; one that states no `on_off` is read as
/// closed) and none of its cubicles is open.
pub proof fn law_an_in_service_coupler_follows_its_switches(d: DgsDocumentV, k: int)
    requires
        int_spec(d, k, "outserv"@) != Some(1i64),
    ensures
        int_spec(d, k, "on_off"@) == Some(0i64) ==> !coupler_closed_spec(d, k),
        (exists|i: int|
            0 <= i < connections_of(d, d.objects[k].id).len() && !(#[trigger] connections_of(d, d.objects[k].id)[i]).closed)
            ==> !coupler_closed_spec(d, k),
        (int_spec(d, k, "on_off"@) != Some(0i64) && forall|i: int|
            0 <= i < connections_of(d, d.objects[k].id).len() ==> (#[trigger] connections_of(d, d.objects[k].id)[i]).closed)
            ==> coupler_closed_spec(d, k),
{
}

/// The links the closed AC couplers among the first `n` objects make, in
/// file order.
pub open spec fn coupler_edges(d: DgsDocumentV, dc_terminals: Seq<i64>, dc_elements: Seq<i64>, n: int) -> Seq<(i64, i64)>
    decreases n,
{
    if n <= 0 {
        Seq::empty()
    } else if couples(d, dc_terminals, dc_elements, n - 1) {
        let c = connections_of(d, d.objects[n - 1].id);
        coupler_edges(d, dc_terminals, dc_elements, n - 1).push((c[0].terminal, c[1].terminal))
    } else {
        coupler_edges(d, dc_terminals, dc_elements, n - 1)
    }
}

/// The findings on the AC couplers among the first `n` objects.
pub open spec fn coupler_findings(d: DgsDocumentV, dc_elements: Seq<i64>, n: int) -> Seq<Seq<char>>
    decreases n,
{
    if n <= 0 {
        Seq::empty()
    } else if class_of(d, n - 1) == "ElmCoup"@ && !dc_elements.contains(d.objects[n - 1].id) && coupler_finding(
        d,
        n - 1,
    ) is Some {
        coupler_findings(d, dc_elements, n - 1).push(coupler_finding(d, n - 1)->Some_0)
    } else {
        coupler_findings(d, dc_elements, n - 1)
    }
}

/// Whether `r` is the least AC terminal id the links join to `x`: the id a
/// calculated bus takes.
pub open spec fn is_root(d: DgsDocumentV, dc_terminals: Seq<i64>, edges: Seq<(i64, i64)>, x: i64, r: i64) -> bool {
    &&& is_ac_id(d, dc_terminals, r)
    &&& linked(edges, x, r)
    &&& forall|y: i64| is_ac_id(d, dc_terminals, y) && #[trigger] linked(edges, x, y) ==> r <= y
}

/// The members of `ts` whose id has root `r`, in order.
pub open spec fn rooted(d: DgsDocumentV, dc_terminals: Seq<i64>, edges: Seq<(i64, i64)>, r: i64, ts: Seq<int>) -> Seq<int>
    decreases ts.len(),
{
    if ts.len() == 0 {
        Seq::empty()
    } else if is_root(d, dc_terminals, edges, d.objects[ts.last()].id, r) {
        rooted(d, dc_terminals, edges, r, ts.drop_last()).push(ts.last())
    } else {
        rooted(d, dc_terminals, edges, r, ts.drop_last())
    }
}

/// The first offset of `x` in `v`.
pub(crate) fn find_id(v: &Vec<i64>, x: i64) -> (r: Option<usize>)
    ensures
        match r {
            Some(i) => i < v@.len() && v@[i as int] == x && forall|j: int| 0 <= j < i ==> v@[j] != x,
            None => !v@.contains(x),
        },
{
    let mut i: usize = 0;
    while i < v.len()
        invariant
            i <= v@.len(),
            forall|j: int| 0 <= j < i ==> v@[j] != x,
        decreases v@.len() - i,
    {
        if v[i] == x {
            return Some(i);
        }
        i = i + 1;
    }
    None
}


/// The AC terminal ids, each once in order of first appearance, and the AC
/// terminals in file order.
fn ac_terminal_list(d: &DgsDocument, dc_terminals: &Vec<i64>) -> (r: (Vec<i64>, Vec<usize>, Ghost<Seq<int>>))
    requires
        document_wf(d@),
    ensures
        r.0@ == ac_ids(d@, dc_terminals@, d@.objects.len() as int),
        r.1@.map_values(|k: usize| k as int) == ac_terminals(d@, dc_terminals@, d@.objects.len() as int),
        distinct(r.0@),
        r.2@.len() == r.0@.len(),
        forall|j: int|
            0 <= j < r.0@.len() ==> 0 <= #[trigger] r.2@[j] < r.1@.len() && d@.objects[r.1@[r.2@[j]] as int].id
                == r.0@[j],
        forall|t: int|
            0 <= t < r.1@.len() ==> #[trigger] r.1@[t] < d@.objects.len() && r.0@.contains(
                d@.objects[r.1@[t] as int].id,
            ),
{
    let n = d.objects.len();
    let mut ids: Vec<i64> = Vec::new();
    let mut terms: Vec<usize> = Vec::new();
    let ghost mut wit: Seq<int> = Seq::empty();
    let mut k: usize = 0;
    while k < n
        invariant
            k <= n == d@.objects.len(),
            document_wf(d@),
            ids@ == ac_ids(d@, dc_terminals@, k as int),
            terms@.map_values(|k: usize| k as int) == ac_terminals(d@, dc_terminals@, k as int),
            distinct(ids@),
            wit.len() == ids@.len(),
            forall|j: int|
                0 <= j < ids@.len() ==> 0 <= #[trigger] wit[j] < terms@.len() && d@.objects[terms@[wit[j]] as int].id
                    == ids@[j],
            forall|t: int|
                0 <= t < terms@.len() ==> #[trigger] terms@[t] < k && ids@.contains(d@.objects[terms@[t] as int].id),
        decreases n - k,
    {
        assert(d@.objects[k as int] == d.objects@[k as int]@);
        let id = d.objects[k].id;
        let is_term = chars_eq(&chars_of(d.class(k)), &chars_of("ElmTerm"));
        let in_dc = find_id(dc_terminals, id).is_some();
        if is_term && !in_dc {
            let ghost before_terms = terms@;
            let ghost before_ids = ids@;
            terms.push(k);
            assert(terms@.map_values(|k: usize| k as int) =~= before_terms.map_values(|k: usize| k as int).push(
                k as int,
            ));
            match find_id(&ids, id) {
                Some(_) => {},
                None => {
                    ids.push(id);
                    proof {
                        wit = wit.push(terms@.len() - 1);
                        assert forall|a: int, b: int| 0 <= a < b < ids@.len() implies #[trigger] ids@[a]
                            != #[trigger] ids@[b] by {
                            if b == ids@.len() - 1 {
                                assert(ids@[a] == before_ids[a]);
                            }
                        }
                    }
                },
            }
            proof {
                assert forall|j: int| 0 <= j < ids@.len() implies 0 <= #[trigger] wit[j] < terms@.len()
                    && d@.objects[terms@[wit[j]] as int].id == ids@[j] by {
                    if j < before_ids.len() {
                        assert(ids@[j] == before_ids[j]);
                        assert(terms@[wit[j]] == before_terms[wit[j]]);
                    }
                }
                assert forall|t: int| 0 <= t < terms@.len() implies #[trigger] terms@[t] < k + 1 && ids@.contains(
                    d@.objects[terms@[t] as int].id,
                ) by {
                    if t < before_terms.len() {
                        assert(terms@[t] == before_terms[t]);
                        let w = choose|w: int| 0 <= w < before_ids.len() && before_ids[w] == d@.objects[terms@[t] as int].id;
                        assert(ids@[w] == before_ids[w]);
                    } else {
                        if !before_ids.contains(id) {
                            assert(ids@[ids@.len() - 1] == id);
                        }
                    }
                }
            }
        }
        k = k + 1;
    }
    (ids, terms, Ghost(wit))
}

pub(crate) fn merge_labels(labels: &mut Vec<i64>, ia: usize, ib: usize)
    requires
        ia < old(labels)@.len(),
        ib < old(labels)@.len(),
    ensures
        final(labels)@ == merged(old(labels)@, ia as int, ib as int),
{
    let ghost before = labels@;
    let (lo, hi) = if labels[ia] < labels[ib] {
        (labels[ia], labels[ib])
    } else {
        (labels[ib], labels[ia])
    };
    let mut t: usize = 0;
    while t < labels.len()
        invariant
            t <= labels@.len() == before.len(),
            forall|u: int| 0 <= u < t ==> #[trigger] labels@[u] == (if before[u] == hi {
                lo
            } else {
                before[u]
            }),
            forall|u: int| t <= u < labels@.len() ==> #[trigger] labels@[u] == before[u],
        decreases labels@.len() - t,
    {
        if labels[t] == hi {
            labels.set(t, lo);
        }
        t = t + 1;
    }
    assert(labels@ =~= merged(before, ia as int, ib as int));
}


proof fn lemma_label_is_root(
    d: DgsDocumentV,
    dc_terminals: Seq<i64>,
    edges: Seq<(i64, i64)>,
    ids: Seq<i64>,
    labels: Seq<i64>,
    roots: Seq<int>,
    i: int,
    r: i64,
)
    requires
        labelled(edges, ids, labels, roots),
        ids == ac_ids(d, dc_terminals, d.objects.len() as int),
        0 <= i < ids.len(),
    ensures
        is_root(d, dc_terminals, edges, ids[i], r) <==> labels[i] == r,
{
    let j = roots[i];
    assert(labels[i] == labels[j]);
    assert(linked(edges, ids[i], ids[j]));
    assert(ids.contains(ids[j]));
    assert forall|y: i64| is_ac_id(d, dc_terminals, y) && #[trigger] linked(edges, ids[i], y) implies labels[i] <= y by {
        let w = choose|w: int| 0 <= w < ids.len() && ids[w] == y;
        assert(labels[i] == labels[w]);
    }
    assert(is_root(d, dc_terminals, edges, ids[i], labels[i]));
    if is_root(d, dc_terminals, edges, ids[i], r) {
        let w = choose|w: int| 0 <= w < ids.len() && ids[w] == r;
        assert(linked(edges, ids[i], ids[w]));
        assert(labels[i] == labels[w]);
        assert(labels[i] <= ids[w]);
        assert(r <= labels[i]);
    }
}

proof fn lemma_rooted_has(d: DgsDocumentV, dc_terminals: Seq<i64>, edges: Seq<(i64, i64)>, r: i64, ts: Seq<int>, t: int)
    requires
        0 <= t < ts.len(),
        is_root(d, dc_terminals, edges, d.objects[ts[t]].id, r),
    ensures
        rooted(d, dc_terminals, edges, r, ts).len() > 0,
    decreases ts.len(),
{
    if t < ts.len() - 1 {
        assert(ts.drop_last()[t] == ts[t]);
        lemma_rooted_has(d, dc_terminals, edges, r, ts.drop_last(), t);
    }
}

/// Whether the root of `x` is among `roots`.
pub open spec fn root_among(d: DgsDocumentV, dc_terminals: Seq<i64>, edges: Seq<(i64, i64)>, x: i64, roots: Seq<i64>) -> bool {
    exists|g: int| 0 <= g < roots.len() && #[trigger] is_root(d, dc_terminals, edges, x, roots[g])
}

/// Whether every terminal of `ts` has its root among `roots`.
pub open spec fn all_rooted(
    d: DgsDocumentV,
    dc_terminals: Seq<i64>,
    edges: Seq<(i64, i64)>,
    roots: Seq<i64>,
    ts: Seq<int>,
) -> bool {
    forall|t: int| 0 <= t < ts.len() ==> #[trigger] root_among(d, dc_terminals, edges, d.objects[ts[t]].id, roots)
}

pub open spec fn group_roots(groups: Seq<(i64, Vec<usize>)>) -> Seq<i64> {
    groups.map_values(|x: (i64, Vec<usize>)| x.0)
}

/// Whether `m` is the least AC terminal id.
pub open spec fn least_ac_id(d: DgsDocumentV, dc_terminals: Seq<i64>, m: i64) -> bool {
    is_ac_id(d, dc_terminals, m) && forall|y: i64| #[trigger] is_ac_id(d, dc_terminals, y) ==> m <= y
}

/// Whether `groups` are the calculated buses of `d`: each the AC terminals
/// whose least joined AC terminal id is its id, in file order, none empty,
/// ascending by id, and every AC terminal in one of them.
pub open spec fn calculated_buses(
    d: DgsDocumentV,
    dc_terminals: Seq<i64>,
    dc_elements: Seq<i64>,
    groups: Seq<(i64, Vec<usize>)>,
) -> bool {
    let n = d.objects.len() as int;
    let ts = ac_terminals(d, dc_terminals, n);
    let edges = coupler_edges(d, dc_terminals, dc_elements, n);
    &&& forall|g: int|
        0 <= g < groups.len() ==> (#[trigger] groups[g]).1@.map_values(|k: usize| k as int) == rooted(
            d,
            dc_terminals,
            edges,
            groups[g].0,
            ts,
        ) && groups[g].1@.len() > 0
    &&& forall|g: int, h: int| 0 <= g < h < groups.len() ==> (#[trigger] groups[g]).0 < (#[trigger] groups[h]).0
    &&& all_rooted(d, dc_terminals, edges, group_roots(groups), ts)
    &&& forall|g: int, m: int|
        0 <= g < groups.len() && 0 <= m < groups[g].1@.len() ==> #[trigger] groups[g].1@[m] < d.objects.len()
}

/// The calculated buses: the AC terminals grouped by the closed couplers
/// that join them, each group under its least id, in ascending order; and
/// the findings on couplers that state no switch position. There is no bus
/// without an AC terminal, nor one under a negative id.
pub fn terminal_groups(d: &DgsDocument, conns: &Connections, dc_terminals: &Vec<i64>, dc_elements: &Vec<i64>) -> (r: Result<
    (Vec<(i64, Vec<usize>)>, Vec<String>),
    String,
>)
    requires
        document_wf(d@),
        conns.describes(d@),
    ensures
        ({
            let n = d@.objects.len() as int;
            let ts = ac_terminals(d@, dc_terminals@, n);
            let edges = coupler_edges(d@, dc_terminals@, dc_elements@, n);
            match r {
                Ok((groups, findings)) => {
                    &&& ts.len() > 0
                    &&& calculated_buses(d@, dc_terminals@, dc_elements@, groups@)
                    &&& crate::text::views(findings@) == coupler_findings(d@, dc_elements@, n)
                    &&& forall|y: i64| #[trigger] is_ac_id(d@, dc_terminals@, y) ==> y >= 0
                },
                Err(e) => {
                    ||| ts.len() == 0 && e@ == "the export declares no AC ElmTerm terminal"@
                    ||| exists|m: i64|
                        least_ac_id(d@, dc_terminals@, m) && m < 0 && e@ == "ElmTerm id "@ + int_text(m as int)
                            + " is negative"@
                },
            }
        }),
{
    let n = d.objects.len();
    let (ids, terms, Ghost(wit)) = ac_terminal_list(d, dc_terminals);
    let ghost ts = ac_terminals(d@, dc_terminals@, n as int);
    if terms.len() == 0 {
        assert(ts.len() == 0);
        let m = chars_of("the export declares no AC ElmTerm terminal");
        return Err(string_of(&m));
    }
    let mut labels: Vec<i64> = Vec::new();
    let mut i: usize = 0;
    while i < ids.len()
        invariant
            i <= ids@.len(),
            labels@ == ids@.take(i as int),
        decreases ids@.len() - i,
    {
        labels.push(ids[i]);
        i = i + 1;
        assert(labels@ =~= ids@.take(i as int));
    }
    assert(ids@.take(ids@.len() as int) =~= ids@);
    let ghost mut roots: Seq<int> = Seq::new(ids@.len(), |i: int| i);
    let ghost mut edges: Seq<(i64, i64)> = Seq::empty();
    proof {
        lemma_labelled_start(ids@);
    }
    let mut findings: Vec<String> = Vec::new();
    let mut k: usize = 0;
    while k < n
        invariant
            k <= n == d@.objects.len(),
            document_wf(d@),
            conns.describes(d@),
            ids@ == ac_ids(d@, dc_terminals@, n as int),
            labelled(edges, ids@, labels@, roots),
            edges == coupler_edges(d@, dc_terminals@, dc_elements@, k as int),
            crate::text::views(findings@) == coupler_findings(d@, dc_elements@, k as int),
        decreases n - k,
    {
        assert(d@.objects[k as int] == d.objects@[k as int]@);
        let id = d.objects[k].id;
        let is_coupler = chars_eq(&chars_of(d.class(k)), &chars_of("ElmCoup"));
        let in_dc = find_id(dc_elements, id).is_some();
        if is_coupler && !in_dc {
            let (closed, finding) = coupler_closed(d, conns, k);
            let ghost before = findings@;
            if let Some(m) = finding {
                findings.push(m);
                assert(crate::text::views(findings@) =~= crate::text::views(before).push(
                    coupler_finding(d@, k as int)->Some_0,
                ));
            }
            if closed {
                let c = conns.of(d, id);
                if c.len() == 2 {
                    match (find_id(&ids, c[0].terminal), find_id(&ids, c[1].terminal)) {
                        (Some(ia), Some(ib)) => {
                            let ghost old_labels = labels@;
                            proof {
                                lemma_merge(edges, ids@, labels@, roots, ia as int, ib as int);
                                roots = merged_roots(old_labels, roots, ia as int, ib as int);
                                edges = edges.push((ids@[ia as int], ids@[ib as int]));
                            }
                            merge_labels(&mut labels, ia, ib);
                        },
                        _ => {},
                    }
                }
            }
        }
        k = k + 1;
    }
    let ghost edges_all = edges;
    // The labels in ascending order, each once.
    let mut tops: Vec<i64> = Vec::new();
    let mut u: usize = 0;
    while u < labels.len()
        invariant
            u <= labels@.len(),
            forall|a: int, b: int| 0 <= a < b < tops@.len() ==> #[trigger] tops@[a] < #[trigger] tops@[b],
            forall|x: i64| #[trigger] tops@.contains(x) <==> exists|w: int| 0 <= w < u && labels@[w] == x,
        decreases labels@.len() - u,
    {
        let x = labels[u];
        let mut p: usize = 0;
        while p < tops.len() && tops[p] < x
            invariant
                p <= tops@.len(),
                forall|a: int| 0 <= a < p ==> tops@[a] < x,
            decreases tops@.len() - p,
        {
            p = p + 1;
        }
        let ghost before = tops@;
        if p == tops.len() || tops[p] != x {
            tops.insert(p, x);
            proof {
                assert(tops@ == before.insert(p as int, x));
                assert forall|a: int, b: int| 0 <= a < b < tops@.len() implies #[trigger] tops@[a] < #[trigger] tops@[b] by {
                    if b < p {
                        assert(tops@[a] == before[a] && tops@[b] == before[b]);
                    } else if b == p {
                        assert(tops@[a] == before[a]);
                    } else if a < p {
                        assert(tops@[a] == before[a] && tops@[b] == before[b - 1]);
                        assert(before[p as int] > x);
                    } else if a == p {
                        assert(tops@[b] == before[b - 1]);
                        assert(before[p as int] > x);
                    } else {
                        assert(tops@[a] == before[a - 1] && tops@[b] == before[b - 1]);
                    }
                }
                assert forall|y: i64| #[trigger] tops@.contains(y) <==> exists|w: int| 0 <= w < u + 1 && labels@[w] == y by {
                    if tops@.contains(y) {
                        let c = choose|c: int| 0 <= c < tops@.len() && tops@[c] == y;
                        if c < p {
                            assert(before[c] == y);
                        } else if c > p {
                            assert(before[c - 1] == y);
                        }
                        if y != x {
                            assert(before.contains(y));
                            let w = choose|w: int| 0 <= w < u && labels@[w] == y;
                            assert(0 <= w < u + 1 && labels@[w] == y);
                        } else {
                            assert(0 <= u < u + 1 && labels@[u as int] == y);
                        }
                    }
                    if exists|w: int| 0 <= w < u + 1 && labels@[w] == y {
                        if y == x {
                            assert(tops@[p as int] == y);
                        } else {
                            let w = choose|w: int| 0 <= w < u + 1 && labels@[w] == y;
                            assert(w < u);
                            assert(before.contains(y));
                            let c = choose|c: int| 0 <= c < before.len() && before[c] == y;
                            if c < p {
                                assert(tops@[c] == y);
                            } else {
                                assert(tops@[c + 1] == y);
                            }
                        }
                    }
                }
            }
        } else {
            proof {
                assert forall|y: i64| #[trigger] tops@.contains(y) <==> exists|w: int| 0 <= w < u + 1 && labels@[w] == y by {
                    if tops@.contains(y) {
                        let w = choose|w: int| 0 <= w < u && labels@[w] == y;
                        assert(0 <= w < u + 1 && labels@[w] == y);
                    }
                    if exists|w: int| 0 <= w < u + 1 && labels@[w] == y {
                        if y == x {
                            assert(tops@[p as int] == y);
                        } else {
                            let w = choose|w: int| 0 <= w < u + 1 && labels@[w] == y;
                            assert(w < u);
                        }
                    }
                }
            }
        }
        u = u + 1;
    }
    proof {
        assert(ids@.contains(d@.objects[terms@[0] as int].id));
        assert(labels@.len() > 0);
        assert(0 <= 0 < labels@.len() && labels@[0] == labels@[0]);
        assert(tops@.contains(labels@[0]));
    }
    // The least root is the least AC terminal id.
    proof {
        let m = tops@[0];
        assert(tops@.contains(m));
        let w = choose|w: int| 0 <= w < labels@.len() && labels@[w] == m;
        assert(ids@[roots[w]] == m);
        assert(ids@.contains(m));
        assert forall|y: i64| #[trigger] is_ac_id(d@, dc_terminals@, y) implies m <= y by {
            let v = choose|v: int| 0 <= v < ids@.len() && ids@[v] == y;
            assert(labels@[v] <= ids@[v]);
            assert(tops@.contains(labels@[v]));
            let c = choose|c: int| 0 <= c < tops@.len() && tops@[c] == labels@[v];
            if c > 0 {
                assert(tops@[0] < tops@[c]);
            }
        }
        assert(least_ac_id(d@, dc_terminals@, m));
    }
    if tops[0] < 0 {
        let mut msg: Vec<char> = Vec::new();
        push_str(&mut msg, "ElmTerm id ");
        push_int(&mut msg, tops[0]);
        push_str(&mut msg, " is negative");
        return Err(string_of(&msg));
    }
    let mut groups: Vec<(i64, Vec<usize>)> = Vec::new();
    let mut g: usize = 0;
    while g < tops.len()
        invariant
            g <= tops@.len(),
            n == d@.objects.len(),
            document_wf(d@),
            ids@ == ac_ids(d@, dc_terminals@, n as int),
            labelled(edges_all, ids@, labels@, roots),
            edges_all == coupler_edges(d@, dc_terminals@, dc_elements@, n as int),
            terms@.map_values(|k: usize| k as int) == ts,
            ts == ac_terminals(d@, dc_terminals@, n as int),
            forall|t: int|
                0 <= t < terms@.len() ==> #[trigger] terms@[t] < d@.objects.len() && ids@.contains(
                    d@.objects[terms@[t] as int].id,
                ),
            wit.len() == ids@.len(),
            forall|j: int|
                0 <= j < ids@.len() ==> 0 <= #[trigger] wit[j] < terms@.len() && d@.objects[terms@[wit[j]] as int].id
                    == ids@[j],
            forall|x: i64| #[trigger] tops@.contains(x) <==> exists|w: int| 0 <= w < labels@.len() && labels@[w] == x,
            groups@.len() == g,
            forall|q: int| 0 <= q < g ==> (#[trigger] groups@[q]).0 == tops@[q],
            forall|q: int|
                0 <= q < g ==> (#[trigger] groups@[q]).1@.map_values(|k: usize| k as int) == rooted(
                    d@,
                    dc_terminals@,
                    edges_all,
                    groups@[q].0,
                    ts,
                ) && groups@[q].1@.len() > 0,
            forall|q: int, m: int|
                0 <= q < g && 0 <= m < groups@[q].1@.len() ==> #[trigger] groups@[q].1@[m] < d@.objects.len(),
        decreases tops@.len() - g,
    {
        let r = tops[g];
        let mut members: Vec<usize> = Vec::new();
        let mut t: usize = 0;
        assert(ts.take(0) =~= Seq::<int>::empty());
        while t < terms.len()
            invariant
                t <= terms@.len(),
                document_wf(d@),
                ids@ == ac_ids(d@, dc_terminals@, n as int),
                n == d@.objects.len(),
                labelled(edges_all, ids@, labels@, roots),
                terms@.map_values(|k: usize| k as int) == ts,
                forall|t: int|
                    0 <= t < terms@.len() ==> #[trigger] terms@[t] < d@.objects.len() && ids@.contains(
                        d@.objects[terms@[t] as int].id,
                    ),
                members@.map_values(|k: usize| k as int) == rooted(d@, dc_terminals@, edges_all, r, ts.take(t as int)),
                forall|m: int| 0 <= m < members@.len() ==> #[trigger] members@[m] < d@.objects.len(),
            decreases terms@.len() - t,
        {
            let tk = terms[t];
            assert(d@.objects[tk as int] == d.objects@[tk as int]@);
            let tid = d.objects[tk].id;
            let ghost before = members@;
            assert(ts.take(t as int + 1).drop_last() =~= ts.take(t as int));
            assert(ts.take(t as int + 1).last() == tk as int);
            match find_id(&ids, tid) {
                Some(ix) => {
                    proof {
                        lemma_first_at(ids@, ix as int, ids@.len() as int);
                        lemma_label_is_root(d@, dc_terminals@, edges_all, ids@, labels@, roots, ix as int, r);
                    }
                    if labels[ix] == r {
                        members.push(tk);
                        assert(members@.map_values(|k: usize| k as int) =~= before.map_values(|k: usize| k as int).push(
                            tk as int,
                        ));
                    }
                },
                None => {
                    assert(ids@.contains(tid));
                },
            }
            t = t + 1;
        }
        assert(ts.take(terms@.len() as int) =~= ts);
        proof {
            assert(tops@.contains(r));
            let w = choose|w: int| 0 <= w < labels@.len() && labels@[w] == r;
            let tt = wit[w];
            assert(d@.objects[terms@[tt] as int].id == ids@[w]);
            lemma_label_is_root(d@, dc_terminals@, edges_all, ids@, labels@, roots, w, r);
            assert(ts[tt] == terms@[tt] as int);
            lemma_rooted_has(d@, dc_terminals@, edges_all, r, ts, tt);
        }
        let ghost gb = groups@;
        groups.push((r, members));
        proof {
            assert forall|q: int| 0 <= q < g + 1 implies (#[trigger] groups@[q]).0 == tops@[q] by {
                if q < g {
                    assert(groups@[q] == gb[q]);
                }
            }
            assert forall|q: int| 0 <= q < g + 1 implies (#[trigger] groups@[q]).1@.map_values(|k: usize| k as int)
                == rooted(d@, dc_terminals@, edges_all, groups@[q].0, ts) && groups@[q].1@.len() > 0 by {
                if q < g {
                    assert(groups@[q] == gb[q]);
                }
            }
            assert forall|q: int, m: int|
                0 <= q < g + 1 && 0 <= m < groups@[q].1@.len() implies #[trigger] groups@[q].1@[m] < d@.objects.len() by {
                if q < g {
                    assert(groups@[q] == gb[q]);
                }
            }
        }
        g = g + 1;
    }
    proof {
        assert forall|a: int, b: int| 0 <= a < b < groups@.len() implies (#[trigger] groups@[a]).0 < (
        #[trigger] groups@[b]).0 by {
            assert(groups@[a].0 == tops@[a] && groups@[b].0 == tops@[b]);
        }
        let rts = group_roots(groups@);
        assert forall|t: int| 0 <= t < ts.len() implies #[trigger] root_among(d@, dc_terminals@, edges_all, d@.objects[ts[t]].id, rts) by {
            assert(ts[t] == terms@[t] as int);
            let x = d@.objects[ts[t]].id;
            assert(ids@.contains(x));
            let v = choose|v: int| 0 <= v < ids@.len() && ids@[v] == x;
            lemma_label_is_root(d@, dc_terminals@, edges_all, ids@, labels@, roots, v, labels@[v]);
            assert(tops@.contains(labels@[v]));
            let c = choose|c: int| 0 <= c < tops@.len() && tops@[c] == labels@[v];
            assert(rts[c] == groups@[c].0);
            assert(groups@[c].0 == labels@[v]);
            assert(is_root(d@, dc_terminals@, edges_all, x, rts[c]));
        }
        assert(all_rooted(d@, dc_terminals@, edges_all, rts, ts));
        assert forall|y: i64| #[trigger] is_ac_id(d@, dc_terminals@, y) implies y >= 0 by {
            assert(least_ac_id(d@, dc_terminals@, tops@[0]));
        }
        let nn = d@.objects.len() as int;
        assert(ts == ac_terminals(d@, dc_terminals@, nn));
        assert(edges_all == coupler_edges(d@, dc_terminals@, dc_elements@, nn));
    }
    Ok((groups, findings))
}

} // verus!
