//! How elements attach to the calculated buses: the bus of each terminal,
//! the buses of an element's connections, and the switch records of the
//! AC couplers that stay open between two buses.

use vstd::prelude::*;

use super::document::{class_of, name_spec, referenced_spec, str_spec};
use super::tokens::{document_wf, DgsDocument, DgsDocumentV};
use super::topology::{
    ac_ids, ac_terminals, couples, edge_in, is_ac_id, is_ac_terminal, lemma_linked_edge, lemma_linked_symm, lemma_linked_trans, linked,
    calculated_buses, connections_of, coupler_edges, group_roots, is_root, label,
    label_spec, root_among, rooted, Connection, Connections,
};
use crate::text::{chars_eq, chars_of, int_text, nat_text, push_int, push_nat, push_str, string_of};

verus! {

broadcast use vstd::string::group_string_axioms;

/// Whether one of `members` is an object with id `x`.
pub open spec fn holds_id(d: DgsDocumentV, members: Seq<usize>, x: i64) -> bool {
    exists|m: int| #![trigger members[m]] 0 <= m < members.len() && d.objects[members[m] as int].id == x
}

/// The id of the first of `groups`, from the `g`th on, holding terminal id
/// `x`.
pub open spec fn group_bus_from(d: DgsDocumentV, groups: Seq<(i64, Vec<usize>)>, x: i64, g: int) -> Option<i64>
    decreases groups.len() - g,
{
    if g < 0 || g >= groups.len() {
        None
    } else if holds_id(d, groups[g].1@, x) {
        Some(groups[g].0)
    } else {
        group_bus_from(d, groups, x, g + 1)
    }
}

/// The calculated bus of terminal id `x`: the first group holding it.
pub open spec fn group_bus(d: DgsDocumentV, groups: Seq<(i64, Vec<usize>)>, x: i64) -> Option<i64> {
    group_bus_from(d, groups, x, 0)
}

/// The bus at each connection, with the connection's switch state, when
/// every connection lands on a calculated bus.
pub open spec fn element_buses(d: DgsDocumentV, groups: Seq<(i64, Vec<usize>)>, c: Seq<Connection>) -> Option<
    Seq<(i64, bool)>,
>
    decreases c.len(),
{
    if c.len() == 0 {
        Some(Seq::empty())
    } else {
        match (element_buses(d, groups, c.drop_last()), group_bus(d, groups, c.last().terminal)) {
            (Some(s), Some(b)) => Some(s.push((b, c.last().closed))),
            _ => None,
        }
    }
}

/// Whether every member of every group is an object of `d`.
pub open spec fn members_in(d: DgsDocumentV, groups: Seq<(i64, Vec<usize>)>) -> bool {
    forall|g: int, m: int|
        0 <= g < groups.len() && 0 <= m < groups[g].1@.len() ==> #[trigger] groups[g].1@[m] < d.objects.len()
}

/// The calculated bus of terminal id `x`, if one holds it.
pub fn bus_of_terminal(d: &DgsDocument, groups: &Vec<(i64, Vec<usize>)>, x: i64) -> (r: Option<i64>)
    requires
        members_in(d@, groups@),
    ensures
        r == group_bus(d@, groups@, x),
{
    let mut g: usize = 0;
    while g < groups.len()
        invariant
            g <= groups@.len(),
            members_in(d@, groups@),
            group_bus(d@, groups@, x) == group_bus_from(d@, groups@, x, g as int),
        decreases groups@.len() - g,
    {
        let members = &groups[g].1;
        let mut m: usize = 0;
        while m < members.len()
            invariant
                g < groups@.len(),
                members == groups@[g as int].1,
                members_in(d@, groups@),
                group_bus(d@, groups@, x) == group_bus_from(d@, groups@, x, g as int),
                m <= members@.len(),
                forall|w: int| #![trigger members@[w]] 0 <= w < m ==> d@.objects[members@[w] as int].id != x,
            decreases members@.len() - m,
        {
            assert(members@[m as int] < d@.objects.len());
            assert(d@.objects[members@[m as int] as int] == d.objects@[members@[m as int] as int]@);
            if d.objects[members[m]].id == x {
                assert(holds_id(d@, groups@[g as int].1@, x));
                return Some(groups[g].0);
            }
            m = m + 1;
        }
        g = g + 1;
    }
    None
}

/// The buses of an element's connections, with their switch states; none
/// when a connection lands on no calculated bus.
pub fn buses_of(
    d: &DgsDocument,
    conns: &Connections,
    groups: &Vec<(i64, Vec<usize>)>,
    element: i64,
) -> (r: Option<Vec<(i64, bool)>>)
    requires
        document_wf(d@),
        conns.describes(d@),
        members_in(d@, groups@),
    ensures
        match r {
            Some(v) => element_buses(d@, groups@, connections_of(d@, element)) == Some(v@),
            None => element_buses(d@, groups@, connections_of(d@, element)) is None,
        },
{
    let c = conns.of(d, element);
    let mut ok = true;
    let mut out: Vec<(i64, bool)> = Vec::new();
    let mut m: usize = 0;
    while m < c.len()
        invariant
            m <= c@.len(),
            members_in(d@, groups@),
            ok ==> element_buses(d@, groups@, c@.take(m as int)) == Some(out@),
            !ok ==> element_buses(d@, groups@, c@.take(m as int)) is None,
        decreases c@.len() - m,
    {
        assert(c@.take(m + 1).drop_last() =~= c@.take(m as int));
        assert(c@.take(m + 1).last() == c@[m as int]);
        match bus_of_terminal(d, groups, c[m].terminal) {
            Some(b) => {
                if ok {
                    out.push((b, c[m].closed));
                }
            },
            None => {
                ok = false;
            },
        }
        m = m + 1;
    }
    assert(c@.take(c@.len() as int) =~= c@);
    if ok {
        Some(out)
    } else {
        None
    }
}

/// The finding for an element whose connections land on a DC terminal.
pub open spec fn dc_drop_message(d: DgsDocumentV, k: int) -> Seq<char> {
    label_spec(d, k) + " connects to a DC terminal; the element was dropped"@
}

/// The bus of a one terminal element and whether its cubicle is closed,
/// or the finding that drops it.
pub open spec fn single_bus_spec(d: DgsDocumentV, groups: Seq<(i64, Vec<usize>)>, k: int) -> Result<
    (i64, bool),
    Seq<char>,
> {
    let c = connections_of(d, d.objects[k].id);
    if c.len() != 1 {
        Err(label_spec(d, k) + " connects to "@ + nat_text(c.len()) + " terminal(s) rather than one; the element was dropped"@)
    } else {
        match group_bus(d, groups, c[0].terminal) {
            Some(b) => Ok((b, c[0].closed)),
            None => Err(dc_drop_message(d, k)),
        }
    }
}

/// The single AC bus of a one terminal element and whether its cubicle
/// switch is closed; the finding that drops the element otherwise.
pub fn single_bus(d: &DgsDocument, conns: &Connections, groups: &Vec<(i64, Vec<usize>)>, k: usize) -> (r: Result<
    (i64, bool),
    String,
>)
    requires
        k < d@.objects.len(),
        document_wf(d@),
        conns.describes(d@),
        members_in(d@, groups@),
    ensures
        match r {
            Ok(v) => single_bus_spec(d@, groups@, k as int) == Ok::<(i64, bool), Seq<char>>(v),
            Err(m) => single_bus_spec(d@, groups@, k as int) == Err::<(i64, bool), Seq<char>>(m@),
        },
{
    assert(d@.objects[k as int] == d.objects@[k as int]@);
    let c = conns.of(d, d.objects[k].id);
    if c.len() != 1 {
        let mut m: Vec<char> = Vec::new();
        let lab = label(d, k);
        push_str(&mut m, lab.as_str());
        push_str(&mut m, " connects to ");
        push_nat(&mut m, c.len() as u64);
        push_str(&mut m, " terminal(s) rather than one; the element was dropped");
        return Err(string_of(&m));
    }
    match bus_of_terminal(d, groups, c[0].terminal) {
        Some(b) => Ok((b, c[0].closed)),
        None => {
            let mut m: Vec<char> = Vec::new();
            let lab = label(d, k);
            push_str(&mut m, lab.as_str());
            push_str(&mut m, " connects to a DC terminal; the element was dropped");
            Err(string_of(&m))
        },
    }
}

/// The finding for a branch that is open at one end only.
pub open spec fn one_end_open_message(d: DgsDocumentV, k: int) -> Seq<char> {
    label_spec(d, k) + " is open at one end only; the balanced branch is out of service at both"@
}

/// The two buses of a two terminal element in side order and whether both
/// ends are closed, with the finding on an element open at one end only;
/// or the finding that drops the element.
pub open spec fn branch_buses_spec(d: DgsDocumentV, groups: Seq<(i64, Vec<usize>)>, k: int) -> Result<
    ((i64, i64, bool), Option<Seq<char>>),
    Seq<char>,
> {
    match element_buses(d, groups, connections_of(d, d.objects[k].id)) {
        None => Err(dc_drop_message(d, k)),
        Some(ends) => if ends.len() != 2 {
            Err(label_spec(d, k) + " connects to "@ + nat_text(ends.len()) + " terminal(s) rather than two; the element was dropped"@)
        } else {
            let closed = ends[0].1 && ends[1].1;
            Ok(
                (
                    (ends[0].0, ends[1].0, closed),
                    if !closed && (ends[0].1 || ends[1].1) {
                        Some(one_end_open_message(d, k))
                    } else {
                        None
                    },
                ),
            )
        },
    }
}

/// The two AC buses of a two terminal element in side order and whether
/// both cubicle switches are closed, with the finding on an element open at
/// one end only; the finding that drops the element otherwise.
pub fn branch_buses(d: &DgsDocument, conns: &Connections, groups: &Vec<(i64, Vec<usize>)>, k: usize) -> (r: Result<
    ((i64, i64, bool), Option<String>),
    String,
>)
    requires
        k < d@.objects.len(),
        document_wf(d@),
        conns.describes(d@),
        members_in(d@, groups@),
    ensures
        match (r, branch_buses_spec(d@, groups@, k as int)) {
            (Ok((v, Some(m))), Ok((w, Some(n)))) => v == w && m@ == n,
            (Ok((v, None)), Ok((w, None))) => v == w,
            (Err(m), Err(n)) => m@ == n,
            _ => false,
        },
{
    assert(d@.objects[k as int] == d.objects@[k as int]@);
    let ends = match buses_of(d, conns, groups, d.objects[k].id) {
        Some(ends) => ends,
        None => {
            let mut m: Vec<char> = Vec::new();
            let lab = label(d, k);
            push_str(&mut m, lab.as_str());
            push_str(&mut m, " connects to a DC terminal; the element was dropped");
            return Err(string_of(&m));
        },
    };
    if ends.len() != 2 {
        let mut m: Vec<char> = Vec::new();
        let lab = label(d, k);
        push_str(&mut m, lab.as_str());
        push_str(&mut m, " connects to ");
        push_nat(&mut m, ends.len() as u64);
        push_str(&mut m, " terminal(s) rather than two; the element was dropped");
        return Err(string_of(&m));
    }
    let (from, closed_from) = ends[0];
    let (to, closed_to) = ends[1];
    let closed = closed_from && closed_to;
    let finding = if !closed && (closed_from || closed_to) {
        let mut m: Vec<char> = Vec::new();
        let lab = label(d, k);
        push_str(&mut m, lab.as_str());
        push_str(&mut m, " is open at one end only; the balanced branch is out of service at both");
        Some(string_of(&m))
    } else {
        None
    };
    Ok(((from, to, closed), finding))
}

/// The finding for a three winding transformer open at some windings only.
pub open spec fn some_windings_open_message(d: DgsDocumentV, k: int) -> Seq<char> {
    label_spec(d, k) + " is open at some windings only; the transformer is out of service"@
}

/// The three buses of a three winding transformer in side order (HV, MV,
/// LV) and whether all its cubicles are closed, with the finding on one
/// open at some windings only; or the finding that drops it: no
/// transformer type, a DC terminal, or other than three terminals.
pub open spec fn winding_buses_spec(d: DgsDocumentV, groups: Seq<(i64, Vec<usize>)>, k: int) -> Result<
    ((i64, i64, i64, bool), Option<Seq<char>>),
    Seq<char>,
> {
    if referenced_spec(d, k, "typ_id"@) is None {
        Err(label_spec(d, k) + " names no TypTr3 transformer type in `typ_id`; the transformer was dropped"@)
    } else {
        match element_buses(d, groups, connections_of(d, d.objects[k].id)) {
            None => Err(label_spec(d, k) + " connects to a DC terminal; the transformer was dropped"@),
            Some(ends) => if ends.len() != 3 {
                Err(label_spec(d, k) + " connects to "@ + nat_text(ends.len()) + " terminal(s) rather than three; the transformer was dropped"@)
            } else {
                let closed = ends[0].1 && ends[1].1 && ends[2].1;
                Ok(
                    (
                        (ends[0].0, ends[1].0, ends[2].0, closed),
                        if !closed && (ends[0].1 || ends[1].1 || ends[2].1) {
                            Some(some_windings_open_message(d, k))
                        } else {
                            None
                        },
                    ),
                )
            },
        }
    }
}

/// The three AC buses of a three winding transformer (HV, MV, LV) and
/// whether all its cubicle switches are closed, with the finding on one
/// open at some windings only; the finding that drops it otherwise.
pub fn winding_buses(d: &DgsDocument, conns: &Connections, groups: &Vec<(i64, Vec<usize>)>, k: usize) -> (r: Result<
    ((i64, i64, i64, bool), Option<String>),
    String,
>)
    requires
        k < d@.objects.len(),
        document_wf(d@),
        conns.describes(d@),
        members_in(d@, groups@),
    ensures
        match (r, winding_buses_spec(d@, groups@, k as int)) {
            (Ok((v, Some(m))), Ok((w, Some(n)))) => v == w && m@ == n,
            (Ok((v, None)), Ok((w, None))) => v == w,
            (Err(m), Err(n)) => m@ == n,
            _ => false,
        },
{
    assert(d@.objects[k as int] == d.objects@[k as int]@);
    if d.referenced(k, "typ_id").is_none() {
        let mut m: Vec<char> = Vec::new();
        let lab = label(d, k);
        push_str(&mut m, lab.as_str());
        push_str(&mut m, " names no TypTr3 transformer type in `typ_id`; the transformer was dropped");
        return Err(string_of(&m));
    }
    let ends = match buses_of(d, conns, groups, d.objects[k].id) {
        Some(ends) => ends,
        None => {
            let mut m: Vec<char> = Vec::new();
            let lab = label(d, k);
            push_str(&mut m, lab.as_str());
            push_str(&mut m, " connects to a DC terminal; the transformer was dropped");
            return Err(string_of(&m));
        },
    };
    if ends.len() != 3 {
        let mut m: Vec<char> = Vec::new();
        let lab = label(d, k);
        push_str(&mut m, lab.as_str());
        push_str(&mut m, " connects to ");
        push_nat(&mut m, ends.len() as u64);
        push_str(&mut m, " terminal(s) rather than three; the transformer was dropped");
        return Err(string_of(&m));
    }
    let (high, closed_high) = ends[0];
    let (middle, closed_middle) = ends[1];
    let (low, closed_low) = ends[2];
    let closed = closed_high && closed_middle && closed_low;
    let finding = if !closed && (closed_high || closed_middle || closed_low) {
        let mut m: Vec<char> = Vec::new();
        let lab = label(d, k);
        push_str(&mut m, lab.as_str());
        push_str(&mut m, " is open at some windings only; the transformer is out of service");
        Some(string_of(&m))
    } else {
        None
    };
    Ok(((high, middle, low, closed), finding))
}

/// The number of objects among the first `n` of object `k`'s class and
/// name.
pub open spec fn namesakes(d: DgsDocumentV, k: int, n: int) -> nat
    decreases n,
{
    if n <= 0 {
        0
    } else if class_of(d, n - 1) == class_of(d, k) && name_spec(d, n - 1) == name_spec(d, k) {
        namesakes(d, k, n - 1) + 1
    } else {
        namesakes(d, k, n - 1)
    }
}

/// The identity of a row: its name, or `name#id` when another row of its
/// class has the same name.
pub open spec fn uid_spec(d: DgsDocumentV, k: int) -> Seq<char> {
    if namesakes(d, k, d.objects.len() as int) >= 2 {
        name_spec(d, k) + "#"@ + int_text(d.objects[k].id as int)
    } else {
        name_spec(d, k)
    }
}

/// The identity of row `k`: its name, or `name#id` when the name repeats
/// within its class.
pub fn uid(d: &DgsDocument, k: usize) -> (r: String)
    requires
        k < d@.objects.len(),
        document_wf(d@),
    ensures
        r@ == uid_spec(d@, k as int),
{
    let n = d.objects.len();
    let class = chars_of(d.class(k));
    let name = d.name(k);
    let name_chars = chars_of(name.as_str());
    let mut count: usize = 0;
    let mut j: usize = 0;
    while j < n
        invariant
            j <= n == d@.objects.len(),
            document_wf(d@),
            k < n,
            class@ == class_of(d@, k as int),
            name_chars@ == name_spec(d@, k as int),
            count == namesakes(d@, k as int, j as int),
            count <= j,
        decreases n - j,
    {
        let other = d.name(j);
        if chars_eq(&chars_of(d.class(j)), &class) && chars_eq(&chars_of(other.as_str()), &name_chars) {
            count = count + 1;
        }
        j = j + 1;
    }
    if count >= 2 {
        let mut m: Vec<char> = Vec::new();
        push_str(&mut m, name.as_str());
        push_str(&mut m, "#");
        assert(d@.objects[k as int] == d.objects@[k as int]@);
        push_int(&mut m, d.objects[k].id);
        string_of(&m)
    } else {
        name
    }
}

/// What AC coupler `k` gives: a switch between two different calculated
/// buses, the number of buses it connects when that is not two, or nothing
/// (a DC coupler, one that reaches a DC terminal, or one inside a bus).
pub open spec fn coupler_outcome(d: DgsDocumentV, groups: Seq<(i64, Vec<usize>)>, dc_elements: Seq<i64>, k: int) -> Option<
    Result<(i64, i64), nat>,
> {
    if class_of(d, k) != "ElmCoup"@ || dc_elements.contains(d.objects[k].id) {
        None
    } else {
        match element_buses(d, groups, connections_of(d, d.objects[k].id)) {
            None => None,
            Some(ends) => if ends.len() != 2 {
                Some(Err(ends.len()))
            } else if ends[0].0 == ends[1].0 {
                None
            } else {
                Some(Ok((ends[0].0, ends[1].0)))
            },
        }
    }
}

/// The couplers among the first `n` objects that become switch records.
pub open spec fn switch_rows(d: DgsDocumentV, groups: Seq<(i64, Vec<usize>)>, dc_elements: Seq<i64>, n: int) -> Seq<int>
    decreases n,
{
    if n <= 0 {
        Seq::empty()
    } else if coupler_outcome(d, groups, dc_elements, n - 1) matches Some(Ok(_)) {
        switch_rows(d, groups, dc_elements, n - 1).push(n - 1)
    } else {
        switch_rows(d, groups, dc_elements, n - 1)
    }
}

/// The findings on the couplers among the first `n` objects that connect
/// other than two buses.
pub open spec fn switch_findings(d: DgsDocumentV, groups: Seq<(i64, Vec<usize>)>, dc_elements: Seq<i64>, n: int) -> Seq<
    Seq<char>,
>
    decreases n,
{
    if n <= 0 {
        Seq::empty()
    } else if let Some(Err(count)) = coupler_outcome(d, groups, dc_elements, n - 1) {
        switch_findings(d, groups, dc_elements, n - 1).push(
            label_spec(d, n - 1) + " connects "@ + nat_text(count) + " terminal(s) rather than two; the switch was dropped"@,
        )
    } else {
        switch_findings(d, groups, dc_elements, n - 1)
    }
}

/// An open AC coupler between two calculated buses: a switch record with
/// the coupler's identity, id and `aUsage`.
#[derive(Debug, PartialEq, Eq)]
pub struct CouplerSwitch {
    pub from: i64,
    pub to: i64,
    pub uid: String,
    pub id: i64,
    pub usage: Option<String>,
}

/// Whether `s` is the switch record of coupler `k`.
pub open spec fn switch_of(
    s: CouplerSwitch,
    d: DgsDocumentV,
    groups: Seq<(i64, Vec<usize>)>,
    dc_elements: Seq<i64>,
    k: int,
) -> bool {
    &&& coupler_outcome(d, groups, dc_elements, k) == Some(Ok::<(i64, i64), nat>((s.from, s.to)))
    &&& s.uid@ == uid_spec(d, k)
    &&& s.id == d.objects[k].id
    &&& match s.usage {
        Some(u) => str_spec(d, k, "aUsage"@) == Some(u@),
        None => str_spec(d, k, "aUsage"@) is None,
    }
}

/// The switch records of the AC couplers between two calculated buses, in
/// file order, and the findings on couplers that connect other than two.
pub fn coupler_switches(
    d: &DgsDocument,
    conns: &Connections,
    groups: &Vec<(i64, Vec<usize>)>,
    dc_elements: &Vec<i64>,
) -> (r: (Vec<CouplerSwitch>, Vec<String>))
    requires
        document_wf(d@),
        conns.describes(d@),
        members_in(d@, groups@),
    ensures
        ({
            let rows = switch_rows(d@, groups@, dc_elements@, d@.objects.len() as int);
            &&& r.0@.len() == rows.len()
            &&& forall|i: int| 0 <= i < rows.len() ==> switch_of(#[trigger] r.0@[i], d@, groups@, dc_elements@, rows[i])
            &&& crate::text::views(r.1@) == switch_findings(d@, groups@, dc_elements@, d@.objects.len() as int)
        }),
{
    let n = d.objects.len();
    let mut switches: Vec<CouplerSwitch> = Vec::new();
    let mut findings: Vec<String> = Vec::new();
    let mut k: usize = 0;
    while k < n
        invariant
            k <= n == d@.objects.len(),
            document_wf(d@),
            conns.describes(d@),
            members_in(d@, groups@),
            switches@.len() == switch_rows(d@, groups@, dc_elements@, k as int).len(),
            forall|i: int|
                0 <= i < switches@.len() ==> switch_of(
                    #[trigger] switches@[i],
                    d@,
                    groups@,
                    dc_elements@,
                    switch_rows(d@, groups@, dc_elements@, k as int)[i],
                ),
            crate::text::views(findings@) == switch_findings(d@, groups@, dc_elements@, k as int),
        decreases n - k,
    {
        let ghost rows = switch_rows(d@, groups@, dc_elements@, k as int);
        let ghost before = switches@;
        let ghost fbefore = findings@;
        assert(d@.objects[k as int] == d.objects@[k as int]@);
        let id = d.objects[k].id;
        if chars_eq(&chars_of(d.class(k)), &chars_of("ElmCoup")) && !contains_id(dc_elements, id) {
            match buses_of(d, conns, groups, id) {
                Some(ends) => {
                    if ends.len() != 2 {
                        let mut m: Vec<char> = Vec::new();
                        let lab = label(d, k);
                        push_str(&mut m, lab.as_str());
                        push_str(&mut m, " connects ");
                        push_nat(&mut m, ends.len() as u64);
                        push_str(&mut m, " terminal(s) rather than two; the switch was dropped");
                        findings.push(string_of(&m));
                        assert(crate::text::views(findings@) =~= crate::text::views(fbefore).push(m@));
                    } else if ends[0].0 != ends[1].0 {
                        let usage = match d.str_value(k, "aUsage") {
                            Some(u) => {
                                let cs = chars_of(u);
                                Some(string_of(&cs))
                            },
                            None => None,
                        };
                        let s = CouplerSwitch { from: ends[0].0, to: ends[1].0, uid: uid(d, k), id, usage };
                        switches.push(s);
                        proof {
                            let rows1 = switch_rows(d@, groups@, dc_elements@, k + 1);
                            assert(rows1 == rows.push(k as int));
                            assert forall|i: int| 0 <= i < switches@.len() implies switch_of(
                                #[trigger] switches@[i],
                                d@,
                                groups@,
                                dc_elements@,
                                rows1[i],
                            ) by {
                                if i < before.len() {
                                    assert(switches@[i] == before[i]);
                                }
                            }
                        }
                    }
                },
                None => {},
            }
        }
        k = k + 1;
    }
    (switches, findings)
}

/// Whether `x` is listed in `v`.
fn contains_id(v: &Vec<i64>, x: i64) -> (r: bool)
    ensures
        r == v@.contains(x),
{
    let mut i: usize = 0;
    while i < v.len()
        invariant
            i <= v@.len(),
            forall|j: int| 0 <= j < i ==> v@[j] != x,
        decreases v@.len() - i,
    {
        if v[i] == x {
            assert(v@[i as int] == x);
            return true;
        }
        i = i + 1;
    }
    false
}

proof fn lemma_group_bus_witness(d: DgsDocumentV, groups: Seq<(i64, Vec<usize>)>, x: i64, g: int)
    requires
        0 <= g,
        group_bus_from(d, groups, x, g) is Some,
    ensures
        exists|h: int|
            #![trigger groups[h]]
            g <= h < groups.len() && holds_id(d, groups[h].1@, x) && groups[h].0 == group_bus_from(d, groups, x, g)->Some_0,
    decreases groups.len() - g,
{
    if !holds_id(d, groups[g].1@, x) {
        lemma_group_bus_witness(d, groups, x, g + 1);
        let h = choose|h: int|
            #![trigger groups[h]]
            g + 1 <= h < groups.len() && holds_id(d, groups[h].1@, x) && groups[h].0 == group_bus_from(d, groups, x, g + 1)->Some_0;
        assert(g <= h < groups.len());
    } else {
        assert(groups[g] == groups[g]);
    }
}

proof fn lemma_group_bus_some(d: DgsDocumentV, groups: Seq<(i64, Vec<usize>)>, x: i64, g: int, h: int)
    requires
        0 <= g <= h < groups.len(),
        holds_id(d, groups[h].1@, x),
    ensures
        group_bus_from(d, groups, x, g) is Some,
    decreases h - g,
{
    if g < h && !holds_id(d, groups[g].1@, x) {
        lemma_group_bus_some(d, groups, x, g + 1, h);
    }
}

proof fn lemma_rooted_members(
    d: DgsDocumentV,
    dc_terminals: Seq<i64>,
    edges: Seq<(i64, i64)>,
    r: i64,
    ts: Seq<int>,
    i: int,
)
    requires
        0 <= i < rooted(d, dc_terminals, edges, r, ts).len(),
    ensures
        is_root(d, dc_terminals, edges, d.objects[rooted(d, dc_terminals, edges, r, ts)[i]].id, r),
    decreases ts.len(),
{
    let prev = rooted(d, dc_terminals, edges, r, ts.drop_last());
    if i < prev.len() {
        lemma_rooted_members(d, dc_terminals, edges, r, ts.drop_last(), i);
    }
}

proof fn lemma_rooted_holds(d: DgsDocumentV, dc_terminals: Seq<i64>, edges: Seq<(i64, i64)>, r: i64, ts: Seq<int>, t: int)
    requires
        0 <= t < ts.len(),
        is_root(d, dc_terminals, edges, d.objects[ts[t]].id, r),
    ensures
        exists|m: int|
            #![trigger rooted(d, dc_terminals, edges, r, ts)[m]]
            0 <= m < rooted(d, dc_terminals, edges, r, ts).len() && rooted(d, dc_terminals, edges, r, ts)[m] == ts[t],
    decreases ts.len(),
{
    let s = rooted(d, dc_terminals, edges, r, ts);
    if t < ts.len() - 1 {
        assert(ts.drop_last()[t] == ts[t]);
        lemma_rooted_holds(d, dc_terminals, edges, r, ts.drop_last(), t);
        let prev = rooted(d, dc_terminals, edges, r, ts.drop_last());
        let m = choose|m: int| #![trigger prev[m]] 0 <= m < prev.len() && prev[m] == ts[t];
        assert(s[m] == prev[m]);
    } else {
        assert(s[s.len() - 1] == ts[t]);
    }
}

/// A terminal's calculated bus is the least AC terminal id that the closed
/// AC couplers join to it.
pub proof fn law_a_terminal_bus_is_its_least_joined_terminal(
    d: DgsDocumentV,
    dc_terminals: Seq<i64>,
    dc_elements: Seq<i64>,
    groups: Seq<(i64, Vec<usize>)>,
    x: i64,
    r: i64,
)
    requires
        calculated_buses(d, dc_terminals, dc_elements, groups),
        group_bus(d, groups, x) == Some(r),
    ensures
        is_root(d, dc_terminals, coupler_edges(d, dc_terminals, dc_elements, d.objects.len() as int), x, r),
{
    let n = d.objects.len() as int;
    let ts = ac_terminals(d, dc_terminals, n);
    let edges = coupler_edges(d, dc_terminals, dc_elements, n);
    lemma_group_bus_witness(d, groups, x, 0);
    let h = choose|h: int|
        #![trigger groups[h]]
        0 <= h < groups.len() && holds_id(d, groups[h].1@, x) && groups[h].0 == group_bus_from(d, groups, x, 0)->Some_0;
    let members = groups[h].1@;
    let m = choose|m: int| #![trigger members[m]] 0 <= m < members.len() && d.objects[members[m] as int].id == x;
    let rs = rooted(d, dc_terminals, edges, groups[h].0, ts);
    assert(members.map_values(|k: usize| k as int) == rs);
    assert(rs[m] == members[m] as int);
    lemma_rooted_members(d, dc_terminals, edges, groups[h].0, ts, m);
}

/// Every AC terminal lands on a calculated bus.
pub proof fn law_every_ac_terminal_has_a_bus(
    d: DgsDocumentV,
    dc_terminals: Seq<i64>,
    dc_elements: Seq<i64>,
    groups: Seq<(i64, Vec<usize>)>,
    t: int,
)
    requires
        calculated_buses(d, dc_terminals, dc_elements, groups),
        0 <= t < ac_terminals(d, dc_terminals, d.objects.len() as int).len(),
    ensures
        group_bus(d, groups, d.objects[ac_terminals(d, dc_terminals, d.objects.len() as int)[t]].id) is Some,
{
    let n = d.objects.len() as int;
    let ts = ac_terminals(d, dc_terminals, n);
    let edges = coupler_edges(d, dc_terminals, dc_elements, n);
    let x = d.objects[ts[t]].id;
    let roots = group_roots(groups);
    assert(root_among(d, dc_terminals, edges, x, roots));
    let g = choose|g: int| 0 <= g < roots.len() && #[trigger] is_root(d, dc_terminals, edges, x, roots[g]);
    assert(roots[g] == groups[g].0);
    lemma_rooted_holds(d, dc_terminals, edges, groups[g].0, ts, t);
    let rs = rooted(d, dc_terminals, edges, groups[g].0, ts);
    let m = choose|m: int| #![trigger rs[m]] 0 <= m < rs.len() && rs[m] == ts[t];
    let members = groups[g].1@;
    assert(members.map_values(|k: usize| k as int) == rs);
    assert(members[m] as int == rs[m]);
    assert(holds_id(d, members, x));
    lemma_group_bus_some(d, groups, x, 0, g);
}

proof fn lemma_ac_id_terminal(d: DgsDocumentV, dc_terminals: Seq<i64>, n: int, x: i64)
    requires
        ac_ids(d, dc_terminals, n).contains(x),
    ensures
        exists|t: int|
            #![trigger ac_terminals(d, dc_terminals, n)[t]]
            0 <= t < ac_terminals(d, dc_terminals, n).len() && d.objects[ac_terminals(d, dc_terminals, n)[t]].id == x,
    decreases n,
{
    let ts = ac_terminals(d, dc_terminals, n);
    if n > 0 {
        let prev = ac_ids(d, dc_terminals, n - 1);
        if prev.contains(x) {
            lemma_ac_id_terminal(d, dc_terminals, n - 1, x);
            let pt = ac_terminals(d, dc_terminals, n - 1);
            let t = choose|t: int| #![trigger pt[t]] 0 <= t < pt.len() && d.objects[pt[t]].id == x;
            assert(ts[t] == pt[t]);
        } else {
            assert(ts[ts.len() - 1] == n - 1);
        }
    }
}

proof fn lemma_coupler_edge(d: DgsDocumentV, dc_terminals: Seq<i64>, dc_elements: Seq<i64>, n: int, k: int)
    requires
        0 <= k < n,
        couples(d, dc_terminals, dc_elements, k),
    ensures
        ({
            let c = connections_of(d, d.objects[k].id);
            edge_in(coupler_edges(d, dc_terminals, dc_elements, n), c[0].terminal, c[1].terminal)
        }),
    decreases n,
{
    let c = connections_of(d, d.objects[k].id);
    let e = coupler_edges(d, dc_terminals, dc_elements, n);
    if k < n - 1 {
        lemma_coupler_edge(d, dc_terminals, dc_elements, n - 1, k);
        let p = coupler_edges(d, dc_terminals, dc_elements, n - 1);
        let w = choose|w: int| 0 <= w < p.len() && (#[trigger] p[w] == (c[0].terminal, c[1].terminal) || p[w] == (
            c[1].terminal,
            c[0].terminal,
        ));
        assert(e[w] == p[w]);
    } else {
        assert(e[e.len() - 1] == (c[0].terminal, c[1].terminal));
    }
}

/// A terminal linked to another shares its least joined terminal.
proof fn lemma_root_moves(
    d: DgsDocumentV,
    dc_terminals: Seq<i64>,
    edges: Seq<(i64, i64)>,
    a: i64,
    b: i64,
    r: i64,
)
    requires
        linked(edges, a, b),
        is_root(d, dc_terminals, edges, a, r),
    ensures
        is_root(d, dc_terminals, edges, b, r),
{
    lemma_linked_symm(edges, a, b);
    lemma_linked_trans(edges, b, a, r);
    assert forall|y: i64| is_ac_id(d, dc_terminals, y) && #[trigger] linked(edges, b, y) implies r <= y by {
        lemma_linked_trans(edges, a, b, y);
    }
}

/// A closed, in service AC coupler joins one calculated bus: both of its
/// terminals land on the same bus.
pub proof fn law_a_closed_coupler_joins_one_bus(
    d: DgsDocumentV,
    dc_terminals: Seq<i64>,
    dc_elements: Seq<i64>,
    groups: Seq<(i64, Vec<usize>)>,
    k: int,
)
    requires
        calculated_buses(d, dc_terminals, dc_elements, groups),
        0 <= k < d.objects.len(),
        couples(d, dc_terminals, dc_elements, k),
    ensures
        ({
            let c = connections_of(d, d.objects[k].id);
            &&& group_bus(d, groups, c[0].terminal) is Some
            &&& group_bus(d, groups, c[0].terminal) == group_bus(d, groups, c[1].terminal)
        }),
{
    let n = d.objects.len() as int;
    let ts = ac_terminals(d, dc_terminals, n);
    let edges = coupler_edges(d, dc_terminals, dc_elements, n);
    let c = connections_of(d, d.objects[k].id);
    let x0 = c[0].terminal;
    let x1 = c[1].terminal;
    lemma_ac_id_terminal(d, dc_terminals, n, x0);
    lemma_ac_id_terminal(d, dc_terminals, n, x1);
    let t0 = choose|t: int| #![trigger ts[t]] 0 <= t < ts.len() && d.objects[ts[t]].id == x0;
    let t1 = choose|t: int| #![trigger ts[t]] 0 <= t < ts.len() && d.objects[ts[t]].id == x1;
    law_every_ac_terminal_has_a_bus(d, dc_terminals, dc_elements, groups, t0);
    law_every_ac_terminal_has_a_bus(d, dc_terminals, dc_elements, groups, t1);
    let r0 = group_bus(d, groups, x0)->Some_0;
    let r1 = group_bus(d, groups, x1)->Some_0;
    law_a_terminal_bus_is_its_least_joined_terminal(d, dc_terminals, dc_elements, groups, x0, r0);
    law_a_terminal_bus_is_its_least_joined_terminal(d, dc_terminals, dc_elements, groups, x1, r1);
    lemma_coupler_edge(d, dc_terminals, dc_elements, n, k);
    lemma_linked_edge(edges, x0, x1);
    lemma_root_moves(d, dc_terminals, edges, x0, x1, r0);
    assert(r0 <= r1 && r1 <= r0);
}

/// Two terminals on one calculated bus are joined by closed, in service AC
/// couplers.
pub proof fn law_terminals_of_one_bus_are_joined(
    d: DgsDocumentV,
    dc_terminals: Seq<i64>,
    dc_elements: Seq<i64>,
    groups: Seq<(i64, Vec<usize>)>,
    x: i64,
    y: i64,
)
    requires
        calculated_buses(d, dc_terminals, dc_elements, groups),
        group_bus(d, groups, x) is Some,
        group_bus(d, groups, x) == group_bus(d, groups, y),
    ensures
        linked(coupler_edges(d, dc_terminals, dc_elements, d.objects.len() as int), x, y),
{
    let edges = coupler_edges(d, dc_terminals, dc_elements, d.objects.len() as int);
    let r = group_bus(d, groups, x)->Some_0;
    law_a_terminal_bus_is_its_least_joined_terminal(d, dc_terminals, dc_elements, groups, x, r);
    law_a_terminal_bus_is_its_least_joined_terminal(d, dc_terminals, dc_elements, groups, y, r);
    lemma_linked_symm(edges, y, r);
    lemma_linked_trans(edges, x, r, y);
}

proof fn lemma_ac_terminals_are_ac(d: DgsDocumentV, dc_terminals: Seq<i64>, n: int, t: int)
    requires
        0 <= t < ac_terminals(d, dc_terminals, n).len(),
    ensures
        is_ac_terminal(d, dc_terminals, ac_terminals(d, dc_terminals, n)[t]),
    decreases n,
{
    if n > 0 {
        let prev = ac_terminals(d, dc_terminals, n - 1);
        if t < prev.len() {
            lemma_ac_terminals_are_ac(d, dc_terminals, n - 1, t);
        }
    }
}

proof fn lemma_rooted_in(d: DgsDocumentV, dc_terminals: Seq<i64>, edges: Seq<(i64, i64)>, r: i64, ts: Seq<int>, i: int)
    requires
        0 <= i < rooted(d, dc_terminals, edges, r, ts).len(),
    ensures
        ts.contains(rooted(d, dc_terminals, edges, r, ts)[i]),
    decreases ts.len(),
{
    let prev = rooted(d, dc_terminals, edges, r, ts.drop_last());
    if i < prev.len() {
        lemma_rooted_in(d, dc_terminals, edges, r, ts.drop_last(), i);
        let w = choose|w: int| 0 <= w < ts.drop_last().len() && ts.drop_last()[w] == prev[i];
        assert(ts[w] == prev[i]);
    } else {
        assert(ts[ts.len() - 1] == ts.last());
    }
}

/// A terminal of a DC island lands on no calculated bus: it is represented
/// by an HVDC record instead.
pub proof fn law_a_dc_terminal_is_on_no_bus(
    d: DgsDocumentV,
    dc_terminals: Seq<i64>,
    dc_elements: Seq<i64>,
    groups: Seq<(i64, Vec<usize>)>,
    x: i64,
)
    requires
        calculated_buses(d, dc_terminals, dc_elements, groups),
        dc_terminals.contains(x),
    ensures
        group_bus(d, groups, x) is None,
{
    if group_bus(d, groups, x) is Some {
        let n = d.objects.len() as int;
        let ts = ac_terminals(d, dc_terminals, n);
        let edges = coupler_edges(d, dc_terminals, dc_elements, n);
        lemma_group_bus_witness(d, groups, x, 0);
        let h = choose|h: int|
            #![trigger groups[h]]
            0 <= h < groups.len() && holds_id(d, groups[h].1@, x) && groups[h].0 == group_bus_from(d, groups, x, 0)->Some_0;
        let members = groups[h].1@;
        let m = choose|m: int| #![trigger members[m]] 0 <= m < members.len() && d.objects[members[m] as int].id == x;
        let rs = rooted(d, dc_terminals, edges, groups[h].0, ts);
        assert(members.map_values(|k: usize| k as int) == rs);
        assert(rs[m] == members[m] as int);
        lemma_rooted_in(d, dc_terminals, edges, groups[h].0, ts, m);
        let t = choose|t: int| 0 <= t < ts.len() && ts[t] == rs[m];
        lemma_ac_terminals_are_ac(d, dc_terminals, n, t);
    }
}

} // verus!
