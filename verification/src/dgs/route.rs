//! Which network family a DGS export justifies.
//!
//! PowerFactory stores every element with sequence parameters and a phase
//! technology. An export whose elements are all three phase and described
//! by sequence data alone is a balanced positive sequence case. An export
//! that states conductor identities, phase domain matrices, neutral
//! conductors, or phase specific equipment carries data the balanced model
//! cannot hold, so it routes to the multiconductor model. An export with no
//! terminals carries no topology and routes nowhere.

use vstd::prelude::*;

use super::document::{class_of, get_spec, indices_upto, int_spec, name_spec, of_class_spec};
use super::header::AttrDescV;
use super::tokens::{document_wf, DgsDocument, DgsDocumentV, parse_spec};
use super::values::{DgsValue, DgsValueV};
use crate::text::{chars_eq, chars_of, int_text, push_chars, push_int, push_str, string_of, views};

verus! {

/// The family a document routes to.
pub enum DgsRoute {
    /// Sequence data only: the balanced transmission model.
    Balanced,
    /// Conductor level data; each entry names one attribute that justified
    /// it.
    Multiconductor(Vec<String>),
    /// Neither family is justified; the reason says why.
    Undecided(String),
}

pub enum DgsRouteV {
    Balanced,
    Multiconductor(Seq<Seq<char>>),
    Undecided(Seq<char>),
}

impl View for DgsRoute {
    type V = DgsRouteV;

    open spec fn view(&self) -> DgsRouteV {
        match self {
            DgsRoute::Balanced => DgsRouteV::Balanced,
            DgsRoute::Multiconductor(m) => DgsRouteV::Multiconductor(views(m@)),
            DgsRoute::Undecided(r) => DgsRouteV::Undecided(r@),
        }
    }
}

/// The reason an export without terminals routes nowhere.
pub open spec fn no_terminal_reason() -> Seq<char> {
    "the export declares no ElmTerm terminal, so it carries no network topology; export the study case network from PowerFactory, or read the file with a reader for the classes it does carry"@
}

/// The matrix attributes the sequence data classes carry that are not phase
/// domain matrices.
pub open spec fn sequence_matrix(name: Seq<char>) -> bool {
    ||| name == "R_c0"@
    ||| name == "X_c0"@
    ||| name == "B_c0"@
    ||| name == "G_c0"@
    ||| name == "C_c0"@
    ||| name == "R_c1"@
    ||| name == "X_c1"@
    ||| name == "B_c1"@
    ||| name == "G_c1"@
    ||| name == "C_c1"@
    ||| name == "xy_c"@
    ||| name == "xy_e"@
    ||| name == "GPScoords"@
}

/// One marker: the object and what it states.
pub open spec fn marker(d: DgsDocumentV, k: int, why: Seq<char>) -> Seq<char> {
    class_of(d, k) + " `"@ + name_spec(d, k) + "` (id "@ + int_text(d.objects[k].id as int) + "): "@ + why
}

/// What a rule checks on each object of its classes.
#[derive(Clone, Copy, PartialEq, Eq, Structural)]
pub enum Rule {
    /// The class itself states conductor identities.
    Conductor,
    /// Matrix attributes other than the sequence matrices.
    PhaseMatrix,
    /// A terminal's phase technology other than three phase.
    TerminalPhases,
    /// A line type's phase and neutral conductor counts.
    LineConductors,
    /// A load's per phase demand and phase technology.
    LoadPhases,
    /// A generator's phase technology.
    GeneratorPhases,
    /// A machine type's phase count.
    MachinePhases,
    /// A transformer type's phase count.
    TransformerPhases,
    /// A shunt's phase technology.
    ShuntPhases,
    /// A switch's phase count.
    SwitchPhases,
    /// A cubicle's phase count and phase connection.
    CubiclePhases,
}

/// How a rule compares a stated integer with its bound.
#[derive(Clone, Copy, PartialEq, Eq, Structural)]
pub enum Test {
    Differs,
    Above,
    AtLeast,
    Equals,
}

pub open spec fn flags(test: Test, bound: i64, v: i64) -> bool {
    match test {
        Test::Differs => v != bound,
        Test::Above => v > bound,
        Test::AtLeast => v >= bound,
        Test::Equals => v == bound,
    }
}

/// A marker when the integer `name` is stated and the test flags it.
pub open spec fn int_marker(
    d: DgsDocumentV,
    k: int,
    name: Seq<char>,
    test: Test,
    bound: i64,
    pre: Seq<char>,
    post: Seq<char>,
) -> Seq<Seq<char>> {
    match int_spec(d, k, name) {
        Some(v) => if flags(test, bound, v) {
            seq![marker(d, k, pre + int_text(v as int) + post)]
        } else {
            Seq::empty()
        },
        None => Seq::empty(),
    }
}

/// The value is a stated matrix.
pub open spec fn is_matrix(v: Option<DgsValueV>) -> bool {
    v matches Some(DgsValueV::RealMatrix { .. })
}

/// The phase domain matrices among the first `n` attributes of object `k`.
pub open spec fn matrix_markers(d: DgsDocumentV, k: int, n: int) -> Seq<Seq<char>>
    decreases n,
{
    if n <= 0 {
        Seq::empty()
    } else {
        let o = d.objects[k];
        let a = d.classes[o.class_index as int].attrs[n - 1];
        let stated = n - 1 < o.values.len() && is_matrix(o.values[n - 1]);
        matrix_markers(d, k, n - 1) + if stated && !sequence_matrix(a.name) {
            seq![marker(d, k, "phase domain matrix `"@ + a.name + "`"@)]
        } else {
            Seq::empty()
        }
    }
}

/// The markers a rule gives object `k`.
pub open spec fn object_markers(d: DgsDocumentV, rule: Rule, k: int) -> Seq<Seq<char>> {
    match rule {
        Rule::Conductor => seq![marker(d, k, "conductor identity"@)],
        Rule::PhaseMatrix => {
            let o = d.objects[k];
            matrix_markers(d, k, d.classes[o.class_index as int].attrs.len() as int)
        },
        Rule::TerminalPhases => int_marker(d, k, "phtech"@, Test::Differs, 0, "phase technology `phtech="@, "`"@),
        Rule::LineConductors => int_marker(d, k, "nlnph"@, Test::Differs, 3, "`nlnph="@, "` phase conductors"@)
            + int_marker(d, k, "nneutral"@, Test::Above, 0, "`nneutral="@, "` neutral conductors"@),
        Rule::LoadPhases => int_marker(d, k, "i_sym"@, Test::Equals, 1, "`i_sym="@, "` per phase demand"@)
            + int_marker(d, k, "phtech"@, Test::AtLeast, 2, "phase technology `phtech="@, "`"@),
        Rule::GeneratorPhases => int_marker(d, k, "phtech"@, Test::AtLeast, 2, "phase technology `phtech="@, "`"@),
        Rule::MachinePhases => int_marker(d, k, "nphase"@, Test::Differs, 3, "`nphase="@, "` machine"@),
        Rule::TransformerPhases => int_marker(d, k, "nt2ph"@, Test::Differs, 3, "`nt2ph="@, "` transformer"@),
        Rule::ShuntPhases => int_marker(d, k, "ctech"@, Test::AtLeast, 2, "phase technology `ctech="@, "`"@),
        Rule::SwitchPhases => int_marker(d, k, "nphase"@, Test::Differs, 3, "`nphase="@, "` switch"@),
        Rule::CubiclePhases => int_marker(d, k, "nphase"@, Test::Differs, 3, "`nphase="@, "` connection"@)
            + match (int_spec(d, k, "it2p1"@), int_spec(d, k, "it2p2"@), int_spec(d, k, "it2p3"@)) {
            (Some(a), Some(b), Some(c)) => if a != 0 || b != 1 || c != 2 {
                seq![
                    marker(
                        d,
                        k,
                        "phase connection `it2p1..3="@ + int_text(a as int) + ","@ + int_text(b as int) + ","@
                            + int_text(c as int) + "`"@,
                    ),
                ]
            } else {
                Seq::empty()
            },
            _ => Seq::empty(),
        },
    }
}

/// The markers a rule gives the objects of `class` among the first `n`.
pub open spec fn class_markers_upto(d: DgsDocumentV, class: Seq<char>, rule: Rule, n: int) -> Seq<Seq<char>>
    decreases n,
{
    if n <= 0 {
        Seq::empty()
    } else {
        class_markers_upto(d, class, rule, n - 1) + if class_of(d, n - 1) == class {
            object_markers(d, rule, n - 1)
        } else {
            Seq::empty()
        }
    }
}

pub open spec fn class_markers(d: DgsDocumentV, class: Seq<char>, rule: Rule) -> Seq<Seq<char>> {
    class_markers_upto(d, class, rule, d.objects.len() as int)
}

/// The classes and rules the route checks, in order.
pub open spec fn checks() -> Seq<(Seq<char>, Rule)> {
    seq![
        ("TypCon"@, Rule::Conductor),
        ("TypGeo"@, Rule::Conductor),
        ("TypCabsys"@, Rule::Conductor),
        ("TypCab"@, Rule::Conductor),
        ("TypCabmult"@, Rule::Conductor),
        ("TypTow"@, Rule::PhaseMatrix),
        ("TypCabsys"@, Rule::PhaseMatrix),
        ("TypGeo"@, Rule::PhaseMatrix),
        ("TypLne"@, Rule::PhaseMatrix),
        ("ElmLne"@, Rule::PhaseMatrix),
        ("ElmTerm"@, Rule::TerminalPhases),
        ("TypLne"@, Rule::LineConductors),
        ("ElmLod"@, Rule::LoadPhases),
        ("ElmLodlv"@, Rule::LoadPhases),
        ("ElmLodlvp"@, Rule::LoadPhases),
        ("ElmLodmv"@, Rule::LoadPhases),
        ("ElmGenstat"@, Rule::GeneratorPhases),
        ("ElmPvsys"@, Rule::GeneratorPhases),
        ("ElmAsm"@, Rule::GeneratorPhases),
        ("TypSym"@, Rule::MachinePhases),
        ("TypTr2"@, Rule::TransformerPhases),
        ("ElmShnt"@, Rule::ShuntPhases),
        ("ElmCoup"@, Rule::SwitchPhases),
        ("StaCubic"@, Rule::CubiclePhases),
    ]
}

/// The markers of the first `n` checks.
pub open spec fn markers_upto(d: DgsDocumentV, n: int) -> Seq<Seq<char>>
    decreases n,
{
    if n <= 0 {
        Seq::empty()
    } else {
        markers_upto(d, n - 1) + class_markers(d, checks()[n - 1].0, checks()[n - 1].1)
    }
}

/// The family `d` routes to.
pub open spec fn route_spec(d: DgsDocumentV) -> DgsRouteV {
    if of_class_spec(d, "ElmTerm"@).len() == 0 {
        DgsRouteV::Undecided(no_terminal_reason())
    } else {
        let markers = markers_upto(d, checks().len() as int);
        if markers.len() == 0 {
            DgsRouteV::Balanced
        } else {
            DgsRouteV::Multiconductor(markers)
        }
    }
}

fn push_marker(d: &DgsDocument, k: usize, why: &Vec<char>, out: &mut Vec<String>)
    requires
        k < d.objects@.len(),
        document_wf(d@),
    ensures
        views(final(out)@) == views(old(out)@).push(marker(d@, k as int, why@)),
{
    let mut m: Vec<char> = Vec::new();
    push_str(&mut m, d.class(k));
    push_str(&mut m, " `");
    let name = d.name(k);
    push_str(&mut m, name.as_str());
    push_str(&mut m, "` (id ");
    assert(d@.objects[k as int] == d.objects@[k as int]@);
    push_int(&mut m, d.objects[k].id);
    push_str(&mut m, "): ");
    push_chars(&mut m, why);
    let s = string_of(&m);
    let ghost before = out@;
    out.push(s);
    assert(views(out@) =~= views(before).push(s@));
}

fn push_int_marker(
    d: &DgsDocument,
    k: usize,
    v: i64,
    pre: &str,
    post: &str,
    out: &mut Vec<String>,
)
    requires
        k < d.objects@.len(),
        document_wf(d@),
    ensures
        views(final(out)@) == views(old(out)@).push(marker(d@, k as int, pre@ + int_text(v as int) + post@)),
{
    let mut why: Vec<char> = Vec::new();
    push_str(&mut why, pre);
    push_int(&mut why, v);
    push_str(&mut why, post);
    push_marker(d, k, &why, out);
}

fn is_sequence_matrix(name: &Vec<char>) -> (r: bool)
    ensures
        r == sequence_matrix(name@),
{
    let names = [
        "R_c0", "X_c0", "B_c0", "G_c0", "C_c0", "R_c1", "X_c1", "B_c1", "G_c1", "C_c1", "xy_c", "xy_e",
        "GPScoords",
    ];
    let mut i: usize = 0;
    let mut found = false;
    while i < 13
        invariant
            i <= 13,
            names@.len() == 13,
            names@ == seq![
                "R_c0", "X_c0", "B_c0", "G_c0", "C_c0", "R_c1", "X_c1", "B_c1", "G_c1", "C_c1", "xy_c",
                "xy_e", "GPScoords",
            ],
            found <==> exists|j: int| 0 <= j < i && name@ == (#[trigger] names@[j])@,
        decreases 13 - i,
    {
        let c = chars_of(names[i]);
        if chars_eq(name, &c) {
            found = true;
        }
        i = i + 1;
    }
    proof {
        if found {
            let j = choose|j: int| 0 <= j < 13 && name@ == (#[trigger] names@[j])@;
            assert(sequence_matrix(name@));
        } else {
            assert(name@ != names@[0]@);
            assert(name@ != names@[1]@);
            assert(name@ != names@[2]@);
            assert(name@ != names@[3]@);
            assert(name@ != names@[4]@);
            assert(name@ != names@[5]@);
            assert(name@ != names@[6]@);
            assert(name@ != names@[7]@);
            assert(name@ != names@[8]@);
            assert(name@ != names@[9]@);
            assert(name@ != names@[10]@);
            assert(name@ != names@[11]@);
            assert(name@ != names@[12]@);
        }
    }
    found
}

fn push_if_int(
    d: &DgsDocument,
    k: usize,
    name: &str,
    test: Test,
    bound: i64,
    pre: &str,
    post: &str,
    out: &mut Vec<String>,
)
    requires
        k < d.objects@.len(),
        document_wf(d@),
    ensures
        views(final(out)@) == views(old(out)@) + int_marker(d@, k as int, name@, test, bound, pre@, post@),
{
    let ghost before = views(out@);
    match d.int_value(k, name) {
        Some(v) => {
            let hit = match test {
                Test::Differs => v != bound,
                Test::Above => v > bound,
                Test::AtLeast => v >= bound,
                Test::Equals => v == bound,
            };
            if hit {
                push_int_marker(d, k, v, pre, post, out);
            }
            assert(views(out@) =~= before + int_marker(d@, k as int, name@, test, bound, pre@, post@));
        },
        None => {
            assert(views(out@) =~= before + int_marker(d@, k as int, name@, test, bound, pre@, post@));
        },
    }
}

/// Append the phase domain matrix markers of object `k`.
fn push_matrix_markers(d: &DgsDocument, k: usize, out: &mut Vec<String>)
    requires
        k < d.objects@.len(),
        document_wf(d@),
    ensures
        views(final(out)@) == views(old(out)@) + object_markers(d@, Rule::PhaseMatrix, k as int),
{
    let ghost start = views(out@);
    let o = &d.objects[k];
    assert(d@.objects[k as int] == o@);
    let h = &d.classes[o.class_index];
    assert(d@.classes[o.class_index as int] == h@);
    let n = h.attrs.len();
    let mut j: usize = 0;
    assert(start =~= start + matrix_markers(d@, k as int, 0));
    while j < n
        invariant
            j <= n == h.attrs@.len(),
            k < d.objects@.len(),
            document_wf(d@),
            d@.objects[k as int] == o@,
            d@.classes[o.class_index as int] == h@,
            views(out@) == start + matrix_markers(d@, k as int, j as int),
        decreases n - j,
    {
        let ghost before = views(out@);
        assert(h@.attrs[j as int] == h.attrs@[j as int]@);
        let stated = j < o.values.len() && match &o.values[j] {
            Some(DgsValue::RealMatrix { .. }) => true,
            _ => false,
        };
        proof {
            if j < o.values@.len() {
                assert(o@.values[j as int] == match o.values@[j as int] {
                    Some(v) => Some(v@),
                    None => None,
                });
            }
        }
        if stated && !is_sequence_matrix(&h.attrs[j].name) {
            let mut why: Vec<char> = Vec::new();
            push_str(&mut why, "phase domain matrix `");
            push_chars(&mut why, &h.attrs[j].name);
            push_str(&mut why, "`");
            push_marker(d, k, &why, out);
        }
        assert(views(out@) =~= start + matrix_markers(d@, k as int, j + 1));
        j = j + 1;
    }
}

/// Append the markers a rule gives object `k`.
#[verifier::rlimit(40)]
fn push_object_markers(d: &DgsDocument, rule: Rule, k: usize, out: &mut Vec<String>)
    requires
        k < d.objects@.len(),
        document_wf(d@),
    ensures
        views(final(out)@) == views(old(out)@) + object_markers(d@, rule, k as int),
{
    let ghost start = views(out@);
    match rule {
        Rule::Conductor => {
            let why = chars_of("conductor identity");
            push_marker(d, k, &why, out);
            assert(views(out@) =~= start + object_markers(d@, rule, k as int));
        },
        Rule::PhaseMatrix => push_matrix_markers(d, k, out),
        Rule::TerminalPhases => {
            push_if_int(d, k, "phtech", Test::Differs, 0, "phase technology `phtech=", "`", out);
        },
        Rule::LineConductors => {
            push_if_int(d, k, "nlnph", Test::Differs, 3, "`nlnph=", "` phase conductors", out);
            push_if_int(d, k, "nneutral", Test::Above, 0, "`nneutral=", "` neutral conductors", out);
            assert(views(out@) =~= start + object_markers(d@, rule, k as int));
        },
        Rule::LoadPhases => {
            push_if_int(d, k, "i_sym", Test::Equals, 1, "`i_sym=", "` per phase demand", out);
            push_if_int(d, k, "phtech", Test::AtLeast, 2, "phase technology `phtech=", "`", out);
            assert(views(out@) =~= start + object_markers(d@, rule, k as int));
        },
        Rule::GeneratorPhases => {
            push_if_int(d, k, "phtech", Test::AtLeast, 2, "phase technology `phtech=", "`", out);
        },
        Rule::MachinePhases => {
            push_if_int(d, k, "nphase", Test::Differs, 3, "`nphase=", "` machine", out);
        },
        Rule::TransformerPhases => {
            push_if_int(d, k, "nt2ph", Test::Differs, 3, "`nt2ph=", "` transformer", out);
        },
        Rule::ShuntPhases => {
            push_if_int(d, k, "ctech", Test::AtLeast, 2, "phase technology `ctech=", "`", out);
        },
        Rule::SwitchPhases => {
            push_if_int(d, k, "nphase", Test::Differs, 3, "`nphase=", "` switch", out);
        },
        Rule::CubiclePhases => {
            push_if_int(d, k, "nphase", Test::Differs, 3, "`nphase=", "` connection", out);
            let ghost mid = views(out@);
            let a = d.int_value(k, "it2p1");
            let b = d.int_value(k, "it2p2");
            let c = d.int_value(k, "it2p3");
            match (a, b, c) {
                (Some(a), Some(b), Some(c)) => {
                    if a != 0 || b != 1 || c != 2 {
                        let mut why: Vec<char> = Vec::new();
                        push_str(&mut why, "phase connection `it2p1..3=");
                        push_int(&mut why, a);
                        push_str(&mut why, ",");
                        push_int(&mut why, b);
                        push_str(&mut why, ",");
                        push_int(&mut why, c);
                        push_str(&mut why, "`");
                        push_marker(d, k, &why, out);
                    }
                },
                _ => {},
            }
            assert(views(out@) =~= start + object_markers(d@, rule, k as int));
        },
    }
}

/// Append the markers a rule gives the objects of `class`.
fn push_class_markers(d: &DgsDocument, class: &str, rule: Rule, out: &mut Vec<String>)
    requires
        document_wf(d@),
    ensures
        views(final(out)@) == views(old(out)@) + class_markers(d@, class@, rule),
{
    let ghost start = views(out@);
    let want = chars_of(class);
    let n = d.objects.len();
    let mut k: usize = 0;
    assert(start =~= start + class_markers_upto(d@, class@, rule, 0));
    while k < n
        invariant
            k <= n == d.objects@.len(),
            document_wf(d@),
            want@ == class@,
            views(out@) == start + class_markers_upto(d@, class@, rule, k as int),
        decreases n - k,
    {
        let ghost before = views(out@);
        let c = chars_of(d.class(k));
        if chars_eq(&c, &want) {
            push_object_markers(d, rule, k, out);
        }
        assert(views(out@) =~= start + class_markers_upto(d@, class@, rule, k + 1));
        k = k + 1;
    }
}

/// Decide the family for `document`.
pub fn route(document: &DgsDocument) -> (r: DgsRoute)
    requires
        document_wf(document@),
    ensures
        r@ == route_spec(document@),
{
    let terminals = document.of_class("ElmTerm");
    if terminals.len() == 0 {
        let m = chars_of(
            "the export declares no ElmTerm terminal, so it carries no network topology; export the study case network from PowerFactory, or read the file with a reader for the classes it does carry",
        );
        return DgsRoute::Undecided(string_of(&m));
    }
    let classes = [
        "TypCon", "TypGeo", "TypCabsys", "TypCab", "TypCabmult", "TypTow", "TypCabsys", "TypGeo", "TypLne",
        "ElmLne", "ElmTerm", "TypLne", "ElmLod", "ElmLodlv", "ElmLodlvp", "ElmLodmv", "ElmGenstat", "ElmPvsys",
        "ElmAsm", "TypSym", "TypTr2", "ElmShnt", "ElmCoup", "StaCubic",
    ];
    let rules = [
        Rule::Conductor,
        Rule::Conductor,
        Rule::Conductor,
        Rule::Conductor,
        Rule::Conductor,
        Rule::PhaseMatrix,
        Rule::PhaseMatrix,
        Rule::PhaseMatrix,
        Rule::PhaseMatrix,
        Rule::PhaseMatrix,
        Rule::TerminalPhases,
        Rule::LineConductors,
        Rule::LoadPhases,
        Rule::LoadPhases,
        Rule::LoadPhases,
        Rule::LoadPhases,
        Rule::GeneratorPhases,
        Rule::GeneratorPhases,
        Rule::GeneratorPhases,
        Rule::MachinePhases,
        Rule::TransformerPhases,
        Rule::ShuntPhases,
        Rule::SwitchPhases,
        Rule::CubiclePhases,
    ];
    proof {
        assert(checks().len() == 24);
        assert forall|j: int| 0 <= j < 24 implies classes@[j]@ == checks()[j].0 && rules@[j] == checks()[j].1 by {
        }
    }
    let mut out: Vec<String> = Vec::new();
    let mut i: usize = 0;
    assert(views(out@) =~= markers_upto(document@, 0));
    while i < 24
        invariant
            i <= 24,
            document_wf(document@),
            classes@.len() == 24,
            rules@.len() == 24,
            forall|j: int| 0 <= j < 24 ==> classes@[j]@ == checks()[j].0 && rules@[j] == checks()[j].1,
            views(out@) == markers_upto(document@, i as int),
        decreases 24 - i,
    {
        push_class_markers(document, classes[i], rules[i], &mut out);
        i = i + 1;
    }
    if out.len() == 0 {
        DgsRoute::Balanced
    } else {
        DgsRoute::Multiconductor(out)
    }
}

/// A marker of one object under one check is among the markers of the
/// checks that include it.
proof fn lemma_class_markers_hold(d: DgsDocumentV, class: Seq<char>, rule: Rule, n: int, k: int, m: Seq<char>)
    requires
        0 <= k < n,
        class_of(d, k) == class,
        object_markers(d, rule, k).contains(m),
    ensures
        class_markers_upto(d, class, rule, n).contains(m),
    decreases n,
{
    let prev = class_markers_upto(d, class, rule, n - 1);
    let s = class_markers_upto(d, class, rule, n);
    if k == n - 1 {
        let om = object_markers(d, rule, k);
        assert(s == prev + om);
        let j = choose|j: int| 0 <= j < om.len() && om[j] == m;
        assert(s[prev.len() + j] == m);
    } else {
        lemma_class_markers_hold(d, class, rule, n - 1, k, m);
        let j = choose|j: int| 0 <= j < prev.len() && prev[j] == m;
        assert(s[j] == prev[j]);
    }
}

proof fn lemma_markers_hold(d: DgsDocumentV, n: int, i: int, m: Seq<char>)
    requires
        0 <= i < n,
        class_markers(d, checks()[i].0, checks()[i].1).contains(m),
    ensures
        markers_upto(d, n).contains(m),
    decreases n,
{
    let prev = markers_upto(d, n - 1);
    let s = markers_upto(d, n);
    let cm = class_markers(d, checks()[n - 1].0, checks()[n - 1].1);
    assert(s == prev + cm);
    if i == n - 1 {
        let j = choose|j: int| 0 <= j < cm.len() && cm[j] == m;
        assert(s[prev.len() + j] == m);
    } else {
        lemma_markers_hold(d, n - 1, i, m);
        let j = choose|j: int| 0 <= j < prev.len() && prev[j] == m;
        assert(s[j] == prev[j]);
    }
}

proof fn lemma_class_present(d: DgsDocumentV, class: Seq<char>, n: int, t: int)
    requires
        0 <= t < n,
        class_of(d, t) == class,
    ensures
        indices_upto(d, class, n).len() > 0,
    decreases n,
{
    if t < n - 1 {
        lemma_class_present(d, class, n - 1, t);
    }
}

/// With a terminal in the document, a marker that check `i` gives object
/// `k` routes the document to the multiconductor family, listed.
proof fn lemma_marker_routes(d: DgsDocumentV, t: int, i: int, k: int, m: Seq<char>)
    requires
        0 <= t < d.objects.len(),
        class_of(d, t) == "ElmTerm"@,
        0 <= i < checks().len(),
        0 <= k < d.objects.len(),
        class_of(d, k) == checks()[i].0,
        object_markers(d, checks()[i].1, k).contains(m),
    ensures
        routes_with_marker(d, m),
{
    lemma_class_present(d, "ElmTerm"@, d.objects.len() as int, t);
    lemma_class_markers_hold(d, checks()[i].0, checks()[i].1, d.objects.len() as int, k, m);
    lemma_markers_hold(d, checks().len() as int, i, m);
}

proof fn lemma_first_of_two(a: Seq<Seq<char>>, b: Seq<Seq<char>>, m: Seq<char>)
    requires
        a.contains(m),
    ensures
        (a + b).contains(m),
{
    let j = choose|j: int| 0 <= j < a.len() && a[j] == m;
    assert((a + b)[j] == m);
}

proof fn lemma_second_of_two(a: Seq<Seq<char>>, b: Seq<Seq<char>>, m: Seq<char>)
    requires
        b.contains(m),
    ensures
        (a + b).contains(m),
{
    let j = choose|j: int| 0 <= j < b.len() && b[j] == m;
    assert((a + b)[a.len() + j] == m);
}

/// Whether `d` routes to the multiconductor family with `m` among its
/// markers.
pub open spec fn routes_with_marker(d: DgsDocumentV, m: Seq<char>) -> bool {
    route_spec(d) matches DgsRouteV::Multiconductor(ms) && ms.contains(m)
}

/// The marker an integer attribute gives: the object, the attribute stated
/// as `<pre><value><post>`.
pub open spec fn int_statement(d: DgsDocumentV, k: int, name: Seq<char>, pre: Seq<char>, post: Seq<char>) -> Seq<char> {
    marker(d, k, pre + int_text(int_spec(d, k, name)->Some_0 as int) + post)
}

/// In an export with a terminal, each statement of phase specific or
/// conductor level data routes the export to the multiconductor family and
/// is named among its markers: a transformer type (`TypTr2`) or machine
/// type (`TypSym`) with other than three phases, a coupler (`ElmCoup`) or
/// cubicle (`StaCubic`) with other than three phases, a terminal with a
/// phase technology other than three phase (`phtech` other than 0), a line
/// type with other than three phase conductors or with neutral conductors,
/// a load with per phase demand (`i_sym=1`), a load or generator with a
/// single or two phase technology (`phtech` 2 or more), a shunt with such a
/// technology (`ctech`), and any conductor type.
pub proof fn law_phase_specific_data_routes_multiconductor(d: DgsDocumentV, t: int, k: int)
    requires
        0 <= t < d.objects.len(),
        class_of(d, t) == "ElmTerm"@,
        0 <= k < d.objects.len(),
    ensures
        (class_of(d, k) == "TypTr2"@ && int_spec(d, k, "nt2ph"@) is Some && int_spec(d, k, "nt2ph"@)->Some_0 != 3)
            ==> routes_with_marker(d, 
            int_statement(d, k, "nt2ph"@, "`nt2ph="@, "` transformer"@),
        ),
        (class_of(d, k) == "TypSym"@ && int_spec(d, k, "nphase"@) is Some && int_spec(d, k, "nphase"@)->Some_0 != 3)
            ==> routes_with_marker(d, 
            int_statement(d, k, "nphase"@, "`nphase="@, "` machine"@),
        ),
        (class_of(d, k) == "ElmCoup"@ && int_spec(d, k, "nphase"@) is Some && int_spec(d, k, "nphase"@)->Some_0 != 3)
            ==> routes_with_marker(d, 
            int_statement(d, k, "nphase"@, "`nphase="@, "` switch"@),
        ),
        (class_of(d, k) == "StaCubic"@ && int_spec(d, k, "nphase"@) is Some && int_spec(d, k, "nphase"@)->Some_0 != 3)
            ==> routes_with_marker(d, 
            int_statement(d, k, "nphase"@, "`nphase="@, "` connection"@),
        ),
        (class_of(d, k) == "ElmTerm"@ && int_spec(d, k, "phtech"@) is Some && int_spec(d, k, "phtech"@)->Some_0 != 0)
            ==> routes_with_marker(d, 
            int_statement(d, k, "phtech"@, "phase technology `phtech="@, "`"@),
        ),
        (class_of(d, k) == "TypLne"@ && int_spec(d, k, "nlnph"@) is Some && int_spec(d, k, "nlnph"@)->Some_0 != 3)
            ==> routes_with_marker(d, 
            int_statement(d, k, "nlnph"@, "`nlnph="@, "` phase conductors"@),
        ),
        (class_of(d, k) == "TypLne"@ && int_spec(d, k, "nneutral"@) is Some && int_spec(d, k, "nneutral"@)->Some_0 > 0)
            ==> routes_with_marker(d, 
            int_statement(d, k, "nneutral"@, "`nneutral="@, "` neutral conductors"@),
        ),
        ((class_of(d, k) == "ElmLod"@ || class_of(d, k) == "ElmLodlv"@ || class_of(d, k) == "ElmLodlvp"@ || class_of(
            d,
            k,
        ) == "ElmLodmv"@) && int_spec(d, k, "i_sym"@) == Some(1i64)) ==> routes_with_marker(d, int_statement(d, k, "i_sym"@, "`i_sym="@, "` per phase demand"@)),
        ((class_of(d, k) == "ElmLod"@ || class_of(d, k) == "ElmLodlv"@ || class_of(d, k) == "ElmLodlvp"@ || class_of(
            d,
            k,
        ) == "ElmLodmv"@ || class_of(d, k) == "ElmGenstat"@ || class_of(d, k) == "ElmPvsys"@ || class_of(d, k)
            == "ElmAsm"@) && int_spec(d, k, "phtech"@) is Some && int_spec(d, k, "phtech"@)->Some_0 >= 2)
            ==> routes_with_marker(d, 
            int_statement(d, k, "phtech"@, "phase technology `phtech="@, "`"@),
        ),
        (class_of(d, k) == "ElmShnt"@ && int_spec(d, k, "ctech"@) is Some && int_spec(d, k, "ctech"@)->Some_0 >= 2)
            ==> routes_with_marker(d, 
            int_statement(d, k, "ctech"@, "phase technology `ctech="@, "`"@),
        ),
        (class_of(d, k) == "TypCon"@ || class_of(d, k) == "TypGeo"@ || class_of(d, k) == "TypCabsys"@ || class_of(d, k)
            == "TypCab"@ || class_of(d, k) == "TypCabmult"@) ==> routes_with_marker(d, marker(d, k, "conductor identity"@)),
{
    let c = class_of(d, k);
    if c == "TypTr2"@ && int_spec(d, k, "nt2ph"@) is Some && int_spec(d, k, "nt2ph"@)->Some_0 != 3 {
        let m = int_statement(d, k, "nt2ph"@, "`nt2ph="@, "` transformer"@);
        assert(object_markers(d, checks()[20].1, k)[0] == m);
        lemma_marker_routes(d, t, 20, k, m);
    }
    if c == "TypSym"@ && int_spec(d, k, "nphase"@) is Some && int_spec(d, k, "nphase"@)->Some_0 != 3 {
        let m = int_statement(d, k, "nphase"@, "`nphase="@, "` machine"@);
        assert(object_markers(d, checks()[19].1, k)[0] == m);
        lemma_marker_routes(d, t, 19, k, m);
    }
    if c == "ElmCoup"@ && int_spec(d, k, "nphase"@) is Some && int_spec(d, k, "nphase"@)->Some_0 != 3 {
        let m = int_statement(d, k, "nphase"@, "`nphase="@, "` switch"@);
        assert(object_markers(d, checks()[22].1, k)[0] == m);
        lemma_marker_routes(d, t, 22, k, m);
    }
    if c == "StaCubic"@ && int_spec(d, k, "nphase"@) is Some && int_spec(d, k, "nphase"@)->Some_0 != 3 {
        let m = int_statement(d, k, "nphase"@, "`nphase="@, "` connection"@);
        let a = int_marker(d, k, "nphase"@, Test::Differs, 3, "`nphase="@, "` connection"@);
        assert(a[0] == m);
        let om = object_markers(d, checks()[23].1, k);
        lemma_first_of_two(a, om.skip(a.len() as int), m);
        assert(om == a + om.skip(a.len() as int));
        lemma_marker_routes(d, t, 23, k, m);
    }
    if c == "ElmTerm"@ && int_spec(d, k, "phtech"@) is Some && int_spec(d, k, "phtech"@)->Some_0 != 0 {
        let m = int_statement(d, k, "phtech"@, "phase technology `phtech="@, "`"@);
        assert(object_markers(d, checks()[10].1, k)[0] == m);
        lemma_marker_routes(d, t, 10, k, m);
    }
    if c == "TypLne"@ && int_spec(d, k, "nlnph"@) is Some && int_spec(d, k, "nlnph"@)->Some_0 != 3 {
        let m = int_statement(d, k, "nlnph"@, "`nlnph="@, "` phase conductors"@);
        let a = int_marker(d, k, "nlnph"@, Test::Differs, 3, "`nlnph="@, "` phase conductors"@);
        let b = int_marker(d, k, "nneutral"@, Test::Above, 0, "`nneutral="@, "` neutral conductors"@);
        assert(a[0] == m);
        lemma_first_of_two(a, b, m);
        lemma_marker_routes(d, t, 11, k, m);
    }
    if c == "TypLne"@ && int_spec(d, k, "nneutral"@) is Some && int_spec(d, k, "nneutral"@)->Some_0 > 0 {
        let m = int_statement(d, k, "nneutral"@, "`nneutral="@, "` neutral conductors"@);
        let a = int_marker(d, k, "nlnph"@, Test::Differs, 3, "`nlnph="@, "` phase conductors"@);
        let b = int_marker(d, k, "nneutral"@, Test::Above, 0, "`nneutral="@, "` neutral conductors"@);
        assert(b[0] == m);
        lemma_second_of_two(a, b, m);
        lemma_marker_routes(d, t, 11, k, m);
    }
    let load = c == "ElmLod"@ || c == "ElmLodlv"@ || c == "ElmLodlvp"@ || c == "ElmLodmv"@;
    let li = if c == "ElmLod"@ {
        12int
    } else if c == "ElmLodlv"@ {
        13int
    } else if c == "ElmLodlvp"@ {
        14int
    } else {
        15int
    };
    if load && int_spec(d, k, "i_sym"@) == Some(1i64) {
        let m = int_statement(d, k, "i_sym"@, "`i_sym="@, "` per phase demand"@);
        let a = int_marker(d, k, "i_sym"@, Test::Equals, 1, "`i_sym="@, "` per phase demand"@);
        let b = int_marker(d, k, "phtech"@, Test::AtLeast, 2, "phase technology `phtech="@, "`"@);
        assert(a[0] == m);
        lemma_first_of_two(a, b, m);
        lemma_marker_routes(d, t, li, k, m);
    }
    if load && int_spec(d, k, "phtech"@) is Some && int_spec(d, k, "phtech"@)->Some_0 >= 2 {
        let m = int_statement(d, k, "phtech"@, "phase technology `phtech="@, "`"@);
        let a = int_marker(d, k, "i_sym"@, Test::Equals, 1, "`i_sym="@, "` per phase demand"@);
        let b = int_marker(d, k, "phtech"@, Test::AtLeast, 2, "phase technology `phtech="@, "`"@);
        assert(b[0] == m);
        lemma_second_of_two(a, b, m);
        lemma_marker_routes(d, t, li, k, m);
    }
    let gen = c == "ElmGenstat"@ || c == "ElmPvsys"@ || c == "ElmAsm"@;
    let gi = if c == "ElmGenstat"@ {
        16int
    } else if c == "ElmPvsys"@ {
        17int
    } else {
        18int
    };
    if gen && int_spec(d, k, "phtech"@) is Some && int_spec(d, k, "phtech"@)->Some_0 >= 2 {
        let m = int_statement(d, k, "phtech"@, "phase technology `phtech="@, "`"@);
        assert(object_markers(d, checks()[gi].1, k)[0] == m);
        lemma_marker_routes(d, t, gi, k, m);
    }
    if c == "ElmShnt"@ && int_spec(d, k, "ctech"@) is Some && int_spec(d, k, "ctech"@)->Some_0 >= 2 {
        let m = int_statement(d, k, "ctech"@, "phase technology `ctech="@, "`"@);
        assert(object_markers(d, checks()[21].1, k)[0] == m);
        lemma_marker_routes(d, t, 21, k, m);
    }
    let ci = if c == "TypCon"@ {
        0int
    } else if c == "TypGeo"@ {
        1int
    } else if c == "TypCabsys"@ {
        2int
    } else if c == "TypCab"@ {
        3int
    } else {
        4int
    };
    if c == "TypCon"@ || c == "TypGeo"@ || c == "TypCabsys"@ || c == "TypCab"@ || c == "TypCabmult"@ {
        let m = marker(d, k, "conductor identity"@);
        assert(object_markers(d, checks()[ci].1, k)[0] == m);
        lemma_marker_routes(d, t, ci, k, m);
    }
}

/// The route a DGS read gives: the family of the decoded document, or the
/// read's failure.
pub open spec fn route_text_spec(b: Seq<u8>) -> Result<DgsRouteV, Seq<char>> {
    match parse_spec(b) {
        Err(e) => Err(e),
        Ok(d) => Ok(route_spec(d)),
    }
}

/// Decode `text` and decide its family without building a network.
pub fn route_text(text: &str) -> (r: Result<DgsRoute, String>)
    requires
        vstd::string::StringSliceAdditionalSpecFns::spec_bytes(text).len() < usize::MAX,
    ensures
        match r {
            Ok(route) => route_text_spec(vstd::string::StringSliceAdditionalSpecFns::spec_bytes(text)) == Ok::<
                DgsRouteV,
                Seq<char>,
            >(route@),
            Err(e) => route_text_spec(vstd::string::StringSliceAdditionalSpecFns::spec_bytes(text)) == Err::<
                DgsRouteV,
                Seq<char>,
            >(e@),
        },
{
    match DgsDocument::parse(text) {
        Ok(d) => Ok(route(&d)),
        Err(e) => Err(e),
    }
}

} // verus!
