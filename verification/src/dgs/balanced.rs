//! The balanced network mapping's classification rules: which unmapped
//! classes are worth a finding, and which energy source a machine category
//! names.

use vstd::prelude::*;

use crate::network::{BusType, GeneratorEnergySource};
use super::document::of_class_spec;
use super::tokens::{document_wf, DgsDocument, DgsDocumentV};
use crate::text::{
    chars_eq, chars_lt, chars_of, has_infix, int_text, lower, lower_range, nat_text, push_int, push_nat, push_str,
    range_contains, range_is,
    string_of, trim, trim_bounds, views,
};

verus! {

broadcast use vstd::string::group_string_axioms;

/// Whether an unmapped class deserves a finding: elements (`Elm`) and
/// characteristics (`Cha`) carry network data, the other classes do not.
pub open spec fn class_reports(class: Seq<char>) -> bool {
    crate::text::starts_with(class, "Elm"@) || crate::text::starts_with(class, "Cha"@)
}

/// Whether an unmapped class deserves a finding.
pub fn reports_when_unmapped(class: &str) -> (b: bool)
    ensures
        b == class_reports(class@),
{
    let s = chars_of(class);
    assert(s@.subrange(0, s@.len() as int) =~= s@);
    crate::text::range_starts_with(&s, 0, s.len(), "Elm") || crate::text::range_starts_with(
        &s,
        0,
        s.len(),
        "Cha",
    )
}

/// The fuels whose name marks a thermal unit.
pub open spec fn thermal_fuel(k: Seq<char>) -> bool {
    ||| has_infix(k, "coal"@)
    ||| has_infix(k, "gas"@)
    ||| has_infix(k, "oil"@)
    ||| has_infix(k, "diesel"@)
    ||| has_infix(k, "lignite"@)
    ||| has_infix(k, "peat"@)
    ||| has_infix(k, "biogas"@)
    ||| has_infix(k, "biomass"@)
    ||| has_infix(k, "waste"@)
}

/// The energy source a machine category text names, matched on its trimmed
/// lower case form in a fixed order.
pub open spec fn energy_source_of(category: Seq<char>) -> GeneratorEnergySource {
    let k = lower(trim(category));
    if has_infix(k, "hydro"@) {
        GeneratorEnergySource::Hydro
    } else if has_infix(k, "nuclear"@) {
        GeneratorEnergySource::Nuclear
    } else if has_infix(k, "wind"@) {
        GeneratorEnergySource::Wind
    } else if has_infix(k, "solar"@) || has_infix(k, "photovoltaic"@) || k == "pv"@ {
        GeneratorEnergySource::Solar
    } else if thermal_fuel(k) {
        GeneratorEnergySource::Thermal
    } else {
        GeneratorEnergySource::Other
    }
}

/// The energy source of a machine from its `cCategory` text; an absent
/// category reads as an empty one.
pub fn energy_source(category: Option<&str>) -> (r: GeneratorEnergySource)
    ensures
        r == energy_source_of(
            match category {
                Some(c) => c@,
                None => Seq::empty(),
            },
        ),
{
    let text = match category {
        Some(c) => chars_of(c),
        None => Vec::new(),
    };
    let (a, z) = trim_bounds(&text, 0, text.len());
    assert(text@.subrange(0, text@.len() as int) =~= text@);
    let k = lower_range(&text, a, z);
    let n = k.len();
    assert(k@.subrange(0, n as int) =~= k@);
    if range_contains(&k, 0, n, "hydro") {
        GeneratorEnergySource::Hydro
    } else if range_contains(&k, 0, n, "nuclear") {
        GeneratorEnergySource::Nuclear
    } else if range_contains(&k, 0, n, "wind") {
        GeneratorEnergySource::Wind
    } else if range_contains(&k, 0, n, "solar") || range_contains(&k, 0, n, "photovoltaic")
        || range_is(&k, 0, n, "pv") {
        GeneratorEnergySource::Solar
    } else if range_contains(&k, 0, n, "coal") || range_contains(&k, 0, n, "gas")
        || range_contains(&k, 0, n, "oil") || range_contains(&k, 0, n, "diesel")
        || range_contains(&k, 0, n, "lignite") || range_contains(&k, 0, n, "peat")
        || range_contains(&k, 0, n, "biogas") || range_contains(&k, 0, n, "biomass")
        || range_contains(&k, 0, n, "waste") {
        GeneratorEnergySource::Thermal
    } else {
        GeneratorEnergySource::Other
    }
}

/// The classes the balanced mapping reads, references, or deliberately
/// ignores.
pub open spec fn handled_class(c: Seq<char>) -> bool {
    ||| c == "ElmNet"@
    ||| c == "ElmTerm"@
    ||| c == "ElmLne"@
    ||| c == "ElmTow"@
    ||| c == "ElmZpu"@
    ||| c == "ElmTr2"@
    ||| c == "ElmTr3"@
    ||| c == "ElmLod"@
    ||| c == "ElmLodmv"@
    ||| c == "ElmLodlv"@
    ||| c == "ElmLodlvp"@
    ||| c == "ElmSym"@
    ||| c == "ElmGenstat"@
    ||| c == "ElmPvsys"@
    ||| c == "ElmAsm"@
    ||| c == "ElmXnet"@
    ||| c == "ElmShnt"@
    ||| c == "ElmCoup"@
    ||| c == "ElmVsc"@
    ||| c == "ElmTapctrl"@
    ||| c == "ElmZone"@
    ||| c == "ElmArea"@
    ||| c == "ElmSite"@
    ||| c == "ElmSubstat"@
    ||| c == "ElmTrfstat"@
    ||| c == "StaCubic"@
    ||| c == "StaSwitch"@
    ||| c == "TypLne"@
    ||| c == "TypTow"@
    ||| c == "TypTr2"@
    ||| c == "TypTr3"@
    ||| c == "TypSym"@
    ||| c == "TypLod"@
}

fn is_handled(c: &Vec<char>) -> (r: bool)
    ensures
        r == handled_class(c@),
{
    chars_eq(c, &chars_of("ElmNet")) || chars_eq(c, &chars_of("ElmTerm")) || chars_eq(c, &chars_of("ElmLne")) || chars_eq(c, &chars_of("ElmTow")) || chars_eq(c, &chars_of("ElmZpu")) || chars_eq(c, &chars_of("ElmTr2")) || chars_eq(c, &chars_of("ElmTr3")) || chars_eq(c, &chars_of("ElmLod")) || chars_eq(c, &chars_of("ElmLodmv")) || chars_eq(c, &chars_of("ElmLodlv")) || chars_eq(c, &chars_of("ElmLodlvp")) || chars_eq(c, &chars_of("ElmSym")) || chars_eq(c, &chars_of("ElmGenstat")) || chars_eq(c, &chars_of("ElmPvsys")) || chars_eq(c, &chars_of("ElmAsm")) || chars_eq(c, &chars_of("ElmXnet")) || chars_eq(c, &chars_of("ElmShnt")) || chars_eq(c, &chars_of("ElmCoup")) || chars_eq(c, &chars_of("ElmVsc")) || chars_eq(c, &chars_of("ElmTapctrl")) || chars_eq(c, &chars_of("ElmZone")) || chars_eq(c, &chars_of("ElmArea")) || chars_eq(c, &chars_of("ElmSite")) || chars_eq(c, &chars_of("ElmSubstat")) || chars_eq(c, &chars_of("ElmTrfstat")) || chars_eq(c, &chars_of("StaCubic")) || chars_eq(c, &chars_of("StaSwitch")) || chars_eq(c, &chars_of("TypLne")) || chars_eq(c, &chars_of("TypTow")) || chars_eq(c, &chars_of("TypTr2")) || chars_eq(c, &chars_of("TypTr3")) || chars_eq(c, &chars_of("TypSym")) || chars_eq(c, &chars_of("TypLod"))
}

/// The findings on the classes with rows that no part of the mapping reads
/// but that carry network data, from their row counts in class name order.
pub open spec fn unmapped_findings(counts: Seq<(Seq<char>, usize)>) -> Seq<Seq<char>>
    decreases counts.len(),
{
    if counts.len() == 0 {
        Seq::empty()
    } else {
        let (class, rows) = counts.last();
        let rest = unmapped_findings(counts.drop_last());
        if class_reports(class) && !handled_class(class) {
            rest.push(
                nat_text(rows as nat) + " `"@ + class + "` row(s) have no balanced network spelling and remain only in the retained source"@,
            )
        } else {
            rest
        }
    }
}

/// The row count of every class with rows, in class name order.
pub open spec fn class_counts_of(d: DgsDocumentV, counts: Seq<(Seq<char>, usize)>) -> bool {
    &&& forall|i: int, j: int| 0 <= i < j < counts.len() ==> chars_lt(#[trigger] counts[i].0, #[trigger] counts[j].0)
    &&& forall|i: int| 0 <= i < counts.len() ==> #[trigger] counts[i].1 == of_class_spec(d, counts[i].0).len() && counts[i].1 > 0
    &&& forall|name: Seq<char>|
        #![trigger of_class_spec(d, name)]
        of_class_spec(d, name).len() > 0 ==> exists|i: int| 0 <= i < counts.len() && counts[i].0 == name
}

pub open spec fn count_views(counts: Seq<(String, usize)>) -> Seq<(Seq<char>, usize)> {
    counts.map_values(|c: (String, usize)| (c.0@, c.1))
}

/// The findings on the classes whose rows the mapping never reads although
/// they carry network data.
pub fn unmapped_class_findings(d: &DgsDocument) -> (r: Vec<String>)
    requires
        document_wf(d@),
    ensures
        exists|counts: Seq<(Seq<char>, usize)>| class_counts_of(d@, counts) && views(r@) == unmapped_findings(counts),
{
    let counts = d.class_counts();
    let ghost cv = count_views(counts@);
    let mut out: Vec<String> = Vec::new();
    let mut i: usize = 0;
    while i < counts.len()
        invariant
            i <= counts@.len(),
            cv == count_views(counts@),
            views(out@) == unmapped_findings(cv.take(i as int)),
        decreases counts@.len() - i,
    {
        assert(cv.take(i + 1).drop_last() =~= cv.take(i as int));
        assert(cv.take(i + 1).last() == (counts@[i as int].0@, counts@[i as int].1));
        let class = chars_of(counts[i].0.as_str());
        if reports_when_unmapped(counts[i].0.as_str()) && !is_handled(&class) {
            let mut m: Vec<char> = Vec::new();
            push_nat(&mut m, counts[i].1 as u64);
            push_str(&mut m, " `");
            push_str(&mut m, counts[i].0.as_str());
            push_str(&mut m, "` row(s) have no balanced network spelling and remain only in the retained source");
            let ghost before = out@;
            out.push(string_of(&m));
            assert(views(out@) =~= views(before).push(m@));
        }
        i = i + 1;
    }
    proof {
        assert(cv.take(cv.len() as int) =~= cv);
        assert forall|i: int, j: int| 0 <= i < j < cv.len() implies chars_lt(#[trigger] cv[i].0, #[trigger] cv[j].0) by {
            assert(chars_lt(counts@[i].0@, counts@[j].0@));
        }
        assert forall|i: int| 0 <= i < cv.len() implies #[trigger] cv[i].1 == of_class_spec(d@, cv[i].0).len() && cv[i].1
            > 0 by {
            assert(counts@[i].1 == of_class_spec(d@, counts@[i].0@).len());
        }
        assert forall|name: Seq<char>|
            #![trigger of_class_spec(d@, name)]
            of_class_spec(d@, name).len() > 0 implies exists|i: int| 0 <= i < cv.len() && cv[i].0 == name by {
            let i = choose|i: int| 0 <= i < counts@.len() && counts@[i].0@ == name;
            assert(cv[i].0 == name);
        }
        assert(class_counts_of(d@, cv));
    }
    out
}

/// Whether an in service voltage regulating generator stands at bus `x`.
pub open spec fn regulated(generators: Seq<(i64, bool)>, x: i64) -> bool {
    exists|g: int| 0 <= g < generators.len() && #[trigger] generators[g] == (x, true)
}

/// The reference buses: the declared slack buses, else the bus of the
/// largest regulating generator when there is one.
pub open spec fn reference_buses(generators: Seq<(i64, bool)>, declared: Seq<i64>, largest: Option<usize>) -> Seq<i64> {
    if declared.len() > 0 {
        declared
    } else {
        match largest {
            Some(i) => seq![generators[i as int].0],
            None => Seq::empty(),
        }
    }
}

/// The load flow role of bus `x`.
pub open spec fn bus_kind(x: i64, reference: Seq<i64>, generators: Seq<(i64, bool)>) -> BusType {
    if reference.contains(x) {
        BusType::Ref
    } else if regulated(generators, x) {
        BusType::Pv
    } else {
        BusType::Pq
    }
}

/// The finding for a reference bus that no element declared.
pub open spec fn inferred_reference_message(bus: i64) -> Seq<char> {
    "no ElmSym, ElmGenstat, or ElmXnet declares the slack (`ip_ctrl=1` or `bustp=SL`); bus "@ + int_text(bus as int)
        + " of the largest voltage regulating generator is the reference bus"@
}

/// The load flow role of every bus: the declared slack buses are the
/// references, any other bus with an in service voltage regulating
/// generator (`true` beside its bus) is PV, the rest PQ. Without a declared
/// slack the bus of the largest regulating generator, at position `largest`
/// among the generators, becomes the reference, with a finding.
pub fn assign_bus_kinds(
    buses: &Vec<i64>,
    generators: &Vec<(i64, bool)>,
    declared: &Vec<i64>,
    largest: Option<usize>,
) -> (r: (Vec<BusType>, Option<String>))
    requires
        declared@.len() == 0 ==> match largest {
            Some(i) => i < generators@.len() && generators@[i as int].1,
            None => forall|g: int| 0 <= g < generators@.len() ==> !(#[trigger] generators@[g]).1,
        },
    ensures
        r.0@.len() == buses@.len(),
        forall|b: int|
            0 <= b < buses@.len() ==> #[trigger] r.0@[b] == bus_kind(
                buses@[b],
                reference_buses(generators@, declared@, largest),
                generators@,
            ),
        match r.1 {
            Some(m) => declared@.len() == 0 && (largest matches Some(i) && m@ == inferred_reference_message(
                generators@[i as int].0,
            )),
            None => declared@.len() > 0 || largest is None,
        },
{
    let mut reference: Vec<i64> = Vec::new();
    let mut finding: Option<String> = None;
    if declared.len() > 0 {
        let mut i: usize = 0;
        while i < declared.len()
            invariant
                i <= declared@.len(),
                reference@ == declared@.take(i as int),
            decreases declared@.len() - i,
        {
            reference.push(declared[i]);
            i = i + 1;
            assert(reference@ =~= declared@.take(i as int));
        }
        assert(declared@.take(declared@.len() as int) =~= declared@);
    } else {
        match largest {
            Some(i) => {
                let bus = generators[i].0;
                reference.push(bus);
                assert(reference@ =~= seq![bus]);
                let mut m: Vec<char> = Vec::new();
                push_str(
                    &mut m,
                    "no ElmSym, ElmGenstat, or ElmXnet declares the slack (`ip_ctrl=1` or `bustp=SL`); bus ",
                );
                push_int(&mut m, bus);
                push_str(&mut m, " of the largest voltage regulating generator is the reference bus");
                finding = Some(string_of(&m));
            },
            None => {
                assert(reference@ =~= Seq::<i64>::empty());
            },
        }
    }
    let ghost rf = reference_buses(generators@, declared@, largest);
    assert(reference@ == rf);
    let mut kinds: Vec<BusType> = Vec::new();
    let mut b: usize = 0;
    while b < buses.len()
        invariant
            b <= buses@.len(),
            reference@ == rf,
            kinds@.len() == b,
            forall|k: int| 0 <= k < b ==> #[trigger] kinds@[k] == bus_kind(buses@[k], rf, generators@),
        decreases buses@.len() - b,
    {
        let x = buses[b];
        let kind = if contains_i64(&reference, x) {
            BusType::Ref
        } else {
            let mut found = false;
            let mut g: usize = 0;
            while g < generators.len()
                invariant
                    g <= generators@.len(),
                    found == exists|h: int| 0 <= h < g && #[trigger] generators@[h] == (x, true),
                decreases generators@.len() - g,
            {
                if generators[g].0 == x && generators[g].1 {
                    found = true;
                }
                assert(generators@[g as int] == generators@[g as int]);
                g = g + 1;
            }
            if found {
                BusType::Pv
            } else {
                BusType::Pq
            }
        };
        kinds.push(kind);
        b = b + 1;
    }
    (kinds, finding)
}

/// Whether `x` is listed in `v`.
fn contains_i64(v: &Vec<i64>, x: i64) -> (r: bool)
    ensures
        r == v@.contains(x),
{
    let mut i: usize = 0;
    while i < v.len()
        invariant
            i <= v@.len(),
            forall|j: int| 0 <= j < i ==> v@[j] != x,
        decreases v@.len() - i,
    {
        if v[i] == x {
            assert(v@[i as int] == x);
            return true;
        }
        i = i + 1;
    }
    false
}

} // verus!
