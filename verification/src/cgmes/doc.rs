//! Writing CGMES profile documents: one element per line, every text value
//! escaped, identifiers written as `rdf:ID="_<id>"` definitions,
//! `rdf:about="#_<id>"` extensions and `rdf:resource="#_<id>"` references.

use vstd::prelude::*;

use super::mrid::{det_mrid, det_mrid_spec, writer_namespace};
use super::{esc, escaped};
use crate::network::{DcPolarity, GeneratorEnergySource, OmittedFieldName, SwitchKind};
use crate::text::{chars_eq, chars_of, nat_text, push_chars, push_nat, push_str, string_of};

verus! {

broadcast use vstd::string::group_string_axioms;

/// The CGMES release a document set is written for.
#[derive(Clone, Copy, Debug, PartialEq, Eq, Structural)]
pub enum CgmesVersion {
    V2_4_15,
    V3_0,
}

/// What an imported object said of itself, written back when the object is
/// defined again.
#[derive(Debug)]
pub struct RetainedIdentifiedMetadata {
    pub name: Option<String>,
    pub short_name: Option<String>,
    pub fictitious: bool,
}

pub struct RetainedV {
    pub name: Option<Seq<char>>,
    pub short_name: Option<Seq<char>>,
    pub fictitious: bool,
}

pub open spec fn opt_text(o: Option<String>) -> Option<Seq<char>> {
    match o {
        Some(s) => Some(s@),
        None => None,
    }
}

impl View for RetainedIdentifiedMetadata {
    type V = RetainedV;

    open spec fn view(&self) -> RetainedV {
        RetainedV { name: opt_text(self.name), short_name: opt_text(self.short_name), fictitious: self.fictitious }
    }
}

/// The metadata retained for `id`: the first entry that names it.
pub open spec fn retained_for(m: Seq<(String, RetainedIdentifiedMetadata)>, id: Seq<char>, n: int) -> Option<RetainedV>
    decreases n,
{
    if n <= 0 {
        None
    } else {
        match retained_for(m, id, n - 1) {
            Some(r) => Some(r),
            None => if m[n - 1].0@ == id {
                Some(m[n - 1].1@)
            } else {
                None
            },
        }
    }
}

/// One profile document under construction.
pub struct Doc {
    pub body: Vec<char>,
    pub retained_metadata: Vec<(String, RetainedIdentifiedMetadata)>,
}

impl Doc {
    pub open spec fn retained(&self, id: Seq<char>) -> Option<RetainedV> {
        retained_for(self.retained_metadata@, id, self.retained_metadata@.len() as int)
    }
}

/// A text property: `    <cim:prop>value</cim:prop>`, the value escaped.
pub open spec fn text_line(prop: Seq<char>, value: Seq<char>) -> Seq<char> {
    "    <cim:"@ + prop + ">"@ + escaped(value) + "</cim:"@ + prop + ">\n"@
}

/// The start tag of an object: an `rdf:about` extension or an `rdf:ID`
/// definition.
pub open spec fn open_line(class: Seq<char>, id: Seq<char>, about: bool) -> Seq<char> {
    "  <cim:"@ + class + " "@ + (if about {
        "rdf:about=\"#_"@ + id + "\""@
    } else {
        "rdf:ID=\"_"@ + id + "\""@
    }) + ">\n"@
}

/// What a definition writes back of the retained metadata: the name, the
/// short name, and whether the object is fictitious.
pub open spec fn retained_lines(m: RetainedV) -> Seq<char> {
    (match m.name {
        Some(n) => text_line("IdentifiedObject.name"@, n),
        None => Seq::empty(),
    }) + (match m.short_name {
        Some(n) => text_line("IdentifiedObject.shortName"@, n),
        None => Seq::empty(),
    }) + (if m.fictitious {
        text_line("IdentifiedObject.isFictitious"@, "true"@)
    } else {
        Seq::empty()
    })
}

/// The end tag of an object.
pub open spec fn close_line(class: Seq<char>) -> Seq<char> {
    "  </cim:"@ + class + ">\n"@
}

/// A reference to the object `target`.
pub open spec fn reference_line(prop: Seq<char>, target: Seq<char>) -> Seq<char> {
    "    <cim:"@ + prop + " rdf:resource=\"#_"@ + target + "\"/>\n"@
}

/// Everything `open` writes.
pub open spec fn open_text(d: Doc, class: Seq<char>, id: Seq<char>, about: bool) -> Seq<char> {
    open_line(class, id, about) + if !about {
        match d.retained(id) {
            Some(m) => retained_lines(m),
            None => Seq::empty(),
        }
    } else {
        Seq::empty()
    }
}

fn retained_lookup<'a>(m: &'a Vec<(String, RetainedIdentifiedMetadata)>, id: &str) -> (r: Option<
    &'a RetainedIdentifiedMetadata,
>)
    ensures
        match r {
            Some(x) => retained_for(m@, id@, m@.len() as int) == Some(x@),
            None => retained_for(m@, id@, m@.len() as int) is None,
        },
{
    let want = chars_of(id);
    let mut i: usize = 0;
    while i < m.len()
        invariant
            i <= m@.len(),
            want@ == id@,
            retained_for(m@, id@, i as int) is None,
        decreases m@.len() - i,
    {
        let k = chars_of(m[i].0.as_str());
        if chars_eq(&k, &want) {
            proof {
                lemma_retained_stays(m@, id@, i as int + 1, m@.len() as int);
            }
            return Some(&m[i].1);
        }
        i = i + 1;
    }
    None
}

proof fn lemma_retained_stays(m: Seq<(String, RetainedIdentifiedMetadata)>, id: Seq<char>, a: int, b: int)
    requires
        1 <= a <= b,
        retained_for(m, id, a) is Some,
    ensures
        retained_for(m, id, b) == retained_for(m, id, a),
    decreases b - a,
{
    if a < b {
        lemma_retained_stays(m, id, a, b - 1);
    }
}

impl Doc {
    pub fn new(retained_metadata: Vec<(String, RetainedIdentifiedMetadata)>) -> (r: Doc)
        ensures
            r.body@ == Seq::<char>::empty(),
            r.retained_metadata@ == retained_metadata@,
    {
        Doc { body: Vec::new(), retained_metadata }
    }

    /// A text property, the value escaped.
    pub fn text(&mut self, prop: &str, value: &str)
        ensures
            final(self).body@ == old(self).body@ + text_line(prop@, value@),
            final(self).retained_metadata@ == old(self).retained_metadata@,
    {
        push_str(&mut self.body, "    <cim:");
        push_str(&mut self.body, prop);
        push_str(&mut self.body, ">");
        let e = esc(value);
        push_str(&mut self.body, e.as_str());
        push_str(&mut self.body, "</cim:");
        push_str(&mut self.body, prop);
        push_str(&mut self.body, ">\n");
        assert(self.body@ =~= old(self).body@ + text_line(prop@, value@));
    }

    /// Open an object element: an `rdf:ID` definition, which writes back the
    /// retained metadata of `id`, or an `rdf:about` extension.
    pub fn open(&mut self, class: &str, id: &str, about: bool)
        ensures
            final(self).body@ == old(self).body@ + open_text(*old(self), class@, id@, about),
            final(self).retained_metadata@ == old(self).retained_metadata@,
    {
        let ghost d = *self;
        push_str(&mut self.body, "  <cim:");
        push_str(&mut self.body, class);
        push_str(&mut self.body, " ");
        if about {
            push_str(&mut self.body, "rdf:about=\"#_");
        } else {
            push_str(&mut self.body, "rdf:ID=\"_");
        }
        push_str(&mut self.body, id);
        push_str(&mut self.body, "\"");
        push_str(&mut self.body, ">\n");
        assert(self.body@ =~= d.body@ + open_line(class@, id@, about));
        if !about {
            let ghost start = self.body@;
            let mut lines: Vec<char> = Vec::new();
            match retained_lookup(&self.retained_metadata, id) {
                Some(m) => {
                    if let Some(n) = &m.name {
                        let mut t = Doc { body: Vec::new(), retained_metadata: Vec::new() };
                        t.text("IdentifiedObject.name", n.as_str());
                        push_chars(&mut lines, &t.body);
                    }
                    if let Some(n) = &m.short_name {
                        let mut t = Doc { body: Vec::new(), retained_metadata: Vec::new() };
                        t.text("IdentifiedObject.shortName", n.as_str());
                        push_chars(&mut lines, &t.body);
                    }
                    if m.fictitious {
                        let mut t = Doc { body: Vec::new(), retained_metadata: Vec::new() };
                        t.text("IdentifiedObject.isFictitious", "true");
                        push_chars(&mut lines, &t.body);
                    }
                    assert(lines@ =~= retained_lines(m@));
                },
                None => {},
            }
            push_chars(&mut self.body, &lines);
            assert(self.body@ =~= d.body@ + open_text(d, class@, id@, about));
        } else {
            assert(self.body@ =~= d.body@ + open_text(d, class@, id@, about));
        }
    }

    /// Close an object element.
    pub fn close(&mut self, class: &str)
        ensures
            final(self).body@ == old(self).body@ + close_line(class@),
            final(self).retained_metadata@ == old(self).retained_metadata@,
    {
        push_str(&mut self.body, "  </cim:");
        push_str(&mut self.body, class);
        push_str(&mut self.body, ">\n");
    }

    /// A reference property in a non-`cim` namespace (the `entsoe:` and
    /// `eu:` extensions).
    pub fn ext_ref(&mut self, prefix: &str, prop: &str, uri: &str)
        ensures
            final(self).body@ == old(self).body@ + "    <"@ + prefix@ + ":"@ + prop@ + " rdf:resource=\""@ + uri@
                + "\"/>\n"@,
            final(self).retained_metadata@ == old(self).retained_metadata@,
    {
        push_str(&mut self.body, "    <");
        push_str(&mut self.body, prefix);
        push_str(&mut self.body, ":");
        push_str(&mut self.body, prop);
        push_str(&mut self.body, " rdf:resource=\"");
        push_str(&mut self.body, uri);
        push_str(&mut self.body, "\"/>\n");
    }

    /// A reference to the object `target`.
    pub fn reference(&mut self, prop: &str, target: &str)
        ensures
            final(self).body@ == old(self).body@ + reference_line(prop@, target@),
            final(self).retained_metadata@ == old(self).retained_metadata@,
    {
        push_str(&mut self.body, "    <cim:");
        push_str(&mut self.body, prop);
        push_str(&mut self.body, " rdf:resource=\"#_");
        push_str(&mut self.body, target);
        push_str(&mut self.body, "\"/>\n");
    }

    /// An enumeration value: a reference to `value` in the CIM namespace.
    pub fn enumeration(&mut self, prop: &str, cim_ns: &str, value: &str)
        ensures
            final(self).body@ == old(self).body@ + "    <cim:"@ + prop@ + " rdf:resource=\""@ + cim_ns@ + value@
                + "\"/>\n"@,
            final(self).retained_metadata@ == old(self).retained_metadata@,
    {
        push_str(&mut self.body, "    <cim:");
        push_str(&mut self.body, prop);
        push_str(&mut self.body, " rdf:resource=\"");
        push_str(&mut self.body, cim_ns);
        push_str(&mut self.body, value);
        push_str(&mut self.body, "\"/>\n");
    }

    /// Define a named object: its name is written unless the retained
    /// metadata of `id` already names it.
    pub fn named(&mut self, class: &str, id: &str, name: &str)
        ensures
            final(self).body@ == old(self).body@ + open_text(*old(self), class@, id@, false) + (
            match old(self).retained(id@) {
                Some(m) => if m.name is Some {
                    Seq::empty()
                } else {
                    text_line("IdentifiedObject.name"@, name@)
                },
                None => text_line("IdentifiedObject.name"@, name@),
            }),
            final(self).retained_metadata@ == old(self).retained_metadata@,
    {
        let ghost d = *self;
        self.open(class, id, false);
        let ghost mid = self.body@;
        let named = match retained_lookup(&self.retained_metadata, id) {
            Some(m) => m.name.is_some(),
            None => false,
        };
        if !named {
            self.text("IdentifiedObject.name", name);
        }
        assert(self.body@ =~= d.body@ + open_text(d, class@, id@, false) + (match d.retained(id@) {
            Some(m) => if m.name is Some {
                Seq::empty()
            } else {
                text_line("IdentifiedObject.name"@, name@)
            },
            None => text_line("IdentifiedObject.name"@, name@),
        }));
    }
}

/// The state variable that says whether `equipment` is in service.
pub fn write_sv_status(sv: &mut Doc, equipment: &str, in_service: bool)
    ensures
        final(sv).body@ == old(sv).body@ + open_text(*old(sv), "SvStatus"@, det_mrid_spec("svstatus"@, equipment@), false)
            + reference_line("SvStatus.ConductingEquipment"@, equipment@) + text_line(
            "SvStatus.inService"@,
            if in_service {
                "true"@
            } else {
                "false"@
            },
        ) + close_line("SvStatus"@),
        final(sv).retained_metadata@ == old(sv).retained_metadata@,
{
    let ghost d = *sv;
    let status = det_mrid("svstatus", equipment);
    sv.open("SvStatus", status.as_str(), false);
    sv.reference("SvStatus.ConductingEquipment", equipment);
    if in_service {
        sv.text("SvStatus.inService", "true");
    } else {
        sv.text("SvStatus.inService", "false");
    }
    sv.close("SvStatus");
    assert(sv.body@ =~= d.body@ + open_text(d, "SvStatus"@, status@, false) + reference_line(
        "SvStatus.ConductingEquipment"@,
        equipment@,
    ) + text_line(
        "SvStatus.inService"@,
        if in_service {
            "true"@
        } else {
            "false"@
        },
    ) + close_line("SvStatus"@));
}

/// The CGMES class of a generating unit of a given energy source.
pub fn generating_unit_class(source: GeneratorEnergySource) -> (r: &'static str)
    ensures
        r@ == match source {
            GeneratorEnergySource::Hydro => "HydroGeneratingUnit"@,
            GeneratorEnergySource::Nuclear => "NuclearGeneratingUnit"@,
            GeneratorEnergySource::Wind => "WindGeneratingUnit"@,
            GeneratorEnergySource::Thermal => "ThermalGeneratingUnit"@,
            GeneratorEnergySource::Solar => "SolarGeneratingUnit"@,
            GeneratorEnergySource::Other => "GeneratingUnit"@,
        },
{
    match source {
        GeneratorEnergySource::Hydro => "HydroGeneratingUnit",
        GeneratorEnergySource::Nuclear => "NuclearGeneratingUnit",
        GeneratorEnergySource::Wind => "WindGeneratingUnit",
        GeneratorEnergySource::Thermal => "ThermalGeneratingUnit",
        GeneratorEnergySource::Solar => "SolarGeneratingUnit",
        GeneratorEnergySource::Other => "GeneratingUnit",
    }
}


/// The CGMES class of a switch.
pub fn switch_class(kind: SwitchKind) -> (r: &'static str)
    ensures
        r@ == match kind {
            SwitchKind::Breaker => "Breaker"@,
            SwitchKind::Disconnector => "Disconnector"@,
            SwitchKind::LoadBreakSwitch => "LoadBreakSwitch"@,
        },
{
    match kind {
        SwitchKind::Breaker => "Breaker",
        SwitchKind::Disconnector => "Disconnector",
        SwitchKind::LoadBreakSwitch => "LoadBreakSwitch",
    }
}

/// How a diagnostic names a field that was left out.
pub fn omitted_field_label(field: OmittedFieldName) -> (r: &'static str)
    ensures
        r@ == match field {
            OmittedFieldName::ActivePower => "active_power"@,
            OmittedFieldName::ReactivePower => "reactive_power"@,
            OmittedFieldName::VoltageSetpoint => "voltage_setpoint"@,
            OmittedFieldName::RatedApparentPower => "rated_apparent_power"@,
            OmittedFieldName::ShuntConductancePerSection => "shunt_conductance_per_section"@,
        },
{
    match field {
        OmittedFieldName::ActivePower => "active_power",
        OmittedFieldName::ReactivePower => "reactive_power",
        OmittedFieldName::VoltageSetpoint => "voltage_setpoint",
        OmittedFieldName::RatedApparentPower => "rated_apparent_power",
        OmittedFieldName::ShuntConductancePerSection => "shunt_conductance_per_section",
    }
}

/// How a diagnostic names a DC pole.
pub fn dc_polarity_label(polarity: DcPolarity) -> (r: &'static str)
    ensures
        r@ == match polarity {
            DcPolarity::Positive => "positive"@,
            DcPolarity::Middle => "middle"@,
            DcPolarity::Negative => "negative"@,
        },
{
    match polarity {
        DcPolarity::Positive => "positive",
        DcPolarity::Middle => "middle",
        DcPolarity::Negative => "negative",
    }
}

/// The namespaces and profile URIs of a CGMES release.
pub struct Profiles {
    pub cim_ns: &'static str,
    /// The extension namespace, as `(prefix, namespace)`.
    pub ext: (&'static str, &'static str),
    pub eq: &'static str,
    pub tp: &'static str,
    pub ssh: &'static str,
    pub sv: &'static str,
}

/// The namespaces and profile URIs of a CGMES release.
pub fn profiles(version: CgmesVersion) -> (r: Profiles)
    ensures
        version == CgmesVersion::V2_4_15 ==> r.cim_ns@ == "http://iec.ch/TC57/2013/CIM-schema-cim16#"@ && r.ext.0@
            == "entsoe"@ && r.ext.1@ == "http://entsoe.eu/CIM/SchemaExtension/3/1#"@ && r.eq@
            == "http://entsoe.eu/CIM/EquipmentCore/3/1"@ && r.tp@ == "http://entsoe.eu/CIM/Topology/4/1"@ && r.ssh@
            == "http://entsoe.eu/CIM/SteadyStateHypothesis/1/1"@ && r.sv@ == "http://entsoe.eu/CIM/StateVariables/4/1"@,
        version == CgmesVersion::V3_0 ==> r.cim_ns@ == "http://iec.ch/TC57/CIM100#"@ && r.ext.0@ == "eu"@ && r.ext.1@
            == "http://iec.ch/TC57/CIM100-European#"@ && r.eq@ == "http://iec.ch/TC57/ns/CIM/CoreEquipment-EU/3.0"@
            && r.tp@ == "http://iec.ch/TC57/ns/CIM/Topology-EU/3.0"@ && r.ssh@
            == "http://iec.ch/TC57/ns/CIM/SteadyStateHypothesis-EU/3.0"@ && r.sv@
            == "http://iec.ch/TC57/ns/CIM/StateVariables-EU/3.0"@,
{
    match version {
        CgmesVersion::V2_4_15 => Profiles {
            cim_ns: "http://iec.ch/TC57/2013/CIM-schema-cim16#",
            ext: ("entsoe", "http://entsoe.eu/CIM/SchemaExtension/3/1#"),
            eq: "http://entsoe.eu/CIM/EquipmentCore/3/1",
            tp: "http://entsoe.eu/CIM/Topology/4/1",
            ssh: "http://entsoe.eu/CIM/SteadyStateHypothesis/1/1",
            sv: "http://entsoe.eu/CIM/StateVariables/4/1",
        },
        CgmesVersion::V3_0 => Profiles {
            cim_ns: "http://iec.ch/TC57/CIM100#",
            ext: ("eu", "http://iec.ch/TC57/CIM100-European#"),
            eq: "http://iec.ch/TC57/ns/CIM/CoreEquipment-EU/3.0",
            tp: "http://iec.ch/TC57/ns/CIM/Topology-EU/3.0",
            ssh: "http://iec.ch/TC57/ns/CIM/SteadyStateHypothesis-EU/3.0",
            sv: "http://iec.ch/TC57/ns/CIM/StateVariables-EU/3.0",
        },
    }
}

/// The `md:Model.DependentOn` lines of a header.
pub open spec fn dependency_lines(depends: Seq<Seq<char>>) -> Seq<char>
    decreases depends.len(),
{
    if depends.len() == 0 {
        Seq::empty()
    } else {
        dependency_lines(depends.drop_last()) + "    <md:Model.DependentOn rdf:resource=\"urn:uuid:"@ + depends.last()
            + "\"/>\n"@
    }
}

/// The `rdf:RDF` document with its `md:FullModel` header around `body`.
pub open spec fn document_text(
    cim_ns: Seq<char>,
    ext_prefix: Seq<char>,
    ext_ns: Seq<char>,
    profile: Seq<char>,
    model_id: Seq<char>,
    description: Seq<char>,
    case_date: Seq<char>,
    depends: Seq<Seq<char>>,
    body: Seq<char>,
) -> Seq<char> {
    "<?xml version=\"1.0\" encoding=\"UTF-8\"?>\n"@ + "<rdf:RDF xmlns:rdf=\"http://www.w3.org/1999/02/22-rdf-syntax-ns#\"\n         xmlns:cim=\""@
        + cim_ns + "\"\n         xmlns:"@ + ext_prefix + "=\""@ + ext_ns
        + "\"\n         xmlns:md=\"http://iec.ch/TC57/61970-552/ModelDescription/1#\">\n"@
        + "  <md:FullModel rdf:about=\"urn:uuid:"@ + model_id + "\">\n"@ + "    <md:Model.scenarioTime>"@ + escaped(
        case_date,
    ) + "</md:Model.scenarioTime>\n"@ + "    <md:Model.created>"@ + escaped(case_date) + "</md:Model.created>\n"@
        + "    <md:Model.description>"@ + escaped(description) + "</md:Model.description>\n"@
        + "    <md:Model.version>1</md:Model.version>\n"@ + "    <md:Model.profile>"@ + profile
        + "</md:Model.profile>\n"@ + dependency_lines(depends)
        + "    <md:Model.modelingAuthoritySet>http://powerio.dev/cgmes</md:Model.modelingAuthoritySet>\n"@
        + "  </md:FullModel>\n"@ + body + "</rdf:RDF>\n"@
}

pub open spec fn str_views(s: Seq<&str>) -> Seq<Seq<char>> {
    s.map_values(|x: &str| x@)
}

/// Build the `rdf:RDF` document with its `md:FullModel` header.
pub fn document(
    p: &Profiles,
    profile: &str,
    model_id: &str,
    description: &str,
    case_date: &str,
    depends: &[&str],
    body: &str,
) -> (r: String)
    ensures
        r@ == document_text(
            p.cim_ns@,
            p.ext.0@,
            p.ext.1@,
            profile@,
            model_id@,
            description@,
            case_date@,
            str_views(depends@),
            body@,
        ),
{
    let mut out: Vec<char> = Vec::new();
    push_str(&mut out, "<?xml version=\"1.0\" encoding=\"UTF-8\"?>\n");
    push_str(&mut out, "<rdf:RDF xmlns:rdf=\"http://www.w3.org/1999/02/22-rdf-syntax-ns#\"\n         xmlns:cim=\"");
    push_str(&mut out, p.cim_ns);
    push_str(&mut out, "\"\n         xmlns:");
    push_str(&mut out, p.ext.0);
    push_str(&mut out, "=\"");
    push_str(&mut out, p.ext.1);
    push_str(&mut out, "\"\n         xmlns:md=\"http://iec.ch/TC57/61970-552/ModelDescription/1#\">\n");
    push_str(&mut out, "  <md:FullModel rdf:about=\"urn:uuid:");
    push_str(&mut out, model_id);
    push_str(&mut out, "\">\n");
    push_str(&mut out, "    <md:Model.scenarioTime>");
    push_str(&mut out, esc(case_date).as_str());
    push_str(&mut out, "</md:Model.scenarioTime>\n");
    push_str(&mut out, "    <md:Model.created>");
    push_str(&mut out, esc(case_date).as_str());
    push_str(&mut out, "</md:Model.created>\n");
    push_str(&mut out, "    <md:Model.description>");
    push_str(&mut out, esc(description).as_str());
    push_str(&mut out, "</md:Model.description>\n");
    push_str(&mut out, "    <md:Model.version>1</md:Model.version>\n");
    push_str(&mut out, "    <md:Model.profile>");
    push_str(&mut out, profile);
    push_str(&mut out, "</md:Model.profile>\n");
    let ghost head = out@;
    let ghost ds = str_views(depends@);
    let mut i: usize = 0;
    assert(ds.take(0) =~= Seq::<Seq<char>>::empty());
    while i < depends.len()
        invariant
            i <= depends@.len(),
            ds == str_views(depends@),
            out@ == head + dependency_lines(ds.take(i as int)),
        decreases depends@.len() - i,
    {
        assert(ds.take(i as int + 1).drop_last() =~= ds.take(i as int));
        push_str(&mut out, "    <md:Model.DependentOn rdf:resource=\"urn:uuid:");
        push_str(&mut out, depends[i]);
        push_str(&mut out, "\"/>\n");
        i = i + 1;
    }
    assert(ds.take(depends@.len() as int) =~= ds);
    push_str(&mut out, "    <md:Model.modelingAuthoritySet>http://powerio.dev/cgmes</md:Model.modelingAuthoritySet>\n");
    push_str(&mut out, "  </md:FullModel>\n");
    push_str(&mut out, body);
    push_str(&mut out, "</rdf:RDF>\n");
    string_of(&out)
}

/// A limit type the written documents share, found again by its kind,
/// duration and whether it is infinite.
pub struct SourceLimitType {
    pub id: String,
    pub kind: &'static str,
    pub acceptable_duration_seconds: u64,
    pub infinite: bool,
}

/// The first limit type among the first `n` of the given kind, duration
/// and infinity.
pub open spec fn limit_type_at(t: Seq<SourceLimitType>, kind: Seq<char>, duration: u64, infinite: bool, n: int) -> Option<
    int,
>
    decreases n,
{
    if n <= 0 {
        None
    } else {
        match limit_type_at(t, kind, duration, infinite, n - 1) {
            Some(k) => Some(k),
            None => if t[n - 1].kind@ == kind && t[n - 1].acceptable_duration_seconds == duration && t[n - 1].infinite
                == infinite {
                Some(n - 1)
            } else {
                None
            },
        }
    }
}

/// The identifier a new limit type of the given kind, duration and infinity
/// gets.
pub open spec fn limit_type_id(kind: Seq<char>, duration: u64, infinite: bool) -> Seq<char> {
    det_mrid_spec(
        "source_limit_type"@,
        kind + ":"@ + nat_text(duration as nat) + ":"@ + if infinite {
            "true"@
        } else {
            "false"@
        },
    )
}

/// The identifier of the limit type of the given kind, duration and
/// infinity, recorded when it is new.
pub fn source_limit_type(types: &mut Vec<SourceLimitType>, kind: &'static str, duration: u64, infinite: bool) -> (r: String)
    ensures
        match limit_type_at(old(types)@, kind@, duration, infinite, old(types)@.len() as int) {
            Some(k) => r@ == old(types)@[k].id@ && final(types)@ == old(types)@,
            None => {
                &&& r@ == limit_type_id(kind@, duration, infinite)
                &&& final(types)@.len() == old(types)@.len() + 1
                &&& final(types)@.drop_last() == old(types)@
                &&& final(types)@.last().id@ == r@
                &&& final(types)@.last().kind@ == kind@
                &&& final(types)@.last().acceptable_duration_seconds == duration
                &&& final(types)@.last().infinite == infinite
            },
        },
{
    let want = chars_of(kind);
    let mut i: usize = 0;
    while i < types.len()
        invariant
            i <= types@.len(),
            want@ == kind@,
            limit_type_at(types@, kind@, duration, infinite, i as int) is None,
        decreases types@.len() - i,
    {
        let k = chars_of(types[i].kind);
        if chars_eq(&k, &want) && types[i].acceptable_duration_seconds == duration && types[i].infinite == infinite {
            proof {
                lemma_limit_type_stays(types@, kind@, duration, infinite, i as int + 1, types@.len() as int);
            }
            return string_of(&chars_of(types[i].id.as_str()));
        }
        i = i + 1;
    }
    let mut name: Vec<char> = Vec::new();
    push_str(&mut name, kind);
    push_str(&mut name, ":");
    push_nat(&mut name, duration);
    push_str(&mut name, ":");
    if infinite {
        push_str(&mut name, "true");
    } else {
        push_str(&mut name, "false");
    }
    let id = det_mrid("source_limit_type", string_of(&name).as_str());
    let ghost before = types@;
    types.push(SourceLimitType { id: string_of(&chars_of(id.as_str())), kind, acceptable_duration_seconds: duration, infinite });
    assert(types@.drop_last() =~= before);
    id
}

proof fn lemma_limit_type_stays(t: Seq<SourceLimitType>, kind: Seq<char>, duration: u64, infinite: bool, a: int, b: int)
    requires
        1 <= a <= b,
        limit_type_at(t, kind, duration, infinite, a) is Some,
    ensures
        limit_type_at(t, kind, duration, infinite, b) == limit_type_at(t, kind, duration, infinite, a),
    decreases b - a,
{
    if a < b {
        lemma_limit_type_stays(t, kind, duration, infinite, a, b - 1);
    }
}

} // verus!
