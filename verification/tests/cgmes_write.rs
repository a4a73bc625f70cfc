use powerio_tx::cgmes::doc::{
    dc_polarity_label, document, generating_unit_class, omitted_field_label, profiles, source_limit_type, switch_class,
    write_sv_status, CgmesVersion, Doc, RetainedIdentifiedMetadata,
};
use powerio_tx::cgmes::mrid::{dc_terminal_mrid, det_mrid, mrid_or, term_id};
use powerio_tx::cgmes::pull::{parse_cimxml, validate_rdf_graph};
use powerio_tx::cgmes::xml::PropValue;
use powerio_tx::network::{DcPolarity, GeneratorEnergySource, OmittedFieldName, SwitchKind};
use uuid::Uuid;

fn body(doc: &Doc) -> String {
    doc.body.iter().collect()
}

fn expected_mrid(kind: &str, name: &str) -> String {
    let namespace = Uuid::new_v5(&Uuid::NAMESPACE_URL, b"https://powerio.dev/cgmes");
    Uuid::new_v5(&namespace, format!("{kind}:{name}").as_bytes()).to_string()
}

#[test]
fn identifiers_are_name_based_uuids() {
    assert_eq!(det_mrid("bus", "1"), expected_mrid("bus", "1"));
    assert_eq!(det_mrid("bus", "1"), det_mrid("bus", "1"));
    assert_ne!(det_mrid("bus", "1"), det_mrid("bus", "2"));
    assert_eq!(det_mrid("bus", "1").len(), 36);
    assert_eq!(term_id("eq", 2), expected_mrid("terminal", "eq:2"));
    assert_eq!(dc_terminal_mrid("conv", 1), expected_mrid("dc_terminal", "conv:1"));
}

#[test]
fn an_imported_uuid_is_kept() {
    let uid = "550e8400-e29b-41d4-a716-446655440000";
    assert_eq!(mrid_or("bus", "1", Some(uid)), uid);
    assert_eq!(mrid_or("bus", "1", Some("B-7")), expected_mrid("bus", "B-7"));
    assert_eq!(mrid_or("bus", "1", None), expected_mrid("bus", "1"));
    let braced = "{550e8400-e29b-41d4-a716-446655440000}";
    assert_eq!(mrid_or("bus", "1", Some(braced)), braced);
}

#[test]
fn elements_are_written_one_per_line() {
    let mut doc = Doc::new(Vec::new());
    doc.open("Bay", "b1", false);
    doc.text("IdentifiedObject.name", "A & B");
    doc.reference("Bay.Substation", "s1");
    doc.enumeration("RegulatingControl.mode", "http://iec.ch/TC57/CIM100#", "RegulatingControlModeKind.voltage");
    doc.ext_ref("eu", "IdentifiedObject.x", "http://example/x");
    doc.close("Bay");
    doc.open("Bay", "b1", true);
    assert_eq!(
        body(&doc),
        "  <cim:Bay rdf:ID=\"_b1\">\n    <cim:IdentifiedObject.name>A &amp; B</cim:IdentifiedObject.name>\n    \
         <cim:Bay.Substation rdf:resource=\"#_s1\"/>\n    <cim:RegulatingControl.mode \
         rdf:resource=\"http://iec.ch/TC57/CIM100#RegulatingControlModeKind.voltage\"/>\n    \
         <eu:IdentifiedObject.x rdf:resource=\"http://example/x\"/>\n  </cim:Bay>\n  <cim:Bay rdf:about=\"#_b1\">\n"
    );
}

#[test]
fn retained_metadata_is_written_back_on_definition() {
    let retained = vec![(
        "b1".to_string(),
        RetainedIdentifiedMetadata { name: Some("North".into()), short_name: Some("N".into()), fictitious: true },
    )];
    let mut doc = Doc::new(retained);
    doc.named("Bay", "b1", "ignored");
    assert_eq!(
        body(&doc),
        "  <cim:Bay rdf:ID=\"_b1\">\n    <cim:IdentifiedObject.name>North</cim:IdentifiedObject.name>\n    \
         <cim:IdentifiedObject.shortName>N</cim:IdentifiedObject.shortName>\n    \
         <cim:IdentifiedObject.isFictitious>true</cim:IdentifiedObject.isFictitious>\n"
    );
    let mut doc = Doc::new(Vec::new());
    doc.named("Bay", "b2", "South");
    assert_eq!(
        body(&doc),
        "  <cim:Bay rdf:ID=\"_b2\">\n    <cim:IdentifiedObject.name>South</cim:IdentifiedObject.name>\n"
    );
}

#[test]
fn a_status_names_its_equipment() {
    let mut sv = Doc::new(Vec::new());
    write_sv_status(&mut sv, "eq1", false);
    let id = expected_mrid("svstatus", "eq1");
    assert_eq!(
        body(&sv),
        format!(
            "  <cim:SvStatus rdf:ID=\"_{id}\">\n    <cim:SvStatus.ConductingEquipment rdf:resource=\"#_eq1\"/>\n    \
             <cim:SvStatus.inService>false</cim:SvStatus.inService>\n  </cim:SvStatus>\n"
        )
    );
}

#[test]
fn a_written_document_reads_back() {
    let p = profiles(CgmesVersion::V3_0);
    let mut eq = Doc::new(Vec::new());
    eq.named("Bay", "b1", "A <b>");
    eq.close("Bay");
    let eq_text = document(&p, p.eq, "m1", "grid & co", "2024-01-01T00:00:00Z", &[], &body(&eq));
    let mut sv = Doc::new(Vec::new());
    write_sv_status(&mut sv, "b1", true);
    let sv_text = document(&p, p.sv, "m2", "grid", "2024-01-01T00:00:00Z", &["m1"], &body(&sv));
    let doc = parse_cimxml(&eq_text).unwrap();
    let header = doc.header.unwrap();
    assert_eq!(header.identity.as_deref(), Some("m1"));
    assert_eq!(header.description.as_deref(), Some("grid & co"));
    assert_eq!(header.version.as_deref(), Some("1"));
    assert_eq!(header.profiles, vec![p.eq.to_string()]);
    assert_eq!(header.modeling_authority_set.as_deref(), Some("http://powerio.dev/cgmes"));
    assert_eq!(doc.objects[0].props, vec![("IdentifiedObject.name".into(), PropValue::Text("A <b>".into()))]);
    let sv_doc = parse_cimxml(&sv_text).unwrap();
    assert_eq!(sv_doc.header.unwrap().dependent_on, vec!["m1".to_string()]);
    let files = vec![("EQ".to_string(), eq_text), ("SV".to_string(), sv_text)];
    assert_eq!(validate_rdf_graph(&files), Ok(()));
}

#[test]
fn both_releases_have_their_namespaces() {
    let old = profiles(CgmesVersion::V2_4_15);
    assert_eq!(old.cim_ns, "http://iec.ch/TC57/2013/CIM-schema-cim16#");
    assert_eq!(old.ext, ("entsoe", "http://entsoe.eu/CIM/SchemaExtension/3/1#"));
    let new = profiles(CgmesVersion::V3_0);
    assert_eq!(new.ext.0, "eu");
    assert_eq!(new.tp, "http://iec.ch/TC57/ns/CIM/Topology-EU/3.0");
}

#[test]
fn limit_types_are_shared() {
    let mut types = Vec::new();
    let a = source_limit_type(&mut types, "patl", 0, true);
    let b = source_limit_type(&mut types, "tatl", 60, false);
    let c = source_limit_type(&mut types, "patl", 0, true);
    assert_eq!(a, c);
    assert_ne!(a, b);
    assert_eq!(types.len(), 2);
    assert_eq!(a, expected_mrid("source_limit_type", "patl:0:true"));
    assert_eq!(b, expected_mrid("source_limit_type", "tatl:60:false"));
}

#[test]
fn labels_name_classes_and_fields() {
    assert_eq!(generating_unit_class(GeneratorEnergySource::Hydro), "HydroGeneratingUnit");
    assert_eq!(generating_unit_class(GeneratorEnergySource::Other), "GeneratingUnit");
    assert_eq!(switch_class(SwitchKind::LoadBreakSwitch), "LoadBreakSwitch");
    assert_eq!(dc_polarity_label(DcPolarity::Middle), "middle");
    assert_eq!(omitted_field_label(OmittedFieldName::ShuntConductancePerSection), "shunt_conductance_per_section");
}
