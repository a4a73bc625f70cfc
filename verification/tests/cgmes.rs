use powerio_tx::cgmes::graph::{rdf_object_reference_id, register_rdf_definition};
use powerio_tx::cgmes::pull::{parse_cimxml, validate_rdf_graph};
use powerio_tx::cgmes::xml::PropValue;

const SAMPLE: &str = r##"<?xml version="1.0" encoding="UTF-8"?>
<rdf:RDF xmlns:rdf="http://www.w3.org/1999/02/22-rdf-syntax-ns#"
     xmlns:c="http://iec.ch/TC57/2013/CIM-schema-cim16#"
     xmlns:e="http://entsoe.eu/CIM/SchemaExtension/3/1#"
     xmlns:md="http://iec.ch/TC57/61970-552/ModelDescription/1#">
  <md:FullModel rdf:about="urn:uuid:aaaa-bbbb">
<md:Model.description>demo &amp; test</md:Model.description>
<md:Model.modelingAuthoritySet>https://example.test/operator</md:Model.modelingAuthoritySet>
<md:Model.profile>http://entsoe.eu/CIM/EquipmentCore/3/1</md:Model.profile>
<md:Model.profile>http://entsoe.eu/CIM/EquipmentOperation/3/1</md:Model.profile>
  </md:FullModel>
  <c:TopologicalNode rdf:ID="_tn1">
<c:IdentifiedObject.name>BUS 1</c:IdentifiedObject.name>
<c:TopologicalNode.BaseVoltage rdf:resource="#_bv1"/>
  </c:TopologicalNode>
  <c:EnergyConsumer rdf:about="#_load1">
<c:EnergyConsumer.p>23.5</c:EnergyConsumer.p>
<c:RegulatingControl.mode rdf:resource="http://iec.ch/TC57/2013/CIM-schema-cim16#RegulatingControlModeKind.voltage"/>
<e:IdentifiedObject.shortName>L1</e:IdentifiedObject.shortName>
  </c:EnergyConsumer>
  <c:Terminal rdf:about="urn:uuid:t-99">
<c:ACDCTerminal.connected>true</c:ACDCTerminal.connected>
  </c:Terminal>
</rdf:RDF>"##;

#[test]
fn parses_header_objects_props_and_references() {
    let doc = parse_cimxml(SAMPLE).unwrap();
    assert!(
        doc.cim_namespaces
            .contains(&"http://iec.ch/TC57/2013/CIM-schema-cim16#".to_string())
    );
    let header = doc.header.unwrap();
    assert_eq!(header.profiles.len(), 2);
    assert_eq!(
        header.modeling_authority_set.as_deref(),
        Some("https://example.test/operator")
    );
    assert_eq!(header.description.as_deref(), Some("demo & test"));

    assert_eq!(doc.objects.len(), 3);
    let tn = &doc.objects[0];
    assert_eq!(tn.class, "TopologicalNode");
    assert_eq!(tn.id, "tn1");
    assert_eq!(
        tn.props[0],
        (
            "IdentifiedObject.name".into(),
            PropValue::Text("BUS 1".into())
        )
    );
    assert_eq!(
        tn.props[1],
        (
            "TopologicalNode.BaseVoltage".into(),
            PropValue::Ref("bv1".into())
        )
    );

    let load = &doc.objects[1];
    assert_eq!(load.id, "load1");
    // Enum reference normalizes to its EnumClass.value fragment; the
    // extension property keeps its entsoe: prefix regardless of the
    // file's chosen letters.
    assert_eq!(
        load.props[1],
        (
            "RegulatingControl.mode".into(),
            PropValue::Ref("RegulatingControlModeKind.voltage".into())
        )
    );
    assert_eq!(load.props[2].0, "entsoe:IdentifiedObject.shortName");

    // urn:uuid ids normalize like #_ ids.
    assert_eq!(doc.objects[2].id, "t-99");
}

#[test]
fn parses_self_closing_objects_and_cdata_literals() {
    let source = r#"<rdf:RDF
        xmlns:rdf="http://www.w3.org/1999/02/22-rdf-syntax-ns#"
        xmlns:c="http://iec.ch/TC57/CIM100#">
      <c:BaseFrequency rdf:ID="_frequency"/>
      <c:TopologicalNode rdf:ID="_node">
        <c:IdentifiedObject.name><![CDATA[North <bus> & yard]]></c:IdentifiedObject.name>
      </c:TopologicalNode>
    </rdf:RDF>"#;
    let document = parse_cimxml(source).unwrap();
    assert_eq!(document.objects.len(), 2);
    assert_eq!(document.objects[0].class, "BaseFrequency");
    assert_eq!(document.objects[0].id, "frequency");
    assert!(document.objects[0].definition);
    assert_eq!(
        document.objects[1].props,
        vec![(
            "IdentifiedObject.name".into(),
            PropValue::Text("North <bus> & yard".into())
        )]
    );
}

#[test]
fn rejects_non_rdf_documents() {
    assert!(parse_cimxml("<html><body/></html>").is_err());
}

#[test]
fn retains_full_model_fields_and_identifies_nested_rdf() {
    let source = r#"<rdf:RDF
        xmlns:rdf="http://www.w3.org/1999/02/22-rdf-syntax-ns#"
        xmlns:md="http://iec.ch/TC57/61970-552/ModelDescription/1#"
        xmlns:cim="http://iec.ch/TC57/CIM100#">
      <md:FullModel rdf:about="urn:uuid:model-1">
        <md:Model.created>2026-01-02T03:04:05Z</md:Model.created>
        <md:Model.version>7</md:Model.version>
        <md:Model.DependentOn rdf:resource="urn:uuid:model-0"/>
        <md:Model.Supersedes rdf:resource="urn:uuid:older"/>
        <md:Model.empty/>
        <md:Model.custom><rdf:Description rdf:about="urn:uuid:nested"/></md:Model.custom>
      </md:FullModel>
      <cim:BaseVoltage rdf:ID="_base"/>
    </rdf:RDF>"#;
    let document = parse_cimxml(source).unwrap();
    let header = document.header.unwrap();
    assert_eq!(header.identity.as_deref(), Some("model-1"));
    assert_eq!(header.created.as_deref(), Some("2026-01-02T03:04:05Z"));
    assert_eq!(header.version.as_deref(), Some("7"));
    assert_eq!(header.dependent_on, ["model-0"]);
    assert_eq!(
        header.unmapped_properties,
        [
            ("md:Model.Supersedes".into(), PropValue::Ref("older".into())),
            ("md:Model.empty".into(), PropValue::Text(String::new()))
        ]
    );
    assert_eq!(header.nested_properties, ["md:Model.custom"]);
}

#[test]
fn rejects_one_document_that_mixes_cim16_and_cim100() {
    let source = r#"<rdf:RDF
        xmlns:rdf="http://www.w3.org/1999/02/22-rdf-syntax-ns#"
        xmlns:cim16="http://iec.ch/TC57/2013/CIM-schema-cim16#"
        xmlns:cim100="http://iec.ch/TC57/CIM100#">
      <cim16:BaseVoltage rdf:ID="_base"/>
      <cim100:TopologicalNode rdf:ID="_node"/>
    </rdf:RDF>"#;
    let message = parse_cimxml(source).unwrap_err();
    assert!(message.contains("mixes CIM16 and CIM100 namespaces"));
    assert!(message.contains("CIM-schema-cim16"));
    assert!(message.contains("CIM100"));
}

#[test]
fn recognizes_rdf_attributes_by_namespace_not_suffix() {
    let text = r##"<root:RDF
        xmlns:root="http://www.w3.org/1999/02/22-rdf-syntax-ns#"
        xmlns:alt="http://www.w3.org/1999/02/22-rdf-syntax-ns#"
        xmlns:cim="http://iec.ch/TC57/CIM100#"
        xmlns:vendor="https://vendor.example/schema#">
      <cim:TopologicalNode alt:ID="_real">
        <cim:TopologicalNode.BaseVoltage alt:resource="#_base"/>
      </cim:TopologicalNode>
      <cim:BaseVoltage alt:about="#_base">
        <cim:BaseVoltage.nominalVoltage>110</cim:BaseVoltage.nominalVoltage>
      </cim:BaseVoltage>
      <cim:EnergyConsumer vendor:ID="_false-id">
        <cim:EnergyConsumer.p>1</cim:EnergyConsumer.p>
      </cim:EnergyConsumer>
      <cim:Terminal alt:about="#_terminal">
        <cim:Terminal.ConductingEquipment vendor:resource="#_false-reference"/>
      </cim:Terminal>
    </root:RDF>"##;

    let doc = parse_cimxml(text).unwrap();
    assert_eq!(doc.objects[0].id, "real");
    assert!(doc.objects[0].definition);
    assert_eq!(
        doc.objects[0].props,
        vec![(
            "TopologicalNode.BaseVoltage".into(),
            PropValue::Ref("base".into())
        )]
    );
    assert_eq!(doc.objects[1].id, "base");
    assert!(!doc.objects[1].definition);
    assert!(doc.objects[2].id.is_empty());
    assert_eq!(
        doc.objects[3].props,
        vec![(
            "Terminal.ConductingEquipment".into(),
            PropValue::Text(String::new())
        )]
    );
}

#[test]
fn a_document_type_declaration_is_refused() {
    let text = "<!DOCTYPE rdf:RDF><rdf:RDF xmlns:rdf=\"http://www.w3.org/1999/02/22-rdf-syntax-ns#\"/>";
    assert_eq!(parse_cimxml(text).unwrap_err(), "CGMES XML must not contain a DTD");
}

#[test]
fn an_undeclared_entity_inside_a_property_is_refused() {
    let text = r#"<rdf:RDF xmlns:rdf="http://www.w3.org/1999/02/22-rdf-syntax-ns#"
        xmlns:cim="http://iec.ch/TC57/CIM100#">
      <cim:Bay rdf:ID="_b"><cim:IdentifiedObject.name>a &nbsp; b</cim:IdentifiedObject.name></cim:Bay>
    </rdf:RDF>"#;
    assert_eq!(
        parse_cimxml(text).unwrap_err(),
        "CGMES XML contains an undeclared or external entity reference"
    );
}

#[test]
fn character_references_and_vendor_prefixes_are_read() {
    let text = r#"<rdf:RDF xmlns:rdf="http://www.w3.org/1999/02/22-rdf-syntax-ns#"
        xmlns:cim="http://iec.ch/TC57/CIM100#" xmlns:v="https://vendor.example/schema/">
      <cim:Bay rdf:ID="_b"><v:Bay.tag>&#65;&#x42;&lt;</v:Bay.tag></cim:Bay>
    </rdf:RDF>"#;
    let doc = parse_cimxml(text).unwrap();
    assert_eq!(doc.cim_namespaces, vec!["http://iec.ch/TC57/CIM100#".to_string()]);
    assert_eq!(doc.objects[0].props, vec![("schema:Bay.tag".into(), PropValue::Text("AB<".into()))]);
}

#[test]
fn the_top_level_element_is_named_in_the_error() {
    assert_eq!(
        parse_cimxml("<html><body/></html>").unwrap_err(),
        "top level element is `html`, not rdf:RDF"
    );
}

const RDF_HEAD: &str = r#"<rdf:RDF xmlns:rdf="http://www.w3.org/1999/02/22-rdf-syntax-ns#" xmlns:cim="http://iec.ch/TC57/CIM100#" xmlns:md="http://iec.ch/TC57/61970-552/ModelDescription/1#">"#;

fn file(name: &str, body: &str) -> (String, String) {
    (name.to_string(), format!("{RDF_HEAD}{body}</rdf:RDF>"))
}

#[test]
fn a_consistent_file_set_passes_the_graph_check() {
    let files = vec![
        file("EQ", r##"<md:FullModel rdf:about="urn:uuid:m1"/><cim:Bay rdf:ID="_a"/>"##),
        file(
            "SV",
            r##"<md:FullModel rdf:about="urn:uuid:m2"><md:Model.DependentOn rdf:resource="urn:uuid:m1"/></md:FullModel><cim:SvStatus rdf:ID="_s"><cim:SvStatus.ConductingEquipment rdf:resource="#_a"/></cim:SvStatus><cim:Bay rdf:about="#_a"/>"##,
        ),
    ];
    assert_eq!(validate_rdf_graph(&files), Ok(()));
}

#[test]
fn dangling_references_are_named() {
    let files = vec![file("EQ", r##"<cim:Bay rdf:ID="_a"><cim:Bay.Substation rdf:resource="#_zz"/></cim:Bay>"##)];
    assert_eq!(
        validate_rdf_graph(&files),
        Err("generated CGMES file `EQ` contains a dangling rdf:resource reference to `zz`".to_string())
    );
    let files = vec![file(
        "SV",
        r##"<md:FullModel rdf:about="urn:uuid:m2"><md:Model.DependentOn rdf:resource="urn:uuid:m9"/></md:FullModel>"##,
    )];
    assert_eq!(
        validate_rdf_graph(&files),
        Err("generated CGMES file `SV` contains a dangling model dependency reference to `m9`".to_string())
    );
}

#[test]
fn repeated_and_malformed_definitions_are_refused() {
    let files = vec![file("A", r##"<cim:Bay rdf:ID="_a"/>"##), file("B", r##"<cim:Bay rdf:ID="a"/>"##)];
    assert_eq!(
        validate_rdf_graph(&files),
        Err("generated CGMES defines mRID `a` more than once: first in `A`, then in `B`".to_string())
    );
    let files = vec![file("A", r##"<md:FullModel rdf:about="m1"/>"##)];
    assert_eq!(
        validate_rdf_graph(&files),
        Err("generated CGMES FullModel in `A` has rdf:about `m1` instead of a urn:uuid identifier".to_string())
    );
    let files = vec![file("A", r##"<cim:Bay rdf:ID="_"/>"##)];
    assert_eq!(validate_rdf_graph(&files), Err("generated CGMES file `A` defines an empty mRID".to_string()));
    let files = vec![("A".to_string(), "<!DOCTYPE x><x/>".to_string())];
    assert_eq!(validate_rdf_graph(&files), Err("generated CGMES file `A` contains a DTD".to_string()));
}

#[test]
fn object_references_take_three_spellings() {
    assert_eq!(rdf_object_reference_id("#_a"), Some("a".to_string()));
    assert_eq!(rdf_object_reference_id("#a"), Some("a".to_string()));
    assert_eq!(rdf_object_reference_id("urn:uuid:a"), Some("a".to_string()));
    assert_eq!(rdf_object_reference_id("#_"), None);
    assert_eq!(rdf_object_reference_id("http://x"), None);
    let mut defs = Vec::new();
    assert_eq!(register_rdf_definition(&mut defs, "a", "EQ", "mRID"), Ok(()));
    assert_eq!(
        register_rdf_definition(&mut defs, "a", "SV", "mRID"),
        Err("generated CGMES defines mRID `a` more than once: first in `EQ`, then in `SV`".to_string())
    );
    assert_eq!(defs, vec![("a".to_string(), "EQ".to_string())]);
}

#[test]
fn a_dangling_reference_is_named_until_its_target_is_defined() {
    let r = "http://www.w3.org/1999/02/22-rdf-syntax-ns#";
    let body = |extra: &str| {
        format!(
            r##"<rdf:RDF xmlns:rdf="{r}" xmlns:cim="http://iec.ch/TC57/CIM100#"><cim:X rdf:ID="_1"><cim:X.y rdf:resource="#_2"/></cim:X>{extra}</rdf:RDF>"##
        )
    };
    let files = vec![("a.xml".to_string(), body(""))];
    let message = validate_rdf_graph(&files).unwrap_err();
    assert!(message.contains("dangling rdf:resource reference to `2`"));
    let files = vec![("a.xml".to_string(), body(r#"<cim:Y rdf:ID="_2"/>"#))];
    assert_eq!(validate_rdf_graph(&files), Ok(()));
    let files = vec![("a.xml".to_string(), body(r#"<cim:Y rdf:ID="_1"/>"#))];
    assert!(validate_rdf_graph(&files).unwrap_err().contains("more than once"));
}
