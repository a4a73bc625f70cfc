use powerio_tx::dgs::balanced::{energy_source, reports_when_unmapped};
use powerio_tx::dgs::route::{route, route_text, DgsRoute};
use powerio_tx::dgs::tokens::DgsDocument;
use powerio_tx::dgs::values::RefKey;
use powerio_tx::dgs::{encrypted_project_message, is_project_name, looks_like_dgs, summarize_markers};
use powerio_tx::network::GeneratorEnergySource;

const HEADER: &str = "$$General;ID(a:40);Descr(a:40);Val(a:40)\n1;Version;5.0\n";

fn nums(texts: &[String]) -> Vec<f64> {
    texts.iter().map(|t| t.parse::<f64>().unwrap()).collect()
}

#[test]
fn detection_reads_the_first_table_header() {
    assert!(looks_like_dgs(b"$$General;ID(a:40);Descr(a:40);Val(a:40)\n1;Version;5.0\n"));
    assert!(looks_like_dgs(b"* exported\n\n$$ElmNet;ID(a:40);loc_name(a:40)\n2;Net\n"));
    assert!(!looks_like_dgs(b"function mpc = case9\n"));
    assert!(!looks_like_dgs(b"{\"bus\": {}}"));
}

#[test]
fn project_names_are_recognized() {
    assert!(is_project_name("pfd"));
    assert!(is_project_name("PowerFactory-PFD"));
    assert!(!is_project_name("dgs"));
}

#[test]
fn energy_sources_follow_the_category_text() {
    assert_eq!(energy_source(Some("Hydro")), GeneratorEnergySource::Hydro);
    assert_eq!(energy_source(Some("Gas")), GeneratorEnergySource::Thermal);
    assert_eq!(energy_source(Some("Others")), GeneratorEnergySource::Other);
    assert_eq!(energy_source(None), GeneratorEnergySource::Other);
}

#[test]
fn the_project_message_names_the_file_and_the_export() {
    let m = encrypted_project_message("grid.pfd");
    assert!(m.starts_with("grid.pfd is a DIgSILENT PowerFactory .pfd project file"));
    assert!(m.ends_with("and read the .dgs file"));
}

#[test]
fn markers_beyond_three_are_counted() {
    let ms: Vec<String> = ["a", "b", "c", "d", "e"].iter().map(|s| s.to_string()).collect();
    assert_eq!(summarize_markers(&ms), "a; b; c; and 2 more");
    assert_eq!(summarize_markers(&ms[..2]), "a; b");
    assert_eq!(summarize_markers(&[]), "");
}

#[test]
fn scalars_vectors_and_matrices_follow_the_header_layout() {
    let text = format!(
        "{HEADER}\
$$ElmLne;ID(a:40);loc_name(a:40);fold_id(p);GPScoords:SIZEROW(i);GPScoords:SIZECOL(i);GPScoords:0:0(r);GPScoords:0:1(r);GPScoords:1:0(r);GPScoords:1:1(r);nlnum(i);inAir(i)
  25;\"Line;A\";2;2;2;45.0;9.0;45.1;9.1;3;0
  26;Line_B;2;0;0;;;;;1;0
$$ElmTow;ID(a:40);loc_name(a:40);plines:SIZEROW(i);plines:0(p);plines:1(p);dpolar:SIZEROW(i);dpolar:0(r);dpolar:1(r)
  12;tow;2;25;26;2;0;0,5
"
    );
    let document = DgsDocument::parse(&text).unwrap();
    let line = document.by_id(25).unwrap();
    assert_eq!(document.class(line), "ElmLne");
    assert_eq!(document.str_value(line, "loc_name"), Some("Line;A"));
    assert!(matches!(document.reference(line, "fold_id"), Some(RefKey::Id(2))));
    let (rows, cols, data) = document.matrix(line, "GPScoords").unwrap();
    assert_eq!((rows, cols), (2, 2));
    assert_eq!(nums(data), vec![45.0, 9.0, 45.1, 9.1]);
    assert_eq!(document.int_value(line, "nlnum"), Some(3));
    let other = document.by_id(26).unwrap();
    assert!(document.matrix(other, "GPScoords").is_none());
    assert_eq!(document.int_value(other, "nlnum"), Some(1));
    let tower = document.by_id(12).unwrap();
    let plines = document.ref_vec(tower, "plines").unwrap();
    assert!(matches!(plines.as_slice(), [RefKey::Id(25), RefKey::Id(26)]));
    assert_eq!(nums(document.real_vec(tower, "dpolar").unwrap()), vec![0.0, 0.5]);
    assert_eq!(document.of_class("ElmLne").len(), 2);
    assert_eq!(document.version(), Some("5.0"));
}

#[test]
fn decimal_commas_are_accepted_after_the_first_failure() {
    let text = format!("{HEADER}$$TypLne;ID(a:40);rline(r);xline(r)\n7;0,5;1,25\n");
    let document = DgsDocument::parse(&text).unwrap();
    let typ = document.by_id(7).unwrap();
    let rline = match document.get(typ, "rline") {
        Some(powerio_tx::dgs::values::DgsValue::Real(t)) => t.parse::<f64>().unwrap(),
        _ => panic!("rline is not a real"),
    };
    let xline = match document.get(typ, "xline") {
        Some(powerio_tx::dgs::values::DgsValue::Real(t)) => t.parse::<f64>().unwrap(),
        _ => panic!("xline is not a real"),
    };
    assert_eq!(rline, 0.5);
    assert_eq!(xline, 1.25);
}

#[test]
fn other_versions_and_missing_headers_are_refused() {
    let text = "$$General;ID(a:40);Descr(a:40);Val(a:40)\n1;Version;7.0\n";
    let error = DgsDocument::parse(text).err().unwrap();
    assert!(error.contains("7.0"), "{error}");
    let text = "$$ElmTerm;ID(a:40);loc_name(a:40)\n3;Bus\n";
    let error = DgsDocument::parse(text).err().unwrap();
    assert!(error.contains("version"), "{error}");
    let text = format!("{HEADER}$$ElmTerm;loc_name(a:40)\nBus\n");
    let error = DgsDocument::parse(&text).err().unwrap();
    assert!(error.contains("`ID`"), "{error}");
}

#[test]
fn bad_numbers_name_the_line() {
    let text = format!("{HEADER}$$TypLne;ID(a:40);rline(r)\n7;abc\n");
    let error = DgsDocument::parse(&text).err().unwrap();
    assert!(error.contains("line 4"), "{error}");
    assert!(error.contains("TypLne.rline"), "{error}");
}

#[test]
fn rows_record_their_byte_spans() {
    let text = format!("{HEADER}$$ElmTerm;ID(a:40);loc_name(a:40)\n  3;Bus\n");
    let document = DgsDocument::parse(&text).unwrap();
    let bus = document.by_id(3).unwrap();
    let object = &document.objects[bus];
    assert_eq!(&text[object.byte_start..object.byte_end], "3;Bus");
    assert_eq!(object.line, 4);
}

#[test]
fn header_tables_declare_their_attribute_names() {
    let text = format!("{HEADER}$$TypLne;ID(a:40);rline(r);uline:SIZEROW(i);uline:0(r)\n7;0.5;1;2\n");
    let document = DgsDocument::parse(&text).unwrap();
    let header = &document.classes[0];
    assert_eq!(header.attribute_names(), vec!["rline".to_string(), "uline".to_string()]);
    assert!(header.declares("rline"));
    assert!(!header.declares("ID"));
    assert!(!header.declares("xline"));
}

#[test]
fn sequence_only_exports_are_balanced() {
    let text = format!(
        "{HEADER}$$ElmTerm;ID(a:40);loc_name(a:40);uknom(r);phtech(i)\n3;Bus;20;0\n\
         $$TypLne;ID(a:40);loc_name(a:40);nlnph(i);nneutral(i)\n4;Typ;3;0\n"
    );
    let document = DgsDocument::parse(&text).unwrap();
    assert!(matches!(route(&document), DgsRoute::Balanced));
}

#[test]
fn neutral_conductors_and_phase_technologies_route_multiconductor() {
    let text = format!(
        "{HEADER}$$ElmTerm;ID(a:40);loc_name(a:40);uknom(r);phtech(i)\n3;Bus;0.4;1\n\
         $$TypLne;ID(a:40);loc_name(a:40);nlnph(i);nneutral(i)\n4;Typ;3;1\n\
         $$ElmLod;ID(a:40);loc_name(a:40);i_sym(i)\n5;Load;1\n"
    );
    let document = DgsDocument::parse(&text).unwrap();
    let DgsRoute::Multiconductor(markers) = route(&document) else {
        panic!("expected the multiconductor route");
    };
    assert_eq!(markers.len(), 3, "{markers:?}");
    assert!(markers[0].contains("phtech=1"), "{markers:?}");
    assert!(markers[1].contains("nneutral=1"), "{markers:?}");
    assert!(markers[2].contains("i_sym=1"), "{markers:?}");
    assert_eq!(markers[0], "ElmTerm `Bus` (id 3): phase technology `phtech=1`");
}

#[test]
fn a_tower_with_sequence_circuit_matrices_stays_balanced() {
    let text = format!(
        "{HEADER}$$ElmTerm;ID(a:40);loc_name(a:40);uknom(r)\n3;Bus;400\n\
         $$TypTow;ID(a:40);loc_name(a:40);R_c1:SIZEROW(i);R_c1:SIZECOL(i);R_c1:0:0(r)\n\
         4;Tow;1;1;0.1\n"
    );
    let document = DgsDocument::parse(&text).unwrap();
    assert!(matches!(route(&document), DgsRoute::Balanced));
    let text = format!(
        "{HEADER}$$ElmTerm;ID(a:40);loc_name(a:40);uknom(r)\n3;Bus;400\n\
         $$TypTow;ID(a:40);loc_name(a:40);R_c:SIZEROW(i);R_c:SIZECOL(i);R_c:0:0(r)\n\
         4;Tow;1;1;0.1\n"
    );
    let document = DgsDocument::parse(&text).unwrap();
    assert!(matches!(route(&document), DgsRoute::Multiconductor(_)));
}

#[test]
fn an_export_without_terminals_is_undecided() {
    let text = format!("{HEADER}$$TypLne;ID(a:40);loc_name(a:40)\n4;Typ\n");
    let document = DgsDocument::parse(&text).unwrap();
    assert!(matches!(route(&document), DgsRoute::Undecided(_)));
}

#[test]
fn route_text_reads_and_routes_in_one_call() {
    let text = format!("{HEADER}$$ElmTerm;ID(a:40);loc_name(a:40);phtech(i)\n3;Bus;0\n");
    assert!(matches!(route_text(&text), Ok(DgsRoute::Balanced)));
    let error = route_text("$$ElmTerm;ID(a:40)\n3\n").err().unwrap();
    assert!(error.contains("version"), "{error}");
}

#[test]
fn foreign_keys_resolve_references_and_parents() {
    let text = format!(
        "{HEADER}$$ElmNet;ID(a:40);loc_name(a:40);for_name(a:50)\n2;Net;net_a\n\
         $$ElmTerm;ID(a:40);loc_name(a:40);fold_id(p)\n3;Bus;##net_a\n"
    );
    let document = DgsDocument::parse(&text).unwrap();
    let bus = document.by_id(3).unwrap();
    assert_eq!(document.parent(bus).map(|net| document.objects[net].id), Some(2));
    assert_eq!(document.children(2).len(), 1);
}

#[test]
fn children_come_in_file_order_by_id_or_foreign_key() {
    let text = format!(
        "{HEADER}$$ElmNet;ID(a:40);loc_name(a:40);for_name(a:50)\n2;Net;net_a\n\
         $$ElmTerm;ID(a:40);loc_name(a:40);fold_id(p)\n3;A;##net_a\n4;B;2\n5;C;9\n\
         $$ElmLod;ID(a:40);loc_name(a:40);fold_id(p)\n6;L;2\n"
    );
    let document = DgsDocument::parse(&text).unwrap();
    let ids: Vec<i64> = document.children(2).iter().map(|&k| document.objects[k].id).collect();
    assert_eq!(ids, vec![3, 4, 6]);
    let terms: Vec<i64> =
        document.children_of_class(2, "ElmTerm").iter().map(|&k| document.objects[k].id).collect();
    assert_eq!(terms, vec![3, 4]);
    let orphan = document.by_id(5).unwrap();
    assert_eq!(document.parent(orphan), None);
    assert_eq!(document.resolve(&RefKey::ForeignKey("net_a".to_string())), document.by_id(2));
    assert_eq!(document.resolve(&RefKey::ForeignKey(String::new())), None);
    assert_eq!(document.resolve(&RefKey::Id(6)), Some(4));
    let load = document.by_id(6).unwrap();
    assert_eq!(document.referenced(load, "fold_id"), Some(0));
    assert_eq!(document.referenced(load, "loc_name"), None);
}

#[test]
fn class_counts_follow_class_name_order() {
    let text = format!(
        "{HEADER}$$ElmTerm;ID(a:40);loc_name(a:40)\n3;A\n4;B\n\
         $$ElmLne;ID(a:40);loc_name(a:40)\n5;L\n$$TypLne;ID(a:40);rline(r)\n"
    );
    let document = DgsDocument::parse(&text).unwrap();
    assert_eq!(
        document.class_counts(),
        vec![("ElmLne".to_string(), 1), ("ElmTerm".to_string(), 2)]
    );
    let names: Vec<&str> = document.class_headers().iter().map(|h| h.class.as_str()).collect();
    assert_eq!(names, vec!["ElmTerm", "ElmLne", "TypLne"]);
    assert_eq!(document.objects().len(), 3);
}

#[test]
fn attributes_list_the_stated_values_in_header_order() {
    let text = format!("{HEADER}$$TypLne;ID(a:40);loc_name(a:40);rline(r);nlnum(i)\n7;T;;3\n");
    let document = DgsDocument::parse(&text).unwrap();
    let k = document.by_id(7).unwrap();
    let attrs = document.attributes(k);
    assert_eq!(attrs.len(), 2);
    assert_eq!(attrs[0].0, "loc_name");
    assert_eq!(attrs[1].0, "nlnum");
    assert!(document.declares(k, "rline"));
    assert!(!document.declares(k, "xline"));
}

#[test]
fn elements_and_characteristics_are_reported_when_unmapped() {
    assert!(reports_when_unmapped("ElmGenstat"));
    assert!(reports_when_unmapped("ChaTime"));
    assert!(!reports_when_unmapped("TypLne"));
    assert!(!reports_when_unmapped("elmTerm"));
}
