use powerio_tx::dgs::route::DgsRoute;
use powerio_tx::dgs::tokens::DgsDocument;
use powerio_tx::dgs::{balanced_refusal, BalancedRefusal};
use powerio_tx::dgs::attach::{
    branch_buses, bus_of_terminal, buses_of, coupler_switches, single_bus, uid, winding_buses, CouplerSwitch,
};
use powerio_tx::dgs::balanced::{assign_bus_kinds, unmapped_class_findings};
use powerio_tx::network::BusType;
use powerio_tx::dgs::dc::{classify_dc, DcIsland};
use powerio_tx::dgs::topology::{collect_connections, coupler_closed, terminal_groups, Connection};

const HEADER: &str = "$$General;ID(a:40);Descr(a:40);Val(a:40)\n1;Version;5.0\n";

fn station() -> String {
    format!(
        "{HEADER}$$ElmTerm;ID(a:40);loc_name(a:40)\n3;A\n4;B\n5;C\n6;D\n\
         $$ElmCoup;ID(a:40);loc_name(a:40);on_off(i);outserv(i)\n10;Q1;1;0\n11;Q2;0;0\n12;Q3;;0\n\
         $$StaCubic;ID(a:40);loc_name(a:40);fold_id(p);obj_id(p);obj_bus(i)\n\
         21;c2;4;10;1\n20;c1;3;10;0\n22;c3;4;11;0\n23;c4;5;11;1\n24;c5;99;10;0\n25;c6;5;;0\n\
         26;c7;5;12;0\n27;c8;6;12;1\n\
         $$StaSwitch;ID(a:40);loc_name(a:40);fold_id(p);on_off(i)\n30;s1;26;1\n"
    )
}

#[test]
fn cubicles_connect_elements_in_side_order() {
    let document = DgsDocument::parse(&station()).unwrap();
    let (conns, findings) = collect_connections(&document);
    assert_eq!(
        conns.of(&document, 10),
        vec![
            Connection { terminal: 3, side: 0, closed: true },
            Connection { terminal: 4, side: 1, closed: true },
        ]
    );
    assert_eq!(conns.of(&document, 77), vec![]);
    assert_eq!(findings.len(), 2);
    assert_eq!(
        findings[0],
        "StaCubic `c5` names no ElmTerm terminal in `fold_id`; the connection was dropped"
    );
    assert_eq!(findings[1], "1 StaCubic cubicle(s) name no element in `obj_id`");
}

#[test]
fn a_coupler_without_a_position_is_read_as_closed() {
    let document = DgsDocument::parse(&station()).unwrap();
    let (conns, _) = collect_connections(&document);
    let q1 = document.by_id(10).unwrap();
    assert_eq!(coupler_closed(&document, &conns, q1), (true, None));
    let q2 = document.by_id(11).unwrap();
    assert_eq!(coupler_closed(&document, &conns, q2), (false, None));
    let q3 = document.by_id(12).unwrap();
    let (closed, finding) = coupler_closed(&document, &conns, q3);
    assert!(closed);
    assert_eq!(finding.unwrap(), "ElmCoup `Q3` states no `on_off`; the switch is read as closed");
}

#[test]
fn closed_couplers_join_terminals_under_the_least_id() {
    let document = DgsDocument::parse(&station()).unwrap();
    let (conns, _) = collect_connections(&document);
    let (groups, findings) = terminal_groups(&document, &conns, &vec![], &vec![]).unwrap();
    let ids: Vec<(i64, Vec<i64>)> = groups
        .iter()
        .map(|(root, members)| (*root, members.iter().map(|&k| document.objects[k].id).collect()))
        .collect();
    assert_eq!(ids, vec![(3, vec![3, 4]), (5, vec![5, 6])]);
    assert_eq!(findings, vec!["ElmCoup `Q3` states no `on_off`; the switch is read as closed".to_string()]);
    // A DC terminal leaves the calculated buses; a DC coupler joins nothing.
    let (groups, findings) = terminal_groups(&document, &conns, &vec![6], &vec![10]).unwrap();
    let roots: Vec<i64> = groups.iter().map(|g| g.0).collect();
    assert_eq!(roots, vec![3, 4, 5]);
    assert_eq!(findings.len(), 1);
}

#[test]
fn buses_need_an_ac_terminal_with_a_nonnegative_id() {
    let document = DgsDocument::parse(&station()).unwrap();
    let (conns, _) = collect_connections(&document);
    let error = terminal_groups(&document, &conns, &vec![3, 4, 5, 6], &vec![]).unwrap_err();
    assert_eq!(error, "the export declares no AC ElmTerm terminal");
    let text = format!("{HEADER}$$ElmTerm;ID(a:40);loc_name(a:40)\n-2;A\n4;B\n");
    let document = DgsDocument::parse(&text).unwrap();
    let (conns, _) = collect_connections(&document);
    let error = terminal_groups(&document, &conns, &vec![], &vec![]).unwrap_err();
    assert_eq!(error, "ElmTerm id -2 is negative");
}

fn link() -> String {
    format!(
        "{HEADER}$$ElmTerm;ID(a:40);loc_name(a:40)\n8;AC1\n2;P1\n3;P2\n4;N1\n5;N2\n6;AC2\n7;Other\n\
         $$ElmVsc;ID(a:40);loc_name(a:40)\n30;V1\n31;V2\n\
         $$ElmLne;ID(a:40);loc_name(a:40)\n40;Pos\n41;Neg\n42;Ac\n\
         $$StaCubic;ID(a:40);loc_name(a:40);fold_id(p);obj_id(p);obj_bus(i)\n\
         50;a;8;30;0\n51;b;2;30;1\n52;c;4;30;2\n53;d;6;31;0\n54;e;3;31;1\n55;f;5;31;2\n\
         56;g;2;40;0\n57;h;3;40;1\n58;i;5;41;0\n59;j;4;41;1\n60;k;8;42;0\n61;l;7;42;1\n"
    )
}

#[test]
fn the_two_poles_of_a_link_form_one_island() {
    let document = DgsDocument::parse(&link()).unwrap();
    let (conns, _) = collect_connections(&document);
    let (islands, dc_terminals, dc_elements, finding) = classify_dc(&document, &conns);
    assert_eq!(
        islands,
        vec![DcIsland { terminals: vec![2, 3, 4, 5], lines: vec![40, 41], converters: vec![30, 31] }]
    );
    assert_eq!(dc_terminals, vec![2, 3, 4, 5]);
    assert_eq!(dc_elements, vec![40, 41]);
    assert_eq!(
        finding.unwrap(),
        "4 DC terminal(s) behind ElmVsc converters are represented by HVDC records rather than as buses"
    );
    // The AC side stays: the AC line joins terminals 8 and 7, which keep their own buses.
    let (groups, _) = terminal_groups(&document, &conns, &dc_terminals, &dc_elements).unwrap();
    let roots: Vec<i64> = groups.iter().map(|g| g.0).collect();
    assert_eq!(roots, vec![6, 7, 8]);
    // A DC terminal lands on no calculated bus.
    assert_eq!(bus_of_terminal(&document, &groups, 2), None);
    assert_eq!(bus_of_terminal(&document, &groups, 8), Some(8));
}

#[test]
fn an_export_without_converters_has_no_dc_island() {
    let document = DgsDocument::parse(&station()).unwrap();
    let (conns, _) = collect_connections(&document);
    let (islands, dc_terminals, dc_elements, finding) = classify_dc(&document, &conns);
    assert!(islands.is_empty() && dc_terminals.is_empty() && dc_elements.is_empty());
    assert_eq!(finding, None);
}

#[test]
fn converters_on_separate_networks_form_separate_islands() {
    let text = format!(
        "{HEADER}$$ElmTerm;ID(a:40);loc_name(a:40)\n2;P1\n3;P2\n\
         $$ElmVsc;ID(a:40);loc_name(a:40)\n30;V1\n31;V2\n\
         $$StaCubic;ID(a:40);loc_name(a:40);fold_id(p);obj_id(p);obj_bus(i)\n51;b;3;30;1\n54;e;2;31;1\n"
    );
    let document = DgsDocument::parse(&text).unwrap();
    let (conns, _) = collect_connections(&document);
    let (islands, dc_terminals, _, finding) = classify_dc(&document, &conns);
    assert_eq!(islands.len(), 2);
    assert_eq!(islands[0].terminals, vec![3]);
    assert_eq!(islands[0].converters, vec![30]);
    assert_eq!(islands[1].terminals, vec![2]);
    assert_eq!(islands[1].converters, vec![31]);
    assert_eq!(dc_terminals, vec![2, 3]);
    assert!(finding.unwrap().starts_with("2 DC terminal(s)"));
}

#[test]
fn terminals_and_elements_land_on_calculated_buses() {
    let document = DgsDocument::parse(&station()).unwrap();
    let (conns, _) = collect_connections(&document);
    let (groups, _) = terminal_groups(&document, &conns, &vec![], &vec![]).unwrap();
    assert_eq!(bus_of_terminal(&document, &groups, 4), Some(3));
    assert_eq!(bus_of_terminal(&document, &groups, 6), Some(5));
    assert_eq!(bus_of_terminal(&document, &groups, 99), None);
    assert_eq!(buses_of(&document, &conns, &groups, 11), Some(vec![(3, true), (5, true)]));
    assert_eq!(buses_of(&document, &conns, &groups, 77), Some(vec![]));
    let (switches, findings) = coupler_switches(&document, &conns, &groups, &vec![]);
    assert_eq!(
        switches,
        vec![CouplerSwitch { from: 3, to: 5, uid: "Q2".to_string(), id: 11, usage: None }]
    );
    assert!(findings.is_empty());
    // Without terminal 6 on a bus, coupler Q3 reaches no calculated bus.
    let (groups, _) = terminal_groups(&document, &conns, &vec![6], &vec![]).unwrap();
    assert_eq!(buses_of(&document, &conns, &groups, 12), None);
}

fn feeder() -> String {
    format!(
        "{HEADER}$$ElmTerm;ID(a:40);loc_name(a:40)\n3;A\n4;B\n\
         $$ElmLod;ID(a:40);loc_name(a:40)\n7;L\n9;L\n\
         $$ElmLne;ID(a:40);loc_name(a:40)\n8;Ln\n\
         $$ElmCoup;ID(a:40);loc_name(a:40);on_off(i);aUsage(a:4)\n10;Q;0;cbk\n\
         $$StaCubic;ID(a:40);loc_name(a:40);fold_id(p);obj_id(p);obj_bus(i)\n\
         20;a;3;7;0\n21;b;3;8;0\n22;c;4;8;1\n23;d;3;10;0\n24;e;4;10;1\n25;f;4;10;2\n\
         $$StaSwitch;ID(a:40);loc_name(a:40);fold_id(p);on_off(i)\n30;s;22;0\n"
    )
}

#[test]
fn one_and_two_terminal_elements_find_their_buses() {
    let document = DgsDocument::parse(&feeder()).unwrap();
    let (conns, _) = collect_connections(&document);
    let (groups, _) = terminal_groups(&document, &conns, &vec![], &vec![]).unwrap();
    let load = document.by_id(7).unwrap();
    assert_eq!(single_bus(&document, &conns, &groups, load), Ok((3, true)));
    let stray = document.by_id(9).unwrap();
    assert_eq!(
        single_bus(&document, &conns, &groups, stray),
        Err("ElmLod `L` connects to 0 terminal(s) rather than one; the element was dropped".to_string())
    );
    let line = document.by_id(8).unwrap();
    assert_eq!(
        branch_buses(&document, &conns, &groups, line),
        Ok((
            (3, 4, false),
            Some("ElmLne `Ln` is open at one end only; the balanced branch is out of service at both".to_string())
        ))
    );
    assert_eq!(
        branch_buses(&document, &conns, &groups, load),
        Err("ElmLod `L` connects to 1 terminal(s) rather than two; the element was dropped".to_string())
    );
    assert_eq!(uid(&document, load), "L#7");
    assert_eq!(uid(&document, line), "Ln");
    let (switches, findings) = coupler_switches(&document, &conns, &groups, &vec![]);
    assert!(switches.is_empty());
    assert_eq!(
        findings,
        vec!["ElmCoup `Q` connects 3 terminal(s) rather than two; the switch was dropped".to_string()]
    );
}

#[test]
fn unread_element_classes_are_reported_by_row_count() {
    let text = format!(
        "{HEADER}$$ElmTerm;ID(a:40);loc_name(a:40)\n3;A\n$$ElmFoo;ID(a:40);loc_name(a:40)\n5;X\n6;Y\n\
         $$ChaRef;ID(a:40);loc_name(a:40)\n7;C\n$$TypBar;ID(a:40);loc_name(a:40)\n8;T\n"
    );
    let document = DgsDocument::parse(&text).unwrap();
    assert_eq!(
        unmapped_class_findings(&document),
        vec![
            "1 `ChaRef` row(s) have no balanced network spelling and remain only in the retained source".to_string(),
            "2 `ElmFoo` row(s) have no balanced network spelling and remain only in the retained source".to_string(),
        ]
    );
}

#[test]
fn only_a_balanced_route_is_read_as_a_balanced_network() {
    assert_eq!(balanced_refusal(&DgsRoute::Balanced), None);
    let markers: Vec<String> = ["a", "b", "c", "d"].iter().map(|s| s.to_string()).collect();
    assert_eq!(
        balanced_refusal(&DgsRoute::Multiconductor(markers)),
        Some(BalancedRefusal::NeedsMulticonductor(
            "the DGS export carries conductor level data (a; b; c; and 1 more), which the balanced \
             transmission parser does not read; parse it through the one module family \
             (`powerio::parse` in Rust and `parse` in the language bindings), which routes it to the \
             multiconductor network"
                .to_string()
        ))
    );
    assert_eq!(
        balanced_refusal(&DgsRoute::Undecided("no terminals".to_string())),
        Some(BalancedRefusal::Undecided("no terminals".to_string()))
    );
}

#[test]
fn declared_slacks_are_references_and_regulated_buses_pv() {
    let buses = vec![1, 2, 3];
    let generators = vec![(2, true), (3, false)];
    assert_eq!(
        assign_bus_kinds(&buses, &generators, &vec![3], None),
        (vec![BusType::Pq, BusType::Pv, BusType::Ref], None)
    );
    let (kinds, finding) = assign_bus_kinds(&buses, &generators, &vec![], Some(0));
    assert_eq!(kinds, vec![BusType::Pq, BusType::Ref, BusType::Pq]);
    assert_eq!(
        finding.unwrap(),
        "no ElmSym, ElmGenstat, or ElmXnet declares the slack (`ip_ctrl=1` or `bustp=SL`); bus 2 of the \
         largest voltage regulating generator is the reference bus"
    );
    assert_eq!(
        assign_bus_kinds(&buses, &vec![(1, false)], &vec![], None),
        (vec![BusType::Pq, BusType::Pq, BusType::Pq], None)
    );
}

fn three_winding() -> String {
    format!(
        "{HEADER}$$ElmTerm;ID(a:40);loc_name(a:40)\n3;A\n4;B\n5;C\n\
         $$TypTr3;ID(a:40);loc_name(a:40)\n40;T3\n\
         $$ElmTr3;ID(a:40);loc_name(a:40);typ_id(p)\n50;T;40\n51;U;\n52;V;40\n\
         $$StaCubic;ID(a:40);loc_name(a:40);fold_id(p);obj_id(p);obj_bus(i)\n\
         20;a;3;50;0\n21;b;4;50;1\n22;c;5;50;2\n23;d;3;52;0\n24;e;4;52;1\n\
         $$StaSwitch;ID(a:40);loc_name(a:40);fold_id(p);on_off(i)\n30;s;22;0\n"
    )
}

#[test]
fn three_winding_transformers_find_their_buses_or_are_dropped() {
    let document = DgsDocument::parse(&three_winding()).unwrap();
    let (conns, _) = collect_connections(&document);
    let (groups, _) = terminal_groups(&document, &conns, &vec![], &vec![]).unwrap();
    let t = document.by_id(50).unwrap();
    assert_eq!(
        winding_buses(&document, &conns, &groups, t),
        Ok((
            (3, 4, 5, false),
            Some("ElmTr3 `T` is open at some windings only; the transformer is out of service".to_string())
        ))
    );
    let u = document.by_id(51).unwrap();
    assert_eq!(
        winding_buses(&document, &conns, &groups, u),
        Err("ElmTr3 `U` names no TypTr3 transformer type in `typ_id`; the transformer was dropped".to_string())
    );
    let v = document.by_id(52).unwrap();
    assert_eq!(
        winding_buses(&document, &conns, &groups, v),
        Err("ElmTr3 `V` connects to 2 terminal(s) rather than three; the transformer was dropped".to_string())
    );
}
