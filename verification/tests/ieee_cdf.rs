use powerio_tx::ieee_cdf::card::{declared_items, field, is_terminator, iso_date, parse_int};
use powerio_tx::ieee_cdf::case::CdfCase;
use powerio_tx::ieee_cdf::detect::looks_like_ieee_cdf;
use powerio_tx::ieee_cdf::model::{ControlMode, Finding};
use powerio_tx::ieee_cdf::parse::parse_ieee_cdf_source;
use powerio_tx::decimal::real_finite;
use powerio_tx::network::BusType;

// Records copied from the public IEEE 14 and 300 bus archive files, so the
// column layout under test is the one those files use.
const TITLE: &str = " 08/19/93 UW ARCHIVE           100.0  1962 W IEEE 14 Bus Test Case";
const BUS_1: &str = "   1 Bus 1     HV  1  1  3 1.060    0.0      0.0      0.0    232.4   -16.9     0.0  1.060     0.0     0.0   0.0    0.0        0";
const BUS_2: &str = "   2 Bus 2     HV  1  1  2 1.045  -4.98     21.7     12.7     40.0    42.4     0.0  1.045    50.0   -40.0   0.0    0.0        0";
const BUS_9: &str = "   9 Bus 9     LV  1  1  0 1.056 -14.94     29.5     16.6      0.0     0.0     0.0  0.0       0.0     0.0   0.0    0.19       0";
const LINE_1_2: &str = "   1    2  1  1 1 0  0.01938   0.05917     0.0528     0     0     0    0 0  0.0       0.0 0.0    0.0     0.0    0.0   0.0";
const TRANSFORMER_4_7: &str = "   4    7  1  1 1 0  0.0       0.20912     0.0        0     0     0    0 0  0.978     0.0 0.0    0.0     0.0    0.0   0.0";
const TRANSFORMER_5_6: &str = "   5    6  1  1 1 0  0.0       0.25202     0.0        0     0     0    0 0  0.932     0.0 0.0    0.0     0.0    0.0   0.0";
const LTC_9001_9006: &str = "9001 9006  1  9 1 2  0.024390  0.436820   0.00000     0     0     0 9006 0  0.9668    0.00 0.9391 1.1478 .00417  0.9900 1.0100     3";
const INTERCHANGE: &str = " 1    2 Bus 2     HV    0.0  999.99  IEEE14  IEEE 14 Bus Test Case";

fn two_bus() -> String {
    let bus_2 = BUS_9.replace("   9 Bus 9     LV", "   2 Bus 2     HV");
    format!(
        "{TITLE}\n\
         BUS DATA FOLLOWS                             2 ITEMS\n\
         {BUS_1}\n{bus_2}\n-999\n\
         BRANCH DATA FOLLOWS                          1 ITEMS\n\
         {LINE_1_2}\n-999\n\
         LOSS ZONES FOLLOWS                     1 ITEMS\n  1 IEEE 14 BUS\n-99\n\
         INTERCHANGE DATA FOLLOWS                 1 ITEMS\n{INTERCHANGE}\n-9\n\
         TIE LINES FOLLOWS                     0 ITEMS\n-999\n\
         END OF DATA\n"
    )
}

/// A read as a program would run it: spans measured from the start of the
/// text.
struct Parsed {
    result: Result<CdfCase, String>,
    findings: Vec<Finding>,
}

fn parse_str(text: &str) -> Parsed {
    let mut findings = Vec::new();
    let result = parse_ieee_cdf_source(text, None, Some(0), &mut findings);
    Parsed { result, findings }
}

fn ok(parsed: &Parsed) -> &CdfCase {
    match &parsed.result {
        Ok(case) => case,
        Err(e) => panic!("read failed: {e}"),
    }
}

fn err(parsed: &Parsed) -> &str {
    match &parsed.result {
        Ok(_) => panic!("read succeeded"),
        Err(e) => e.as_str(),
    }
}

fn codes_of(parsed: &Parsed) -> Vec<&'static str> {
    parsed.findings.iter().map(|f| f.code.code()).collect()
}

fn messages(parsed: &Parsed, code: &str) -> Vec<String> {
    parsed
        .findings
        .iter()
        .filter(|f| f.code.code() == code)
        .map(|f| f.message.clone())
        .collect()
}

fn num(text: &str) -> f64 {
    text.parse::<f64>().unwrap()
}

fn chars(s: &str) -> Vec<char> {
    s.chars().collect()
}

fn text_of(v: Option<Vec<char>>) -> Option<String> {
    v.map(|c| c.into_iter().collect())
}

#[test]
fn the_title_card_and_the_bus_header_are_both_signatures() {
    assert!(looks_like_ieee_cdf(two_bus().as_bytes()));
    assert!(looks_like_ieee_cdf(
        b"                               100.0\nBUS DATA FOLLOWS\n"
    ));
    assert!(!looks_like_ieee_cdf(b"function mpc = case9\n"));
    assert!(!looks_like_ieee_cdf(b"0, 100.0, 33, 0, 0, 60.0\n"));
    assert!(!looks_like_ieee_cdf(b""));
}

#[test]
fn reads_the_two_bus_case() {
    let parsed = parse_str(&two_bus());
    let net = ok(&parsed);
    assert_eq!(num(&net.base_mva), 100.0);
    assert_eq!(net.case_date.as_deref(), Some("1993-08-19"));
    assert_eq!(net.buses.len(), 2);
    assert_eq!(net.buses[0].kind, BusType::Ref);
    assert_eq!(net.buses[0].name.as_deref(), Some("Bus 1     HV"));
    assert_eq!((num(&net.buses[0].vm), num(&net.buses[0].va)), (1.06, 0.0));
    assert_eq!(net.buses[1].kind, BusType::Pq);
    assert_eq!((num(&net.buses[1].vm), num(&net.buses[1].va)), (1.056, -14.94));
    assert_eq!((net.buses[1].area, net.buses[1].zone), (1, 1));
    assert_eq!(net.loads.len(), 1);
    assert_eq!(net.loads[0].bus, 2);
    assert_eq!((num(&net.loads[0].p), num(&net.loads[0].q)), (29.5, 16.6));
    assert_eq!(net.shunts.len(), 1);
    assert_eq!(net.shunts[0].bus, 2);
    // The shunt is stated in per unit: its MVAr is b times the MVA base.
    assert_eq!(
        (num(&net.shunts[0].g) * num(&net.base_mva), num(&net.shunts[0].b) * num(&net.base_mva)),
        (0.0, 19.0)
    );
    assert_eq!(net.generators.len(), 1);
    let generator = &net.generators[0];
    assert_eq!(generator.bus, 1);
    assert_eq!((num(&generator.pg), num(&generator.qg)), (232.4, -16.9));
    assert_eq!(num(&generator.vg), 1.06);
    assert_eq!((num(&generator.qmax), num(&generator.qmin)), (0.0, 0.0));
    assert_eq!((num(&generator.pmin), num(&generator.pmax)), (0.0, 9999.0));
    assert_eq!(num(&generator.mbase), 100.0);
    assert!(generator.voltage_regulation_on);
    assert_eq!(generator.regulated_bus, None);
    assert_eq!(net.branches.len(), 1);
    let branch = &net.branches[0];
    assert_eq!((branch.from, branch.to), (1, 2));
    assert_eq!((num(&branch.r), num(&branch.x), num(&branch.b)), (0.01938, 0.05917, 0.0528));
    assert_eq!((num(&branch.tap), num(&branch.shift)), (0.0, 0.0));
    assert!(branch.control.is_none());
    assert!(branch.circuit.is_none());
    assert_eq!(net.areas.len(), 1);
    let area = &net.areas[0];
    assert_eq!(area.number, 1);
    assert_eq!(area.slack_bus, Some(2));
    assert_eq!((num(&area.net_interchange), num(&area.tolerance)), (0.0, 999.99));
    assert_eq!(area.name.as_deref(), Some("IEEE 14 Bus Test Case"));

    let codes = codes_of(&parsed);
    assert!(codes.contains(&"READ.IEEE_CDF.VALUE_DEFAULTED"), "{codes:?}");
    assert!(codes.contains(&"READ.IEEE_CDF.RETAINED_SOURCE_ONLY"), "{codes:?}");
    assert!(!codes.contains(&"READ.IEEE_CDF.SOURCE_MALFORMED"), "{codes:?}");
    assert!(!codes.contains(&"READ.IEEE_CDF.RECORD_TRUNCATED"), "{codes:?}");
}

#[test]
fn the_name_hint_wins_over_the_case_identification() {
    let parsed = parse_str(&two_bus());
    assert_eq!(ok(&parsed).name, "IEEE 14 Bus Test Case");
    let mut findings = Vec::new();
    let net = parse_ieee_cdf_source(&two_bus(), Some("ieee14cdf"), None, &mut findings).unwrap();
    assert_eq!(net.name, "ieee14cdf");
}

#[test]
fn a_truncated_bus_record_is_reported_with_its_span() {
    let case = two_bus();
    let full = BUS_9.replace("   9 Bus 9     LV", "   2 Bus 2     HV");
    let short = &full[..48];
    let cut = case.replace(&full, short);
    let parsed = parse_str(&cut);
    let truncated: Vec<&Finding> = parsed
        .findings
        .iter()
        .filter(|f| f.code.code() == "READ.IEEE_CDF.RECORD_TRUNCATED")
        .collect();
    // Load MVAr, generation MW and MVAr, and both shunt columns are gone;
    // the optional base kV, desired voltage, and limit columns are not
    // reported.
    assert_eq!(truncated.len(), 5);
    let line_start = cut.find(short).unwrap() as u64;
    let line_end = line_start + short.len() as u64;
    for finding in &truncated {
        assert!(finding.message.starts_with("line 4: "), "{}", finding.message);
        assert_eq!(finding.span, Some((line_start, line_end)));
    }
    let net = ok(&parsed);
    assert_eq!((num(&net.loads[0].p), num(&net.loads[0].q)), (29.5, 0.0));
    assert!(net.shunts.is_empty());
}

#[test]
fn a_record_without_a_bus_number_fails_with_a_spanned_finding() {
    let broken = two_bus().replace("   2 Bus 2", "     Bus 2");
    let parsed = parse_str(&broken);
    let error = err(&parsed);
    assert!(error.contains("line 4"), "{error}");
    let malformed: Vec<&Finding> = parsed
        .findings
        .iter()
        .filter(|f| f.code.code() == "PARSE.IEEE_CDF.MALFORMED")
        .collect();
    assert_eq!(malformed.len(), 1);
    assert!(malformed[0].span.is_some());
    assert!(malformed[0].code.is_error());
}

#[test]
fn a_non_numeric_field_fails() {
    let broken = two_bus().replace("0.01938", "0.0193x");
    let parsed = parse_str(&broken);
    let error = err(&parsed);
    assert!(error.contains("resistance"), "{error}");
    assert!(error.contains("line 7"), "{error}");
}

#[test]
fn a_duplicate_bus_and_an_undeclared_endpoint_fail() {
    let duplicate = two_bus().replace("   2 Bus 2", "   1 Bus 2");
    let parsed = parse_str(&duplicate);
    let error = err(&parsed);
    assert!(error.contains("declared twice"), "{error}");

    let dangling = two_bus().replace("   1    2  1  1 1 0", "   1    3  1  1 1 0");
    let parsed = parse_str(&dangling);
    let error = err(&parsed);
    assert!(error.contains("undeclared bus 3"), "{error}");
    assert!(parsed.findings.last().unwrap().span.is_some());
}

#[test]
fn a_title_card_without_a_base_fails() {
    let no_base = two_bus().replacen("100.0", "     ", 1);
    let parsed = parse_str(&no_base);
    let error = err(&parsed);
    assert!(error.contains("MVA base"), "{error}");
    assert!(parsed
        .findings
        .iter()
        .any(|f| f.code.code() == "PARSE.IEEE_CDF.MALFORMED" && f.span.is_some()));

    let parsed = parse_str("");
    let error = err(&parsed);
    assert!(error.contains("title card"), "{error}");
}

#[test]
fn a_type_one_bus_holds_its_reactive_generation_within_voltage_limits() {
    // Type 1, no desired voltage, and the limit columns as a voltage band.
    let held = BUS_2
        .replace("  1  1  2 1.045", "  1  1  1 1.045")
        .replace("  1.045    50.0   -40.0", "  0.0      1.05    0.95");
    let case = two_bus().replace(&BUS_9.replace("   9 Bus 9     LV", "   2 Bus 2     HV"), &held);
    let parsed = parse_str(&case);
    let net = ok(&parsed);
    let bus = &net.buses[1];
    assert_eq!(bus.kind, BusType::Pq);
    let (vmax, vmin) = bus.voltage_limits.as_ref().unwrap();
    assert_eq!((num(vmax), num(vmin)), (1.05, 0.95));
    let generator = &net.generators[1];
    assert_eq!(generator.bus, 2);
    assert_eq!((num(&generator.pg), num(&generator.qg)), (40.0, 42.4));
    assert_eq!((num(&generator.qmax), num(&generator.qmin)), (42.4, 42.4));
    assert!(!generator.voltage_regulation_on);
    assert_eq!(num(&generator.vg), 1.045);
    // One bus took the model's voltage limits, the other stated its own.
    let defaulted = messages(&parsed, "READ.IEEE_CDF.VALUE_DEFAULTED");
    assert!(
        defaulted.iter().any(|m| m.starts_with("1 bus(es) state no voltage limits")),
        "{defaulted:?}"
    );
}

#[test]
fn an_unregulated_bus_with_output_keeps_a_fixed_generator() {
    let injecting = BUS_2.replace("  1  1  2 1.045", "  1  1  0 1.045");
    let case = two_bus().replace(&BUS_9.replace("   9 Bus 9     LV", "   2 Bus 2     HV"), &injecting);
    let parsed = parse_str(&case);
    let net = ok(&parsed);
    assert_eq!(net.buses[1].kind, BusType::Pq);
    // The model's 1.1 and 0.9 p.u. apply.
    assert!(net.buses[1].voltage_limits.is_none());
    let generator = &net.generators[1];
    assert_eq!((num(&generator.pg), num(&generator.qg)), (40.0, 42.4));
    assert!(!generator.voltage_regulation_on);
    let retained = messages(&parsed, "READ.IEEE_CDF.RETAINED_SOURCE_ONLY");
    assert!(
        retained.iter().any(|m| m.starts_with("1 unregulated (type 0) bus(es)")),
        "{retained:?}"
    );
}

#[test]
fn typed_transformers_carry_taps_and_control_blocks() {
    let bus_3 = BUS_9.replace("   9 Bus 9     LV", "   3 Bus 3     HV");
    let bus_2 = BUS_9.replace("   9 Bus 9     LV", "   2 Bus 2     HV");
    let fixed = TRANSFORMER_4_7
        .replace("   4    7", "   1    2")
        .replace("1 0  0.0       0.20912", "1 1  0.0       0.20912");
    let voltage = LTC_9001_9006
        .replace("9001 9006", "   1    3")
        .replace(" 9006 0 ", "    3 0 ")
        .replace("  1  9 1 2", "  1  9 2 2");
    let shifter = TRANSFORMER_5_6
        .replace("   5    6", "   2    3")
        .replace("1 0  0.0       0.25202", "1 4  0.0       0.25202")
        .replace("    0 0  0.932     0.0 0.0", "    0 2  1.0      -3.5 0.0");
    let reactive = TRANSFORMER_5_6
        .replace("   5    6", "   2    3")
        .replace("1 0  0.0       0.25202", "1 3  0.0       0.25202")
        .replace("    0 0  0.932", "    0 1  0.0  ");
    let case = format!(
        "{TITLE}\nBUS DATA FOLLOWS 3 ITEMS\n{BUS_1}\n{bus_2}\n{bus_3}\n-999\n\
         BRANCH DATA FOLLOWS 4 ITEMS\n{fixed}\n{voltage}\n{shifter}\n{reactive}\n-999\n\
         END OF DATA\n"
    );
    let parsed = parse_str(&case);
    let branches = &ok(&parsed).branches;
    assert_eq!(branches.len(), 4);

    let fixed = &branches[0];
    assert_eq!(num(&fixed.tap), 0.978);
    assert!(fixed.control.is_none());
    assert!(fixed.circuit.is_none());

    let voltage = &branches[1];
    assert_eq!((num(&voltage.r), num(&voltage.x)), (0.02439, 0.43682));
    assert_eq!(num(&voltage.tap), 0.9668);
    assert_eq!(voltage.circuit, Some(2));
    let control = voltage.control.as_ref().unwrap();
    assert_eq!(control.mode, ControlMode::Voltage);
    assert!(control.enabled);
    assert_eq!(control.controlled_bus, Some(3));
    let (tap_min, tap_max) = control.tap_limits.as_ref().unwrap();
    assert_eq!((num(tap_min), num(tap_max)), (0.9391, 1.1478));
    let (band_min, band_max) = &control.band;
    assert_eq!((num(band_min), num(band_max)), (0.99, 1.01));
    // round((1.1478 - 0.9391) / 0.00417) + 1 tap positions.
    let step = num(control.step.as_ref().unwrap());
    assert_eq!(((num(tap_max) - num(tap_min)) / step).round() as u32 + 1, 51);
    assert_eq!(control.ntp, None);
    assert_eq!(num(&control.mva_base), 100.0);

    let shifter = &branches[2];
    assert_eq!((num(&shifter.tap), num(&shifter.shift)), (1.0, -3.5));
    let control = shifter.control.as_ref().unwrap();
    assert_eq!(control.mode, ControlMode::ActiveFlow);
    assert_eq!(control.controlled_bus, Some(3));
    let (tap_min, tap_max) = control.tap_limits.as_ref().unwrap();
    assert_eq!((num(tap_min), num(tap_max)), (-180.0, 180.0));
    let (band_min, band_max) = &control.band;
    assert_eq!((num(band_min), num(band_max)), (0.9, 1.1));
    assert!(control.step.is_none());
    assert_eq!(control.ntp, Some(33));

    let reactive = &branches[3];
    assert_eq!(num(&reactive.tap), 1.0);
    let control = reactive.control.as_ref().unwrap();
    assert_eq!(control.mode, ControlMode::ReactiveFlow);
    assert_eq!(control.controlled_bus, Some(2));

    let defaulted = messages(&parsed, "READ.IEEE_CDF.VALUE_DEFAULTED");
    assert!(
        defaulted
            .iter()
            .any(|m| m.starts_with("1 transformer(s) of type 1 through 4 state no turns ratio")),
        "{defaulted:?}"
    );
    assert!(
        defaulted
            .iter()
            .any(|m| m.starts_with("2 regulating transformer(s) state no tap limits")),
        "{defaulted:?}"
    );
}

#[test]
fn the_narrow_limit_layout_reads_like_the_wide_one() {
    // The archive files end a branch record with the two limits one column
    // to the left of the documented layout.
    let narrow = LINE_1_2
        .replace("1 0  0.01938", "1 2  0.01938")
        .replace("    0.0   0.0", "    0.9   1.1");
    let wide = format!("{}{}", &narrow[..112], "    0.9    1.1");
    for (label, record) in [("narrow", narrow), ("wide", wide)] {
        let case = two_bus().replace(LINE_1_2, &record);
        let parsed = parse_str(&case);
        let control = ok(&parsed).branches[0].control.as_ref().unwrap();
        let (band_min, band_max) = &control.band;
        assert_eq!((num(band_min), num(band_max)), (0.9, 1.1), "{label}");
    }
}

#[test]
fn a_misplaced_record_and_a_wrong_terminator_are_reported_and_skipped() {
    let quirk = two_bus().replace(&format!("{INTERCHANGE}\n-9\n"), &format!("-9\n{INTERCHANGE}\n"));
    let parsed = parse_str(&quirk);
    assert!(ok(&parsed).areas.is_empty());
    let malformed = messages(&parsed, "READ.IEEE_CDF.SOURCE_MALFORMED");
    assert_eq!(malformed.len(), 2, "{malformed:?}");
    assert!(
        malformed[0].contains("interchange data header declares 1 item(s); 0 record(s)"),
        "{malformed:?}"
    );
    assert!(malformed[1].contains("record outside a section"), "{malformed:?}");

    let wrong = two_bus().replacen("-99\n", "-999\n", 1);
    let parsed = parse_str(&wrong);
    let malformed = messages(&parsed, "READ.IEEE_CDF.SOURCE_MALFORMED");
    assert!(
        malformed
            .iter()
            .any(|m| m.contains("loss zone section ends with `-999` rather than `-99`")),
        "{malformed:?}"
    );
}

#[test]
fn an_unterminated_section_and_trailing_text_are_reported() {
    let case = two_bus();
    let cut = case.split("-999\nLOSS ZONES").next().unwrap();
    let parsed = parse_str(cut);
    assert_eq!(ok(&parsed).branches.len(), 1);
    let malformed = messages(&parsed, "READ.IEEE_CDF.SOURCE_MALFORMED");
    assert!(
        malformed
            .iter()
            .any(|m| m.contains("branch data section is not closed by `-999`")),
        "{malformed:?}"
    );

    let trailing = format!("{case}stray text\n");
    let parsed = parse_str(&trailing);
    let malformed = messages(&parsed, "READ.IEEE_CDF.SOURCE_MALFORMED");
    assert!(
        malformed.iter().any(|m| m.contains("text after END OF DATA")),
        "{malformed:?}"
    );
}

#[test]
fn undeclared_references_are_dropped_with_a_finding() {
    let remote = two_bus()
        .replace(BUS_1, &format!("{}9", &BUS_1[..BUS_1.len() - 1]))
        .replace(INTERCHANGE, &INTERCHANGE.replace(" 1    2 Bus 2", " 1    7 Bus 2"));
    let parsed = parse_str(&remote);
    let net = ok(&parsed);
    assert_eq!(net.generators[0].regulated_bus, None);
    assert_eq!(net.areas[0].slack_bus, None);
    let malformed = messages(&parsed, "READ.IEEE_CDF.SOURCE_MALFORMED");
    assert!(
        malformed
            .iter()
            .any(|m| m.contains("remote controlled bus 9 is not declared")),
        "{malformed:?}"
    );
    assert!(
        malformed
            .iter()
            .any(|m| m.contains("interchange slack bus 7 of area 1 is not declared")),
        "{malformed:?}"
    );

    let declared = two_bus().replace(BUS_1, &format!("{}2", &BUS_1[..BUS_1.len() - 1]));
    let parsed = parse_str(&declared);
    assert_eq!(ok(&parsed).generators[0].regulated_bus, Some(2));
}

#[test]
fn tie_lines_and_loss_zone_names_are_counted() {
    let tie = two_bus().replace(
        "TIE LINES FOLLOWS                     0 ITEMS\n",
        "TIE LINES FOLLOWS                     1 ITEMS\n   1  1     2  1   1\n",
    );
    let parsed = parse_str(&tie);
    let retained = messages(&parsed, "READ.IEEE_CDF.RETAINED_SOURCE_ONLY");
    assert!(
        retained.iter().any(|m| m.starts_with("1 tie line record(s)")),
        "{retained:?}"
    );
    assert!(
        retained.iter().any(|m| m.starts_with("1 loss zone name(s)")),
        "{retained:?}"
    );
    assert!(
        retained
            .iter()
            .any(|m| m.contains("title card originator `UW ARCHIVE`, year `1962`, season `W`")),
        "{retained:?}"
    );
}

#[test]
fn a_zero_impedance_branch_is_kept_and_reported() {
    let zero = two_bus().replace("0.01938   0.05917", "0.0       0.0    ");
    let parsed = parse_str(&zero);
    assert_eq!(ok(&parsed).branches.len(), 1);
    let malformed = messages(&parsed, "READ.IEEE_CDF.SOURCE_MALFORMED");
    assert!(
        malformed.iter().any(|m| m.contains("zero series impedance")),
        "{malformed:?}"
    );
}

#[test]
fn codes_outside_the_documented_sets_are_substituted() {
    let odd = two_bus()
        .replace("  1  1  3 1.060", "  1  1  7 1.060")
        .replace("1 0  0.01938", "1 9  0.01938");
    let parsed = parse_str(&odd);
    let net = ok(&parsed);
    assert_eq!(net.buses[0].kind, BusType::Pq);
    assert!(net.branches[0].control.is_none());
    assert_eq!(num(&net.branches[0].tap), 0.0);
    let substituted = messages(&parsed, "READ.IEEE_CDF.VALUE_SUBSTITUTED");
    assert_eq!(substituted.len(), 2, "{substituted:?}");
    assert!(substituted[0].contains("bus 1 type 7"), "{substituted:?}");
    assert!(substituted[1].contains("branch 1-2 type 9"), "{substituted:?}");
}

#[test]
fn dates_pivot_at_1970_and_blank_dates_are_none() {
    assert_eq!(text_of(iso_date(&chars("08/19/93"))).as_deref(), Some("1993-08-19"));
    assert_eq!(text_of(iso_date(&chars("04/26/09"))).as_deref(), Some("2009-04-26"));
    assert_eq!(iso_date(&chars("0 /0 /0 ")), None);
    assert_eq!(iso_date(&chars("13/01/93")), None);
    let undated = two_bus().replacen("08/19/93", "0 /0 /0 ", 1);
    let parsed = parse_str(&undated);
    assert_eq!(ok(&parsed).case_date, None);
    assert!(messages(&parsed, "READ.IEEE_CDF.SOURCE_MALFORMED").is_empty());
}

#[test]
fn card_helpers_read_fields_and_terminators() {
    assert!(is_terminator(&chars("-999")));
    assert!(is_terminator(&chars("-9")));
    assert!(!is_terminator(&chars("-")));
    assert!(!is_terminator(&chars("1")));
    assert_eq!(declared_items(&chars("BUS DATA FOLLOWS   14 ITEMS")), Some(14));
    assert_eq!(declared_items(&chars("BUS DATA FOLLOWS")), None);
    assert_eq!(parse_int(&chars("1.")), Some(1));
    assert_eq!(parse_int(&chars("+3")), Some(3));
    assert_eq!(parse_int(&chars("1.5")), None);
    assert!(!real_finite(&chars(" .004"), 0, 5));
    assert!(real_finite(&chars(".004"), 0, 4));
    assert_eq!(".004".parse::<f64>().unwrap(), 0.004);
    assert_eq!(text_of(field(b"ab", 0, 2, (3, 4))), None);
    assert_eq!(text_of(field(b"abcd", 0, 4, (2, 3))).as_deref(), Some("bc"));
    assert_eq!(text_of(field(b"a   ", 0, 4, (2, 4))), None);
}

#[test]
fn the_generator_finding_writes_the_base_as_a_number() {
    let parsed = parse_str(&two_bus());
    let defaulted = messages(&parsed, "READ.IEEE_CDF.VALUE_DEFAULTED");
    assert!(
        defaulted.iter().any(|m| m
            == "1 generator(s): the format states no active power limits or machine base; \
                pmin 0 MW, pmax 9999 MW, and mbase equal to the 100 MVA system base assumed"),
        "{defaulted:?}"
    );
}
