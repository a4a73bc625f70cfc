use powerio_tx::goc3::document::{
    bus_id_by_uid, bus_ref, bus_rows, device_rows, device_time_series, section, static_reduction_findings_of,
    Goc3DeviceKind, Goc3Document,
};
use powerio_tx::json::JsonValue;
use powerio_tx::network::BusType;

fn convert(value: &serde_json::Value) -> JsonValue {
    match value {
        serde_json::Value::Null => JsonValue::Null,
        serde_json::Value::Bool(b) => JsonValue::Bool(*b),
        serde_json::Value::Number(n) => JsonValue::Number(n.to_string()),
        serde_json::Value::String(s) => JsonValue::Str(s.clone()),
        serde_json::Value::Array(items) => JsonValue::Array(items.iter().map(convert).collect()),
        serde_json::Value::Object(map) => {
            JsonValue::Object(map.iter().map(|(k, v)| (k.clone(), convert(v))).collect())
        }
    }
}

fn json(text: &str) -> JsonValue {
    convert(&serde_json::from_str::<serde_json::Value>(text).unwrap())
}

fn members(text: &str) -> Vec<(String, JsonValue)> {
    match json(text) {
        JsonValue::Object(m) => m,
        _ => panic!("not an object"),
    }
}

#[test]
fn duplicate_device_uid_is_rejected() {
    // Time-series bounds and costs join back onto devices by uid; a
    // repeated uid would silently hand one device the other's series.
    let network = members(
        r#"{"simple_dispatchable_device":[
            {"uid":"sd1","device_type":"producer"},
            {"uid":"sd1","device_type":"consumer"}]}"#,
    );
    let Err(err) = device_rows(&network) else {
        panic!("duplicate uid must be rejected")
    };
    assert!(err.contains("duplicate"), "got: {err}");
    assert_eq!(err, "duplicate simple_dispatchable_device uid `sd1`");
}

#[test]
fn extreme_bus_suffix_does_not_overflow() {
    // A `bus_<usize::MAX>` uid parses to usize::MAX and is trivially the
    // unique suffix; the bus falls back to its 1-based position instead.
    let content = format!(
        r#"{{"network":{{"general":{{"base_norm_mva":100}},"bus":[{{"uid":"bus_{}","base_nom_volt":100}}]}}}}"#,
        usize::MAX
    );
    let document = Goc3Document::from_value(json(&content)).unwrap();
    let network = document.network().unwrap();
    let items = section(network, "bus").unwrap();
    let buses = bus_id_by_uid(&items).unwrap();
    assert_eq!(buses.by_uid.len(), 1);
    assert_eq!(buses.get(&format!("bus_{}", usize::MAX)), Ok(1));
}

#[test]
fn official_bus_suffixes_become_bus_ids() {
    let network = members(r#"{"bus":[{"uid":"bus_7"},{"uid":"bus_2"}]}"#);
    let items = section(&network, "bus").unwrap();
    let buses = bus_id_by_uid(&items).unwrap();
    assert_eq!(buses.get("bus_7"), Ok(8));
    assert_eq!(buses.get("bus_2"), Ok(3));
    let network = members(r#"{"bus":[{"uid":"a"},{"uid":"bus_2"}]}"#);
    let items = section(&network, "bus").unwrap();
    let buses = bus_id_by_uid(&items).unwrap();
    assert_eq!(buses.get("a"), Ok(1));
    assert_eq!(buses.get("bus_2"), Ok(2));
    let network = members(r#"{"bus":[{"name":"x"}]}"#);
    let items = section(&network, "bus").unwrap();
    assert_eq!(bus_id_by_uid(&items).err().unwrap(), "bus section item missing `uid`");
    let network = members(r#"{"bus":[3]}"#);
    let items = section(&network, "bus").unwrap();
    assert_eq!(bus_id_by_uid(&items).err().unwrap(), "bus section item is not an object");
}

#[test]
fn object_sections_order_numeric_keys_first() {
    let network = members(r#"{"bus":{"b":{},"10":{},"2":{"uid":"two"},"a":{"uid":""}}}"#);
    let items = section(&network, "bus").unwrap();
    let keys: Vec<&str> = items.iter().map(|i| i.key.unwrap().as_str()).collect();
    assert_eq!(keys, vec!["2", "10", "a", "b"]);
    let document = Goc3Document::from_value(json(r#"{"network":{"bus":{"b":{},"2":{"uid":"two"},"a":{"uid":""}}}}"#))
        .unwrap();
    let records = document.network_records("bus").unwrap();
    let uids: Vec<Option<&str>> = records.iter().map(|r| r.uid.as_deref()).collect();
    assert_eq!(uids, vec![Some("two"), Some("a"), Some("b")]);
    assert!(document.network_records("shunt").unwrap().is_empty());
}

#[test]
fn documents_name_what_is_missing_or_malformed() {
    assert_eq!(
        Goc3Document::from_value(json("[1]")).err().unwrap(),
        "top level is not a JSON object"
    );
    let document = Goc3Document::from_value(json(r#"{"network":{"bus":7},"reliability":{}}"#)).unwrap();
    assert_eq!(
        document.network_records("bus").err().unwrap(),
        "`network.bus` is not an array or object, got number"
    );
    assert_eq!(document.time_series_input().err().unwrap(), "missing object `time_series_input`");
    assert!(document.reliability().is_some());
    assert_eq!(document.root().len(), 2);
}

#[test]
fn devices_default_to_producers_and_refuse_other_types() {
    let network = members(
        r#"{"simple_dispatchable_device":[{"uid":"g"},{"uid":"l","device_type":"consumer"}]}"#,
    );
    let rows = device_rows(&network).unwrap();
    let kinds: Vec<Goc3DeviceKind> = rows.iter().map(|r| r.kind).collect();
    assert_eq!(kinds, vec![Goc3DeviceKind::Generators, Goc3DeviceKind::Loads]);
    let network = members(r#"{"simple_dispatchable_device":[{"device_type":"storage"}]}"#);
    assert_eq!(
        device_rows(&network).err().unwrap(),
        "simple_dispatchable_device `?` has unsupported `device_type` `storage`"
    );
    let network = members(r#"{"simple_dispatchable_device":["x"]}"#);
    assert_eq!(
        device_rows(&network).err().unwrap(),
        "`network.simple_dispatchable_device` record is not an object, got string"
    );
}

#[test]
fn bus_records_carry_identities_and_roles() {
    let network = members(
        r#"{"bus":[{"uid":"bus_1","type":"Slack"},{"uid":"bus_2","type":"PV"},{"uid":"bus_3","type":"Not_used"},{"uid":"bus_4"}]}"#,
    );
    let (rows, buses) = bus_rows(&network).unwrap();
    let summary: Vec<(&str, usize, BusType)> = rows.iter().map(|r| (r.uid.as_str(), r.id, r.kind)).collect();
    assert_eq!(
        summary,
        vec![
            ("bus_1", 2, BusType::Ref),
            ("bus_2", 3, BusType::Pv),
            ("bus_3", 4, BusType::Isolated),
            ("bus_4", 5, BusType::Pq)
        ]
    );
    assert_eq!(buses.get("bus_3"), Ok(4));
    assert_eq!(buses.get("bus_9"), Err("unknown bus uid `bus_9`".to_string()));
}

#[test]
fn bus_sections_must_be_non_empty_with_distinct_uids() {
    let network = members(r#"{"bus":[]}"#);
    assert_eq!(bus_rows(&network).err().unwrap(), "missing non-empty `network.bus` section");
    let network = members(r#"{"branch":[]}"#);
    assert_eq!(bus_rows(&network).err().unwrap(), "missing non-empty `network.bus` section");
    let network = members(r#"{"bus":[{"uid":"a"},{"uid":"a"}]}"#);
    assert_eq!(bus_rows(&network).err().unwrap(), "duplicate bus uid `a`");
    let network = members(r#"{"bus":[{"uid":""}]}"#);
    assert_eq!(bus_rows(&network).err().unwrap(), "bus record missing `uid`");
    let network = members(r#"{"bus":[true]}"#);
    assert_eq!(bus_rows(&network).err().unwrap(), "`network.bus` record is not an object, got bool");
}

#[test]
fn device_series_are_found_by_key_and_by_uid() {
    let ts = members(r#"{"simple_dispatchable_device":[{"uid":"sd1","on_status_ub":[1]},{"uid":"sd2"}]}"#);
    let entries = device_time_series(Some(&ts)).unwrap();
    let names: Vec<&str> = entries.iter().map(|e| e.0.as_str()).collect();
    assert_eq!(names, vec!["sd1", "sd2"]);
    let ts = members(r#"{"simple_dispatchable_device":{"k":{"uid":"u"}}}"#);
    let entries = device_time_series(Some(&ts)).unwrap();
    let names: Vec<&str> = entries.iter().map(|e| e.0.as_str()).collect();
    assert_eq!(names, vec!["k", "u"]);
    assert!(device_time_series(None).unwrap().is_empty());
}

#[test]
fn the_static_reduction_names_what_stays_in_the_source() {
    let root = members(r#"{"time_series_input":{},"reliability":{}}"#);
    let network = members(r#"{"violation_cost":{},"simple_dispatchable_device":[{"uid":"d"}]}"#);
    assert_eq!(
        static_reduction_findings_of(&root, &network),
        vec![
            "time_series_input reduced to the first interval for static BalancedNetwork dispatch and limits",
            "reliability contingencies retained in source only",
            "network.violation_cost retained in source only",
            "simple dispatchable device commitment, ramp, reserve, and multi-interval cost data retained in source only",
        ]
    );
    assert!(static_reduction_findings_of(&members("{}"), &members("{}")).is_empty());
}

#[test]
fn records_name_their_buses_by_uid() {
    let network = members(r#"{"bus":[{"uid":"bus_1"},{"uid":"bus_2"}]}"#);
    let (_, buses) = bus_rows(&network).unwrap();
    let line = members(r#"{"fr_bus":"bus_2","to_bus":"bus_9","x":3}"#);
    assert_eq!(bus_ref(&line, "fr_bus", &buses), Ok(3));
    assert_eq!(bus_ref(&line, "to_bus", &buses), Err("unknown bus uid `bus_9`".to_string()));
    assert_eq!(bus_ref(&line, "x", &buses), Err("missing string `x`".to_string()));
}

#[test]
fn an_overflowing_suffix_makes_every_bus_take_its_position() {
    let network = members(&format!(r#"{{"bus":[{{"uid":"bus_1"}},{{"uid":"bus_{}"}}]}}"#, usize::MAX));
    let items = section(&network, "bus").unwrap();
    let buses = bus_id_by_uid(&items).unwrap();
    assert_eq!(buses.get("bus_1"), Ok(1));
    assert_eq!(buses.get(&format!("bus_{}", usize::MAX)), Ok(2));
}
