use std::cmp::Ordering;

use powerio_tx::cgmes::{esc, normalize_id};
use powerio_tx::egret::{bustype, bustype_from_str, num_key, sorted_table};
use powerio_tx::goc3::{bus_ids, compare_keys, official_bus_suffix, Goc3BusMap};
use powerio_tx::network::BusType;

#[test]
fn numeric_keys_sort_ahead_of_text_keys() {
    assert_eq!(compare_keys("2", "10"), Ordering::Less);
    assert_eq!(compare_keys("10", "1x"), Ordering::Less);
    assert_eq!(compare_keys("1x", "2"), Ordering::Greater);
    assert_eq!(compare_keys("a", "b"), Ordering::Less);
    assert_eq!(compare_keys("5", "5"), Ordering::Equal);
    assert_eq!(compare_keys("05", "5"), Ordering::Less);
    let mut keys = vec!["b", "10", "1x", "2", "a"];
    keys.sort_by(|a, b| compare_keys(a, b));
    assert_eq!(keys, vec!["2", "10", "1x", "a", "b"]);
}

#[test]
fn official_bus_suffixes_are_plain_digits_after_bus() {
    assert_eq!(official_bus_suffix("bus_12"), Some(12));
    assert_eq!(official_bus_suffix("bus_"), None);
    assert_eq!(official_bus_suffix("bus_1a"), None);
    assert_eq!(official_bus_suffix("bus_+1"), None);
    assert_eq!(official_bus_suffix("Bus_1"), None);
    assert_eq!(official_bus_suffix(&format!("bus_{}", usize::MAX)), Some(usize::MAX));
    assert_eq!(official_bus_suffix("bus_99999999999999999999999"), None);
}

#[test]
fn unique_suffixes_number_the_buses() {
    let uids = |v: &[&str]| v.iter().map(|s| s.to_string()).collect::<Vec<String>>();
    assert_eq!(bus_ids(&uids(&["bus_3", "bus_1"])), vec![4, 2]);
    assert_eq!(bus_ids(&uids(&["bus_3", "bus_3"])), vec![1, 2]);
    assert_eq!(bus_ids(&uids(&["bus_3", "north"])), vec![1, 2]);
    assert_eq!(bus_ids(&uids(&[])), Vec::<usize>::new());
}

#[test]
fn an_extreme_bus_suffix_falls_back_to_the_position() {
    let uids = vec![format!("bus_{}", usize::MAX)];
    assert_eq!(bus_ids(&uids), vec![1]);
}

#[test]
fn bus_lookups_name_an_unknown_uid() {
    let map = Goc3BusMap { by_uid: vec![("bus_1".to_string(), 2), ("bus_1".to_string(), 5)] };
    assert_eq!(map.get("bus_1"), Ok(5));
    assert_eq!(map.get("bus_9"), Err("unknown bus uid `bus_9`".to_string()));
}

#[test]
fn egret_bus_types_read_back_as_written() {
    for kind in [BusType::Pq, BusType::Pv, BusType::Ref, BusType::Isolated] {
        assert_eq!(bustype_from_str(bustype(kind)), kind);
    }
    assert_eq!(bustype(BusType::Ref), "ref");
    assert_eq!(bustype_from_str("pv"), BusType::Pq);
}

#[test]
fn element_keys_order_by_their_trailing_number() {
    assert_eq!(num_key("5"), 5);
    assert_eq!(num_key("load_10"), 10);
    assert_eq!(num_key("load_2"), 2);
    assert_eq!(num_key("abc"), i64::MAX);
    assert_eq!(num_key(""), i64::MAX);
    assert_eq!(num_key("x99999999999999999999"), i64::MAX);
    assert_eq!(num_key("a-5"), 5);
}

#[test]
fn element_text_escapes_markup() {
    assert_eq!(esc("North <bus> & yard"), "North &lt;bus&gt; &amp; yard");
    assert_eq!(esc("plain"), "plain");
    assert_eq!(esc("&amp;"), "&amp;amp;");
}

#[test]
fn identifiers_lose_their_spelling() {
    assert_eq!(normalize_id("_tn1"), "tn1");
    assert_eq!(normalize_id("#_bv1"), "bv1");
    assert_eq!(normalize_id("urn:uuid:t-99"), "t-99");
    assert_eq!(
        normalize_id("http://iec.ch/TC57/2013/CIM-schema-cim16#RegulatingControlModeKind.voltage"),
        "RegulatingControlModeKind.voltage"
    );
    assert_eq!(normalize_id("__x"), "_x");
}

#[test]
fn tables_sort_by_the_number_in_the_key_and_keep_ties_in_order() {
    let rows: Vec<(String, i32)> = vec![
        ("load_10".into(), 1),
        ("load_2".into(), 2),
        ("b".into(), 3),
        ("load_2".into(), 4),
        ("5".into(), 5),
    ];
    let sorted = sorted_table(rows);
    let expected: Vec<(String, i32)> = vec![
        ("load_2".into(), 2),
        ("load_2".into(), 4),
        ("5".into(), 5),
        ("load_10".into(), 1),
        ("b".into(), 3),
    ];
    assert_eq!(sorted, expected);
}
