use usage_meter::{
    calc_usage, clamp_timestamp, compact, compact_with, decode, decode_store, sort_records, Element, Error,
    JsonType, Record, SchemaError, Stored, Tracker, MERGE_WINDOW, RETENTION,
};

fn rec(time: u64, input: u64, output: u64, iw: u64, ow: u64) -> Record {
    Record { time, input, output, input_weight: iw, output_weight: ow }
}

fn ints(v: &[u64]) -> Vec<Element> {
    v.iter().map(|n| Element::Int(*n)).collect()
}

fn records_of(t: &Tracker, id: &str) -> Option<Vec<Record>> {
    t.records(&id.to_string()).cloned()
}

#[test]
fn record_encode_decode_round_trip() {
    let r = rec(1_700_000_000, 1000, 500, 10, 20);
    assert_eq!(r.encode(), vec![1_700_000_000, 1000, 500, 10, 20]);
    assert_eq!(decode(&ints(&r.encode())), Ok(r));
}

#[test]
fn decode_rejects_short_array() {
    assert_eq!(
        decode(&ints(&[1, 2, 3, 4])),
        Err(Error::WrongSchema(SchemaError::WrongLength { expected: 5, got: 4 }))
    );
    assert_eq!(
        decode(&vec![]),
        Err(Error::WrongSchema(SchemaError::WrongLength { expected: 5, got: 0 }))
    );
}

#[test]
fn decode_rejects_long_array() {
    assert_eq!(
        decode(&ints(&[1, 2, 3, 4, 5, 6])),
        Err(Error::WrongSchema(SchemaError::TooLong { expected: 5 }))
    );
}

#[test]
fn decode_rejects_non_integer() {
    let mut es = ints(&[1, 2, 3, 4, 5]);
    es[2] = Element::Other(JsonType::String);
    assert_eq!(
        decode(&es),
        Err(Error::JsonTypeError { expected: JsonType::U64, got: JsonType::String })
    );
}

#[test]
fn decode_store_rejects_non_array_value() {
    let parts = vec![("u1".to_string(), Stored::Other(JsonType::Number))];
    assert_eq!(
        decode_store(parts).err(),
        Some(Error::JsonTypeError { expected: JsonType::Array, got: JsonType::Number })
    );
}

#[test]
fn decode_store_builds_identities() {
    let parts = vec![
        ("a".to_string(), Stored::Records(vec![ints(&[1, 2, 3, 4, 5])])),
        ("b".to_string(), Stored::Records(vec![])),
    ];
    let t = decode_store(parts).unwrap();
    assert_eq!(t.len(), 2);
    assert_eq!(records_of(&t, "a"), Some(vec![rec(1, 2, 3, 4, 5)]));
    assert_eq!(records_of(&t, "b"), Some(vec![]));
}

#[test]
fn store_text_round_trip() {
    let mut t = Tracker::new();
    t.add_usage(&"u1".to_string(), 1000, 500, 10, 20, false, 100);
    t.add_usage(&"u2".to_string(), 7, 8, 1, 2, false, 200);
    t.add_usage(&"u1".to_string(), 3, 4, 5, 6, false, 300);
    let text = t.to_text();
    assert!(text.contains("\"u1\""));
    assert!(text.contains("1000"));
    let back = Tracker::from_text(&text).unwrap();
    assert_eq!(back.len(), 2);
    assert_eq!(records_of(&back, "u1"), records_of(&t, "u1"));
    assert_eq!(records_of(&back, "u2"), records_of(&t, "u2"));
}

#[test]
fn from_text_reports_bad_json() {
    match Tracker::from_text("{ not json") {
        Err(Error::InvalidJson(msg)) => assert!(!msg.is_empty()),
        _ => panic!("expected a parse error"),
    }
}

#[test]
fn from_text_reports_wrong_schema() {
    assert_eq!(
        Tracker::from_text("{\"u\": [[1, 2, 3]]}").err(),
        Some(Error::WrongSchema(SchemaError::WrongLength { expected: 5, got: 3 }))
    );
    assert_eq!(
        Tracker::from_text("{\"u\": [[1, 2, 3, 4, 5, 6]]}").err(),
        Some(Error::WrongSchema(SchemaError::TooLong { expected: 5 }))
    );
    assert_eq!(
        Tracker::from_text("{\"u\": [[1, 2, \"x\", 4, 5]]}").err(),
        Some(Error::JsonTypeError { expected: JsonType::U64, got: JsonType::String })
    );
    assert_eq!(
        Tracker::from_text("{\"u\": 3}").err(),
        Some(Error::JsonTypeError { expected: JsonType::Array, got: JsonType::Number })
    );
    assert_eq!(
        Tracker::from_text("{\"u\": [[1, -2, 3, 4, 5]]}").err(),
        Some(Error::JsonTypeError { expected: JsonType::U64, got: JsonType::Number })
    );
}

#[test]
fn from_text_rejects_top_level_that_is_not_an_object() {
    assert_eq!(
        Tracker::from_text("[[1, 2, 3, 4, 5]]").err(),
        Some(Error::JsonTypeError { expected: JsonType::Object, got: JsonType::Array })
    );
    assert_eq!(
        Tracker::from_text("7").err(),
        Some(Error::JsonTypeError { expected: JsonType::Object, got: JsonType::Number })
    );
    assert_eq!(Tracker::from_text("{}").map(|t| t.len()), Ok(0));
}

#[test]
fn to_text_is_indented_object() {
    let mut t = Tracker::new();
    t.add_usage(&"u1".to_string(), 1, 2, 3, 4, false, 5);
    let text = t.to_text();
    assert!(text.starts_with('{'));
    assert!(text.contains("\n    \"u1\""));
    assert_ne!(Tracker::new().to_text(), text);
}

#[test]
fn compaction_with_chosen_durations() {
    let rs = vec![rec(100, 1, 1, 1, 1), rec(105, 2, 2, 1, 1), rec(200, 4, 4, 1, 1)];
    assert_eq!(compact_with(&rs, 200, 10, 1000), vec![rec(102, 3, 3, 1, 1), rec(200, 4, 4, 1, 1)]);
    assert_eq!(compact_with(&rs, 200, 200, 1000), vec![rec(151, 7, 7, 1, 1)]);
    assert_eq!(compact_with(&rs, 250, 10, 100), vec![rec(200, 4, 4, 1, 1)]);
    assert_eq!(compact_with(&rs, 200, 0, 1000), rs);
}

#[test]
fn merge_within_window_sums_counts() {
    let now = 1_700_000_000;
    let mut t = Tracker::new();
    let id = "u1".to_string();
    t.add_usage(&id, 1000, 500, 10, 20, true, now);
    t.add_usage(&id, 1000, 500, 10, 20, true, now + 60);
    let rs = records_of(&t, "u1").unwrap();
    assert_eq!(rs, vec![rec(now + 30, 2000, 1000, 10, 20)]);
    let single = calc_usage(&[rec(now, 1000, 500, 10, 20)]);
    let one = calc_usage(&[rec(now, 1000, 500, 10, 20), rec(now + 60, 1000, 500, 10, 20)]);
    assert_eq!(calc_usage(&rs), one);
    assert_eq!(single, "0.000");
}

#[test]
fn merged_cost_equals_sum_of_costs() {
    let a = rec(0, 1_000_000, 500_000, 10, 20);
    let merged = compact(&vec![a, a], 0);
    assert_eq!(merged.len(), 1);
    assert_eq!(calc_usage(&merged), "0.040");
    assert_eq!(calc_usage(&[a, a]), "0.040");
}

#[test]
fn compaction_keeps_different_prices_apart() {
    let rs = vec![rec(10, 1, 1, 1, 1), rec(20, 1, 1, 2, 1), rec(30, 1, 1, 1, 1)];
    assert_eq!(compact(&rs, 100), rs);
}

#[test]
fn compaction_keeps_records_outside_window_apart() {
    let rs = vec![rec(0, 1, 1, 1, 1), rec(MERGE_WINDOW, 2, 2, 1, 1)];
    assert_eq!(compact(&rs, MERGE_WINDOW), rs);
    let close = vec![rec(0, 1, 1, 1, 1), rec(MERGE_WINDOW - 1, 2, 2, 1, 1)];
    assert_eq!(compact(&close, MERGE_WINDOW), vec![rec((MERGE_WINDOW - 1) / 2, 3, 3, 1, 1)]);
}

#[test]
fn compaction_drops_records_past_retention() {
    let now = RETENTION + 1000;
    let rs = vec![rec(999, 1, 1, 1, 1), rec(1000, 2, 2, 3, 3), rec(1001, 4, 4, 5, 5)];
    assert_eq!(compact(&rs, now), vec![rec(1000, 2, 2, 3, 3), rec(1001, 4, 4, 5, 5)]);
}

#[test]
fn compaction_keeps_totals() {
    let rs = vec![
        rec(10, 3, 4, 1, 1),
        rec(20, 5, 6, 1, 1),
        rec(30, 7, 8, 2, 2),
        rec(MERGE_WINDOW + 40, 9, 10, 2, 2),
        rec(5, 11, 12, 1, 1),
    ];
    let out = compact(&rs, 1000);
    let ti: u64 = out.iter().map(|r| r.input).sum();
    let to: u64 = out.iter().map(|r| r.output).sum();
    assert_eq!(ti, 3 + 5 + 7 + 9 + 11);
    assert_eq!(to, 4 + 6 + 8 + 10 + 12);
    assert!(out.len() < rs.len());
}

#[test]
fn compaction_sorts_and_is_idempotent() {
    let rs = vec![
        rec(10, 1, 1, 1, 1),
        rec(20, 1, 1, 2, 2),
        rec(30, 1, 1, 1, 1),
        rec(40, 1, 1, 1, 1),
        rec(MERGE_WINDOW + 100, 1, 1, 1, 1),
    ];
    let once = compact(&rs, 1000);
    for w in once.windows(2) {
        assert!(w[0].time <= w[1].time);
    }
    assert_eq!(compact(&once, 1000), once);
    let unsorted = vec![rec(50, 1, 1, 1, 1), rec(1, 1, 1, 2, 2)];
    let out = compact(&unsorted, 1000);
    assert_eq!(out, vec![rec(1, 1, 1, 2, 2), rec(50, 1, 1, 1, 1)]);
}

#[test]
fn sort_is_stable_by_time() {
    let rs = vec![rec(3, 1, 0, 0, 0), rec(1, 2, 0, 0, 0), rec(3, 3, 0, 0, 0), rec(2, 4, 0, 0, 0)];
    let out = sort_records(&rs);
    let inputs: Vec<u64> = out.iter().map(|r| r.input).collect();
    assert_eq!(inputs, vec![2, 4, 1, 3]);
}

#[test]
fn new_identity_is_not_compacted() {
    let mut t = Tracker::new();
    t.add_usage(&"x".to_string(), 1, 2, 3, 4, true, 77);
    assert_eq!(records_of(&t, "x"), Some(vec![rec(77, 1, 2, 3, 4)]));
    assert_eq!(records_of(&t, "y"), None);
}

#[test]
fn append_without_compaction_keeps_all() {
    let mut t = Tracker::new();
    let id = "x".to_string();
    t.add_usage(&id, 1, 2, 3, 4, false, 10);
    t.add_usage(&id, 1, 2, 3, 4, false, 5);
    assert_eq!(records_of(&t, "x"), Some(vec![rec(10, 1, 2, 3, 4), rec(5, 1, 2, 3, 4)]));
}

#[test]
fn add_usage_now_stamps_current_time() {
    let mut t = Tracker::new();
    t.add_usage_now(&"n".to_string(), 1, 2, 3, 4, false);
    let rs = records_of(&t, "n").unwrap();
    assert_eq!(rs.len(), 1);
    assert!(rs[0].time > 1_600_000_000);
}

#[test]
fn query_after_last_record_is_empty_not_missing() {
    let mut t = Tracker::new();
    let id = "u1".to_string();
    t.add_usage(&id, 1, 1, 1, 1, false, 100);
    t.add_usage(&id, 1, 1, 1, 1, false, 200);
    assert_eq!(t.usage_for_identity_after(&id, 500), Some(vec![]));
    assert_eq!(t.usage_for_identity_after(&"nobody".to_string(), 0), None);
}

#[test]
fn query_filters_strictly_after() {
    let mut t = Tracker::new();
    let id = "u1".to_string();
    t.add_usage(&id, 1, 1, 1, 1, false, 100);
    t.add_usage(&id, 2, 2, 1, 1, false, 200);
    assert_eq!(t.usage_for_identity_after(&id, 100), Some(vec![rec(200, 2, 2, 1, 1)]));
    assert_eq!(t.usage_for_identity_after(&id, -50).map(|v| v.len()), Some(2));
}

#[test]
fn query_all_identities() {
    let mut t = Tracker::new();
    t.add_usage(&"a".to_string(), 1, 1, 1, 1, false, 100);
    t.add_usage(&"b".to_string(), 2, 2, 1, 1, false, 300);
    t.add_usage(&"a".to_string(), 3, 3, 1, 1, false, 400);
    let all = t.usage_for_all_after(150);
    assert_eq!(all, vec![rec(400, 3, 3, 1, 1), rec(300, 2, 2, 1, 1)]);
    assert_eq!(t.usage_for_all_after(1000), vec![]);
}

#[test]
fn cost_of_single_record() {
    assert_eq!(calc_usage(&[rec(0, 1_000_000, 0, 10, 0)]), "0.010");
}

#[test]
fn cost_formatting() {
    assert_eq!(calc_usage(&[]), "0.000");
    assert_eq!(calc_usage(&[rec(0, 12_345_678, 0, 1_000_000, 0)]), "12345.678");
    assert_eq!(calc_usage(&[rec(0, 0, 1_000_000_000, 0, 1)]), "1.000");
    assert_eq!(calc_usage(&[rec(0, 999_999, 0, 1, 0)]), "0.000");
}

#[test]
fn cost_is_monotonic() {
    let base = vec![rec(0, 1_000_000, 2_000_000, 3, 5)];
    let before = calc_usage(&base);
    let mut more = base.clone();
    more.insert(0, rec(0, 4_000_000, 0, 7, 0));
    let after = calc_usage(&more);
    assert_eq!(before, "0.013");
    assert_eq!(after, "0.041");
}

#[test]
fn clamp_negative_time() {
    assert_eq!(clamp_timestamp(-5), 0);
    assert_eq!(clamp_timestamp(42), 42);
}

#[test]
fn append_to_compacted_only_touches_end() {
    let base = compact(&vec![rec(10, 1, 1, 1, 1), rec(20, 1, 1, 2, 2)], 1000);
    let mut grown = base.clone();
    grown.push(rec(30, 5, 6, 2, 2));
    assert_eq!(compact(&grown, 1000), vec![rec(10, 1, 1, 1, 1), rec(25, 6, 7, 2, 2)]);
    let mut other = base.clone();
    other.push(rec(40, 5, 6, 3, 3));
    assert_eq!(compact(&other, 1000), other);
}
