//! The records, their percentiles, and what git reports of itself.

use git_full_send::json::{parse_json, Json};
use git_full_send::metrics::{
    aggregate, aggregate_records, field_stats, flatten_numbers, metrics_path, now_unix_millis,
    parse_lines, tool_version, unix_millis, Envelope, KindStats, Sample, SCHEMA_VERSION,
};
use git_full_send::trace2::{as_i64, Trace2, TRACE2_EVENT_ENV};

#[test]
fn metrics_path_is_under_the_git_dir_state_dir() {
    let path = metrics_path(b"/repo/.git");
    assert_eq!(path, b"/repo/.git/git-full-send/metrics.jsonl");
}

fn kind<'a>(all: &'a [KindStats], name: &str) -> &'a KindStats {
    all.iter().find(|k| k.kind == name).expect("stats of a kind")
}

#[test]
fn aggregate_reports_percentiles_per_kind_and_nested_field() {
    let mut sink = String::new();
    // Ten syncs whose nested `code.push_ms` runs 10, 20, … 100, plus a record of a
    // different kind that must not be mixed in.
    for i in 1..=10 {
        sink.push_str(&format!(
            "{{\"kind\":\"sync\",\"ts_unix_ms\":{},\"total_ms\":{}.0,\"code\":{{\"push_ms\":{}.0,\"files_overlaid\":{}}},\"refs\":[\"a\",\"b\"]}}\n",
            1_000_000 + i,
            i * 10,
            i * 10,
            i
        ));
    }
    sink.push_str("{\"kind\":\"receive\",\"duration_ms\":5.0}\n");

    let all = aggregate(&sink, None, None);
    assert_eq!(all.len(), 2, "one entry per kind");

    let sync = kind(&all, "sync");
    assert_eq!(sync.records, 10);
    let push = sync
        .fields
        .iter()
        .find(|f| f.field == "code.push_ms")
        .expect("nested fields are flattened to dotted keys");
    assert_eq!(push.count, 10);
    assert_eq!(f64::from_bits(push.p50), 60.0);
    assert_eq!(f64::from_bits(push.p95), 100.0);
    assert_eq!(f64::from_bits(push.max), 100.0);
    // Arrays contribute their length.
    assert!(sync.fields.iter().any(|f| f.field == "refs.len"));
    // A timestamp percentile would be noise dressed as a statistic.
    assert!(!sync.fields.iter().any(|f| f.field == "ts_unix_ms"));

    // Filtering by kind, and windowing to the most recent N.
    let recent = aggregate(&sink, Some("sync"), Some(3));
    assert_eq!(recent.len(), 1);
    assert_eq!(recent[0].records, 3, "only the last three syncs");
    let push = recent[0]
        .fields
        .iter()
        .find(|f| f.field == "code.push_ms")
        .unwrap();
    assert_eq!(f64::from_bits(push.max), 100.0);
    assert_eq!(f64::from_bits(push.p50), 90.0, "the last three are 80, 90, 100");
}

#[test]
fn aggregate_tolerates_a_missing_sink_and_partial_lines() {
    assert!(aggregate("", None, None).is_empty());

    let stats = aggregate(
        "{\"kind\":\"sync\",\"total_ms\":1.0}\n{\"kind\":\"sy",
        None,
        None,
    );
    assert_eq!(stats.len(), 1, "the intact record still counts");
    assert_eq!(stats[0].records, 1);
}

#[test]
fn kinds_and_fields_come_in_the_order_of_their_names() {
    let sink = "{\"kind\":\"b\",\"z\":1,\"a\":2,\"m\":{\"x\":3}}\n{\"kind\":\"a\",\"n\":1}\n";
    let all = aggregate(sink, None, None);
    let kinds: Vec<&str> = all.iter().map(|k| k.kind.as_str()).collect();
    assert_eq!(kinds, ["a", "b"]);
    let fields: Vec<&str> = all[1].fields.iter().map(|f| f.field.as_str()).collect();
    assert_eq!(fields, ["a", "m.x", "z"]);
}

#[test]
fn records_without_a_kind_are_of_an_unknown_one() {
    let sink = "{\"n\":1}\n[1,2]\n7\n{\"kind\":4,\"n\":1}\n{\"kind\":\"k\",\"n\":1}\n";
    let all = aggregate(sink, None, None);
    assert_eq!(all.len(), 2);
    assert_eq!(all[0].kind, "k");
    assert_eq!(all[0].records, 1);
    assert_eq!(all[1].kind, "unknown");
    assert_eq!(all[1].records, 4);
    assert!(aggregate(sink, Some("other"), None).is_empty());
}

/// A percentile is one of the recorded values, whatever their order and sign.
#[test]
fn percentiles_sort_negative_and_large_numbers() {
    let values = [-5.5, 1e300, 0.0, -1e-3, 3.0, 2.5, -0.0];
    let sink: String = values
        .iter()
        .map(|v| format!("{{\"kind\":\"k\",\"n\":{v:?}}}\n"))
        .collect();
    let all = aggregate(&sink, None, None);
    let n = &all[0].fields[0];
    assert_eq!(n.count, 7);
    assert_eq!(f64::from_bits(n.max), 1e300);
    assert_eq!(f64::from_bits(n.p50), 0.0);
    assert_eq!(f64::from_bits(n.p95), 1e300);
}

#[test]
fn a_window_of_none_keeps_nothing() {
    let sink = "{\"kind\":\"k\",\"n\":1}\n{\"kind\":\"k\",\"n\":2}\n";
    let all = aggregate(sink, None, Some(0));
    assert!(all.iter().all(|k| k.records == 0));
    let last = aggregate(sink, None, Some(1));
    assert_eq!(f64::from_bits(last[0].fields[0].max), 2.0);
    let more = aggregate(sink, None, Some(9));
    assert_eq!(more[0].records, 2);
}

#[test]
fn numbers_are_flattened_to_dotted_names() {
    let value = parse_json(
        "{\"a\":1,\"b\":{\"c\":2.5,\"d\":[1,2,3]},\"e\":\"text\",\"f\":true,\"g\":null,\"schema\":9}",
    )
    .unwrap();
    let mut out: Vec<Sample> = Vec::new();
    flatten_numbers("", &value, &mut out);
    let seen: Vec<(String, f64)> = out
        .iter()
        .map(|s| (s.field.clone(), f64::from_bits(s.bits)))
        .collect();
    assert!(seen.contains(&("a".to_string(), 1.0)));
    assert!(seen.contains(&("b.c".to_string(), 2.5)));
    assert!(seen.contains(&("b.d.len".to_string(), 3.0)));
    assert!(!seen.iter().any(|(f, _)| f == "e" || f == "f" || f == "g"));
}

#[test]
fn fields_are_counted_over_samples() {
    let samples = vec![
        Sample { field: "b".to_string(), bits: 2.0f64.to_bits() },
        Sample { field: "a".to_string(), bits: 1.0f64.to_bits() },
        Sample { field: "b".to_string(), bits: 4.0f64.to_bits() },
    ];
    let stats = field_stats(&samples);
    assert_eq!(stats.len(), 2);
    assert_eq!(stats[0].field, "a");
    assert_eq!(stats[1].count, 2);
    assert_eq!(f64::from_bits(stats[1].max), 4.0);
}

#[test]
fn lines_that_are_no_json_are_skipped() {
    let records = parse_lines("{\"kind\":\"k\"}\nnot json\n\n[1]\n");
    assert_eq!(records.len(), 2);
    assert_eq!(aggregate_records(&records, Some("k"), None).len(), 1);
}

#[test]
fn json_values_are_read() {
    match parse_json("{\"n\":-7,\"big\":18446744073709551615,\"f\":0.5,\"s\":\"x\\u00e9\",\"a\":[true,null]}") {
        Some(value) => {
            match value.get("n") {
                Some(Json::Number { whole, bits }) => {
                    assert_eq!(*whole, Some(-7));
                    assert_eq!(f64::from_bits(bits.unwrap()), -7.0);
                }
                _ => panic!("a number"),
            }
            match value.get("big") {
                Some(Json::Number { whole, bits }) => {
                    assert_eq!(*whole, None);
                    assert_eq!(f64::from_bits(bits.unwrap()), 18446744073709551615.0);
                }
                _ => panic!("a number"),
            }
            match value.get("f") {
                Some(Json::Number { whole, bits }) => {
                    assert_eq!(*whole, None);
                    assert_eq!(f64::from_bits(bits.unwrap()), 0.5);
                }
                _ => panic!("a number"),
            }
            assert_eq!(value.get("s").and_then(|v| v.as_str()), Some("xé"));
            match value.get("a") {
                Some(Json::Array(items)) => {
                    assert!(matches!(items[0], Json::Bool(true)));
                    assert!(matches!(items[1], Json::Null));
                }
                _ => panic!("an array"),
            }
            assert!(value.get("none").is_none());
        }
        None => panic!("an object"),
    }
    assert!(parse_json("{").is_none());
    assert!(parse_json("").is_none());
}

#[test]
fn an_envelope_carries_the_schema() {
    let at = Envelope::at("sync", 1234);
    assert_eq!(at.kind, "sync");
    assert_eq!(at.schema, SCHEMA_VERSION);
    assert_eq!(at.ts_unix_ms, 1234);
    assert_eq!(at.tool_version, tool_version());
    assert_eq!(tool_version(), "0.1.0");
    let now = Envelope::new("probe");
    assert_eq!(now.kind, "probe");
    // Some time after the first of 2020.
    assert!(now.ts_unix_ms > 1_577_836_800_000);
    assert!(now_unix_millis() >= now.ts_unix_ms);
}

#[test]
fn a_clock_before_the_epoch_reads_zero() {
    assert_eq!(unix_millis(None), 0);
    assert_eq!(unix_millis(Some(42)), 42);
    assert_eq!(unix_millis(Some(0x1_0000_0000_0000_0005)), 5);
}

/// The milliseconds spent in a region, as they are summed where they are shown.
fn region_ms(trace: &Trace2, category: &str, label: &str) -> Option<f64> {
    trace.region_seconds(category, label).map(|all| {
        all.iter()
            .fold(0.0, |sum, bits| sum + f64::from_bits(*bits) * 1000.0)
    })
}

#[test]
fn region_durations_and_counters_are_harvested() {
    let t2 = Trace2::from_text(
        r#"{"event":"version","evt":"3","exe":"2.52.0"}
{"event":"region_enter","category":"index","label":"do_read_index"}
{"event":"data","category":"index","key":"read/cache_nr","value":34012}
{"event":"region_leave","category":"index","label":"do_read_index","t_rel":0.040000}
{"event":"region_enter","category":"unpack_trees","label":"unpack_trees"}
{"event":"region_enter","category":"unpack_trees","label":"traverse_trees"}
{"event":"region_leave","category":"unpack_trees","label":"traverse_trees","t_rel":0.015000}
{"event":"region_leave","category":"unpack_trees","label":"unpack_trees","t_rel":3.900000}
"#,
    )
    .expect("a parseable stream");

    assert_eq!(region_ms(&t2, "index", "do_read_index"), Some(40.0));
    assert_eq!(region_ms(&t2, "unpack_trees", "traverse_trees"), Some(15.0));
    assert_eq!(region_ms(&t2, "unpack_trees", "unpack_trees"), Some(3900.0));
    assert_eq!(t2.data_i64("index", "read/cache_nr"), Some(34012));
    // Absent regions and counters are simply missing, never an error.
    assert_eq!(region_ms(&t2, "index", "do_write_index"), None);
    assert_eq!(t2.data_i64("index", "write/cache_nr"), None);
}

#[test]
fn repeated_regions_sum() {
    let t2 = Trace2::from_text(
        r#"{"event":"region_leave","category":"c","label":"l","t_rel":0.001}
{"event":"region_leave","category":"c","label":"l","t_rel":0.002}
"#,
    )
    .expect("a parseable stream");
    assert_eq!(region_ms(&t2, "c", "l"), Some(3.0));
}

#[test]
fn a_stringified_counter_value_is_accepted() {
    let t2 = Trace2::from_text(
        r#"{"event":"data","category":"index","key":"read/cache_nr","value":"7"}"#,
    )
    .expect("a parseable stream");
    assert_eq!(t2.data_i64("index", "read/cache_nr"), Some(7));
}

#[test]
fn unparseable_or_empty_streams_yield_nothing_rather_than_failing() {
    assert!(Trace2::from_text("").is_none());
    assert!(Trace2::from_text("not json at all\n{\"event\":\"tru").is_none());
    // Recognised shape, unrecognised content: still no panic, just misses.
    let t2 = Trace2::from_text(
        r#"{"event":"region_leave","category":"new","label":"thing","t_rel":0.5}"#,
    )
    .expect("a parseable stream");
    assert_eq!(region_ms(&t2, "index", "do_read_index"), None);
}

#[test]
fn the_last_value_of_a_counter_counts() {
    let t2 = Trace2::from_text(
        "{\"event\":\"data\",\"category\":\"c\",\"key\":\"k\",\"value\":1}\n{\"event\":\"data\",\"category\":\"c\",\"key\":\"k\",\"value\":2}\n",
    )
    .unwrap();
    assert_eq!(t2.data_i64("c", "k"), Some(2));
    assert_eq!(TRACE2_EVENT_ENV, "GIT_TRACE2_EVENT");
}

#[test]
fn counters_are_integers_or_texts_of_integers() {
    for (text, value) in [
        ("5", Some(5)),
        ("-5", Some(-5)),
        ("\"-5\"", Some(-5)),
        ("\"+5\"", Some(5)),
        ("\"x\"", None),
        ("\"\"", None),
        ("\" 5\"", None),
        ("5.5", None),
        ("null", None),
        ("\"9223372036854775807\"", Some(i64::MAX)),
        ("\"9223372036854775808\"", None),
        ("\"-9223372036854775808\"", Some(i64::MIN)),
    ] {
        let value_of = parse_json(text).map(|v| as_i64(&v)).unwrap();
        assert_eq!(value_of, value, "{text}");
    }
}
