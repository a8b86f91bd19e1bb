use log_viewer::extract::{parse_timestamp, split_integer_timestamp, Extractor};
use log_viewer::flat::FlatMap;
use log_viewer::json::{element_path, flatten_json_map, member_path, parse_json, value_to_string, JsonValue};
use log_viewer::model::Timestamp;
use log_viewer::record::{is_skippable_line, parse_rows};

fn lines(text: &[&str]) -> Vec<String> {
    text.iter().map(|line| line.to_string()).collect()
}

fn pairs(flat: &FlatMap) -> Vec<(String, String)> {
    flat.keys.iter().cloned().zip(flat.values.iter().cloned()).collect()
}

fn pair(key: &str, value: &str) -> (String, String) {
    (key.to_string(), value.to_string())
}

#[test]
fn parse_json_reads_every_kind_of_value() {
    let value = parse_json(r#"{"s":"x","n":-1.5e3,"b":true,"z":null,"a":[1,"two"],"o":{"k":2}}"#).unwrap();
    let expected = JsonValue::Object(vec![
        ("a".to_string(), JsonValue::Array(vec![JsonValue::Number("1".to_string()), JsonValue::Text("two".to_string())])),
        ("b".to_string(), JsonValue::Bool(true)),
        ("n".to_string(), JsonValue::Number("-1500.0".to_string())),
        ("o".to_string(), JsonValue::Object(vec![("k".to_string(), JsonValue::Number("2".to_string()))])),
        ("s".to_string(), JsonValue::Text("x".to_string())),
        ("z".to_string(), JsonValue::Null),
    ]);
    assert_eq!(value, expected);
}

#[test]
fn parse_json_rejects_what_is_not_json() {
    assert_eq!(parse_json(""), None);
    assert_eq!(parse_json("{"), None);
    assert_eq!(parse_json("{\"a\":1} trailing"), None);
    assert_eq!(parse_json("plain text"), None);
    assert_eq!(parse_json("42"), Some(JsonValue::Number("42".to_string())));
}

#[test]
fn flattening_nested_object_gives_dotted_paths() {
    let value = parse_json(r#"{"a":{"b":1},"c":[true,null]}"#).unwrap();
    let flat = flatten_json_map(&value);
    assert_eq!(pairs(&flat), vec![pair("a.b", "1"), pair("c[0]", "true"), pair("c[1]", "null")]);
}

#[test]
fn flattening_keeps_strings_verbatim_and_skips_containers() {
    let value = parse_json(r#"{"msg":"hi there","empty":{},"list":[],"deep":[[{"x":false}]]}"#).unwrap();
    let flat = flatten_json_map(&value);
    assert_eq!(pairs(&flat), vec![pair("deep[0][0].x", "false"), pair("msg", "hi there")]);
}

#[test]
fn flattening_a_value_that_is_no_object_gives_nothing() {
    assert_eq!(flatten_json_map(&parse_json("[1,2]").unwrap()).len(), 0);
    assert_eq!(flatten_json_map(&parse_json("\"text\"").unwrap()).len(), 0);
}

#[test]
fn flattening_later_path_replaces_earlier_one() {
    let value = JsonValue::Object(vec![
        ("a.b".to_string(), JsonValue::Number("1".to_string())),
        ("a".to_string(), JsonValue::Object(vec![("b".to_string(), JsonValue::Number("2".to_string()))])),
    ]);
    assert_eq!(pairs(&flatten_json_map(&value)), vec![pair("a.b", "2")]);
}

#[test]
fn paths_are_built_from_keys_and_indices() {
    assert_eq!(member_path("", "k"), "k");
    assert_eq!(member_path("a", "k"), "a.k");
    assert_eq!(element_path("a", 0), "a[0]");
    assert_eq!(element_path("", 12), "[12]");
    assert_eq!(element_path("a.b", 1234567890), "a.b[1234567890]");
}

#[test]
fn leaves_are_written_as_text() {
    assert_eq!(value_to_string(&JsonValue::Null), "null");
    assert_eq!(value_to_string(&JsonValue::Bool(true)), "true");
    assert_eq!(value_to_string(&JsonValue::Bool(false)), "false");
    assert_eq!(value_to_string(&JsonValue::Number("1.5".to_string())), "1.5");
    assert_eq!(value_to_string(&JsonValue::Text("as is".to_string())), "as is");
    assert_eq!(value_to_string(&JsonValue::Array(Vec::new())), "");
}

#[test]
fn flat_map_keeps_keys_in_order() {
    let mut flat = FlatMap::new();
    flat.insert("b".to_string(), "2".to_string());
    flat.insert("a".to_string(), "1".to_string());
    flat.insert("c".to_string(), "3".to_string());
    flat.insert("b".to_string(), "two".to_string());
    assert_eq!(pairs(&flat), vec![pair("a", "1"), pair("b", "two"), pair("c", "3")]);
    assert_eq!(flat.get("b"), Some(&"two".to_string()));
    assert_eq!(flat.get("d"), None);
    assert_eq!(flat.len(), 3);
    assert!(!flat.is_empty());
}

#[test]
fn timestamps_with_and_without_zone_are_the_same_instant() {
    let plain = parse_timestamp("2024-01-01T00:00:00");
    let zoned = parse_timestamp("2024-01-01T00:00:00Z");
    assert_eq!(zoned, Some(Timestamp { secs: 1704067200, nanos: 0 }));
    assert_eq!(plain, zoned);
}

#[test]
fn timestamps_carry_offsets_and_fractions() {
    assert_eq!(
        parse_timestamp("2024-01-01T01:00:00.250+01:00"),
        Some(Timestamp { secs: 1704067200, nanos: 250_000_000 })
    );
}

#[test]
fn integer_timestamps_are_seconds_or_milliseconds() {
    assert_eq!(parse_timestamp("1700000000"), Some(Timestamp { secs: 1700000000, nanos: 0 }));
    assert_eq!(parse_timestamp("1700000000000"), Some(Timestamp { secs: 1700000000, nanos: 0 }));
    assert_eq!(parse_timestamp("1700000000123"), Some(Timestamp { secs: 1700000000, nanos: 123_000_000 }));
    assert_eq!(parse_timestamp("10000000000"), Some(Timestamp { secs: 10000000000, nanos: 0 }));
    assert_eq!(parse_timestamp("10000000001"), Some(Timestamp { secs: 10000000, nanos: 1_000_000 }));
    assert_eq!(parse_timestamp("-5"), Some(Timestamp { secs: -5, nanos: 0 }));
}

#[test]
fn timestamps_that_denote_nothing() {
    assert_eq!(parse_timestamp("yesterday"), None);
    assert_eq!(parse_timestamp(""), None);
    assert_eq!(parse_timestamp("9223372036854775807"), None);
    assert_eq!(parse_timestamp("-9223372036854775808"), None);
}

#[test]
fn extract_picks_canonical_fields() {
    let value = parse_json(
        r#"{"LogLevel":"warn","time":"1700000000","correlationId":"c","name":"n","msg":"m",
            "service":"s","namespace":"ns","traceId":"t","requestId":"r","level":5}"#,
    )
    .unwrap();
    let extractor = Extractor::new();
    let fields = extractor.extract(&value);
    assert_eq!(fields.level, Some("warn".to_string()));
    assert_eq!(fields.ts, Some(Timestamp { secs: 1700000000, nanos: 0 }));
    assert_eq!(fields.corr, Some("c".to_string()));
    assert_eq!(fields.name, Some("n".to_string()));
    assert_eq!(fields.msg, Some("m".to_string()));
    assert_eq!(fields.service, Some("s".to_string()));
    assert_eq!(fields.namespace, Some("ns".to_string()));
    assert_eq!(fields.trace_id, Some("t".to_string()));
    assert_eq!(fields.request_id, Some("r".to_string()));
}

#[test]
fn extract_prefers_level_over_log_level() {
    let value = parse_json(r#"{"level":"info","LogLevel":"warn"}"#).unwrap();
    let extractor = Extractor::new();
    assert_eq!(extractor.pick_level(&value), Some(&"info".to_string()));
    assert_eq!(extractor.pick_str(&value, "missing"), None);
    assert_eq!(extractor.pick_str(&JsonValue::Null, "level"), None);
    assert_eq!(extractor.pick_ts(&value), None);
}

#[test]
fn separator_and_blank_lines_are_skippable() {
    assert!(is_skippable_line(""));
    assert!(is_skippable_line("   "));
    assert!(is_skippable_line("-----"));
    assert!(is_skippable_line("  --- \t"));
    assert!(!is_skippable_line("- -"));
    assert!(!is_skippable_line("-x-"));
    assert!(!is_skippable_line("{"));
}

#[test]
fn each_line_of_compact_json_is_one_row() {
    let text = lines(&[r#"{"msg":"one","level":"info"}"#, "", r#"{"msg":"two","extra":{"k":1}}"#]);
    let (rows, columns) = parse_rows(7, &text, &Extractor::new());
    assert_eq!(rows.len(), 2);
    assert_eq!((rows[0].file_id, rows[0].line_start, rows[0].line_end), (7, 0, 0));
    assert_eq!((rows[1].file_id, rows[1].line_start, rows[1].line_end), (7, 2, 2));
    assert_eq!(rows[0].msg, Some("one".to_string()));
    assert_eq!(rows[0].level, Some("info".to_string()));
    assert_eq!(rows[1].raw_json, r#"{"msg":"two","extra":{"k":1}}"#);
    assert_eq!(columns, vec!["extra.k".to_string(), "level".to_string(), "msg".to_string()]);
}

#[test]
fn pretty_printed_object_over_lines_four_to_nine_is_one_row() {
    let text = lines(&[
        r#"{"msg":"first"}"#,
        "----------",
        "",
        "----------",
        "{",
        r#"  "msg": "hello","#,
        r#"  "context": {"#,
        r#"    "user": "u1""#,
        "  }",
        "}",
        "----------",
    ]);
    let (rows, _) = parse_rows(0, &text, &Extractor::new());
    assert_eq!(rows.len(), 2);
    assert_eq!((rows[1].line_start, rows[1].line_end), (4, 9));
    assert_eq!(rows[1].msg, Some("hello".to_string()));
    assert_eq!(pairs(&rows[1].flat), vec![pair("context.user", "u1"), pair("msg", "hello")]);
    assert_eq!(rows[1].raw_json, text[4..=9].join("\n"));
}

#[test]
fn text_that_never_parses_becomes_one_message_row() {
    let text = lines(&["  plain words", "more words  ", "---"]);
    let (rows, columns) = parse_rows(3, &text, &Extractor::new());
    assert_eq!(rows.len(), 1);
    assert_eq!((rows[0].line_start, rows[0].line_end), (0, 2));
    assert_eq!(rows[0].raw_json, "plain words\nmore words  \n---");
    assert_eq!(rows[0].msg, Some("plain words\nmore words  \n---".to_string()));
    assert_eq!(pairs(&rows[0].flat), vec![pair("msg", "plain words\nmore words  \n---")]);
    assert_eq!(columns, vec!["msg".to_string()]);
}

#[test]
fn spans_stay_in_bounds_and_do_not_overlap() {
    let text = lines(&["{", "\"a\": 1", "}", "noise", "{\"b\":2}", "", "{", "\"c\": [", "1", "]", "}", "tail {"]);
    let (rows, _) = parse_rows(0, &text, &Extractor::new());
    assert!(!rows.is_empty());
    let mut previous_end: Option<usize> = None;
    for row in &rows {
        assert!(row.line_start <= row.line_end);
        assert!(row.line_end < text.len());
        if let Some(end) = previous_end {
            assert!(end < row.line_start);
        }
        previous_end = Some(row.line_end);
    }
    assert_eq!((rows[0].line_start, rows[0].line_end), (0, 2));
}

#[test]
fn no_lines_give_no_rows() {
    let (rows, columns) = parse_rows(0, &Vec::new(), &Extractor::new());
    assert!(rows.is_empty());
    assert!(columns.is_empty());
}

#[test]
fn parsed_values_are_copied_level_by_level() {
    let parsed: serde_json::Value = serde_json::from_str(r#"{"b":[1,{"c":null}],"a":"x"}"#).unwrap();
    let value = log_viewer::json::lift_value(&parsed);
    let expected = JsonValue::Object(vec![
        ("a".to_string(), JsonValue::Text("x".to_string())),
        (
            "b".to_string(),
            JsonValue::Array(vec![
                JsonValue::Number("1".to_string()),
                JsonValue::Object(vec![("c".to_string(), JsonValue::Null)]),
            ]),
        ),
    ]);
    assert_eq!(value, expected);
}

#[test]
fn a_record_that_does_not_parse_holds_its_text_as_message() {
    let parsed = parse_json("{\"k\":1}");
    assert_eq!(log_viewer::record::value_or_message(parsed, "ignored"), parse_json("{\"k\":1}").unwrap());
    assert_eq!(
        log_viewer::record::value_or_message(None, "plain"),
        JsonValue::Object(vec![("msg".to_string(), JsonValue::Text("plain".to_string()))])
    );
}

#[test]
fn integer_timestamps_split_at_the_threshold() {
    assert_eq!(split_integer_timestamp(1700000000), (1700000000, 0));
    assert_eq!(split_integer_timestamp(1700000000000), (1700000000, 0));
    assert_eq!(split_integer_timestamp(1700000000999), (1700000000, 999_000_000));
    assert_eq!(split_integer_timestamp(10_000_000_000), (10_000_000_000, 0));
    assert_eq!(split_integer_timestamp(10_000_000_001), (10_000_000, 1_000_000));
    assert_eq!(split_integer_timestamp(-1), (-1, 0));
    assert_eq!(split_integer_timestamp(i64::MAX), (9223372036854775, 807_000_000));
}
