use log_viewer::extract::Extractor;
use log_viewer::filter::{apply_filters, build_haystack, build_matcher, field_test, Filters, Matchers, RegexCache};
use log_viewer::model::Row;
use log_viewer::record::parse_rows;

fn rows_of(text: &[&str]) -> Vec<Row> {
    let lines: Vec<String> = text.iter().map(|line| line.to_string()).collect();
    parse_rows(0, &lines, &Extractor::new()).0
}

fn sample_rows() -> Vec<Row> {
    rows_of(&[
        r#"{"level":"error","service":"api","msg":"boom","requestId":"r-1"}"#,
        r#"{"level":"error","service":"web","msg":"crash","traceId":"t-9"}"#,
        r#"{"level":"info","service":"api","msg":"fine","correlationId":"c-7","namespace":"GET /x"}"#,
        r#"{"LogLevel":"ERROR","service":"API","msg":"upper"}"#,
        r#"{"msg":"bare","extra":{"note":"Needle here"}}"#,
    ])
}

fn pick(filters: &Filters) -> Vec<usize> {
    apply_filters(&sample_rows(), filters, &mut RegexCache::new())
}

#[test]
fn cleared_filters_return_every_row_in_order() {
    assert_eq!(pick(&Filters::new()), vec![0, 1, 2, 3, 4]);
    assert_eq!(pick(&Filters::default()), vec![0, 1, 2, 3, 4]);
    let mut regex = Filters::new();
    regex.regex_mode = true;
    assert_eq!(pick(&regex), vec![0, 1, 2, 3, 4]);
}

#[test]
fn level_and_service_must_both_match() {
    let mut filters = Filters::new();
    filters.level = "err".to_string();
    assert_eq!(pick(&filters), vec![0, 1, 3]);
    filters.service = "api".to_string();
    assert_eq!(pick(&filters), vec![0, 3]);
    filters.level = String::new();
    assert_eq!(pick(&filters), vec![0, 2, 3]);
}

#[test]
fn substring_match_ignores_ascii_case() {
    let mut filters = Filters::new();
    filters.service = "ApI".to_string();
    assert_eq!(pick(&filters), vec![0, 2, 3]);
}

#[test]
fn a_missing_field_fails_an_active_criterion() {
    let mut filters = Filters::new();
    filters.trace = "t".to_string();
    assert_eq!(pick(&filters), vec![1]);
    let mut filters = Filters::new();
    filters.request = "r-".to_string();
    assert_eq!(pick(&filters), vec![0]);
    let mut filters = Filters::new();
    filters.corr = "c-7".to_string();
    filters.namespace = "get".to_string();
    assert_eq!(pick(&filters), vec![2]);
}

#[test]
fn free_text_searches_fields_and_flattened_values() {
    let mut filters = Filters::new();
    filters.text = "needle".to_string();
    assert_eq!(pick(&filters), vec![4]);
    filters.text = "api".to_string();
    assert_eq!(pick(&filters), vec![0, 2, 3]);
    filters.text = "boom r-1".to_string();
    assert_eq!(pick(&filters), vec![0]);
    filters.text = "boom api".to_string();
    assert_eq!(pick(&filters), Vec::<usize>::new());
}

#[test]
fn haystack_joins_fields_then_values_with_spaces() {
    let rows = rows_of(&[r#"{"msg":"m","level":"l","correlationId":"c","b":"2","a":"1"}"#]);
    assert_eq!(build_haystack(&rows[0]), "m c l 1 2 c l m ");
}

#[test]
fn regex_mode_uses_regular_expressions() {
    let mut filters = Filters::new();
    filters.regex_mode = true;
    filters.level = "^err".to_string();
    assert_eq!(pick(&filters), vec![0, 1]);
    filters.level = "(?i)^ERR".to_string();
    assert_eq!(pick(&filters), vec![0, 1, 3]);
    filters.text = "cra.h".to_string();
    assert_eq!(pick(&filters), vec![1]);
}

#[test]
fn an_invalid_regex_constrains_nothing() {
    let mut filters = Filters::new();
    filters.regex_mode = true;
    filters.level = "(unclosed".to_string();
    assert_eq!(pick(&filters), vec![0, 1, 2, 3, 4]);
    filters.service = "^web$".to_string();
    assert_eq!(pick(&filters), vec![1]);
}

#[test]
fn the_cache_keeps_each_valid_pattern_once() {
    let mut cache = RegexCache::new();
    assert!(cache.compile("").is_none());
    assert!(cache.compile("(bad").is_none());
    assert_eq!(cache.len(), 0);
    let first = cache.compile("a+b").unwrap();
    assert_eq!(first.as_str(), "a+b");
    assert!(first.is_match("xaab"));
    let again = cache.compile("a+b").unwrap();
    assert_eq!(again.as_str(), "a+b");
    assert_eq!(cache.len(), 1);
    assert!(cache.compile("c").is_some());
    assert_eq!(cache.len(), 2);
}

#[test]
fn matchers_follow_the_mode() {
    let mut cache = RegexCache::new();
    assert!(build_matcher(&mut cache, "", false).is_none());
    assert!(build_matcher(&mut cache, "", true).is_none());
    assert!(build_matcher(&mut cache, "[", true).is_none());
    let plain = build_matcher(&mut cache, "A.C", false).unwrap();
    assert!(plain.test("xa.cx"));
    assert!(!plain.test("abc"));
    let pattern = build_matcher(&mut cache, "A.C", true).unwrap();
    assert!(pattern.test("ABC"));
    assert!(!pattern.test("abc"));
    assert!(field_test(&None, &None));
    assert!(!field_test(&Some(plain), &None));
}

#[test]
fn compiled_matchers_test_single_rows() {
    let rows = sample_rows();
    let mut filters = Filters::new();
    filters.level = "info".to_string();
    let matchers = Matchers::compile(&filters, &mut RegexCache::new());
    assert!(!matchers.test(&rows[0], &filters));
    assert!(matchers.test(&rows[2], &filters));
}
