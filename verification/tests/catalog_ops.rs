use log_viewer::catalog::{drop_file_rows, same_lines, Catalog};
use log_viewer::extract::Extractor;
use log_viewer::indexer::{
    assemble, build_catalog, has_log_extension, index_file_or_empty, index_single_file, is_log_dir_name,
    progress_event,
    sort_by_path, IndexEvent, ParsedFile,
};
use log_viewer::model::{Row, Timestamp};
use log_viewer::order::{instant_before, reversed, row_before_or_equal, sort_ascending, sort_rows};

fn parsed(path: &str, content: &str) -> ParsedFile {
    index_single_file(0, path, content.as_bytes(), &Extractor::new())
}

fn three_files() -> Catalog {
    let files = vec![
        parsed("/logs/a.log", "{\"msg\":\"a1\",\"time\":\"100\"}\n{\"msg\":\"a2\",\"time\":\"400\"}\n"),
        parsed("/logs/b.log", "{\"msg\":\"b1\",\"time\":\"200\",\"only_b\":1}\n"),
        parsed("/logs/c.log", "{\"msg\":\"c1\",\"time\":\"300\"}\n{\"msg\":\"c2\"}\n"),
    ];
    build_catalog(files, false)
}

fn summary(catalog: &Catalog) -> Vec<(String, usize, usize)> {
    catalog
        .rows
        .iter()
        .map(|row| (row.msg.clone().unwrap_or_default(), row.file_id, row.line_start))
        .collect()
}

fn entry(msg: &str, file_id: usize, line: usize) -> (String, usize, usize) {
    (msg.to_string(), file_id, line)
}

#[test]
fn one_file_is_indexed_from_its_bytes() {
    let file = index_single_file(4, "x.log", b"\x1b[32m{\"msg\":\"hi\"}\x1b[0m\r\n---\n", &Extractor::new());
    assert_eq!(file.path, "x.log");
    assert_eq!(file.sanitized_lines, vec!["{\"msg\":\"hi\"}".to_string(), "---".to_string()]);
    assert_eq!(file.rows.len(), 1);
    assert_eq!(file.rows[0].file_id, 4);
    assert_eq!(file.rows[0].msg, Some("hi".to_string()));
    assert_eq!(file.columns, vec!["msg".to_string()]);
    let empty = ParsedFile::empty("gone.log".to_string());
    assert_eq!(empty.path, "gone.log");
    assert!(empty.sanitized_lines.is_empty() && empty.rows.is_empty() && empty.columns.is_empty());
}

#[test]
fn eligible_names() {
    assert!(is_log_dir_name(".smooai-logs"));
    assert!(!is_log_dir_name("smooai-logs"));
    assert!(!is_log_dir_name(".smooai-logs2"));
    for name in ["a.ansi", "a.log", "a.json", "a.jsonl", "output-2024-01-01-000.ansi", "x.tar.log"] {
        assert!(has_log_extension(name), "{name}");
    }
    for name in ["a.txt", "log", ".log", ".json", "a.LOG", "a.log.gz", "a.jsonlx", "", "a."] {
        assert!(!has_log_extension(name), "{name}");
    }
    for name in ["a.ansi", ".log", "log", "a.b.json", "a.", "..", "a.log.gz"] {
        let by_path = std::path::Path::new(name)
            .extension()
            .map(|ext| ext == "ansi" || ext == "log" || ext == "json" || ext == "jsonl")
            .unwrap_or(false);
        assert_eq!(has_log_extension(name), by_path, "{name}");
    }
}

#[test]
fn files_go_in_path_order_and_rows_in_time_order() {
    let files = vec![
        parsed("/logs/c.log", "{\"msg\":\"c1\",\"time\":\"300\"}\n{\"msg\":\"c2\"}\n"),
        parsed("/logs/a.log", "{\"msg\":\"a1\",\"time\":\"100\"}\n{\"msg\":\"a2\",\"time\":\"400\"}\n"),
        parsed("/logs/b.log", "{\"msg\":\"b1\",\"time\":\"200\",\"only_b\":1}\n"),
    ];
    let catalog = build_catalog(files, false);
    let paths: Vec<&str> = catalog.files.iter().map(|file| file.path.as_str()).collect();
    assert_eq!(paths, vec!["/logs/a.log", "/logs/b.log", "/logs/c.log"]);
    assert_eq!(
        summary(&catalog),
        vec![entry("c2", 2, 1), entry("a1", 0, 0), entry("b1", 1, 0), entry("c1", 2, 0), entry("a2", 0, 1)]
    );
    assert_eq!(catalog.columns, vec!["msg".to_string(), "only_b".to_string(), "time".to_string()]);
    assert_eq!(catalog, three_files());
}

#[test]
fn newest_first_is_the_reverse_order() {
    let mut oldest = three_files();
    let files = vec![
        parsed("/logs/a.log", "{\"msg\":\"a1\",\"time\":\"100\"}\n{\"msg\":\"a2\",\"time\":\"400\"}\n"),
        parsed("/logs/b.log", "{\"msg\":\"b1\",\"time\":\"200\",\"only_b\":1}\n"),
        parsed("/logs/c.log", "{\"msg\":\"c1\",\"time\":\"300\"}\n{\"msg\":\"c2\"}\n"),
    ];
    let newest = build_catalog(files, true);
    oldest.rows.reverse();
    assert_eq!(newest.rows, oldest.rows);
    let mut again = newest.clone();
    again.sort(false);
    assert_eq!(again, three_files());
}

#[test]
fn a_file_without_content_contributes_nothing() {
    let files = vec![ParsedFile::empty("/logs/b.log".to_string()), parsed("/logs/a.log", "{\"msg\":\"a\"}")];
    let catalog = build_catalog(files, false);
    assert_eq!(catalog.files.len(), 2);
    assert_eq!(catalog.files[1].path, "/logs/b.log");
    assert!(catalog.files[1].sanitized_lines.is_empty());
    assert_eq!(summary(&catalog), vec![entry("a", 0, 0)]);
    assert_eq!(build_catalog(Vec::new(), true), Catalog::new());
}

#[test]
fn sorting_by_path_and_assembling_are_the_two_halves() {
    let files = vec![parsed("b", "{\"msg\":\"b\"}"), parsed("a/z", "{\"msg\":\"az\"}"), parsed("a", "{\"msg\":\"a\"}")];
    let sorted = sort_by_path(files);
    let paths: Vec<&str> = sorted.iter().map(|file| file.path.as_str()).collect();
    assert_eq!(paths, vec!["a", "a/z", "b"]);
    let catalog = assemble(sorted, false);
    assert_eq!(summary(&catalog), vec![entry("a", 0, 0), entry("az", 1, 0), entry("b", 2, 0)]);
}

#[test]
fn removing_the_middle_file_renumbers_the_last() {
    let mut catalog = three_files();
    assert!(catalog.remove_file_by_path("/logs/b.log"));
    let paths: Vec<&str> = catalog.files.iter().map(|file| file.path.as_str()).collect();
    assert_eq!(paths, vec!["/logs/a.log", "/logs/c.log"]);
    assert_eq!(summary(&catalog), vec![entry("c2", 1, 1), entry("a1", 0, 0), entry("c1", 1, 0), entry("a2", 0, 1)]);
    assert!(!catalog.remove_file_by_path("/logs/b.log"));
    catalog.recompute_columns();
    assert_eq!(catalog.columns, vec!["msg".to_string(), "time".to_string()]);
}

#[test]
fn removing_by_index() {
    let mut catalog = three_files();
    catalog.remove_file(0);
    assert_eq!(summary(&catalog), vec![entry("c2", 1, 1), entry("b1", 0, 0), entry("c1", 1, 0)]);
    assert_eq!(catalog.find_file("/logs/c.log"), Some(1));
    assert_eq!(catalog.find_file("/logs/a.log"), None);
}

#[test]
fn refreshing_an_unchanged_file_changes_nothing() {
    let mut catalog = three_files();
    let before = catalog.clone();
    let same = "{\"msg\":\"b1\",\"time\":\"200\",\"only_b\":1}\n";
    assert!(!catalog.refresh_file("/logs/b.log", same.as_bytes(), &Extractor::new()));
    assert_eq!(catalog, before);
    let touched = "\n\n{\"msg\":\"b1\",\"time\":\"200\",\"only_b\":1}";
    assert!(!catalog.refresh_file("/logs/b.log", touched.as_bytes(), &Extractor::new()));
    assert_eq!(catalog, before);
}

#[test]
fn refreshing_a_changed_file_replaces_its_rows() {
    let mut catalog = three_files();
    let grown = "{\"msg\":\"b1\",\"time\":\"200\",\"only_b\":1}\n{\"msg\":\"b2\"}\n";
    assert!(catalog.refresh_file("/logs/b.log", grown.as_bytes(), &Extractor::new()));
    assert_eq!(catalog.files[1].sanitized_lines.len(), 2);
    assert_eq!(
        summary(&catalog),
        vec![
            entry("c2", 2, 1),
            entry("a1", 0, 0),
            entry("c1", 2, 0),
            entry("a2", 0, 1),
            entry("b1", 1, 0),
            entry("b2", 1, 1)
        ]
    );
}

#[test]
fn refreshing_from_lines_is_refreshing_from_bytes() {
    let mut from_bytes = three_files();
    let mut from_lines = three_files();
    let grown = "{\"msg\":\"b1\"}\n\x1b[1m{\"msg\":\"b2\"}\x1b[0m\r\n";
    assert!(from_bytes.refresh_file("/logs/b.log", grown.as_bytes(), &Extractor::new()));
    let lines = vec!["{\"msg\":\"b1\"}".to_string(), "{\"msg\":\"b2\"}".to_string()];
    assert!(from_lines.refresh_lines("/logs/b.log", lines.clone(), &Extractor::new()));
    assert_eq!(from_bytes, from_lines);
    assert!(!from_lines.refresh_lines("/logs/b.log", lines, &Extractor::new()));
    assert_eq!(from_bytes, from_lines);
}

#[test]
fn refreshing_an_unknown_path_adds_a_file() {
    let mut catalog = three_files();
    assert!(catalog.refresh_file("/logs/d.log", b"{\"msg\":\"d1\"}", &Extractor::new()));
    assert_eq!(catalog.files.len(), 4);
    assert_eq!(catalog.files[3].path, "/logs/d.log");
    assert_eq!(summary(&catalog).last(), Some(&entry("d1", 3, 0)));
    let mut empty = Catalog::new();
    assert!(empty.refresh_file("only", b"", &Extractor::new()));
    assert_eq!(empty.files.len(), 1);
    assert!(empty.rows.is_empty());
}

#[test]
fn rows_of_a_file_can_be_dropped_with_or_without_renumbering() {
    let rows = three_files().rows;
    let kept: Vec<usize> = drop_file_rows(rows.clone(), 1, false).iter().map(|row| row.file_id).collect();
    assert_eq!(kept, vec![2, 0, 2, 0]);
    let moved: Vec<usize> = drop_file_rows(rows, 1, true).iter().map(|row| row.file_id).collect();
    assert_eq!(moved, vec![1, 0, 1, 0]);
    assert!(same_lines(&vec!["a".to_string()], &vec!["a".to_string()]));
    assert!(!same_lines(&vec!["a".to_string()], &vec!["b".to_string()]));
    assert!(!same_lines(&vec!["a".to_string()], &Vec::new()));
}

fn row(ts: Option<(i64, u32)>, file_id: usize, line_start: usize) -> Row {
    let mut rows = three_files().rows;
    let mut row = rows.remove(0);
    row.ts = ts.map(|(secs, nanos)| Timestamp { secs, nanos });
    row.file_id = file_id;
    row.line_start = line_start;
    row.line_end = line_start;
    row
}

#[test]
fn rows_order_by_instant_then_file_then_line() {
    let rows = vec![
        row(Some((5, 0)), 0, 0),
        row(None, 1, 0),
        row(Some((5, 0)), 0, 3),
        row(Some((4, 999)), 2, 0),
        row(None, 0, 2),
        row(Some((5, 1)), 0, 0),
        row(Some((-1, 0)), 9, 9),
        row(Some((5, 0)), 1, 0),
    ];
    let sorted = sort_ascending(rows.clone());
    let keys: Vec<(Option<Timestamp>, usize, usize)> =
        sorted.iter().map(|row| (row.ts, row.file_id, row.line_start)).collect();
    let mut expected: Vec<(Option<(i64, u32)>, usize, usize)> =
        rows.iter().map(|row| (row.ts.map(|t| (t.secs, t.nanos)), row.file_id, row.line_start)).collect();
    expected.sort();
    let expected: Vec<(Option<Timestamp>, usize, usize)> = expected
        .into_iter()
        .map(|(ts, file, line)| (ts.map(|(secs, nanos)| Timestamp { secs, nanos }), file, line))
        .collect();
    assert_eq!(keys, expected);
    let newest = sort_rows(rows.clone(), true);
    assert_eq!(newest, reversed(sorted.clone()));
    assert_eq!(sort_rows(rows, false), sorted);
    assert!(row_before_or_equal(&sorted[0], &sorted[1]));
    assert!(!row_before_or_equal(&sorted[7], &sorted[0]));
    assert!(instant_before(&None, &Some(Timestamp { secs: i64::MIN, nanos: 0 })));
    assert!(!instant_before(&None, &None));
}

#[test]
fn progress_never_exceeds_the_total() {
    assert_eq!(progress_event(0, 3), IndexEvent::Progress { processed: 0, total: 3 });
    assert_eq!(progress_event(3, 3), IndexEvent::Progress { processed: 3, total: 3 });
    assert_eq!(progress_event(5, 3), IndexEvent::Progress { processed: 3, total: 3 });
    assert_eq!(progress_event(1, 0), IndexEvent::Progress { processed: 0, total: 0 });
}

#[test]
fn a_file_that_was_not_read_is_indexed_as_empty() {
    let missing = index_file_or_empty(2, "gone.log", None, &Extractor::new());
    assert_eq!(missing, ParsedFile::empty("gone.log".to_string()));
    let read = index_file_or_empty(2, "here.log", Some(b"{\"msg\":\"x\"}\n"), &Extractor::new());
    assert_eq!(read, index_single_file(2, "here.log", b"{\"msg\":\"x\"}\n", &Extractor::new()));
    assert_eq!(read.rows.len(), 1);
}

#[test]
fn rows_that_agree_keep_their_order() {
    let mut rows = Vec::new();
    for (index, ts) in [5, 3, 5, 3, 5, 1, 3].iter().enumerate() {
        let mut one = row(Some((*ts, 0)), 0, 0);
        one.msg = Some(format!("m{index}"));
        rows.push(one);
    }
    let order = |rows: &Vec<Row>| -> Vec<String> { rows.iter().map(|row| row.msg.clone().unwrap()).collect() };
    let sorted = sort_ascending(rows.clone());
    assert_eq!(order(&sorted), vec!["m5", "m1", "m3", "m6", "m0", "m2", "m4"]);
    let newest = sort_rows(rows, true);
    assert_eq!(order(&newest), vec!["m4", "m2", "m0", "m6", "m3", "m1", "m5"]);
}
