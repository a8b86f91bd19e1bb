use log_viewer::engine::{Engine, Loaded};
use log_viewer::extract::Extractor;
use log_viewer::indexer::{build_catalog, index_single_file, IndexEvent, ParsedFile};
use log_viewer::watch::WatchEvent;

fn parsed(path: &str, content: &str) -> ParsedFile {
    index_single_file(0, path, content.as_bytes(), &Extractor::new())
}

fn loaded_engine() -> Engine {
    let files = vec![
        parsed("/logs/a.log", "{\"msg\":\"a1\",\"time\":\"100\",\"level\":\"info\"}\n{\"msg\":\"a2\",\"time\":\"400\",\"level\":\"error\"}\n"),
        parsed("/logs/b.log", "{\"msg\":\"b1\",\"time\":\"200\",\"level\":\"error\",\"traceId\":\"t\"}\n"),
        parsed("/logs/c.log", "{\"msg\":\"c1\",\"time\":\"300\",\"level\":\"info\"}\n"),
    ];
    let mut engine = Engine::new();
    engine.start_index();
    assert_eq!(engine.on_index_event(IndexEvent::Finished(Ok(build_catalog(files, false)))), None);
    engine
}

fn messages(engine: &Engine) -> Vec<String> {
    engine.filtered.iter().map(|index| engine.catalog.rows[*index].msg.clone().unwrap()).collect()
}

fn texts(list: &[&str]) -> Vec<String> {
    list.iter().map(|text| text.to_string()).collect()
}

fn content(path: &str, bytes: &str) -> Loaded {
    Loaded { path: path.to_string(), bytes: Some(bytes.as_bytes().to_vec()) }
}

#[test]
fn a_new_engine_is_empty_and_live() {
    let engine = Engine::new();
    assert!(engine.catalog.files.is_empty() && engine.catalog.rows.is_empty());
    assert!(engine.filtered.is_empty());
    assert!(!engine.has_rows());
    assert_eq!(engine.selected, None);
    assert_eq!((engine.page, engine.page_size), (0, 200));
    assert_eq!((engine.ctx_before, engine.ctx_after), (2, 2));
    assert!(engine.sort_desc && engine.live_mode && !engine.indexing);
    assert_eq!(engine.visible_columns, texts(&["traceId", "requestId"]));
    assert_eq!(engine.page_count(), 1);
}

#[test]
fn a_finished_index_is_installed_newest_first() {
    let engine = loaded_engine();
    assert!(!engine.indexing);
    assert_eq!(engine.index_progress, None);
    assert_eq!(messages(&engine), texts(&["a2", "c1", "b1", "a1"]));
    assert_eq!(engine.filtered, vec![0, 1, 2, 3]);
    assert_eq!(engine.visible_columns, texts(&["traceId"]));
    assert!(engine.has_rows());
}

#[test]
fn progress_and_failure_events() {
    let mut engine = loaded_engine();
    engine.start_index();
    assert!(engine.indexing);
    assert_eq!(engine.on_index_event(IndexEvent::Progress { processed: 7, total: 5 }), None);
    assert_eq!(engine.index_progress, Some((5, 5)));
    assert_eq!(engine.on_index_event(IndexEvent::Progress { processed: 3, total: 0 }), None);
    assert_eq!(engine.index_progress, Some((1, 0)));
    let failure = engine.on_index_event(IndexEvent::Finished(Err("no such root".to_string())));
    assert_eq!(failure, Some("no such root".to_string()));
    assert!(!engine.indexing);
    assert_eq!(messages(&engine), texts(&["a2", "c1", "b1", "a1"]));
}

#[test]
fn filters_and_sort_compose() {
    let mut engine = loaded_engine();
    engine.filters.level = "error".to_string();
    engine.selected = Some(1);
    engine.page = 3;
    engine.apply_filters();
    assert_eq!(messages(&engine), texts(&["a2", "b1"]));
    assert_eq!((engine.selected, engine.page), (None, 0));
    engine.apply_sort(false);
    assert_eq!(messages(&engine), texts(&["b1", "a2"]));
    assert!(!engine.sort_desc);
}

#[test]
fn events_wait_only_in_live_mode() {
    let mut engine = loaded_engine();
    assert!(engine.take_pending().is_none());
    assert!(engine.queue_watch_event(WatchEvent::FileChanged("/logs/b.log".to_string())));
    assert!(engine.queue_watch_event(WatchEvent::FileRemoved("/logs/b.log".to_string())));
    engine.indexing = true;
    assert!(engine.take_pending().is_none());
    engine.indexing = false;
    let pending = engine.take_pending().unwrap();
    assert_eq!(pending.changed, Vec::<String>::new());
    assert_eq!(pending.removed, texts(&["/logs/b.log"]));
    assert!(engine.pending_watch_events.is_empty());
    engine.live_mode = false;
    assert!(!engine.queue_watch_event(WatchEvent::FileChanged("/logs/b.log".to_string())));
    assert!(engine.pending_watch_events.is_empty());
}

#[test]
fn a_batch_removes_then_refreshes_then_resyncs() {
    let mut engine = loaded_engine();
    engine.filters.level = "info".to_string();
    engine.apply_filters();
    engine.selected = Some(0);
    let removed = texts(&["/logs/b.log", "/logs/unknown.log"]);
    let loaded = vec![
        content("/logs/a.log", "{\"msg\":\"a1\",\"time\":\"100\",\"level\":\"info\"}\n{\"msg\":\"a2\",\"time\":\"400\",\"level\":\"error\"}\n"),
        Loaded { path: "/logs/locked.log".to_string(), bytes: None },
        content("/logs/d.log", "{\"msg\":\"d1\",\"time\":\"500\",\"level\":\"info\",\"requestId\":\"r\"}\n"),
    ];
    let report = engine.apply_batch(&removed, &loaded, &Extractor::new());
    assert_eq!((report.removed_files, report.updated_files), (1, 1));
    assert_eq!(report.failed, texts(&["/logs/locked.log"]));
    let paths: Vec<&str> = engine.catalog.files.iter().map(|file| file.path.as_str()).collect();
    assert_eq!(paths, vec!["/logs/a.log", "/logs/c.log", "/logs/d.log"]);
    let all: Vec<(String, usize)> =
        engine.catalog.rows.iter().map(|row| (row.msg.clone().unwrap(), row.file_id)).collect();
    assert_eq!(
        all,
        vec![("d1".to_string(), 2), ("a2".to_string(), 0), ("c1".to_string(), 1), ("a1".to_string(), 0)]
    );
    assert_eq!(messages(&engine), texts(&["d1", "c1", "a1"]));
    assert_eq!(engine.selected, None);
    assert_eq!(engine.catalog.columns, texts(&["level", "msg", "requestId", "time"]));
    assert_eq!(engine.visible_columns, Vec::<String>::new());
}

#[test]
fn a_batch_without_effect_leaves_the_engine_alone() {
    let mut engine = loaded_engine();
    engine.selected = Some(2);
    engine.page = 1;
    let before_rows = engine.catalog.clone();
    let loaded = vec![content("/logs/c.log", "{\"msg\":\"c1\",\"time\":\"300\",\"level\":\"info\"}")];
    let report = engine.apply_batch(&texts(&["/logs/none.log"]), &loaded, &Extractor::new());
    assert_eq!((report.removed_files, report.updated_files), (0, 0));
    assert!(report.failed.is_empty());
    assert_eq!(engine.catalog, before_rows);
    assert_eq!((engine.selected, engine.page), (Some(2), 1));
}

#[test]
fn context_range_stays_inside_the_file() {
    let mut engine = Engine::new();
    engine.sort_desc = false;
    let lines: String = (0..10).map(|i| format!("{{\"msg\":\"m{i}\"}}\n")).collect();
    engine.install_catalog(build_catalog(vec![parsed("f", &lines)], false));
    let first = engine.catalog.rows[0].clone();
    let fifth = engine.catalog.rows[5].clone();
    let last = engine.catalog.rows[9].clone();
    assert_eq!(engine.context_range(&first), (0, 3));
    assert_eq!(engine.context_range(&fifth), (3, 8));
    assert_eq!(engine.context_range(&last), (7, 10));
    engine.ctx_before = 0;
    engine.ctx_after = 50;
    assert_eq!(engine.context_range(&fifth), (5, 10));
}

#[test]
fn columns_resolve_against_the_catalog() {
    let engine = loaded_engine();
    assert_eq!(engine.resolve_column("trace"), Some("traceId".to_string()));
    assert_eq!(engine.resolve_column("LEVEL"), Some("level".to_string()));
    assert_eq!(engine.resolve_column("tim"), Some("time".to_string()));
    assert_eq!(engine.resolve_column("unrelated"), None);
    assert_eq!(Engine::new().resolve_column("level"), None);
}

#[test]
fn pages_cover_the_filtered_rows() {
    let mut engine = Engine::new();
    let lines: String = (0..10).map(|i| format!("{{\"msg\":\"m{i}\"}}\n")).collect();
    engine.install_catalog(build_catalog(vec![parsed("f", &lines)], false));
    engine.page_size = 3;
    assert_eq!(engine.page_count(), 4);
    engine.page_size = 5;
    assert_eq!(engine.page_count(), 2);
    engine.page_size = 10;
    assert_eq!(engine.page_count(), 1);
    engine.page_size = 11;
    assert_eq!(engine.page_count(), 1);
}

#[test]
fn syncing_restores_order_and_columns() {
    let mut engine = loaded_engine();
    engine.catalog.rows.swap(0, 3);
    engine.catalog.columns.clear();
    engine.visible_columns = texts(&["TRACEID", "level", "unknown"]);
    engine.sync_after_catalog_changes();
    assert_eq!(messages(&engine), texts(&["a2", "c1", "b1", "a1"]));
    assert_eq!(engine.catalog.columns, texts(&["level", "msg", "time", "traceId"]));
    assert_eq!(engine.visible_columns, texts(&["traceId"]));
}

#[test]
fn pages_and_selection_move_within_their_bounds() {
    let mut engine = Engine::new();
    engine.sort_desc = false;
    let lines: String = (0..10).map(|i| format!("{{\"msg\":\"m{i}\"}}\n")).collect();
    engine.install_catalog(build_catalog(vec![parsed("f", &lines)], false));
    engine.page_size = 4;
    assert_eq!(engine.page_range(), (0, 4));
    engine.prev_page();
    assert_eq!(engine.page, 0);
    engine.next_page();
    assert_eq!(engine.page_range(), (4, 8));
    engine.next_page();
    assert_eq!(engine.page_range(), (8, 10));
    engine.next_page();
    assert_eq!(engine.page, 2);
    engine.page = 7;
    assert_eq!(engine.page_range(), (10, 10));
    engine.prev_page();
    assert_eq!(engine.page, 6);

    assert_eq!(engine.selected_row(), None);
    engine.select_next();
    engine.select_previous();
    assert_eq!(engine.selected, None);
    engine.select(8);
    assert_eq!(engine.selected_row(), Some(8));
    engine.select_next();
    assert_eq!(engine.selected, Some(9));
    engine.select_next();
    assert_eq!(engine.selected, Some(9));
    engine.select(0);
    engine.select_previous();
    assert_eq!(engine.selected, Some(0));
    engine.select(1);
    engine.select_previous();
    assert_eq!(engine.selected, Some(0));
    engine.select(10);
    assert_eq!(engine.selected, None);
}
