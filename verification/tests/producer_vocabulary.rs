use log_viewer::producer::{
    extract_type_name, log_error, parse_size, separator, ContextKey, Level, RotationOptions,
};
use log_viewer::record::is_skippable_line;

#[derive(Debug)]
struct SampleError;

impl std::fmt::Display for SampleError {
    fn fmt(&self, f: &mut std::fmt::Formatter<'_>) -> std::fmt::Result {
        f.write_str("sample error")
    }
}

impl std::error::Error for SampleError {}

fn causes_of(error: &dyn std::error::Error) -> Vec<String> {
    let mut causes = Vec::new();
    let mut current = error.source();
    while let Some(cause) = current {
        causes.push(cause.to_string());
        current = cause.source();
    }
    causes
}

#[test]
fn log_error_captures_message() {
    let error = SampleError;
    let logged = log_error(
        error.to_string(),
        "producer_vocabulary::SampleError",
        format!("{:?}", error),
        causes_of(&error),
    );
    assert_eq!(logged.message, "sample error");
    assert_eq!(logged.name, "SampleError");
    assert!(logged.stack.is_some());
}

#[test]
fn rotation_options_defaults() {
    let options = RotationOptions::default();
    assert_eq!(options.filename_prefix, "output");
}

#[test]
fn rotation_defaults_name_the_sentinel_directory() {
    let options = RotationOptions::default();
    assert_eq!(options.path, ".smooai-logs");
    assert_eq!(options.extension, "ansi");
    assert_eq!(options.size, Some("1M".to_string()));
    assert_eq!(options.interval, Some("1d".to_string()));
    assert_eq!(options.max_files, 30);
    assert_eq!(options.max_total_size, Some("100M".to_string()));
    assert!(log_viewer::indexer::is_log_dir_name(&options.path));
    assert!(log_viewer::indexer::has_log_extension(&format!("{}-2024-01-01-000.{}", options.filename_prefix, options.extension)));
}

#[test]
fn logged_error_keeps_its_parts() {
    let logged = log_error("m".to_string(), "a::b::C", "C { x: 1 }".to_string(), vec!["inner".to_string()]);
    assert_eq!(logged.name, "C");
    assert_eq!(logged.stack, Some("C { x: 1 }".to_string()));
    assert_eq!(logged.causes, vec!["inner".to_string()]);
}

#[test]
fn type_names_lose_their_path() {
    for full in ["std::io::Error", "Error", "", "a:::b", "a::", "::", ":", "alloc::vec::Vec<core::option::Option<u8>>"] {
        assert_eq!(extract_type_name(full), full.rsplit("::").next().unwrap_or("Error"), "{full:?}");
    }
    assert_eq!(extract_type_name("std::io::Error"), "Error");
}

#[test]
fn levels_have_names_and_codes() {
    let all = [Level::Trace, Level::Debug, Level::Info, Level::Warn, Level::Error, Level::Fatal];
    let names = ["trace", "debug", "info", "warn", "error", "fatal"];
    let codes = [10, 20, 30, 40, 50, 60];
    for i in 0..6 {
        assert_eq!(all[i].as_str(), names[i]);
        assert_eq!(all[i].code(), codes[i]);
        assert_eq!(Level::parse_level(names[i]), Some(all[i]));
        assert_eq!(Level::parse_level(&names[i].to_uppercase()), Some(all[i]));
    }
    assert_eq!(Level::parse_level("Warning"), Some(Level::Warn));
    assert_eq!(Level::parse_level("warnings"), None);
    assert_eq!(Level::parse_level(""), None);
    assert_eq!(Level::parse_level(" info"), None);
}

#[test]
fn context_keys_are_the_record_keys() {
    let expected = [
        (ContextKey::Level, "level"),
        (ContextKey::LogLevel, "LogLevel"),
        (ContextKey::Time, "time"),
        (ContextKey::Message, "msg"),
        (ContextKey::Name, "name"),
        (ContextKey::CorrelationId, "correlationId"),
        (ContextKey::RequestId, "requestId"),
        (ContextKey::TraceId, "traceId"),
        (ContextKey::Namespace, "namespace"),
        (ContextKey::Service, "service"),
        (ContextKey::Duration, "duration"),
        (ContextKey::Error, "error"),
        (ContextKey::ErrorDetails, "errorDetails"),
        (ContextKey::Context, "context"),
        (ContextKey::User, "user"),
        (ContextKey::Http, "http"),
    ];
    for (key, text) in expected {
        assert_eq!(key.as_str(), text);
    }
}

#[test]
fn the_separator_is_a_line_of_dashes_that_is_skipped() {
    let line = separator();
    assert_eq!(line.len(), 100);
    assert!(line.chars().all(|c| c == '-'));
    assert!(is_skippable_line(line));
}

#[test]
fn sizes_count_bytes_kibibytes_mebibytes_and_gibibytes() {
    assert_eq!(parse_size("0"), Ok(0));
    assert_eq!(parse_size("512"), Ok(512));
    assert_eq!(parse_size("1K"), Ok(1024));
    assert_eq!(parse_size("1k"), Ok(1024));
    assert_eq!(parse_size(" 1M "), Ok(1024 * 1024));
    assert_eq!(parse_size("100m"), Ok(100 * 1024 * 1024));
    assert_eq!(parse_size("2G"), Ok(2 * 1024 * 1024 * 1024));
    assert_eq!(parse_size("+3g"), Ok(3 * 1024 * 1024 * 1024));
    assert_eq!(parse_size("007K"), Ok(7 * 1024));
    assert_eq!(parse_size("18446744073709551615"), Ok(u64::MAX));
    assert_eq!(parse_size("17179869183G"), Ok(17179869183 * 1024 * 1024 * 1024));
}

#[test]
fn the_default_rotation_sizes_are_sizes() {
    let options = RotationOptions::default();
    assert_eq!(parse_size(&options.size.unwrap()), Ok(1024 * 1024));
    assert_eq!(parse_size(&options.max_total_size.unwrap()), Ok(100 * 1024 * 1024));
}

#[test]
fn what_is_no_size_is_refused() {
    for setting in ["", " ", "K", "M", "G", "1T", "1KB", "1 K", "-1", "1.5M", "one", "1KK", "18446744073709551616"] {
        assert_eq!(parse_size(setting), Err("invalid size"), "{setting:?}");
    }
    assert_eq!(parse_size("18446744073709551615K"), Err("invalid size"));
    assert_eq!(parse_size("17179869184G"), Err("invalid size"));
}
