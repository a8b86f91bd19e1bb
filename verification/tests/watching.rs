use log_viewer::batch::collapse_events;
use log_viewer::watch::{events_of, Observed, PollOutcome, Snapshot, WatchEvent, Watcher};

fn seen(path: &str, modified: i128, size: u64) -> Observed {
    Observed { path: path.to_string(), snapshot: Some(Snapshot { modified, size }) }
}

fn unreadable(path: &str) -> Observed {
    Observed { path: path.to_string(), snapshot: None }
}

fn outcome(changed: &[&str], removed: &[&str]) -> PollOutcome {
    PollOutcome {
        changed: changed.iter().map(|p| p.to_string()).collect(),
        removed: removed.iter().map(|p| p.to_string()).collect(),
    }
}

#[test]
fn two_polls_over_an_untouched_file_emit_nothing() {
    let mut watcher = Watcher::new();
    let listing = vec![seen("a.log", 10, 100)];
    assert_eq!(watcher.poll(&listing), outcome(&["a.log"], &[]));
    assert_eq!(watcher.poll(&listing), outcome(&[], &[]));
    assert_eq!(watcher.poll(&listing), outcome(&[], &[]));
}

#[test]
fn priming_reports_nothing_and_fixes_the_state() {
    let mut watcher = Watcher::new();
    let listing = vec![seen("b.log", 10, 100), seen("a.log", 20, 5), unreadable("c.log")];
    watcher.prime(&listing);
    assert_eq!(watcher.paths, vec!["a.log".to_string(), "b.log".to_string()]);
    assert_eq!(watcher.lookup("a.log"), Some(Snapshot { modified: 20, size: 5 }));
    assert_eq!(watcher.lookup("c.log"), None);
    assert_eq!(watcher.poll(&listing), outcome(&[], &[]));
}

#[test]
fn a_single_change_emits_one_event_for_that_path() {
    let mut watcher = Watcher::new();
    watcher.prime(&vec![seen("a.log", 10, 100), seen("b.log", 10, 100)]);
    let grown = vec![seen("a.log", 10, 100), seen("b.log", 11, 120)];
    assert_eq!(watcher.poll(&grown), outcome(&["b.log"], &[]));
    assert_eq!(watcher.poll(&grown), outcome(&[], &[]));
    assert_eq!(watcher.lookup("b.log"), Some(Snapshot { modified: 11, size: 120 }));
}

#[test]
fn what_counts_as_a_change() {
    let mut watcher = Watcher::new();
    watcher.prime(&vec![seen("a.log", 10, 100)]);
    assert_eq!(watcher.poll(&vec![seen("a.log", 9, 100)]), outcome(&[], &[]));
    assert_eq!(watcher.lookup("a.log"), Some(Snapshot { modified: 10, size: 100 }));
    assert_eq!(watcher.poll(&vec![seen("a.log", 11, 100)]), outcome(&["a.log"], &[]));
    assert_eq!(watcher.poll(&vec![seen("a.log", 5, 99)]), outcome(&[], &[]));
    assert_eq!(watcher.lookup("a.log"), Some(Snapshot { modified: 11, size: 100 }));
    assert_eq!(watcher.poll(&vec![seen("a.log", 11, 99)]), outcome(&["a.log"], &[]));
    assert_eq!(watcher.lookup("a.log"), Some(Snapshot { modified: 11, size: 99 }));
    assert_eq!(watcher.poll(&vec![seen("a.log", 12, 99)]), outcome(&["a.log"], &[]));
    assert_eq!(watcher.poll(&vec![seen("a.log", 12, 99)]), outcome(&[], &[]));
    assert_eq!(watcher.lookup("a.log"), Some(Snapshot { modified: 12, size: 99 }));
}

#[test]
fn missing_files_are_removed_and_unreadable_ones_kept() {
    let mut watcher = Watcher::new();
    watcher.prime(&vec![seen("c.log", 1, 1), seen("a.log", 1, 1), seen("b.log", 1, 1)]);
    let listing = vec![unreadable("b.log"), seen("d.log", 2, 2)];
    let result = watcher.poll(&listing);
    assert_eq!(result, outcome(&["d.log"], &["a.log", "c.log"]));
    assert_eq!(watcher.paths, vec!["b.log".to_string(), "d.log".to_string()]);
    assert_eq!(watcher.lookup("b.log"), Some(Snapshot { modified: 1, size: 1 }));
    assert_eq!(
        events_of(&result),
        vec![
            WatchEvent::FileChanged("d.log".to_string()),
            WatchEvent::FileRemoved("a.log".to_string()),
            WatchEvent::FileRemoved("c.log".to_string())
        ]
    );
    assert_eq!(watcher.poll(&Vec::new()), outcome(&[], &["b.log", "d.log"]));
    assert!(watcher.paths.is_empty() && watcher.snapshots.is_empty());
}

#[test]
fn recording_replaces_the_snapshot() {
    let mut watcher = Watcher::new();
    watcher.record("x", Snapshot { modified: 1, size: 1 });
    watcher.record("x", Snapshot { modified: 2, size: 3 });
    assert_eq!(watcher.paths.len(), 1);
    assert_eq!(watcher.lookup("x"), Some(Snapshot { modified: 2, size: 3 }));
}

#[test]
fn the_last_event_about_a_path_wins() {
    let changed = |p: &str| WatchEvent::FileChanged(p.to_string());
    let removed = |p: &str| WatchEvent::FileRemoved(p.to_string());
    let events = vec![
        changed("b"),
        removed("a"),
        changed("a"),
        changed("c"),
        removed("c"),
        changed("b"),
        removed("d"),
        removed("d"),
    ];
    let pending = collapse_events(&events);
    assert_eq!(pending.changed, vec!["a".to_string(), "b".to_string()]);
    assert_eq!(pending.removed, vec!["c".to_string(), "d".to_string()]);
    let nothing = collapse_events(&Vec::new());
    assert!(nothing.changed.is_empty() && nothing.removed.is_empty());
}
