//! Batches of watch events: what a queue of events asks for once each path
//! is taken by its last event.

use crate::keys::{insert_key, remove_key, texts};
use crate::text::strictly_sorted;
use crate::watch::{event_path, WatchEvent};
use vstd::prelude::*;

verus! {

/// Event `i` is the last one that speaks of `path`.
pub open spec fn is_last_about(events: Seq<WatchEvent>, path: Seq<char>, i: int) -> bool {
    &&& 0 <= i < events.len()
    &&& event_path(events[i]) == path
    &&& forall|j: int| i < j < events.len() ==> event_path(#[trigger] events[j]) != path
}

/// The paths whose last event says that the file changed.
pub open spec fn pending_changes(events: Seq<WatchEvent>) -> Set<Seq<char>> {
    Set::new(
        |path: Seq<char>|
            exists|i: int| is_last_about(events, path, i) && (#[trigger] events[i]) is FileChanged,
    )
}

/// The paths whose last event says that the file is gone.
pub open spec fn pending_removals(events: Seq<WatchEvent>) -> Set<Seq<char>> {
    Set::new(
        |path: Seq<char>|
            exists|i: int| is_last_about(events, path, i) && (#[trigger] events[i]) is FileRemoved,
    )
}

/// What a batch of events asks for: the files to read anew and the files to
/// drop, each list in increasing order.
#[derive(Debug, Clone, PartialEq, Eq)]
pub struct Pending {
    pub changed: Vec<String>,
    pub removed: Vec<String>,
}

/// One more event: its path now belongs to the set of its kind alone.
proof fn lemma_pending_push(events: Seq<WatchEvent>, event: WatchEvent)
    ensures
        event is FileChanged ==> pending_changes(events.push(event)) == pending_changes(events).insert(
            event_path(event),
        ) && pending_removals(events.push(event)) == pending_removals(events).remove(
            event_path(event),
        ),
        event is FileRemoved ==> pending_removals(events.push(event)) == pending_removals(
            events,
        ).insert(event_path(event)) && pending_changes(events.push(event)) == pending_changes(
            events,
        ).remove(event_path(event)),
{
    let more = events.push(event);
    let q = event_path(event);
    let n = events.len() as int;
    assert(is_last_about(more, q, n));
    assert forall|p: Seq<char>, i: int| p != q && is_last_about(events, p, i) implies is_last_about(
        more,
        p,
        i,
    ) by {
        assert(more[i] == events[i]);
        assert forall|j: int| i < j < more.len() implies event_path(#[trigger] more[j]) != p by {
            if j < n {
                assert(more[j] == events[j]);
            }
        }
    }
    assert forall|p: Seq<char>, i: int| p != q && is_last_about(more, p, i) implies is_last_about(
        events,
        p,
        i,
    ) && more[i] == events[i] by {
        assert(i < n);
        assert(more[i] == events[i]);
        assert forall|j: int| i < j < events.len() implies event_path(#[trigger] events[j]) != p by {
            assert(more[j] == events[j]);
        }
    }
    assert forall|i: int| is_last_about(more, q, i) implies i == n by {
        if i < n {
            assert(event_path(more[n]) != q);
        }
    }
    let changes = pending_changes(events);
    let removals = pending_removals(events);
    if event is FileChanged {
        assert forall|p: Seq<char>| pending_changes(more).contains(p) <==> changes.insert(q).contains(
            p,
        ) by {
            if p != q {
                if pending_changes(more).contains(p) {
                    let i = choose|i: int| is_last_about(more, p, i) && (#[trigger] more[i]) is FileChanged;
                    assert(is_last_about(events, p, i) && events[i] is FileChanged);
                }
                if changes.contains(p) {
                    let i = choose|i: int|
                        is_last_about(events, p, i) && (#[trigger] events[i]) is FileChanged;
                    assert(is_last_about(more, p, i) && more[i] is FileChanged);
                }
            } else {
                assert(is_last_about(more, q, n) && more[n] is FileChanged);
            }
        }
        assert forall|p: Seq<char>| pending_removals(more).contains(p) <==> removals.remove(q).contains(
            p,
        ) by {
            if p != q {
                if pending_removals(more).contains(p) {
                    let i = choose|i: int| is_last_about(more, p, i) && (#[trigger] more[i]) is FileRemoved;
                    assert(is_last_about(events, p, i) && events[i] is FileRemoved);
                }
                if removals.contains(p) {
                    let i = choose|i: int|
                        is_last_about(events, p, i) && (#[trigger] events[i]) is FileRemoved;
                    assert(is_last_about(more, p, i) && more[i] is FileRemoved);
                }
            } else {
                if pending_removals(more).contains(p) {
                    let i = choose|i: int| is_last_about(more, p, i) && (#[trigger] more[i]) is FileRemoved;
                    assert(i == n);
                }
            }
        }
        assert(pending_changes(more) =~= changes.insert(q));
        assert(pending_removals(more) =~= removals.remove(q));
    } else {
        assert forall|p: Seq<char>| pending_removals(more).contains(p) <==> removals.insert(q).contains(
            p,
        ) by {
            if p != q {
                if pending_removals(more).contains(p) {
                    let i = choose|i: int| is_last_about(more, p, i) && (#[trigger] more[i]) is FileRemoved;
                    assert(is_last_about(events, p, i) && events[i] is FileRemoved);
                }
                if removals.contains(p) {
                    let i = choose|i: int|
                        is_last_about(events, p, i) && (#[trigger] events[i]) is FileRemoved;
                    assert(is_last_about(more, p, i) && more[i] is FileRemoved);
                }
            } else {
                assert(is_last_about(more, q, n) && more[n] is FileRemoved);
            }
        }
        assert forall|p: Seq<char>| pending_changes(more).contains(p) <==> changes.remove(q).contains(
            p,
        ) by {
            if p != q {
                if pending_changes(more).contains(p) {
                    let i = choose|i: int| is_last_about(more, p, i) && (#[trigger] more[i]) is FileChanged;
                    assert(is_last_about(events, p, i) && events[i] is FileChanged);
                }
                if changes.contains(p) {
                    let i = choose|i: int|
                        is_last_about(events, p, i) && (#[trigger] events[i]) is FileChanged;
                    assert(is_last_about(more, p, i) && more[i] is FileChanged);
                }
            } else {
                if pending_changes(more).contains(p) {
                    let i = choose|i: int| is_last_about(more, p, i) && (#[trigger] more[i]) is FileChanged;
                    assert(i == n);
                }
            }
        }
        assert(pending_removals(more) =~= removals.insert(q));
        assert(pending_changes(more) =~= changes.remove(q));
    }
}

/// No path is asked for both ways.
pub proof fn lemma_pending_disjoint(events: Seq<WatchEvent>, path: Seq<char>)
    ensures
        !(pending_changes(events).contains(path) && pending_removals(events).contains(path)),
{
    if pending_changes(events).contains(path) && pending_removals(events).contains(path) {
        let i = choose|i: int| is_last_about(events, path, i) && (#[trigger] events[i]) is FileChanged;
        let j = choose|j: int| is_last_about(events, path, j) && (#[trigger] events[j]) is FileRemoved;
        if i < j {
            assert(event_path(events[j]) != path);
        } else if j < i {
            assert(event_path(events[i]) != path);
        }
    }
}

/// Collapses a queue of events: each path is taken by the last event that
/// speaks of it.
pub fn collapse_events(events: &Vec<WatchEvent>) -> (pending: Pending)
    ensures
        strictly_sorted(texts(pending.changed@)),
        strictly_sorted(texts(pending.removed@)),
        texts(pending.changed@).to_set() == pending_changes(events@),
        texts(pending.removed@).to_set() == pending_removals(events@),
{
    let mut changed: Vec<String> = Vec::new();
    let mut removed: Vec<String> = Vec::new();
    let mut i: usize = 0;
    proof {
        assert(texts(changed@).to_set() =~= pending_changes(events@.take(0)));
        assert(texts(removed@).to_set() =~= pending_removals(events@.take(0)));
    }
    while i < events.len()
        invariant
            i <= events.len(),
            strictly_sorted(texts(changed@)),
            strictly_sorted(texts(removed@)),
            texts(changed@).to_set() == pending_changes(events@.take(i as int)),
            texts(removed@).to_set() == pending_removals(events@.take(i as int)),
        decreases events.len() - i,
    {
        proof {
            lemma_pending_push(events@.take(i as int), events@[i as int]);
            assert(events@.take(i + 1) =~= events@.take(i as int).push(events@[i as int]));
        }
        match &events[i] {
            WatchEvent::FileChanged(path) => {
                remove_key(&mut removed, path.as_str());
                insert_key(&mut changed, path.as_str());
            },
            WatchEvent::FileRemoved(path) => {
                remove_key(&mut changed, path.as_str());
                insert_key(&mut removed, path.as_str());
            },
        }
        i += 1;
    }
    proof {
        assert(events@.take(events@.len() as int) =~= events@);
    }
    Pending { changed, removed }
}

} // verus!
