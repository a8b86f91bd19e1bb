//! The change watcher's bookkeeping: what one poll of the file system means
//! for the files known so far.

use crate::flat::{lemma_pairing_at, lemma_pairing_insert, lemma_pairing_update, pairing};
use crate::keys::{
    contains_key, find_slot, insert_key, lemma_insert_keeps_sorted, lemma_slot_decides, slot_holds,
    texts,
};
use crate::text::{chars_of, strictly_sorted, text_lt};
use vstd::prelude::*;

verus! {

/// What a poll sees of a file: when it was last modified, in nanoseconds
/// since the Unix epoch, and its size in bytes.
#[derive(Debug, Clone, Copy, PartialEq, Eq, Structural)]
pub struct Snapshot {
    pub modified: i128,
    pub size: u64,
}

/// One file of a poll's listing. The snapshot is missing where the file's
/// metadata could not be read.
#[derive(Debug, Clone, PartialEq, Eq)]
pub struct Observed {
    pub path: String,
    pub snapshot: Option<Snapshot>,
}

/// A change that the watcher reports.
#[derive(Debug, Clone, PartialEq, Eq)]
pub enum WatchEvent {
    FileChanged(String),
    FileRemoved(String),
}

/// What a poll reports: the paths that changed, in the order of the listing,
/// and the paths that are gone, in increasing order.
#[derive(Debug, Clone, PartialEq, Eq)]
pub struct PollOutcome {
    pub changed: Vec<String>,
    pub removed: Vec<String>,
}

/// The snapshots known by path.
pub type Known = Map<Seq<char>, Snapshot>;

/// One entry of a listing: a path and what was seen of it.
pub type Sighting = (Seq<char>, Option<Snapshot>);

/// The mathematical form of a listing.
pub open spec fn sightings(listing: Seq<Observed>) -> Seq<Sighting> {
    Seq::new(listing.len(), |i: int| (listing[i].path@, listing[i].snapshot))
}

/// A file counts as unchanged when it is known and what is seen of it now
/// is what was recorded, or is older than what was recorded. A file that is
/// not known, or whose snapshot differs with a modification time that is not
/// older than the recorded one, counts as changed.
pub open spec fn is_unchanged(known: Known, path: Seq<char>, now: Snapshot) -> bool {
    known.dom().contains(path) && (now == known[path] || now.modified < known[path].modified)
}

/// What is known after the first `n` entries of the listing were compared:
/// each changed or new file has its new snapshot.
pub open spec fn observed(known: Known, seen: Seq<Sighting>, n: nat) -> Known
    decreases n,
{
    if n == 0 || n > seen.len() {
        known
    } else {
        let before = observed(known, seen, (n - 1) as nat);
        match seen[n - 1].1 {
            Some(now) => if is_unchanged(before, seen[n - 1].0, now) {
                before
            } else {
                before.insert(seen[n - 1].0, now)
            },
            None => before,
        }
    }
}

/// The paths among the first `n` entries that were new or changed, in order.
pub open spec fn changed_paths(known: Known, seen: Seq<Sighting>, n: nat) -> Seq<Seq<char>>
    decreases n,
{
    if n == 0 || n > seen.len() {
        Seq::empty()
    } else {
        let earlier = changed_paths(known, seen, (n - 1) as nat);
        match seen[n - 1].1 {
            Some(now) => if is_unchanged(observed(known, seen, (n - 1) as nat), seen[n - 1].0, now) {
                earlier
            } else {
                earlier.push(seen[n - 1].0)
            },
            None => earlier,
        }
    }
}

/// The paths that the listing holds.
pub open spec fn listed(seen: Seq<Sighting>) -> Set<Seq<char>> {
    Set::new(|p: Seq<char>| exists|i: int| 0 <= i < seen.len() && (#[trigger] seen[i]).0 == p)
}

/// What is known after a poll: the listed files, each with the snapshot that
/// the comparison left.
pub open spec fn poll_state(known: Known, seen: Seq<Sighting>) -> Known {
    observed(known, seen, seen.len()).restrict(listed(seen))
}

/// The paths that a poll reports as changed, in the order of the listing.
pub open spec fn poll_changes(known: Known, seen: Seq<Sighting>) -> Seq<Seq<char>> {
    changed_paths(known, seen, seen.len())
}

/// The paths that a poll reports as removed: those known before and not listed.
pub open spec fn poll_removals(known: Known, seen: Seq<Sighting>) -> Set<Seq<char>> {
    known.dom().difference(listed(seen))
}

/// No path occurs twice in the listing.
pub open spec fn distinct_paths(seen: Seq<Sighting>) -> bool {
    forall|i: int, j: int| 0 <= i < j < seen.len() ==> (#[trigger] seen[i]).0 != (#[trigger] seen[j]).0
}

/// Comparing a listing adds listed paths only and forgets none.
pub proof fn lemma_observed_domain(known: Known, seen: Seq<Sighting>, n: nat)
    requires
        n <= seen.len(),
    ensures
        forall|p: Seq<char>| known.dom().contains(p) ==> observed(known, seen, n).dom().contains(p),
        forall|p: Seq<char>|
            observed(known, seen, n).dom().contains(p) ==> known.dom().contains(p) || listed(
                seen,
            ).contains(p),
    decreases n,
{
    if n > 0 {
        lemma_observed_domain(known, seen, (n - 1) as nat);
        assert(listed(seen).contains(seen[n - 1].0));
    }
}

/// Entries from `from` on leave alone what is known of a path that they do not name.
pub proof fn lemma_observed_elsewhere(known: Known, seen: Seq<Sighting>, from: nat, n: nat, p: Seq<char>)
    requires
        from <= n <= seen.len(),
        forall|j: int| from <= j < n ==> (#[trigger] seen[j]).0 != p,
    ensures
        observed(known, seen, n).dom().contains(p) == observed(known, seen, from).dom().contains(p),
        observed(known, seen, n).dom().contains(p) ==> observed(known, seen, n)[p] == observed(
            known,
            seen,
            from,
        )[p],
    decreases n,
{
    if n > from {
        lemma_observed_elsewhere(known, seen, from, (n - 1) as nat, p);
        assert(seen[n - 1].0 != p);
    }
}

/// After a listing without repeated paths was compared, every file seen
/// with a snapshot counts as unchanged.
pub proof fn lemma_observed_settles(known: Known, seen: Seq<Sighting>, i: int)
    requires
        distinct_paths(seen),
        0 <= i < seen.len(),
        seen[i].1 is Some,
    ensures
        is_unchanged(observed(known, seen, seen.len()), seen[i].0, seen[i].1->0),
{
    let p = seen[i].0;
    assert(is_unchanged(observed(known, seen, (i + 1) as nat), p, seen[i].1->0));
    assert forall|j: int| i + 1 <= j < seen.len() implies (#[trigger] seen[j]).0 != p by {
        assert(seen[i].0 != seen[j].0);
    }
    lemma_observed_elsewhere(known, seen, (i + 1) as nat, seen.len(), p);
}

/// Comparing a listing against a state in which every listed file counts as
/// unchanged changes nothing and reports nothing.
pub proof fn lemma_settled_is_quiet(known: Known, seen: Seq<Sighting>, n: nat)
    requires
        n <= seen.len(),
        forall|i: int|
            0 <= i < seen.len() && (#[trigger] seen[i]).1 is Some ==> is_unchanged(
                known,
                seen[i].0,
                seen[i].1->0,
            ),
    ensures
        observed(known, seen, n) == known,
        changed_paths(known, seen, n) == Seq::<Seq<char>>::empty(),
    decreases n,
{
    if n > 0 {
        lemma_settled_is_quiet(known, seen, (n - 1) as nat);
    }
}

/// Two polls in a row over the same listing: the second finds nothing
/// changed and nothing removed, and leaves the state as the first left it.
pub proof fn lemma_second_poll_is_quiet(known: Known, seen: Seq<Sighting>)
    requires
        distinct_paths(seen),
    ensures
        poll_changes(poll_state(known, seen), seen) == Seq::<Seq<char>>::empty(),
        poll_removals(poll_state(known, seen), seen) == Set::<Seq<char>>::empty(),
        poll_state(poll_state(known, seen), seen) == poll_state(known, seen),
{
    let first = poll_state(known, seen);
    assert forall|i: int| 0 <= i < seen.len() && (#[trigger] seen[i]).1 is Some implies is_unchanged(
        first,
        seen[i].0,
        seen[i].1->0,
    ) by {
        lemma_observed_settles(known, seen, i);
        assert(listed(seen).contains(seen[i].0));
    }
    lemma_settled_is_quiet(first, seen, seen.len());
    assert(poll_removals(first, seen) =~= Set::<Seq<char>>::empty());
    assert(first.restrict(listed(seen)) =~= first);
}

/// One file of a settled listing changes between two polls: the next poll
/// reports exactly that file as changed, once, and nothing as removed.
pub proof fn lemma_single_change_is_reported(known: Known, seen: Seq<Sighting>, i: int, now: Snapshot)
    requires
        distinct_paths(seen),
        0 <= i < seen.len(),
        !is_unchanged(poll_state(known, seen), seen[i].0, now),
    ensures
        poll_changes(poll_state(known, seen), seen.update(i, (seen[i].0, Some(now)))) == seq![seen[i].0],
        poll_removals(poll_state(known, seen), seen.update(i, (seen[i].0, Some(now)))) == Set::<
            Seq<char>,
        >::empty(),
{
    let first = poll_state(known, seen);
    let next = seen.update(i, (seen[i].0, Some(now)));
    let p = seen[i].0;
    assert forall|j: int| 0 <= j < seen.len() && j != i && (#[trigger] seen[j]).1 is Some implies is_unchanged(
        first,
        seen[j].0,
        seen[j].1->0,
    ) by {
        lemma_observed_settles(known, seen, j);
        assert(listed(seen).contains(seen[j].0));
    }
    lemma_quiet_before(first, next, i, i as nat);
    assert(observed(first, next, (i + 1) as nat) == first.insert(p, now));
    assert(changed_paths(first, next, (i + 1) as nat) == seq![p]);
    assert forall|j: int| 0 <= j < seen.len() && j != i implies (#[trigger] next[j]).0 != p by {
        if j < i {
            assert(seen[j].0 != seen[i].0);
        } else {
            assert(seen[i].0 != seen[j].0);
        }
    }
    lemma_quiet_after(first, next, i, next.len(), p, now);
    assert(poll_removals(first, next) =~= Set::<Seq<char>>::empty()) by {
        assert forall|q: Seq<char>| first.dom().contains(q) implies listed(next).contains(q) by {
            let j = choose|j: int| 0 <= j < seen.len() && (#[trigger] seen[j]).0 == q;
            assert(next[j].0 == q);
        }
    }
}

/// Before the changed entry is reached, nothing is reported.
proof fn lemma_quiet_before(first: Known, next: Seq<Sighting>, i: int, n: nat)
    requires
        0 <= i < next.len(),
        n <= i,
        forall|j: int|
            0 <= j < next.len() && j != i && (#[trigger] next[j]).1 is Some ==> is_unchanged(
                first,
                next[j].0,
                next[j].1->0,
            ),
    ensures
        observed(first, next, n) == first,
        changed_paths(first, next, n) == Seq::<Seq<char>>::empty(),
    decreases n,
{
    if n > 0 {
        lemma_quiet_before(first, next, i, (n - 1) as nat);
    }
}

/// Behind the changed entry nothing more is reported.
proof fn lemma_quiet_after(first: Known, next: Seq<Sighting>, i: int, n: nat, p: Seq<char>, now: Snapshot)
    requires
        0 <= i < next.len(),
        i < n <= next.len(),
        next[i] == (p, Some(now)),
        observed(first, next, (i + 1) as nat) == first.insert(p, now),
        changed_paths(first, next, (i + 1) as nat) == seq![p],
        forall|j: int| 0 <= j < next.len() && j != i ==> (#[trigger] next[j]).0 != p,
        forall|j: int|
            0 <= j < next.len() && j != i && (#[trigger] next[j]).1 is Some ==> is_unchanged(
                first,
                next[j].0,
                next[j].1->0,
            ),
    ensures
        observed(first, next, n) == first.insert(p, now),
        changed_paths(first, next, n) == seq![p],
    decreases n,
{
    if n > i + 1 {
        lemma_quiet_after(first, next, i, (n - 1) as nat, p, now);
        assert(next[n - 1].0 != p);
    }
}

/// The files known to the watcher, by path in increasing order, each with
/// the snapshot last recorded for it.
#[derive(Debug, Clone, PartialEq, Eq)]
pub struct Watcher {
    pub paths: Vec<String>,
    pub snapshots: Vec<Snapshot>,
}

impl View for Watcher {
    type V = Known;

    open spec fn view(&self) -> Known {
        pairing(texts(self.paths@), self.snapshots@)
    }
}

impl Watcher {
    /// Paths and snapshots line up and the paths are strictly increasing.
    pub open spec fn wf(&self) -> bool {
        self.paths@.len() == self.snapshots@.len() && strictly_sorted(texts(self.paths@))
    }

    /// A watcher that knows no file.
    pub fn new() -> (w: Watcher)
        ensures
            w.wf(),
            w@ == Map::<Seq<char>, Snapshot>::empty(),
    {
        let w = Watcher { paths: Vec::new(), snapshots: Vec::new() };
        assert(w@ =~= Map::<Seq<char>, Snapshot>::empty());
        w
    }

    /// The snapshot recorded for `path`.
    pub fn lookup(&self, path: &str) -> (res: Option<Snapshot>)
        requires
            self.wf(),
        ensures
            res == (if self@.dom().contains(path@) {
                Some(self@[path@])
            } else {
                None
            }),
    {
        let probe = chars_of(path);
        let p = find_slot(&self.paths, &probe);
        proof {
            lemma_slot_decides(texts(self.paths@), p as int, path@);
        }
        if slot_holds(&self.paths, p, &probe) {
            proof {
                lemma_pairing_at(texts(self.paths@), self.snapshots@, p as int);
            }
            Some(self.snapshots[p])
        } else {
            None
        }
    }

    /// Records `snapshot` for `path`.
    pub fn record(&mut self, path: &str, snapshot: Snapshot)
        requires
            old(self).wf(),
        ensures
            final(self).wf(),
            final(self)@ == old(self)@.insert(path@, snapshot),
    {
        let probe = chars_of(path);
        let p = find_slot(&self.paths, &probe);
        let ghost paths0 = texts(self.paths@);
        let ghost snaps0 = self.snapshots@;
        proof {
            lemma_slot_decides(paths0, p as int, path@);
        }
        if slot_holds(&self.paths, p, &probe) {
            self.snapshots.remove(p);
            self.snapshots.insert(p, snapshot);
            proof {
                assert(self.snapshots@ =~= snaps0.update(p as int, snapshot));
                lemma_pairing_update(paths0, snaps0, p as int, snapshot);
            }
        } else {
            self.paths.insert(p, path.to_owned());
            self.snapshots.insert(p, snapshot);
            proof {
                assert(texts(self.paths@) =~= paths0.insert(p as int, path@));
                lemma_insert_keeps_sorted(paths0, p as int, path@);
                lemma_pairing_insert(paths0, snaps0, p as int, path@, snapshot);
            }
        }
    }

    /// Takes the first listing as the state to compare later polls with;
    /// nothing is reported.
    pub fn prime(&mut self, listing: &Vec<Observed>)
        requires
            old(self).wf(),
        ensures
            final(self).wf(),
            final(self)@ == primed(old(self)@, sightings(listing@), listing@.len()),
    {
        let ghost seen = sightings(listing@);
        let ghost start = self@;
        let mut i: usize = 0;
        while i < listing.len()
            invariant
                i <= listing.len(),
                seen == sightings(listing@),
                self.wf(),
                self@ == primed(start, seen, i as nat),
            decreases listing.len() - i,
        {
            assert(seen[i as int] == (listing@[i as int].path@, listing@[i as int].snapshot));
            if let Some(now) = listing[i].snapshot {
                self.record(listing[i].path.as_str(), now);
            }
            i += 1;
        }
    }

    /// Compares a listing with what is known. A file that is new, or whose
    /// snapshot differs from the one recorded with a modification time that
    /// is not older, is reported as changed and recorded anew; a snapshot
    /// older than the one recorded is passed over. A known file that the
    /// listing lacks is reported as removed and forgotten. A listed file
    /// without a snapshot is left as it is.
    pub fn poll(&mut self, listing: &Vec<Observed>) -> (out: PollOutcome)
        requires
            old(self).wf(),
        ensures
            final(self).wf(),
            final(self)@ == poll_state(old(self)@, sightings(listing@)),
            texts(out.changed@) == poll_changes(old(self)@, sightings(listing@)),
            strictly_sorted(texts(out.removed@)),
            texts(out.removed@).to_set() == poll_removals(old(self)@, sightings(listing@)),
    {
        let ghost seen = sightings(listing@);
        let ghost start = self@;
        let mut present: Vec<String> = Vec::new();
        let mut changed: Vec<String> = Vec::new();
        let mut i: usize = 0;
        proof {
            assert(texts(changed@) =~= changed_paths(start, seen, 0));
            assert(texts(present@).to_set() =~= listed(seen.take(0)));
        }
        while i < listing.len()
            invariant
                i <= listing.len(),
                seen == sightings(listing@),
                self.wf(),
                self@ == observed(start, seen, i as nat),
                texts(changed@) == changed_paths(start, seen, i as nat),
                strictly_sorted(texts(present@)),
                texts(present@).to_set() == listed(seen.take(i as int)),
            decreases listing.len() - i,
        {
            let path = listing[i].path.as_str();
            assert(seen[i as int] == (listing@[i as int].path@, listing@[i as int].snapshot));
            insert_key(&mut present, path);
            proof {
                lemma_listed_push(seen, i as int);
            }
            if let Some(now) = listing[i].snapshot {
                let unchanged = match self.lookup(path) {
                    Some(prev) => (now.modified == prev.modified && now.size == prev.size)
                        || now.modified < prev.modified,
                    None => false,
                };
                if !unchanged {
                    self.record(path, now);
                    let ghost before = texts(changed@);
                    changed.push(path.to_owned());
                    assert(texts(changed@) =~= before.push(path@));
                }
            }
            i += 1;
        }
        proof {
            assert(seen.take(seen.len() as int) =~= seen);
        }
        let ghost full = self@;
        let ghost all_paths = texts(self.paths@);
        let ghost all_snaps = self.snapshots@;
        let ghost names = listed(seen);
        let mut kept_paths: Vec<String> = Vec::new();
        let mut kept_snaps: Vec<Snapshot> = Vec::new();
        let mut removed: Vec<String> = Vec::new();
        let mut j: usize = 0;
        while j < self.paths.len()
            invariant
                j <= self.paths.len(),
                self.wf(),
                all_paths == texts(self.paths@),
                all_snaps == self.snapshots@,
                strictly_sorted(texts(present@)),
                texts(present@).to_set() == names,
                kept_paths@.len() == kept_snaps@.len(),
                strictly_sorted(texts(kept_paths@)),
                strictly_sorted(texts(removed@)),
                forall|a: int, b: int|
                    0 <= a < kept_paths@.len() && j <= b < all_paths.len() ==> text_lt(
                        #[trigger] texts(kept_paths@)[a],
                        #[trigger] all_paths[b],
                    ),
                forall|a: int, b: int|
                    0 <= a < removed@.len() && j <= b < all_paths.len() ==> text_lt(
                        #[trigger] texts(removed@)[a],
                        #[trigger] all_paths[b],
                    ),
                forall|a: int|
                    0 <= a < kept_paths@.len() ==> names.contains(#[trigger] texts(kept_paths@)[a])
                        && has_entry(all_paths, all_snaps, j as int, texts(kept_paths@)[a], kept_snaps@[a]),
                forall|a: int|
                    0 <= a < removed@.len() ==> !names.contains(#[trigger] texts(removed@)[a])
                        && has_path(all_paths, j as int, texts(removed@)[a]),
                forall|b: int|
                    0 <= b < j && names.contains(#[trigger] all_paths[b]) ==> has_entry(
                        texts(kept_paths@),
                        kept_snaps@,
                        kept_paths@.len() as int,
                        all_paths[b],
                        all_snaps[b],
                    ),
                forall|b: int|
                    0 <= b < j && !names.contains(#[trigger] all_paths[b]) ==> has_path(
                        texts(removed@),
                        removed@.len() as int,
                        all_paths[b],
                    ),
            decreases self.paths.len() - j,
        {
            let ghost kept0 = texts(kept_paths@);
            let ghost snaps0 = kept_snaps@;
            let ghost removed0 = texts(removed@);
            let ghost here = all_paths[j as int];
            assert(here == self.paths@[j as int]@);
            assert forall|b: int| j < b < all_paths.len() implies text_lt(here, #[trigger] all_paths[b]) by {}
            if contains_key(&present, self.paths[j].as_str()) {
                kept_paths.push(self.paths[j].clone());
                kept_snaps.push(self.snapshots[j]);
                proof {
                    let kept1 = texts(kept_paths@);
                    let snaps1 = kept_snaps@;
                    assert(kept1 =~= kept0.push(here));
                    assert forall|a: int, c: int| 0 <= a < c < kept1.len() implies text_lt(
                        kept1[a],
                        kept1[c],
                    ) by {
                        if c == kept0.len() {
                            assert(text_lt(kept0[a], all_paths[j as int]));
                        } else {
                            assert(text_lt(kept0[a], kept0[c]));
                        }
                    }
                    assert forall|a: int, b: int|
                        0 <= a < kept1.len() && j + 1 <= b < all_paths.len() implies text_lt(
                        #[trigger] kept1[a],
                        #[trigger] all_paths[b],
                    ) by {
                        if a < kept0.len() {
                            assert(text_lt(kept0[a], all_paths[b]));
                        }
                    }
                    assert forall|a: int| 0 <= a < kept1.len() implies names.contains(
                        #[trigger] kept1[a],
                    ) && has_entry(all_paths, all_snaps, j + 1, kept1[a], snaps1[a]) by {
                        if a < kept0.len() {
                            assert(kept1[a] == kept0[a] && snaps1[a] == snaps0[a]);
                            lemma_has_entry_grows(all_paths, all_snaps, j as int, j + 1, kept0[a], snaps0[a]);
                        } else {
                            lemma_has_entry_at(all_paths, all_snaps, j + 1, j as int);
                        }
                    }
                    assert forall|b: int|
                        0 <= b < j + 1 && names.contains(#[trigger] all_paths[b]) implies has_entry(
                        kept1,
                        snaps1,
                        kept1.len() as int,
                        all_paths[b],
                        all_snaps[b],
                    ) by {
                        if b < j {
                            lemma_has_entry_push(kept0, snaps0, here, all_snaps[j as int], all_paths[b], all_snaps[b]);
                        } else {
                            lemma_has_entry_at(kept1, snaps1, kept1.len() as int, kept0.len() as int);
                        }
                    }
                }
            } else {
                removed.push(self.paths[j].clone());
                proof {
                    let removed1 = texts(removed@);
                    assert(removed1 =~= removed0.push(here));
                    assert forall|a: int, c: int| 0 <= a < c < removed1.len() implies text_lt(
                        removed1[a],
                        removed1[c],
                    ) by {
                        if c == removed0.len() {
                            assert(text_lt(removed0[a], all_paths[j as int]));
                        } else {
                            assert(text_lt(removed0[a], removed0[c]));
                        }
                    }
                    assert forall|a: int, b: int|
                        0 <= a < removed1.len() && j + 1 <= b < all_paths.len() implies text_lt(
                        #[trigger] removed1[a],
                        #[trigger] all_paths[b],
                    ) by {
                        if a < removed0.len() {
                            assert(text_lt(removed0[a], all_paths[b]));
                        }
                    }
                    assert forall|a: int| 0 <= a < removed1.len() implies !names.contains(
                        #[trigger] removed1[a],
                    ) && has_path(all_paths, j + 1, removed1[a]) by {
                        if a < removed0.len() {
                            assert(removed1[a] == removed0[a]);
                            lemma_has_path_grows(all_paths, j as int, j + 1, removed0[a]);
                        } else {
                            lemma_has_path_at(all_paths, j + 1, j as int);
                        }
                    }
                    assert forall|b: int|
                        0 <= b < j + 1 && !names.contains(#[trigger] all_paths[b]) implies has_path(
                        removed1,
                        removed1.len() as int,
                        all_paths[b],
                    ) by {
                        if b < j {
                            lemma_has_path_push(removed0, here, all_paths[b]);
                        } else {
                            lemma_has_path_at(removed1, removed1.len() as int, removed0.len() as int);
                        }
                    }
                }
            }
            j += 1;
        }
        proof {
            let kept = texts(kept_paths@);
            let gone = texts(removed@);
            lemma_observed_domain(start, seen, seen.len());
            let target = full.restrict(names);
            let result = pairing(kept, kept_snaps@);
            assert forall|p: Seq<char>| result.dom().contains(p) <==> target.dom().contains(p) by {
                if kept.contains(p) {
                    let a = choose|a: int| 0 <= a < kept.len() && kept[a] == p;
                    assert(names.contains(kept[a]));
                    let b = entry_index(all_paths, all_snaps, all_paths.len() as int, kept[a], kept_snaps@[a]);
                    assert(all_paths[b] == p);
                }
                if all_paths.contains(p) && names.contains(p) {
                    let b = choose|b: int| 0 <= b < all_paths.len() && all_paths[b] == p;
                    assert(names.contains(all_paths[b]));
                    let a = entry_index(kept, kept_snaps@, kept.len() as int, all_paths[b], all_snaps[b]);
                    assert(kept[a] == p);
                }
            }
            assert forall|p: Seq<char>| result.dom().contains(p) implies result[p] == target[p] by {
                let a = choose|a: int| 0 <= a < kept.len() && kept[a] == p;
                assert(names.contains(kept[a]));
                let b = entry_index(all_paths, all_snaps, all_paths.len() as int, kept[a], kept_snaps@[a]);
                lemma_pairing_at(kept, kept_snaps@, a);
                lemma_pairing_at(all_paths, all_snaps, b);
            }
            assert(result =~= target);
            assert forall|p: Seq<char>| gone.to_set().contains(p) <==> poll_removals(
                start,
                seen,
            ).contains(p) by {
                if gone.contains(p) {
                    let a = choose|a: int| 0 <= a < gone.len() && gone[a] == p;
                    assert(!names.contains(gone[a]));
                    let b = path_index(all_paths, all_paths.len() as int, gone[a]);
                    assert(all_paths[b] == p);
                    assert(full.dom().contains(p));
                }
                if start.dom().contains(p) && !names.contains(p) {
                    assert(full.dom().contains(p));
                    let b = choose|b: int| 0 <= b < all_paths.len() && all_paths[b] == p;
                    assert(!names.contains(all_paths[b]));
                    let a = path_index(gone, gone.len() as int, all_paths[b]);
                    assert(gone[a] == p);
                }
            }
            assert(gone.to_set() =~= poll_removals(start, seen));
        }
        self.paths = kept_paths;
        self.snapshots = kept_snaps;
        PollOutcome { changed, removed }
    }
}

/// What is known after the first `n` entries of a first listing were taken
/// in: every file seen with a snapshot has it recorded.
pub open spec fn primed(known: Known, seen: Seq<Sighting>, n: nat) -> Known
    decreases n,
{
    if n == 0 || n > seen.len() {
        known
    } else {
        let before = primed(known, seen, (n - 1) as nat);
        match seen[n - 1].1 {
            Some(now) => before.insert(seen[n - 1].0, now),
            None => before,
        }
    }
}

/// One of the first `upto` positions holds this path with this snapshot.
pub open spec fn has_entry(
    paths: Seq<Seq<char>>,
    snaps: Seq<Snapshot>,
    upto: int,
    path: Seq<char>,
    snap: Snapshot,
) -> bool {
    exists|b: int| 0 <= b < upto && b < paths.len() && #[trigger] paths[b] == path && snaps[b] == snap
}

/// A position that holds this path with this snapshot.
pub open spec fn entry_index(
    paths: Seq<Seq<char>>,
    snaps: Seq<Snapshot>,
    upto: int,
    path: Seq<char>,
    snap: Snapshot,
) -> int {
    choose|b: int| 0 <= b < upto && b < paths.len() && #[trigger] paths[b] == path && snaps[b] == snap
}

/// One of the first `upto` positions holds this path.
pub open spec fn has_path(paths: Seq<Seq<char>>, upto: int, path: Seq<char>) -> bool {
    exists|b: int| 0 <= b < upto && b < paths.len() && #[trigger] paths[b] == path
}

/// A position that holds this path.
pub open spec fn path_index(paths: Seq<Seq<char>>, upto: int, path: Seq<char>) -> int {
    choose|b: int| 0 <= b < upto && b < paths.len() && #[trigger] paths[b] == path
}

/// The entry at a position is an entry.
proof fn lemma_has_entry_at(paths: Seq<Seq<char>>, snaps: Seq<Snapshot>, upto: int, b: int)
    requires
        0 <= b < upto,
        b < paths.len(),
    ensures
        has_entry(paths, snaps, upto, paths[b], snaps[b]),
{
}

/// An entry among fewer positions is one among more.
proof fn lemma_has_entry_grows(
    paths: Seq<Seq<char>>,
    snaps: Seq<Snapshot>,
    upto: int,
    more: int,
    path: Seq<char>,
    snap: Snapshot,
)
    requires
        upto <= more,
        has_entry(paths, snaps, upto, path, snap),
    ensures
        has_entry(paths, snaps, more, path, snap),
{
    let b = entry_index(paths, snaps, upto, path, snap);
    assert(paths[b] == path);
}

/// An entry stays one when another is put behind the last.
proof fn lemma_has_entry_push(
    paths: Seq<Seq<char>>,
    snaps: Seq<Snapshot>,
    new_path: Seq<char>,
    new_snap: Snapshot,
    path: Seq<char>,
    snap: Snapshot,
)
    requires
        paths.len() == snaps.len(),
        has_entry(paths, snaps, paths.len() as int, path, snap),
    ensures
        has_entry(paths.push(new_path), snaps.push(new_snap), (paths.len() + 1) as int, path, snap),
{
    let b = entry_index(paths, snaps, paths.len() as int, path, snap);
    assert(paths.push(new_path)[b] == path);
    assert(snaps.push(new_snap)[b] == snap);
}

/// The path at a position is held.
proof fn lemma_has_path_at(paths: Seq<Seq<char>>, upto: int, b: int)
    requires
        0 <= b < upto,
        b < paths.len(),
    ensures
        has_path(paths, upto, paths[b]),
{
}

/// A path held among fewer positions is held among more.
proof fn lemma_has_path_grows(paths: Seq<Seq<char>>, upto: int, more: int, path: Seq<char>)
    requires
        upto <= more,
        has_path(paths, upto, path),
    ensures
        has_path(paths, more, path),
{
    let b = path_index(paths, upto, path);
    assert(paths[b] == path);
}

/// A path stays held when another is put behind the last.
proof fn lemma_has_path_push(paths: Seq<Seq<char>>, new_path: Seq<char>, path: Seq<char>)
    requires
        has_path(paths, paths.len() as int, path),
    ensures
        has_path(paths.push(new_path), (paths.len() + 1) as int, path),
{
    let b = path_index(paths, paths.len() as int, path);
    assert(paths.push(new_path)[b] == path);
}

/// The paths of one more entry are those of the entries before and its own.
proof fn lemma_listed_push(seen: Seq<Sighting>, i: int)
    requires
        0 <= i < seen.len(),
    ensures
        listed(seen.take(i + 1)) == listed(seen.take(i)).insert(seen[i].0),
{
    let a = listed(seen.take(i + 1));
    let b = listed(seen.take(i)).insert(seen[i].0);
    assert forall|p: Seq<char>| a.contains(p) <==> b.contains(p) by {
        if a.contains(p) {
            let k = choose|k: int| 0 <= k < i + 1 && (#[trigger] seen.take(i + 1)[k]).0 == p;
            if k < i {
                assert(seen.take(i)[k].0 == p);
            }
        }
        if listed(seen.take(i)).contains(p) {
            let k = choose|k: int| 0 <= k < i && (#[trigger] seen.take(i)[k]).0 == p;
            assert(seen.take(i + 1)[k].0 == p);
        }
        if p == seen[i].0 {
            assert(seen.take(i + 1)[i].0 == p);
        }
    }
    assert(a =~= b);
}

/// The path that an event speaks of.
pub open spec fn event_path(event: WatchEvent) -> Seq<char> {
    match event {
        WatchEvent::FileChanged(path) => path@,
        WatchEvent::FileRemoved(path) => path@,
    }
}

/// The events of a poll: first each change, then each removal.
pub fn events_of(outcome: &PollOutcome) -> (events: Vec<WatchEvent>)
    ensures
        events@.len() == outcome.changed@.len() + outcome.removed@.len(),
        forall|i: int|
            0 <= i < outcome.changed@.len() ==> (#[trigger] events@[i]) is FileChanged && event_path(
                events@[i],
            ) == outcome.changed@[i]@,
        forall|i: int|
            outcome.changed@.len() <= i < events@.len() ==> (#[trigger] events@[i]) is FileRemoved
                && event_path(events@[i]) == outcome.removed@[i - outcome.changed@.len()]@,
{
    let mut events: Vec<WatchEvent> = Vec::new();
    let mut i: usize = 0;
    while i < outcome.changed.len()
        invariant
            i <= outcome.changed.len(),
            events@.len() == i,
            forall|k: int|
                0 <= k < i ==> (#[trigger] events@[k]) is FileChanged && event_path(events@[k])
                    == outcome.changed@[k]@,
        decreases outcome.changed.len() - i,
    {
        events.push(WatchEvent::FileChanged(outcome.changed[i].clone()));
        i += 1;
    }
    let mut j: usize = 0;
    let n = outcome.changed.len();
    while j < outcome.removed.len()
        invariant
            j <= outcome.removed.len(),
            n == outcome.changed@.len(),
            events@.len() == n + j,
            forall|k: int|
                0 <= k < n ==> (#[trigger] events@[k]) is FileChanged && event_path(events@[k])
                    == outcome.changed@[k]@,
            forall|k: int|
                n <= k < n + j ==> (#[trigger] events@[k]) is FileRemoved && event_path(events@[k])
                    == outcome.removed@[k - n]@,
        decreases outcome.removed.len() - j,
    {
        events.push(WatchEvent::FileRemoved(outcome.removed[j].clone()));
        j += 1;
    }
    events
}

} // verus!
