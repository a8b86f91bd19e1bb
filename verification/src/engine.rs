//! The engine: one catalog with its filters, its selection of rows and the
//! queue of changes that wait to be applied.

use crate::batch::{collapse_events, pending_changes, pending_removals, Pending};
use crate::catalog::{after_refresh, after_removal, refresh_changes, path_index, Catalog, CatalogModel};
use crate::extract::Extractor;
use crate::filter::{apply_filters, is_selection, Filters, RegexCache};
use crate::indexer::IndexEvent;
use crate::keys::texts;
use crate::model::{row_models, Row};
use crate::order::{catalog_order, in_order};
use crate::sanitize::{sanitized_lines, try_sanitize_buffer};
use crate::indexer::indexable;
use crate::columns::{is_resolution, resolve_column_name, unresolved};
use crate::text::{strictly_sorted, trimmed};
use crate::visible::{prune_visible_columns, pruned};
use crate::watch::WatchEvent;
use vstd::prelude::*;

verus! {

/// What was read of a file that changed: its bytes, or nothing where it
/// could not be read.
#[derive(Debug, Clone, PartialEq, Eq)]
pub struct Loaded {
    pub path: String,
    pub bytes: Option<Vec<u8>>,
}

/// The mathematical form of what was read of a file.
pub type Load = (Seq<char>, Option<Seq<u8>>);

/// The bytes held by an optional buffer.
pub open spec fn opt_bytes(bytes: Option<Vec<u8>>) -> Option<Seq<u8>> {
    match bytes {
        Some(b) => Some(b@),
        None => None,
    }
}

/// The mathematical form of a list of files read. A file with a line that
/// is too long to index counts as one that could not be read.
pub open spec fn loads_of(loaded: Seq<Loaded>) -> Seq<Load> {
    Seq::new(loaded.len(), |i: int| (loaded[i].path@, indexable(opt_bytes(loaded[i].bytes))))
}

/// The catalog after the first `n` paths were removed, in order.
pub open spec fn after_removals(m: CatalogModel, paths: Seq<Seq<char>>, n: nat) -> CatalogModel
    decreases n,
{
    if n == 0 || n > paths.len() {
        m
    } else {
        after_removal(after_removals(m, paths, (n - 1) as nat), paths[n - 1])
    }
}

/// How many of the first `n` paths named a file of the catalog at their turn.
pub open spec fn removal_count(m: CatalogModel, paths: Seq<Seq<char>>, n: nat) -> nat
    decreases n,
{
    if n == 0 || n > paths.len() {
        0
    } else {
        let before = after_removals(m, paths, (n - 1) as nat);
        removal_count(m, paths, (n - 1) as nat) + if path_index(before.files, paths[n - 1]) is Some {
            1nat
        } else {
            0nat
        }
    }
}

/// The catalog after the first `n` files read were taken in, in order. A
/// file that could not be read is passed over.
pub open spec fn after_refreshes(m: CatalogModel, loads: Seq<Load>, n: nat) -> CatalogModel
    decreases n,
{
    if n == 0 || n > loads.len() {
        m
    } else {
        let before = after_refreshes(m, loads, (n - 1) as nat);
        match loads[n - 1].1 {
            Some(bytes) => after_refresh(before, loads[n - 1].0, sanitized_lines(bytes)),
            None => before,
        }
    }
}

/// How many of the first `n` files read changed the catalog at their turn.
pub open spec fn refresh_count(m: CatalogModel, loads: Seq<Load>, n: nat) -> nat
    decreases n,
{
    if n == 0 || n > loads.len() {
        0
    } else {
        let before = after_refreshes(m, loads, (n - 1) as nat);
        refresh_count(m, loads, (n - 1) as nat) + match loads[n - 1].1 {
            Some(bytes) => if refresh_changes(before, loads[n - 1].0, sanitized_lines(bytes)) {
                1nat
            } else {
                0nat
            },
            None => 0nat,
        }
    }
}

/// The paths among the first `n` files that could not be read, in order.
pub open spec fn unread_paths(loads: Seq<Load>, n: nat) -> Seq<Seq<char>>
    decreases n,
{
    if n == 0 || n > loads.len() {
        Seq::empty()
    } else {
        let earlier = unread_paths(loads, (n - 1) as nat);
        if loads[n - 1].1 is None {
            earlier.push(loads[n - 1].0)
        } else {
            earlier
        }
    }
}

/// The catalog after a batch: all removals first, then all files read.
pub open spec fn after_batch(m: CatalogModel, removed: Seq<Seq<char>>, loads: Seq<Load>) -> CatalogModel {
    after_refreshes(after_removals(m, removed, removed.len()), loads, loads.len())
}

/// What a batch did.
#[derive(Debug, Clone, PartialEq, Eq)]
pub struct BatchReport {
    /// The number of files whose lines and rows were replaced or added.
    pub updated_files: usize,
    /// The number of files that were dropped.
    pub removed_files: usize,
    /// The files that could not be read, in the order of the batch.
    pub failed: Vec<String>,
}

/// The catalog, the filters and the selection that a viewer works with.
pub struct Engine {
    pub catalog: Catalog,
    pub filtered: Vec<usize>,
    pub selected: Option<usize>,
    pub page: usize,
    pub page_size: usize,
    pub ctx_before: usize,
    pub ctx_after: usize,
    pub sort_desc: bool,
    pub filters: Filters,
    pub cache: RegexCache,
    pub live_mode: bool,
    pub indexing: bool,
    pub pending_watch_events: Vec<WatchEvent>,
    pub visible_columns: Vec<String>,
    pub index_progress: Option<(usize, usize)>,
}

/// The rows per page at the start.
pub const DEFAULT_PAGE_SIZE: usize = 200;

/// The lines of context shown before and after a record at the start.
pub const DEFAULT_CONTEXT: usize = 2;

impl Engine {
    /// The catalog and the cache are well formed, every filtered index names
    /// a row, and the selection names a filtered index.
    pub open spec fn wf(&self) -> bool {
        &&& self.catalog.wf()
        &&& self.cache.wf()
        &&& forall|k: int| 0 <= k < self.filtered@.len() ==> (#[trigger] self.filtered@[k]) < self.catalog.rows@.len()
        &&& self.selected matches Some(s) ==> s < self.filtered@.len()
    }

    /// The filtered indices are the selection that the filters make among the rows.
    pub open spec fn filtered_current(&self) -> bool {
        is_selection(self.catalog.rows@, self.filters, self.filtered@)
    }

    /// An engine with an empty catalog: newest first, live, two hundred rows
    /// per page, two lines of context, and the trace and request ids as
    /// extra columns.
    pub fn new() -> (engine: Engine)
        ensures
            engine.wf(),
            engine.catalog.rows@.len() == 0,
            engine.catalog.files@.len() == 0,
            engine.filtered@.len() == 0,
            engine.selected is None,
            engine.page == 0,
            engine.page_size == DEFAULT_PAGE_SIZE,
            engine.ctx_before == DEFAULT_CONTEXT,
            engine.ctx_after == DEFAULT_CONTEXT,
            engine.sort_desc,
            engine.live_mode,
            !engine.indexing,
            engine.filters.is_clear(),
            engine.pending_watch_events@.len() == 0,
            texts(engine.visible_columns@) == seq!["traceId"@, "requestId"@],
    {
        let mut visible: Vec<String> = Vec::new();
        visible.push("traceId".to_owned());
        visible.push("requestId".to_owned());
        assert(texts(visible@) =~= seq!["traceId"@, "requestId"@]);
        Engine {
            catalog: Catalog::new(),
            filtered: Vec::new(),
            selected: None,
            page: 0,
            page_size: DEFAULT_PAGE_SIZE,
            ctx_before: DEFAULT_CONTEXT,
            ctx_after: DEFAULT_CONTEXT,
            sort_desc: true,
            filters: Filters::new(),
            cache: RegexCache::new(),
            live_mode: true,
            indexing: false,
            pending_watch_events: Vec::new(),
            visible_columns: visible,
            index_progress: None,
        }
    }

    /// Whether any row passes the filters.
    pub fn has_rows(&self) -> (r: bool)
        ensures
            r == (self.filtered@.len() > 0),
    {
        self.filtered.len() > 0
    }

    /// Applies the filters to the rows in their current order, and goes back
    /// to the first page with nothing selected.
    pub fn apply_filters(&mut self)
        requires
            old(self).catalog.wf(),
            old(self).cache.wf(),
        ensures
            final(self).wf(),
            final(self).filtered_current(),
            final(self).page == 0,
            final(self).selected is None,
            final(self).catalog == old(self).catalog,
            final(self).visible_columns == old(self).visible_columns,
            final(self).indexing == old(self).indexing,
            final(self).index_progress == old(self).index_progress,
            same_settings(*old(self), *final(self)),
    {
        let picked = apply_filters(&self.catalog.rows, &self.filters, &mut self.cache);
        self.filtered = picked;
        self.page = 0;
        self.selected = None;
    }

    /// Brings everything in line after the catalog's files or rows changed:
    /// the rows go back in order, the columns are recomputed, the chosen
    /// columns are pruned, and the filters are applied anew.
    pub fn sync_after_catalog_changes(&mut self)
        requires
            old(self).catalog.consistent(),
            old(self).cache.wf(),
        ensures
            final(self).wf(),
            final(self).filtered_current(),
            final(self).page == 0,
            final(self).selected is None,
            final(self).catalog.files == old(self).catalog.files,
            final(self).catalog.rows@ == catalog_order(old(self).catalog.rows@, old(self).sort_desc),
            in_order(final(self).catalog.rows@, final(self).sort_desc),
            texts(final(self).visible_columns@) == pruned(
                texts(old(self).visible_columns@),
                texts(final(self).catalog.columns@),
                old(self).visible_columns@.len(),
            ),
            final(self).indexing == old(self).indexing,
            final(self).index_progress == old(self).index_progress,
            same_settings(*old(self), *final(self)),
    {
        self.catalog.sort(self.sort_desc);
        self.catalog.recompute_columns();
        prune_visible_columns(&mut self.visible_columns, &self.catalog.columns);
        self.apply_filters();
    }

    /// Sets the order of the rows and applies the filters anew.
    pub fn apply_sort(&mut self, newest_first: bool)
        requires
            old(self).wf(),
        ensures
            final(self).wf(),
            final(self).filtered_current(),
            final(self).sort_desc == newest_first,
            final(self).catalog.rows@ == catalog_order(old(self).catalog.rows@, newest_first),
            in_order(final(self).catalog.rows@, newest_first),
            final(self).catalog.files == old(self).catalog.files,
            final(self).catalog.columns == old(self).catalog.columns,
            final(self).page == 0,
            final(self).selected is None,
            final(self).visible_columns == old(self).visible_columns,
            final(self).filters == old(self).filters,
            final(self).indexing == old(self).indexing,
            final(self).index_progress == old(self).index_progress,
    {
        self.sort_desc = newest_first;
        self.catalog.sort(newest_first);
        self.apply_filters();
    }

    /// Takes note that a full index has begun: changes that were waiting are
    /// dropped, since the index will see them.
    pub fn start_index(&mut self)
        ensures
            final(self).indexing,
            final(self).index_progress is None,
            final(self).pending_watch_events@.len() == 0,
            final(self).catalog == old(self).catalog,
            final(self).filtered == old(self).filtered,
            final(self).selected == old(self).selected,
            final(self).page == old(self).page,
            final(self).cache == old(self).cache,
            final(self).filters == old(self).filters,
            final(self).visible_columns == old(self).visible_columns,
    {
        self.indexing = true;
        self.index_progress = None;
        self.pending_watch_events = Vec::new();
    }

    /// Takes in a progress report: the count shown never exceeds the total,
    /// taken as one at least.
    pub fn on_progress(&mut self, processed: usize, total: usize)
        ensures
            final(self).index_progress == Some(shown_progress(processed, total)),
            final(self).catalog == old(self).catalog,
            final(self).filtered == old(self).filtered,
            final(self).selected == old(self).selected,
            final(self).page == old(self).page,
            final(self).cache == old(self).cache,
            final(self).indexing == old(self).indexing,
            final(self).visible_columns == old(self).visible_columns,
    {
        let capped_total = if total >= 1 {
            total
        } else {
            1
        };
        let capped = if processed <= capped_total {
            processed
        } else {
            capped_total
        };
        self.index_progress = Some((capped, total));
    }

    /// Takes in the catalog that a full index produced. The rows are put in
    /// the engine's order, the chosen columns are pruned and the filters applied.
    pub fn install_catalog(&mut self, catalog: Catalog)
        requires
            old(self).cache.wf(),
            catalog.wf(),
        ensures
            installs(*old(self), catalog, *final(self)),
    {
        self.indexing = false;
        self.index_progress = None;
        self.catalog = catalog;
        self.catalog.sort(self.sort_desc);
        prune_visible_columns(&mut self.visible_columns, &self.catalog.columns);
        self.apply_filters();
    }

    /// Takes in an event of the indexer. Returns the error of a failed index,
    /// which leaves the catalog of before in place.
    pub fn on_index_event(&mut self, event: IndexEvent) -> (failure: Option<String>)
        requires
            old(self).wf(),
            event matches IndexEvent::Finished(Ok(catalog)) ==> catalog.wf(),
        ensures
            final(self).wf(),
            match event {
                IndexEvent::Progress { processed, total } => {
                    &&& failure is None
                    &&& final(self).index_progress == Some(shown_progress(processed, total))
                    &&& final(self).indexing == old(self).indexing
                    &&& final(self).catalog == old(self).catalog
                    &&& final(self).filtered == old(self).filtered
                    &&& final(self).selected == old(self).selected
                    &&& final(self).page == old(self).page
                },
                IndexEvent::Finished(Ok(catalog)) => failure is None && installs(
                    *old(self),
                    catalog,
                    *final(self),
                ),
                IndexEvent::Finished(Err(error)) => {
                    &&& failure == Some(error)
                    &&& !final(self).indexing
                    &&& final(self).index_progress is None
                    &&& final(self).catalog == old(self).catalog
                    &&& final(self).filtered == old(self).filtered
                    &&& final(self).selected == old(self).selected
                    &&& final(self).page == old(self).page
                },
            },
    {
        match event {
            IndexEvent::Progress { processed, total } => {
                self.on_progress(processed, total);
                None
            },
            IndexEvent::Finished(Ok(catalog)) => {
                self.install_catalog(catalog);
                None
            },
            IndexEvent::Finished(Err(error)) => {
                self.indexing = false;
                self.index_progress = None;
                Some(error)
            },
        }
    }

    /// Queues a watch event. In live mode the event waits for the next
    /// batch; otherwise it is dropped and the caller is told so.
    pub fn queue_watch_event(&mut self, event: WatchEvent) -> (queued: bool)
        ensures
            queued == old(self).live_mode,
            queued ==> final(self).pending_watch_events@ == old(self).pending_watch_events@.push(event),
            !queued ==> final(self).pending_watch_events == old(self).pending_watch_events,
            final(self).catalog == old(self).catalog,
            final(self).filtered == old(self).filtered,
            final(self).selected == old(self).selected,
            final(self).cache == old(self).cache,
            final(self).live_mode == old(self).live_mode,
    {
        if self.live_mode {
            self.pending_watch_events.push(event);
            true
        } else {
            false
        }
    }

    /// Takes the events that wait, collapsed to one request per path. Nothing
    /// is taken outside live mode, while an index runs, or when nothing waits.
    pub fn take_pending(&mut self) -> (batch: Option<Pending>)
        ensures
            final(self).catalog == old(self).catalog,
            final(self).filtered == old(self).filtered,
            final(self).selected == old(self).selected,
            final(self).cache == old(self).cache,
            match batch {
                Some(pending) => {
                    &&& old(self).live_mode && !old(self).indexing
                    &&& old(self).pending_watch_events@.len() > 0
                    &&& final(self).pending_watch_events@.len() == 0
                    &&& strictly_sorted(texts(pending.changed@))
                    &&& strictly_sorted(texts(pending.removed@))
                    &&& texts(pending.changed@).to_set() == pending_changes(
                        old(self).pending_watch_events@,
                    )
                    &&& texts(pending.removed@).to_set() == pending_removals(
                        old(self).pending_watch_events@,
                    )
                },
                None => {
                    &&& !old(self).live_mode || old(self).indexing || old(self).pending_watch_events@.len() == 0
                    &&& final(self).pending_watch_events == old(self).pending_watch_events
                },
            },
    {
        if !self.live_mode || self.indexing || self.pending_watch_events.len() == 0 {
            return None;
        }
        let pending = collapse_events(&self.pending_watch_events);
        self.pending_watch_events = Vec::new();
        Some(pending)
    }

    /// Applies a batch of changes: the removals first, in order, then the
    /// files read, in order. Where anything changed, the rows go back in
    /// order, the columns are recomputed and the filters applied anew; where
    /// nothing did, the engine is left as it was.
    pub fn apply_batch(&mut self, removed: &Vec<String>, loaded: &Vec<Loaded>, extractor: &Extractor) -> (report:
        BatchReport)
        requires
            old(self).wf(),
        ensures
            final(self).wf(),
            report.removed_files == removal_count(
                old(self).catalog.model(),
                texts(removed@),
                removed@.len(),
            ),
            report.updated_files == refresh_count(
                after_removals(old(self).catalog.model(), texts(removed@), removed@.len()),
                loads_of(loaded@),
                loaded@.len(),
            ),
            texts(report.failed@) == unread_paths(loads_of(loaded@), loaded@.len()),
            if report.removed_files == 0 && report.updated_files == 0 {
                &&& final(self).catalog == old(self).catalog
                &&& final(self).filtered == old(self).filtered
                &&& final(self).selected == old(self).selected
                &&& final(self).page == old(self).page
                &&& final(self).visible_columns == old(self).visible_columns
            } else {
                &&& file_part(final(self).catalog) == after_batch(
                    old(self).catalog.model(),
                    texts(removed@),
                    loads_of(loaded@),
                ).files
                &&& exists|rows: Seq<Row>|
                    row_models(rows) == after_batch(
                        old(self).catalog.model(),
                        texts(removed@),
                        loads_of(loaded@),
                    ).rows && #[trigger] catalog_order(rows, old(self).sort_desc) == final(self).catalog.rows@
                &&& in_order(final(self).catalog.rows@, final(self).sort_desc)
                &&& final(self).filtered_current()
                &&& final(self).selected is None
                &&& final(self).page == 0
                &&& texts(final(self).visible_columns@) == pruned(
                    texts(old(self).visible_columns@),
                    texts(final(self).catalog.columns@),
                    old(self).visible_columns@.len(),
                )
            },
            same_settings(*old(self), *final(self)),
            final(self).indexing == old(self).indexing,
            final(self).index_progress == old(self).index_progress,
    {
        let ghost start = self.catalog.model();
        let ghost paths = texts(removed@);
        let ghost loads = loads_of(loaded@);
        let mut removed_files: usize = 0;
        let mut i: usize = 0;
        while i < removed.len()
            invariant
                i <= removed.len(),
                paths == texts(removed@),
                self.catalog.consistent(),
                self.catalog.columns == old(self).catalog.columns,
                self.catalog.model() == after_removals(start, paths, i as nat),
                removed_files == removal_count(start, paths, i as nat),
                removed_files <= i,
                removed_files == 0 ==> self.catalog == old(self).catalog,
                self.cache == old(self).cache,
                self.filtered == old(self).filtered,
                self.selected == old(self).selected,
                self.page == old(self).page,
                self.visible_columns == old(self).visible_columns,
                self.sort_desc == old(self).sort_desc,
                self.filters == old(self).filters,
                self.pending_watch_events == old(self).pending_watch_events,
                self.live_mode == old(self).live_mode,
                self.indexing == old(self).indexing,
                self.index_progress == old(self).index_progress,
                self.page_size == old(self).page_size,
                self.ctx_before == old(self).ctx_before,
                self.ctx_after == old(self).ctx_after,
            decreases removed.len() - i,
        {
            assert(paths[i as int] == removed@[i as int]@);
            if self.catalog.remove_file_by_path(removed[i].as_str()) {
                removed_files += 1;
            }
            i += 1;
        }
        let ghost middle = self.catalog.model();
        let mut updated_files: usize = 0;
        let mut failed: Vec<String> = Vec::new();
        let mut j: usize = 0;
        assert(texts(failed@) =~= unread_paths(loads, 0));
        while j < loaded.len()
            invariant
                j <= loaded.len(),
                loads == loads_of(loaded@),
                self.catalog.consistent(),
                self.catalog.columns == old(self).catalog.columns,
                self.catalog.model() == after_refreshes(middle, loads, j as nat),
                updated_files == refresh_count(middle, loads, j as nat),
                updated_files <= j,
                texts(failed@) == unread_paths(loads, j as nat),
                removed_files == 0 && updated_files == 0 ==> self.catalog == old(self).catalog,
                self.cache == old(self).cache,
                self.filtered == old(self).filtered,
                self.selected == old(self).selected,
                self.page == old(self).page,
                self.visible_columns == old(self).visible_columns,
                self.sort_desc == old(self).sort_desc,
                self.filters == old(self).filters,
                self.pending_watch_events == old(self).pending_watch_events,
                self.live_mode == old(self).live_mode,
                self.indexing == old(self).indexing,
                self.index_progress == old(self).index_progress,
                self.page_size == old(self).page_size,
                self.ctx_before == old(self).ctx_before,
                self.ctx_after == old(self).ctx_after,
            decreases loaded.len() - j,
        {
            assert(loads[j as int] == (
                loaded@[j as int].path@,
                indexable(opt_bytes(loaded@[j as int].bytes)),
            ));
            let found: Option<Vec<String>> = match &loaded[j].bytes {
                Some(bytes) => try_sanitize_buffer(bytes.as_slice()),
                None => None,
            };
            match found {
                Some(lines) => {
                    if self.catalog.refresh_lines(loaded[j].path.as_str(), lines, extractor) {
                        updated_files += 1;
                    }
                },
                None => {
                    let ghost before = texts(failed@);
                    failed.push(loaded[j].path.clone());
                    assert(texts(failed@) =~= before.push(loaded@[j as int].path@));
                },
            }
            j += 1;
        }
        if updated_files > 0 || removed_files > 0 {
            let ghost rows = self.catalog.rows@;
            self.sync_after_catalog_changes();
            assert(catalog_order(rows, old(self).sort_desc) == self.catalog.rows@);
        }
        BatchReport { updated_files, removed_files, failed }
    }

    /// The column of the catalog that a typed name resolves to.
    pub fn resolve_column(&self, name: &str) -> (res: Option<String>)
        ensures
            match res {
                Some(column) => exists|i: int|
                    column@ == texts(self.catalog.columns@)[i] && trimmed(name@).len() > 0
                        && is_resolution(texts(self.catalog.columns@), trimmed(name@), i),
                None => unresolved(texts(self.catalog.columns@), trimmed(name@)),
            },
    {
        resolve_column_name(&self.catalog.columns, name)
    }

    /// The lines to show around a row: from `ctx_before` lines before its
    /// first line to `ctx_after` lines behind its last, within the file.
    pub fn context_range(&self, row: &Row) -> (range: (usize, usize))
        requires
            row.file_id < self.catalog.files@.len(),
        ensures
            range.0 == (if row.line_start >= self.ctx_before {
                row.line_start - self.ctx_before
            } else {
                0
            }),
            range.1 == (if row.line_end + 1 + self.ctx_after
                <= self.catalog.files@[row.file_id as int].sanitized_lines@.len() {
                row.line_end + 1 + self.ctx_after
            } else {
                self.catalog.files@[row.file_id as int].sanitized_lines@.len() as int
            }),
    {
        let total = self.catalog.files[row.file_id].sanitized_lines.len();
        let start = if row.line_start >= self.ctx_before {
            row.line_start - self.ctx_before
        } else {
            0
        };
        let wanted: u128 = row.line_end as u128 + 1 + self.ctx_after as u128;
        let end = if wanted <= total as u128 {
            wanted as usize
        } else {
            total
        };
        (start, end)
    }

    /// The part of the filtered rows that the current page shows: the
    /// positions from `page * page_size` on, `page_size` of them at most.
    pub fn page_range(&self) -> (range: (usize, usize))
        ensures
            range.0 == (if self.page * self.page_size <= self.filtered@.len() {
                self.page * self.page_size
            } else {
                self.filtered@.len() as int
            }),
            range.1 == (if range.0 + self.page_size <= self.filtered@.len() {
                range.0 + self.page_size
            } else {
                self.filtered@.len() as int
            }),
    {
        let n = self.filtered.len();
        assert(self.page * self.page_size <= 0xFFFF_FFFF_FFFF_FFFF * 0xFFFF_FFFF_FFFF_FFFF)
            by (nonlinear_arith)
            requires
                self.page <= 0xFFFF_FFFF_FFFF_FFFF,
                self.page_size <= 0xFFFF_FFFF_FFFF_FFFF,
        ;
        let wanted: u128 = (self.page as u128) * (self.page_size as u128);
        let start = if wanted <= n as u128 {
            wanted as usize
        } else {
            n
        };
        let end = if self.page_size <= n - start {
            start + self.page_size
        } else {
            n
        };
        (start, end)
    }

    /// Goes to the next page, if there is one.
    pub fn next_page(&mut self)
        requires
            old(self).page_size > 0,
        ensures
            final(self).page == (if old(self).page + 1 < pages_for(
                old(self).filtered@.len(),
                old(self).page_size,
            ) {
                old(self).page + 1
            } else {
                old(self).page as int
            }),
            final(self).catalog == old(self).catalog,
            final(self).filtered == old(self).filtered,
            final(self).selected == old(self).selected,
            final(self).cache == old(self).cache,
            same_settings(*old(self), *final(self)),
    {
        let count = self.page_count();
        proof {
            lemma_pages(self.filtered@.len(), self.page_size, count);
        }
        if self.page < count - 1 {
            self.page += 1;
        }
    }

    /// Goes to the page before, if there is one.
    pub fn prev_page(&mut self)
        ensures
            final(self).page == (if old(self).page > 0 {
                old(self).page - 1
            } else {
                0
            }),
            final(self).catalog == old(self).catalog,
            final(self).filtered == old(self).filtered,
            final(self).selected == old(self).selected,
            final(self).cache == old(self).cache,
            same_settings(*old(self), *final(self)),
    {
        if self.page > 0 {
            self.page -= 1;
        }
    }

    /// Selects the filtered row at `position`; a position behind the last
    /// row selects nothing.
    pub fn select(&mut self, position: usize)
        ensures
            final(self).selected == (if position < old(self).filtered@.len() {
                Some(position)
            } else {
                None
            }),
            final(self).catalog == old(self).catalog,
            final(self).filtered == old(self).filtered,
            final(self).page == old(self).page,
            final(self).cache == old(self).cache,
            same_settings(*old(self), *final(self)),
    {
        if position < self.filtered.len() {
            self.selected = Some(position);
        } else {
            self.selected = None;
        }
    }

    /// Moves the selection to the next filtered row, if there is one.
    pub fn select_next(&mut self)
        ensures
            final(self).selected == (match old(self).selected {
                Some(s) => if s + 1 < old(self).filtered@.len() {
                    Some((s + 1) as usize)
                } else {
                    Some(s)
                },
                None => None,
            }),
            final(self).catalog == old(self).catalog,
            final(self).filtered == old(self).filtered,
            final(self).page == old(self).page,
            final(self).cache == old(self).cache,
            same_settings(*old(self), *final(self)),
    {
        if let Some(s) = self.selected {
            if s < self.filtered.len() && s + 1 < self.filtered.len() {
                self.selected = Some(s + 1);
            }
        }
    }

    /// Moves the selection to the filtered row before, if there is one.
    pub fn select_previous(&mut self)
        ensures
            final(self).selected == (match old(self).selected {
                Some(s) => if s > 0 {
                    Some((s - 1) as usize)
                } else {
                    Some(s)
                },
                None => None,
            }),
            final(self).catalog == old(self).catalog,
            final(self).filtered == old(self).filtered,
            final(self).page == old(self).page,
            final(self).cache == old(self).cache,
            same_settings(*old(self), *final(self)),
    {
        if let Some(s) = self.selected {
            if s > 0 {
                self.selected = Some(s - 1);
            }
        }
    }

    /// The index of the selected row in the catalog.
    pub fn selected_row(&self) -> (index: Option<usize>)
        requires
            self.wf(),
        ensures
            index == (match self.selected {
                Some(s) => Some(self.filtered@[s as int]),
                None => None,
            }),
            index matches Some(i) ==> i < self.catalog.rows@.len(),
    {
        match self.selected {
            Some(s) => Some(self.filtered[s]),
            None => None,
        }
    }

    /// The number of pages that the filtered rows fill; one at least.
    pub fn page_count(&self) -> (pages: usize)
        requires
            self.page_size > 0,
        ensures
            pages == pages_for(self.filtered@.len(), self.page_size),
            pages >= 1,
            self.filtered@.len() == 0 ==> pages == 1,
            self.filtered@.len() > 0 ==> (pages - 1) * self.page_size < self.filtered@.len() <= pages
                * self.page_size,
    {
        let n = self.filtered.len();
        if n == 0 {
            return 1;
        }
        let full = n / self.page_size;
        let rest = n % self.page_size;
        proof {
            assert(n == full * self.page_size + rest) by (nonlinear_arith)
                requires
                    full == n / self.page_size,
                    rest == n % self.page_size,
                    self.page_size > 0,
            ;
            assert(full * self.page_size <= n) by (nonlinear_arith)
                requires
                    n == full * self.page_size + rest,
                    rest >= 0,
            ;
        }
        if rest == 0 {
            assert(full >= 1) by (nonlinear_arith)
                requires
                    n == full * self.page_size,
                    n > 0,
                    full >= 0,
            ;
            assert((full - 1) * self.page_size < n) by (nonlinear_arith)
                requires
                    n == full * self.page_size,
                    self.page_size > 0,
            ;
            full
        } else {
            assert(full < n) by (nonlinear_arith)
                requires
                    n == full * self.page_size + rest,
                    rest > 0,
                    self.page_size > 0,
                    full >= 0,
            ;
            assert((full + 1) * self.page_size >= n) by (nonlinear_arith)
                requires
                    n == full * self.page_size + rest,
                    rest < self.page_size,
            ;
            full + 1
        }
    }
}

/// The number of pages that `rows` rows fill at `size` rows a page: the
/// quotient rounded up, one at least.
pub open spec fn pages_for(rows: nat, size: usize) -> int {
    if rows == 0 {
        1
    } else if rows % (size as nat) == 0 {
        (rows / (size as nat)) as int
    } else {
        (rows / (size as nat) + 1) as int
    }
}

/// The number of pages is at least one.
proof fn lemma_pages(rows: nat, size: usize, count: usize)
    requires
        size > 0,
        count == pages_for(rows, size),
    ensures
        count >= 1,
{
    if rows > 0 && rows % (size as nat) == 0 {
        assert(rows / (size as nat) >= 1) by (nonlinear_arith)
            requires
                rows > 0,
                size > 0,
                rows % (size as nat) == 0,
        ;
    }
}

/// The settings that only their owner changes are the same in both engines:
/// the order, the filters, the page size, the context, the mode, and what
/// waits in the queue.
pub open spec fn same_settings(before: Engine, after: Engine) -> bool {
    &&& after.sort_desc == before.sort_desc
    &&& after.filters == before.filters
    &&& after.page_size == before.page_size
    &&& after.ctx_before == before.ctx_before
    &&& after.ctx_after == before.ctx_after
    &&& after.live_mode == before.live_mode
    &&& after.pending_watch_events == before.pending_watch_events
}

/// The progress shown for a report: the count, capped at the total taken as
/// one at least, and the total.
pub open spec fn shown_progress(processed: usize, total: usize) -> (usize, usize) {
    let least = if total >= 1 {
        total
    } else {
        1
    };
    (
        if processed <= least {
            processed
        } else {
            least
        },
        total,
    )
}

/// `after` is `before` with the catalog of a finished index taken in: its
/// files and columns, its rows in the engine's order, the chosen columns
/// pruned, the filters applied, and nothing selected on the first page.
pub open spec fn installs(before: Engine, catalog: Catalog, after: Engine) -> bool {
    &&& after.wf()
    &&& after.filtered_current()
    &&& !after.indexing
    &&& after.index_progress is None
    &&& after.catalog.files == catalog.files
    &&& after.catalog.columns == catalog.columns
    &&& after.catalog.rows@ == catalog_order(catalog.rows@, before.sort_desc)
    &&& in_order(after.catalog.rows@, after.sort_desc)
    &&& same_settings(before, after)
    &&& after.page == 0
    &&& after.selected is None
    &&& texts(after.visible_columns@) == pruned(
        texts(before.visible_columns@),
        texts(catalog.columns@),
        before.visible_columns@.len(),
    )
}

/// The paths and lines of a catalog's files.
pub open spec fn file_part(catalog: Catalog) -> Seq<(Seq<char>, Seq<Seq<char>>)> {
    catalog.model().files
}

} // verus!
