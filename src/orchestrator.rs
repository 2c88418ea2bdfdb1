use vstd::prelude::*;
use crate::paths::{path_starts_with, path_under, same_path, parent_path, parent_of};
use crate::scan::{Item, ItemKind, ScanMsg, ViewMode};

verus! {

/// Identifies a reusable scan result: a canonical path and a view mode.
#[derive(Debug)]
pub struct CacheKey {
    pub path: String,
    pub view: ViewMode,
}

/// A completed scan, kept for reuse until invalidated.
#[derive(Debug)]
pub struct CachedScan {
    pub items: Vec<Item>,
    pub total: u64,
    pub layout_sizes: Vec<(usize, u64)>,
    pub layout_has_zero: bool,
    pub errors: u64,
}

/// Progress of the scan behind the current view.
#[derive(Debug, Clone, Copy, PartialEq, Eq, Structural)]
pub struct ScanState {
    pub scanning: bool,
    pub scanned: u64,
    pub errors: u64,
}

/// What the caller owes after a scan request: cancel the scan with id
/// `cancel` (without waiting for it), and start a background scan of the
/// current path and view under the id `start`.
#[derive(Debug, Clone, Copy, PartialEq, Eq, Structural)]
pub struct ScanStep {
    pub cancel: Option<u64>,
    pub start: Option<u64>,
}

/// The current view, the cache of completed scans, and which background
/// scan (if any) the view listens to. Messages of any other scan are ignored.
#[derive(Debug)]
pub struct Orchestrator {
    pub current_path: String,
    pub view_mode: ViewMode,
    pub items: Vec<Item>,
    pub total: u64,
    pub layout_sizes: Vec<(usize, u64)>,
    pub layout_has_zero: bool,
    pub scan_state: ScanState,
    pub last_error: Option<String>,
    pub active: Option<u64>,
    pub next_id: u64,
    pub cache: Vec<(CacheKey, CachedScan)>,
}

/// `k` is the key of path `p` in view `v`.
pub open spec fn key_is(k: CacheKey, p: Seq<char>, v: ViewMode) -> bool {
    k.path@ == p && k.view == v
}

/// Position of the first cache entry from `i` on with key `(p, v)`, or -1.
pub open spec fn cache_find(c: Seq<(CacheKey, CachedScan)>, p: Seq<char>, v: ViewMode, i: int) -> int
    decreases c.len() - i,
{
    if i < 0 || i >= c.len() {
        -1
    } else if key_is(c[i].0, p, v) {
        i
    } else {
        cache_find(c, p, v, i + 1)
    }
}

/// Layout weights of a result: each item's position with its size.
pub open spec fn layout_sizes_of(items: Seq<Item>) -> Seq<(usize, u64)> {
    Seq::new(items.len(), |i: int| (i as usize, items[i].size))
}

/// Some directory of the result has size zero (it would vanish in an
/// area-proportional layout).
pub open spec fn has_zero_dir(items: Seq<Item>) -> bool {
    exists|i: int| 0 <= i < items.len() && #[trigger] items[i].size == 0 && items[i].kind == ItemKind::Dir
}

/// `e` holds the result `items`, `total`, `errors` with its layout weights.
pub open spec fn entry_holds(e: CachedScan, items: Seq<Item>, total: u64, errors: u64) -> bool {
    &&& e.items@ == items
    &&& e.total == total
    &&& e.layout_sizes@ == layout_sizes_of(items)
    &&& e.layout_has_zero == has_zero_dir(items)
    &&& e.errors == errors
}

/// `new` is `old` with the entry for key `(p, v)` replaced, or added at the
/// end, by one that holds the given result.
pub open spec fn stored(
    old: Seq<(CacheKey, CachedScan)>,
    new: Seq<(CacheKey, CachedScan)>,
    p: Seq<char>,
    v: ViewMode,
    items: Seq<Item>,
    total: u64,
    errors: u64,
) -> bool {
    let k = cache_find(old, p, v, 0);
    let pos = if k >= 0 { k } else { old.len() as int };
    &&& new.len() == (if k >= 0 { old.len() as int } else { old.len() + 1int })
    &&& key_is(new[pos].0, p, v)
    &&& entry_holds(new[pos].1, items, total, errors)
    &&& forall|j: int| 0 <= j < new.len() && j != pos ==> new[j] == old[j]
}

/// The entry with key `path` is dropped by an invalidation of `target`: one
/// of the two paths lies under the other.
pub open spec fn stale(key_path: Seq<char>, target: Seq<char>) -> bool {
    path_under(key_path, target) || path_under(target, key_path)
}

/// The cache entries that an invalidation of `target` keeps.
pub open spec fn keeps(target: Seq<char>) -> spec_fn((CacheKey, CachedScan)) -> bool {
    |e: (CacheKey, CachedScan)| !stale(e.0.path@, target)
}

/// The view shows the cached result `e`, with no scan running.
pub open spec fn adopted(o: Orchestrator, e: CachedScan) -> bool {
    &&& o.items@ == e.items@
    &&& o.total == e.total
    &&& o.layout_sizes@ == e.layout_sizes@
    &&& o.layout_has_zero == e.layout_has_zero
    &&& o.scan_state == ScanState { scanning: false, scanned: e.items@.len() as u64, errors: e.errors }
    &&& o.last_error.is_none()
}

/// What a scan request does: cancel the scan listened to; then adopt the
/// cached result for the current key if there is one, or else clear the view
/// and start a scan under a fresh id.
pub open spec fn start_scan_post(old: Orchestrator, new: Orchestrator, step: ScanStep) -> bool {
    let k = old.current_entry();
    &&& step.cancel == old.active
    &&& new.current_path == old.current_path
    &&& new.view_mode == old.view_mode
    &&& new.cache == old.cache
    &&& if k >= 0 {
        &&& adopted(new, old.cache@[k].1)
        &&& new.active.is_none()
        &&& step.start.is_none()
        &&& new.next_id == old.next_id
    } else {
        &&& new.items@.len() == 0
        &&& new.total == 0
        &&& new.layout_sizes@.len() == 0
        &&& !new.layout_has_zero
        &&& new.scan_state == ScanState { scanning: true, scanned: 0, errors: 0 }
        &&& new.last_error.is_none()
        &&& new.active == Some(old.next_id)
        &&& step.start == Some(old.next_id)
        &&& new.next_id == old.next_id + 1
    }
}

/// What a message of scan `id` does. A message of a scan other than the one
/// listened to changes nothing. `Progress` updates the counters; `Done`
/// shows the result and stores it under the current key; `Error` records
/// the message and ends the scanning state.
pub open spec fn on_message_post(old: Orchestrator, new: Orchestrator, id: u64, msg: ScanMsg, changed: bool) -> bool {
    if old.active != Some(id) {
        new == old && !changed
    } else {
        &&& changed
        &&& new.active == old.active
        &&& new.next_id == old.next_id
        &&& new.current_path == old.current_path
        &&& new.view_mode == old.view_mode
        &&& match msg {
            ScanMsg::Progress { scanned, errors } => {
                &&& new.scan_state == ScanState { scanning: old.scan_state.scanning, scanned, errors }
                &&& new.items == old.items
                &&& new.total == old.total
                &&& new.layout_sizes == old.layout_sizes
                &&& new.layout_has_zero == old.layout_has_zero
                &&& new.last_error == old.last_error
                &&& new.cache == old.cache
            },
            ScanMsg::Done { items, total, errors } => {
                &&& new.items@ == items@
                &&& new.total == total
                &&& new.layout_sizes@ == layout_sizes_of(items@)
                &&& new.layout_has_zero == has_zero_dir(items@)
                &&& new.scan_state == ScanState { scanning: false, scanned: items@.len() as u64, errors }
                &&& new.last_error == old.last_error
                &&& stored(old.cache@, new.cache@, old.current_path@, old.view_mode, items@, total, errors)
            },
            ScanMsg::Error(e) => {
                &&& new.last_error == Some(e)
                &&& new.scan_state == ScanState { scanning: false, ..old.scan_state }
                &&& new.items == old.items
                &&& new.total == old.total
                &&& new.layout_sizes == old.layout_sizes
                &&& new.layout_has_zero == old.layout_has_zero
                &&& new.cache == old.cache
            },
        }
    }
}

/// A copy of the items, field by field.
pub fn copy_items(items: &Vec<Item>) -> (out: Vec<Item>)
    ensures
        out@ == items@,
{
    let mut out: Vec<Item> = Vec::new();
    let mut i: usize = 0;
    while i < items.len()
        invariant
            i <= items@.len(),
            out@ == items@.subrange(0, i as int),
        decreases items@.len() - i,
    {
        let it = &items[i];
        out.push(
            Item { name: it.name.clone(), path: it.path.clone(), size: it.size, kind: it.kind, count: it.count },
        );
        assert(out@ =~= items@.subrange(0, i + 1));
        i = i + 1;
    }
    assert(items@.subrange(0, i as int) =~= items@);
    out
}

fn copy_sizes(sizes: &Vec<(usize, u64)>) -> (out: Vec<(usize, u64)>)
    ensures
        out@ == sizes@,
{
    let mut out: Vec<(usize, u64)> = Vec::new();
    let mut i: usize = 0;
    while i < sizes.len()
        invariant
            i <= sizes@.len(),
            out@ == sizes@.subrange(0, i as int),
        decreases sizes@.len() - i,
    {
        out.push(sizes[i]);
        assert(out@ =~= sizes@.subrange(0, i + 1));
        i = i + 1;
    }
    assert(sizes@.subrange(0, i as int) =~= sizes@);
    out
}

/// The layout weights of a result: each item's position with its size.
pub fn layout_sizes(items: &Vec<Item>) -> (out: Vec<(usize, u64)>)
    ensures
        out@ == layout_sizes_of(items@),
{
    let mut out: Vec<(usize, u64)> = Vec::new();
    let mut i: usize = 0;
    while i < items.len()
        invariant
            i <= items@.len(),
            out@ == layout_sizes_of(items@).subrange(0, i as int),
        decreases items@.len() - i,
    {
        out.push((i, items[i].size));
        assert(out@ =~= layout_sizes_of(items@).subrange(0, i + 1));
        i = i + 1;
    }
    assert(layout_sizes_of(items@).subrange(0, i as int) =~= layout_sizes_of(items@));
    out
}

/// Whether some directory of the result has size zero.
pub fn has_zero_size_dir(items: &Vec<Item>) -> (r: bool)
    ensures
        r == has_zero_dir(items@),
{
    let mut i: usize = 0;
    while i < items.len()
        invariant
            i <= items@.len(),
            forall|k: int| 0 <= k < i ==> !(#[trigger] items@[k].size == 0 && items@[k].kind == ItemKind::Dir),
        decreases items@.len() - i,
    {
        if items[i].size == 0 && items[i].kind == ItemKind::Dir {
            assert(items@[i as int].size == 0);
            return true;
        }
        i = i + 1;
    }
    false
}

impl Orchestrator {
    /// Keys of the cache are distinct, and the scan listened to has an id
    /// below the next one to be handed out.
    pub open spec fn wf(&self) -> bool {
        &&& forall|i: int, j: int|
            0 <= i < j < self.cache@.len() ==> !key_is(
                #[trigger] self.cache@[i].0,
                #[trigger] self.cache@[j].0.path@,
                self.cache@[j].0.view,
            )
        &&& match self.active {
            Some(a) => a < self.next_id,
            None => true,
        }
    }

    /// Position of the cache entry for the current path and view, or -1.
    pub open spec fn current_entry(&self) -> int {
        cache_find(self.cache@, self.current_path@, self.view_mode, 0)
    }

    /// Nothing shown, nothing cached, directory-aggregate view of `path`.
    pub fn new(path: String) -> (r: Orchestrator)
        ensures
            r.wf(),
            r.current_path == path,
            r.view_mode == ViewMode::Dirs,
            r.items@.len() == 0,
            r.cache@.len() == 0,
            r.active.is_none(),
            r.scan_state == (ScanState { scanning: false, scanned: 0, errors: 0 }),
            r.last_error.is_none(),
    {
        Orchestrator {
            current_path: path,
            view_mode: ViewMode::Dirs,
            items: Vec::new(),
            total: 0,
            layout_sizes: Vec::new(),
            layout_has_zero: false,
            scan_state: ScanState { scanning: false, scanned: 0, errors: 0 },
            last_error: None,
            active: None,
            next_id: 0,
            cache: Vec::new(),
        }
    }

    /// Position of the cache entry for `path` and `view`.
    fn find_entry(&self, path: &str, view: ViewMode) -> (r: Option<usize>)
        ensures
            match r {
                Some(k) => k == cache_find(self.cache@, path@, view, 0) && k < self.cache@.len(),
                None => cache_find(self.cache@, path@, view, 0) == -1,
            },
    {
        let mut i: usize = 0;
        while i < self.cache.len()
            invariant
                i <= self.cache@.len(),
                cache_find(self.cache@, path@, view, 0) == cache_find(self.cache@, path@, view, i as int),
            decreases self.cache@.len() - i,
        {
            if same_path(self.cache[i].0.path.as_str(), path) && self.cache[i].0.view == view {
                return Some(i);
            }
            i = i + 1;
        }
        None
    }

    /// Requests the result for the current path and view (see
    /// `start_scan_post`).
    pub fn start_scan(&mut self) -> (step: ScanStep)
        requires
            old(self).wf(),
            old(self).next_id < u64::MAX,
        ensures
            final(self).wf(),
            start_scan_post(*old(self), *final(self), step),
    {
        let cancel = self.active;
        match self.find_entry(self.current_path.as_str(), self.view_mode) {
            Some(k) => {
                let e = &self.cache[k].1;
                let items = copy_items(&e.items);
                let sizes = copy_sizes(&e.layout_sizes);
                let total = e.total;
                let has_zero = e.layout_has_zero;
                let errors = e.errors;
                let n = items.len() as u64;
                self.items = items;
                self.total = total;
                self.layout_sizes = sizes;
                self.layout_has_zero = has_zero;
                self.scan_state = ScanState { scanning: false, scanned: n, errors };
                self.last_error = None;
                self.active = None;
                ScanStep { cancel, start: None }
            },
            None => {
                let id = self.next_id;
                self.items = Vec::new();
                self.total = 0;
                self.layout_sizes = Vec::new();
                self.layout_has_zero = false;
                self.scan_state = ScanState { scanning: true, scanned: 0, errors: 0 };
                self.last_error = None;
                self.active = Some(id);
                self.next_id = self.next_id + 1;
                ScanStep { cancel, start: Some(id) }
            },
        }
    }

    /// Shows `path` in `view`: the current path and view change, then as
    /// `start_scan`.
    pub fn request_scan(&mut self, path: String, view: ViewMode) -> (step: ScanStep)
        requires
            old(self).wf(),
            old(self).next_id < u64::MAX,
        ensures
            final(self).wf(),
            exists|mid: Orchestrator|
                {
                    &&& mid.current_path == path
                    &&& mid.view_mode == view
                    &&& mid.cache == old(self).cache
                    &&& mid.active == old(self).active
                    &&& mid.next_id == old(self).next_id
                    &&& #[trigger] start_scan_post(mid, *final(self), step)
                },
    {
        self.current_path = path;
        self.view_mode = view;
        let ghost mid = *self;
        let step = self.start_scan();
        assert(start_scan_post(mid, *self, step));
        step
    }

    /// Takes in a message of the scan with id `id` (see `on_message_post`);
    /// returns whether the view changed.
    pub fn on_message(&mut self, id: u64, msg: ScanMsg) -> (changed: bool)
        requires
            old(self).wf(),
        ensures
            final(self).wf(),
            on_message_post(*old(self), *final(self), id, msg, changed),
    {
        if self.active != Some(id) {
            return false;
        }
        match msg {
            ScanMsg::Progress { scanned, errors } => {
                self.scan_state = ScanState { scanning: self.scan_state.scanning, scanned, errors };
            },
            ScanMsg::Done { items, total, errors } => {
                let sizes = layout_sizes(&items);
                let has_zero = has_zero_size_dir(&items);
                let entry = CachedScan {
                    items: copy_items(&items),
                    total,
                    layout_sizes: copy_sizes(&sizes),
                    layout_has_zero: has_zero,
                    errors,
                };
                let key = CacheKey { path: self.current_path.clone(), view: self.view_mode };
                self.store(key, entry);
                let n = items.len() as u64;
                self.items = items;
                self.total = total;
                self.layout_sizes = sizes;
                self.layout_has_zero = has_zero;
                self.scan_state = ScanState { scanning: false, scanned: n, errors };
            },
            ScanMsg::Error(e) => {
                self.last_error = Some(e);
                self.scan_state = ScanState { scanning: false, ..self.scan_state };
            },
        }
        true
    }

    /// Replaces the entry with the key of `key`, or adds one at the end.
    fn store(&mut self, key: CacheKey, entry: CachedScan)
        requires
            old(self).wf(),
        ensures
            final(self).wf(),
            cache_find(old(self).cache@, key.path@, key.view, 0) < old(self).cache@.len(),
            ({
                let k = cache_find(old(self).cache@, key.path@, key.view, 0);
                let pos = if k >= 0 { k } else { old(self).cache@.len() as int };
                &&& final(self).cache@ == (if k >= 0 {
                    old(self).cache@.update(k, (key, entry))
                } else {
                    old(self).cache@.push((key, entry))
                })
            }),
            final(self).current_path == old(self).current_path,
            final(self).view_mode == old(self).view_mode,
            final(self).items == old(self).items,
            final(self).total == old(self).total,
            final(self).layout_sizes == old(self).layout_sizes,
            final(self).layout_has_zero == old(self).layout_has_zero,
            final(self).scan_state == old(self).scan_state,
            final(self).last_error == old(self).last_error,
            final(self).active == old(self).active,
            final(self).next_id == old(self).next_id,
    {
        let ghost p = key.path@;
        let ghost v = key.view;
        match self.find_entry(key.path.as_str(), key.view) {
            Some(k) => {
                let ghost before = self.cache@;
                proof {
                    lemma_cache_find_hit(before, p, v, 0);
                }
                self.cache.remove(k);
                self.cache.insert(k, (key, entry));
                assert(self.cache@ =~= before.update(k as int, (key, entry)));
                assert forall|i: int, j: int| 0 <= i < j < self.cache@.len() implies !key_is(
                    #[trigger] self.cache@[i].0,
                    #[trigger] self.cache@[j].0.path@,
                    self.cache@[j].0.view,
                ) by {
                    if i == k {
                        assert(!key_is(before[j].0, before[i].0.path@, before[i].0.view));
                    } else if j == k {
                        assert(!key_is(before[i].0, before[j].0.path@, before[j].0.view));
                    }
                }
            },
            None => {
                let ghost before = self.cache@;
                proof {
                    lemma_cache_find_miss(before, p, v, 0);
                    assert(before.push((key, entry))[before.len() as int] == (key, entry));
                }
                self.cache.push((key, entry));
                assert forall|i: int, j: int| 0 <= i < j < self.cache@.len() implies !key_is(
                    #[trigger] self.cache@[i].0,
                    #[trigger] self.cache@[j].0.path@,
                    self.cache@[j].0.view,
                ) by {
                    if j == before.len() {
                        assert(self.cache@[i] == before[i]);
                    } else {
                        assert(self.cache@[i] == before[i] && self.cache@[j] == before[j]);
                    }
                }
            },
        }
    }

    /// The scan with id `id` ended without a final message: if it is the one
    /// listened to, scanning stops quietly and it is no longer listened to.
    pub fn on_disconnect(&mut self, id: u64) -> (changed: bool)
        requires
            old(self).wf(),
        ensures
            final(self).wf(),
            old(self).active == Some(id) ==> {
                &&& changed
                &&& final(self).active.is_none()
                &&& final(self).scan_state == ScanState { scanning: false, ..old(self).scan_state }
                &&& final(self).cache == old(self).cache
                &&& final(self).items == old(self).items
                &&& final(self).total == old(self).total
                &&& final(self).layout_sizes == old(self).layout_sizes
                &&& final(self).layout_has_zero == old(self).layout_has_zero
                &&& final(self).last_error == old(self).last_error
                &&& final(self).current_path == old(self).current_path
                &&& final(self).view_mode == old(self).view_mode
                &&& final(self).next_id == old(self).next_id
            },
            old(self).active != Some(id) ==> *final(self) == *old(self) && !changed,
    {
        if self.active != Some(id) {
            return false;
        }
        self.scan_state = ScanState { scanning: false, ..self.scan_state };
        self.active = None;
        true
    }

    /// Drops every cached result whose path lies under `target` or above it
    /// (siblings and cousins stay), so that a changed directory is scanned
    /// anew.
    pub fn invalidate(&mut self, target: &str)
        requires
            old(self).wf(),
        ensures
            final(self).wf(),
            final(self).cache@ == old(self).cache@.filter(keeps(target@)),
            final(self).current_path == old(self).current_path,
            final(self).view_mode == old(self).view_mode,
            final(self).items == old(self).items,
            final(self).total == old(self).total,
            final(self).layout_sizes == old(self).layout_sizes,
            final(self).layout_has_zero == old(self).layout_has_zero,
            final(self).scan_state == old(self).scan_state,
            final(self).last_error == old(self).last_error,
            final(self).active == old(self).active,
            final(self).next_id == old(self).next_id,
    {
        let ghost orig = self.cache@;
        let mut rest: Vec<(CacheKey, CachedScan)> = Vec::new();
        std::mem::swap(&mut rest, &mut self.cache);
        let ghost idx: Seq<int> = Seq::empty();
        let mut i: usize = 0;
        let n = rest.len();
        while i < n
            invariant
                n == orig.len(),
                i <= n,
                rest@ == orig.subrange(i as int, n as int),
                self.cache@ == orig.subrange(0, i as int).filter(keeps(target@)),
                idx.len() == self.cache@.len(),
                forall|a: int| 0 <= a < idx.len() ==> 0 <= #[trigger] idx[a] < i && self.cache@[a] == orig[idx[a]],
                forall|a: int, b: int| 0 <= a < b < idx.len() ==> #[trigger] idx[a] < #[trigger] idx[b],
                forall|a: int, b: int|
                    0 <= a < b < orig.len() ==> !key_is(#[trigger] orig[a].0, #[trigger] orig[b].0.path@, orig[b].0.view),
                self.current_path == old(self).current_path,
                self.view_mode == old(self).view_mode,
                self.items == old(self).items,
                self.total == old(self).total,
                self.layout_sizes == old(self).layout_sizes,
                self.layout_has_zero == old(self).layout_has_zero,
                self.scan_state == old(self).scan_state,
                self.last_error == old(self).last_error,
                self.active == old(self).active,
                self.next_id == old(self).next_id,
            decreases n - i,
        {
            let e = rest.remove(0);
            assert(e == orig[i as int]);
            assert(orig.subrange(0, i + 1).drop_last() =~= orig.subrange(0, i as int));
            assert(orig.subrange(0, i + 1).last() == e);
            let hit = path_starts_with(e.0.path.as_str(), target) || path_starts_with(target, e.0.path.as_str());
            assert(keeps(target@)(e) == !hit);
            reveal(Seq::filter);
            assert(orig.subrange(0, i + 1).filter(keeps(target@)) == (if keeps(target@)(e) {
                orig.subrange(0, i as int).filter(keeps(target@)).push(e)
            } else {
                orig.subrange(0, i as int).filter(keeps(target@))
            }));
            if !hit {
                proof {
                    idx = idx.push(i as int);
                }
                self.cache.push(e);
            }
            assert(rest@ =~= orig.subrange(i + 1, n as int));
            i = i + 1;
        }
        assert(orig.subrange(0, n as int) =~= orig);
        assert forall|a: int, b: int| 0 <= a < b < self.cache@.len() implies !key_is(
            #[trigger] self.cache@[a].0,
            #[trigger] self.cache@[b].0.path@,
            self.cache@[b].0.view,
        ) by {
            assert(idx[a] < idx[b]);
        }
    }

    /// Goes one level up: from the file listing back to the directory
    /// view of the same path; from a directory view to the parent directory
    /// (nothing happens at the root).
    pub fn go_up(&mut self) -> (step: Option<ScanStep>)
        requires
            old(self).wf(),
            old(self).next_id < u64::MAX,
        ensures
            final(self).wf(),
            old(self).view_mode == ViewMode::Files ==> step.is_some(),
            old(self).view_mode == ViewMode::Dirs ==> (step.is_some() == parent_of(old(self).current_path@).is_some()),
            step.is_none() ==> *final(self) == *old(self),
            match step {
                Some(st) => exists|mid: Orchestrator|
                    {
                        &&& (if old(self).view_mode == ViewMode::Files {
                            mid.current_path == old(self).current_path
                        } else {
                            parent_of(old(self).current_path@) == Some(mid.current_path@)
                        })
                        &&& mid.view_mode == ViewMode::Dirs
                        &&& mid.cache == old(self).cache
                        &&& mid.active == old(self).active
                        &&& mid.next_id == old(self).next_id
                        &&& #[trigger] start_scan_post(mid, *final(self), st)
                    },
                None => true,
            },
    {
        if self.view_mode == ViewMode::Files {
            self.view_mode = ViewMode::Dirs;
            let ghost mid = *self;
            let st = self.start_scan();
            assert(start_scan_post(mid, *self, st));
            return Some(st);
        }
        match parent_path(self.current_path.as_str()) {
            Some(p) => {
                self.current_path = p;
                let ghost mid = *self;
                let st = self.start_scan();
                assert(start_scan_post(mid, *self, st));
                Some(st)
            },
            None => None,
        }
    }
}

proof fn lemma_cache_find_hit(c: Seq<(CacheKey, CachedScan)>, p: Seq<char>, v: ViewMode, i: int)
    requires
        0 <= i,
        cache_find(c, p, v, i) >= 0,
    ensures
        i <= cache_find(c, p, v, i) < c.len(),
        key_is(c[cache_find(c, p, v, i)].0, p, v),
    decreases c.len() - i,
{
    if i < c.len() && !key_is(c[i].0, p, v) {
        lemma_cache_find_hit(c, p, v, i + 1);
    }
}

proof fn lemma_cache_find_miss(c: Seq<(CacheKey, CachedScan)>, p: Seq<char>, v: ViewMode, i: int)
    requires
        0 <= i,
        cache_find(c, p, v, i) == -1,
    ensures
        forall|j: int| i <= j < c.len() ==> !key_is(#[trigger] c[j].0, p, v),
    decreases c.len() - i,
{
    if i < c.len() {
        lemma_cache_find_miss(c, p, v, i + 1);
    }
}

/// With distinct keys, the search finds the one entry that has the key.
proof fn lemma_cache_find_unique(c: Seq<(CacheKey, CachedScan)>, p: Seq<char>, v: ViewMode, pos: int, i: int)
    requires
        0 <= i <= pos < c.len(),
        key_is(c[pos].0, p, v),
        forall|a: int, b: int| 0 <= a < b < c.len() ==> !key_is(#[trigger] c[a].0, #[trigger] c[b].0.path@, c[b].0.view),
    ensures
        cache_find(c, p, v, i) == pos,
    decreases pos - i,
{
    if i < pos {
        assert(!key_is(c[i].0, c[pos].0.path@, c[pos].0.view));
        lemma_cache_find_unique(c, p, v, pos, i + 1);
    }
}

/// Cache hit: once the scan listened to has delivered its result, asking
/// again for the same path and view shows the very same items, sizes and
/// total, and starts no background scan.
pub proof fn lemma_repeat_request_hits_cache(
    o0: Orchestrator,
    o1: Orchestrator,
    o2: Orchestrator,
    id: u64,
    msg: ScanMsg,
    changed: bool,
    step: ScanStep,
)
    requires
        o0.wf(),
        o1.wf(),
        o0.active == Some(id),
        msg is Done,
        on_message_post(o0, o1, id, msg, changed),
        start_scan_post(o1, o2, step),
    ensures
        o2.items@ == o1.items@,
        o2.total == o1.total,
        o2.layout_sizes@ == o1.layout_sizes@,
        step.start.is_none(),
        o2.active.is_none(),
{
    let k = cache_find(o0.cache@, o0.current_path@, o0.view_mode, 0);
    let pos = if k >= 0 { k } else { o0.cache@.len() as int };
    if k >= 0 {
        lemma_cache_find_hit(o0.cache@, o0.current_path@, o0.view_mode, 0);
    }
    lemma_cache_find_unique(o1.cache@, o1.current_path@, o1.view_mode, pos, 0);
}

/// Repeating a request that hit the cache gives the same view and starts
/// no background scan.
pub proof fn lemma_repeat_hit_is_stable(o1: Orchestrator, o2: Orchestrator, o3: Orchestrator, s2: ScanStep, s3: ScanStep)
    requires
        o1.wf(),
        o1.current_entry() >= 0,
        start_scan_post(o1, o2, s2),
        start_scan_post(o2, o3, s3),
    ensures
        o3.items@ == o2.items@,
        o3.total == o2.total,
        o3.layout_sizes@ == o2.layout_sizes@,
        s2.start.is_none(),
        s3.start.is_none(),
{
}

/// Cancellation: once a new request has superseded the scan listened to,
/// no message of that scan (progress, result or error) changes the view.
pub proof fn lemma_superseded_scan_is_ignored(
    o0: Orchestrator,
    o1: Orchestrator,
    o2: Orchestrator,
    step: ScanStep,
    id: u64,
    msg: ScanMsg,
    changed: bool,
)
    requires
        o0.wf(),
        o0.active == Some(id),
        start_scan_post(o0, o1, step),
        on_message_post(o1, o2, id, msg, changed),
    ensures
        step.cancel == Some(id),
        o2 == o1,
        !changed,
{
}

} // verus!
