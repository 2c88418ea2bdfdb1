use vstd::prelude::*;
use crate::paths::{is_proc_path, path_under, proc_root, same_path};
use crate::scan::{
    Entry, Item, ItemKind, ScanMsg, PROGRESS_EVERY, inc, sat_add, files_label, files_label_string,
    finish_items, size_sum, sorted_by_size,
};

verus! {

/// The message due after an entry was counted: progress every
/// `PROGRESS_EVERY` entries.
pub open spec fn progress_due(scanned: u64, errors: u64) -> Option<ScanMsg> {
    if scanned % PROGRESS_EVERY == 0 {
        Some(ScanMsg::Progress { scanned, errors })
    } else {
        None
    }
}

/// Paths of the directory items, in order.
pub open spec fn dir_paths(items: Seq<Item>) -> Seq<Seq<char>>
    decreases items.len(),
{
    if items.len() == 0 {
        Seq::empty()
    } else if items.last().kind == ItemKind::Dir {
        dir_paths(items.drop_last()).push(items.last().path@)
    } else {
        dir_paths(items.drop_last())
    }
}

/// Position of the first directory item from `i` on whose path is `p`, or -1.
pub open spec fn find_dir(items: Seq<Item>, p: Seq<char>, i: int) -> int
    decreases items.len() - i,
{
    if i < 0 || i >= items.len() {
        -1
    } else if items[i].kind == ItemKind::Dir && items[i].path@ == p {
        i
    } else {
        find_dir(items, p, i + 1)
    }
}

/// `items` with the first directory item of path `p` given size `size`.
pub open spec fn with_dir_size(items: Seq<Item>, p: Seq<char>, size: u64) -> Seq<Item> {
    let k = find_dir(items, p, 0);
    if k < 0 {
        items
    } else {
        items.update(k, Item { size, ..items[k] })
    }
}

/// Directory-aggregate scan of one directory, fed one entry at a time:
/// subdirectories become items (sized later), regular files are only counted
/// and summed.
pub struct DirScan {
    pub base: String,
    pub items: Vec<Item>,
    pub scanned: u64,
    pub errors: u64,
    pub files_total: u64,
    pub files_count: u64,
}

/// File-listing scan of one directory, fed one entry at a time: each regular
/// file becomes an item.
pub struct FileScan {
    pub items: Vec<Item>,
    pub scanned: u64,
    pub errors: u64,
}

impl DirScan {
    /// An empty scan of the directory `base` (its canonical path).
    pub fn new(base: String) -> (r: DirScan)
        ensures
            r.base == base,
            r.items@.len() == 0,
            r.scanned == 0 && r.errors == 0 && r.files_total == 0 && r.files_count == 0,
    {
        DirScan { base, items: Vec::new(), scanned: 0, errors: 0, files_total: 0, files_count: 0 }
    }

    /// Takes in one entry; returns the progress message that is due, if any.
    pub fn add_entry(&mut self, e: Entry) -> (msg: Option<ScanMsg>)
        ensures
            final(self).base == old(self).base,
            match e {
                Entry::Unreadable => {
                    &&& final(self).errors == inc(old(self).errors)
                    &&& final(self).items == old(self).items
                    &&& final(self).scanned == old(self).scanned
                    &&& final(self).files_total == old(self).files_total
                    &&& final(self).files_count == old(self).files_count
                    &&& msg.is_none()
                },
                Entry::Untyped { path } => if path_under(path@, proc_root()) {
                    *final(self) == *old(self) && msg.is_none()
                } else {
                    &&& final(self).errors == inc(old(self).errors)
                    &&& final(self).items == old(self).items
                    &&& final(self).scanned == old(self).scanned
                    &&& final(self).files_total == old(self).files_total
                    &&& final(self).files_count == old(self).files_count
                    &&& msg.is_none()
                },
                Entry::File { name, path, size } => if path_under(path@, proc_root()) {
                    *final(self) == *old(self) && msg.is_none()
                } else {
                    &&& final(self).files_count == inc(old(self).files_count)
                    &&& final(self).files_total == sat_add(
                        old(self).files_total,
                        match size {
                            Some(s) => s,
                            None => 0,
                        },
                    )
                    &&& final(self).errors == (if size.is_none() { inc(old(self).errors) } else { old(self).errors })
                    &&& final(self).scanned == inc(old(self).scanned)
                    &&& final(self).items == old(self).items
                    &&& msg == progress_due(final(self).scanned, final(self).errors)
                },
                Entry::Dir { name, path } => if path_under(path@, proc_root()) {
                    *final(self) == *old(self) && msg.is_none()
                } else {
                    &&& final(self).items@ == old(self).items@.push(
                        Item { name, path, size: 0, kind: ItemKind::Dir, count: 0 },
                    )
                    &&& final(self).scanned == inc(old(self).scanned)
                    &&& final(self).errors == old(self).errors
                    &&& final(self).files_total == old(self).files_total
                    &&& final(self).files_count == old(self).files_count
                    &&& msg == progress_due(final(self).scanned, final(self).errors)
                },
                _ => *final(self) == *old(self) && msg.is_none(),
            },
    {
        match e {
            Entry::Unreadable => {
                self.errors = self.errors.saturating_add(1);
                None
            },
            Entry::Untyped { path } => {
                if !is_proc_path(path.as_str()) {
                    self.errors = self.errors.saturating_add(1);
                }
                None
            },
            Entry::File { name, path, size } => {
                if is_proc_path(path.as_str()) {
                    return None;
                }
                match size {
                    Some(s) => {
                        self.files_total = self.files_total.saturating_add(s);
                    },
                    None => {
                        self.errors = self.errors.saturating_add(1);
                    },
                }
                self.files_count = self.files_count.saturating_add(1);
                self.scanned = self.scanned.saturating_add(1);
                if self.scanned % PROGRESS_EVERY == 0 {
                    Some(ScanMsg::Progress { scanned: self.scanned, errors: self.errors })
                } else {
                    None
                }
            },
            Entry::Dir { name, path } => {
                if is_proc_path(path.as_str()) {
                    return None;
                }
                self.items.push(Item { name, path, size: 0, kind: ItemKind::Dir, count: 0 });
                self.scanned = self.scanned.saturating_add(1);
                if self.scanned % PROGRESS_EVERY == 0 {
                    Some(ScanMsg::Progress { scanned: self.scanned, errors: self.errors })
                } else {
                    None
                }
            },
            _ => None,
        }
    }

    /// The directories whose sizes are still to be computed, in order.
    pub fn dir_jobs(&self) -> (jobs: Vec<String>)
        ensures
            jobs@.map_values(|s: String| s@) == dir_paths(self.items@),
    {
        let mut jobs: Vec<String> = Vec::new();
        let mut i: usize = 0;
        while i < self.items.len()
            invariant
                i <= self.items@.len(),
                jobs@.map_values(|s: String| s@) == dir_paths(self.items@.subrange(0, i as int)),
            decreases self.items@.len() - i,
        {
            let ghost before = jobs@;
            assert(self.items@.subrange(0, i + 1).drop_last() =~= self.items@.subrange(0, i as int));
            if self.items[i].kind == ItemKind::Dir {
                jobs.push(self.items[i].path.clone());
                assert(jobs@.map_values(|s: String| s@) =~= before.map_values(|s: String| s@).push(
                    self.items@[i as int].path@,
                ));
            }
            i = i + 1;
        }
        assert(self.items@.subrange(0, i as int) =~= self.items@);
        jobs
    }

    /// Records the computed size of the directory `path`.
    pub fn apply_size(&mut self, path: &str, size: u64)
        ensures
            final(self).items@ == with_dir_size(old(self).items@, path@, size),
            final(self).base == old(self).base,
            final(self).scanned == old(self).scanned,
            final(self).errors == old(self).errors,
            final(self).files_total == old(self).files_total,
            final(self).files_count == old(self).files_count,
    {
        let mut i: usize = 0;
        while i < self.items.len()
            invariant
                i <= self.items@.len(),
                self.items@ == old(self).items@,
                self.base == old(self).base,
                self.scanned == old(self).scanned,
                self.errors == old(self).errors,
                self.files_total == old(self).files_total,
                self.files_count == old(self).files_count,
                find_dir(self.items@, path@, 0) == find_dir(self.items@, path@, i as int),
            decreases self.items@.len() - i,
        {
            if self.items[i].kind == ItemKind::Dir && same_path(self.items[i].path.as_str(), path) {
                let ghost before = self.items@;
                let mut it = self.items.remove(i);
                it.size = size;
                self.items.insert(i, it);
                assert(self.items@ =~= before.update(i as int, Item { size, ..before[i as int] }));
                return;
            }
            i = i + 1;
        }
    }

    /// Ends the scan: the directory items and one item for all the files,
    /// largest first, with their total.
    pub fn finish(self) -> (msg: ScanMsg)
        ensures
            match msg {
                ScanMsg::Done { items: out, total, errors } => {
                    &&& exists|agg: Item|
                        {
                            &&& agg.name@ == files_label(self.files_count)
                            &&& agg.path == self.base
                            &&& agg.size == self.files_total
                            &&& agg.kind == ItemKind::FilesAggregate
                            &&& agg.count == self.files_count
                            &&& #[trigger] self.items@.push(agg).to_multiset() == out@.to_multiset()
                            &&& total == (if size_sum(self.items@.push(agg)) <= u64::MAX {
                                size_sum(self.items@.push(agg))
                            } else {
                                u64::MAX as int
                            })
                        }
                    &&& sorted_by_size(out@)
                    &&& errors == self.errors
                },
                _ => false,
            },
    {
        let mut items = self.items;
        let label = files_label_string(self.files_count);
        let agg = Item {
            name: label,
            path: self.base,
            size: self.files_total,
            kind: ItemKind::FilesAggregate,
            count: self.files_count,
        };
        let ghost all = self.items@.push(agg);
        items.push(agg);
        let msg = finish_items(items, self.errors);
        assert(items@ == all);
        msg
    }
}

impl FileScan {
    /// An empty file listing.
    pub fn new() -> (r: FileScan)
        ensures
            r.items@.len() == 0,
            r.scanned == 0 && r.errors == 0,
    {
        FileScan { items: Vec::new(), scanned: 0, errors: 0 }
    }

    /// Takes in one entry; returns the progress message that is due, if any.
    /// A file whose size cannot be read is listed with size zero.
    pub fn add_entry(&mut self, e: Entry) -> (msg: Option<ScanMsg>)
        ensures
            match e {
                Entry::Unreadable => {
                    &&& final(self).errors == inc(old(self).errors)
                    &&& final(self).items == old(self).items
                    &&& final(self).scanned == old(self).scanned
                    &&& msg.is_none()
                },
                Entry::Untyped { path } => if path_under(path@, proc_root()) {
                    *final(self) == *old(self) && msg.is_none()
                } else {
                    &&& final(self).errors == inc(old(self).errors)
                    &&& final(self).items == old(self).items
                    &&& final(self).scanned == old(self).scanned
                    &&& msg.is_none()
                },
                Entry::File { name, path, size } => if path_under(path@, proc_root()) {
                    *final(self) == *old(self) && msg.is_none()
                } else {
                    &&& final(self).items@ == old(self).items@.push(
                        Item {
                            name,
                            path,
                            size: match size {
                                Some(s) => s,
                                None => 0,
                            },
                            kind: ItemKind::File,
                            count: 0,
                        },
                    )
                    &&& final(self).errors == (if size.is_none() { inc(old(self).errors) } else { old(self).errors })
                    &&& final(self).scanned == inc(old(self).scanned)
                    &&& msg == progress_due(final(self).scanned, final(self).errors)
                },
                _ => *final(self) == *old(self) && msg.is_none(),
            },
    {
        match e {
            Entry::Unreadable => {
                self.errors = self.errors.saturating_add(1);
                None
            },
            Entry::Untyped { path } => {
                if !is_proc_path(path.as_str()) {
                    self.errors = self.errors.saturating_add(1);
                }
                None
            },
            Entry::File { name, path, size } => {
                if is_proc_path(path.as_str()) {
                    return None;
                }
                let sz = match size {
                    Some(s) => s,
                    None => {
                        self.errors = self.errors.saturating_add(1);
                        0
                    },
                };
                self.items.push(Item { name, path, size: sz, kind: ItemKind::File, count: 0 });
                self.scanned = self.scanned.saturating_add(1);
                if self.scanned % PROGRESS_EVERY == 0 {
                    Some(ScanMsg::Progress { scanned: self.scanned, errors: self.errors })
                } else {
                    None
                }
            },
            _ => None,
        }
    }

    /// Ends the scan: the files largest first, with their total.
    pub fn finish(self) -> (msg: ScanMsg)
        ensures
            match msg {
                ScanMsg::Done { items: out, total, errors } => {
                    &&& out@.to_multiset() == self.items@.to_multiset()
                    &&& sorted_by_size(out@)
                    &&& total == (if size_sum(self.items@) <= u64::MAX { size_sum(self.items@) } else { u64::MAX as int })
                    &&& errors == self.errors
                },
                _ => false,
            },
    {
        finish_items(self.items, self.errors)
    }
}

impl DirScan {
    /// The sizing of the subdirectories failed as a whole: each of them
    /// counts as one error (their sizes stay zero).
    pub fn sizing_failed(&mut self)
        ensures
            final(self).errors == sat_add(old(self).errors, dir_paths(old(self).items@).len() as u64),
            final(self).items == old(self).items,
            final(self).base == old(self).base,
            final(self).scanned == old(self).scanned,
            final(self).files_total == old(self).files_total,
            final(self).files_count == old(self).files_count,
    {
        let jobs = self.dir_jobs();
        proof {
            assert(jobs@.len() == jobs@.map_values(|s: String| s@).len());
        }
        self.errors = self.errors.saturating_add(jobs.len() as u64);
    }
}

} // verus!
