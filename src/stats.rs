//! Counters of a run.
use vstd::prelude::*;

use crate::file_info::FileInfo;

verus! {

/// The counters of a run.
#[derive(Debug, Clone, Copy, PartialEq, Eq, Structural)]
pub struct Stats {
    pub bytes_read: u64,
    pub files_checked: u64,
    pub files_read: u64,
    pub files_new: u64,
    pub files_modified: u64,
    pub files_not_found: u64,
    pub files_duplicate_removed: u64,
    pub files_unchanged: u64,
    pub files_unchanged_size: u64,
}

/// `a + b`, held at `u64::MAX`.
pub open spec fn sat(a: u64, b: u64) -> u64 {
    if a + b > u64::MAX {
        u64::MAX
    } else {
        (a + b) as u64
    }
}

/// Collects the counters of a run; every counter only grows, and stops at
/// `u64::MAX`.
pub struct StatsCollector {
    stats: Stats,
}

impl StatsCollector {
    pub closed spec fn view(&self) -> Stats {
        self.stats
    }

    /// All counters at zero.
    pub fn new() -> (r: StatsCollector)
        ensures
            r@ == (Stats {
                bytes_read: 0,
                files_checked: 0,
                files_read: 0,
                files_new: 0,
                files_modified: 0,
                files_not_found: 0,
                files_duplicate_removed: 0,
                files_unchanged: 0,
                files_unchanged_size: 0,
            }),
    {
        StatsCollector {
            stats: Stats {
                bytes_read: 0,
                files_checked: 0,
                files_read: 0,
                files_new: 0,
                files_modified: 0,
                files_not_found: 0,
                files_duplicate_removed: 0,
                files_unchanged: 0,
                files_unchanged_size: 0,
            },
        }
    }

    pub fn files_checked(&mut self, amount: u64)
        ensures
            final(self)@ == (Stats {
                files_checked: sat(old(self)@.files_checked, amount),
                ..old(self)@
            }),
    {
        self.stats.files_checked = self.stats.files_checked.saturating_add(amount);
    }

    pub fn files_not_found(&mut self, amount: u64)
        ensures
            final(self)@ == (Stats {
                files_not_found: sat(old(self)@.files_not_found, amount),
                ..old(self)@
            }),
    {
        self.stats.files_not_found = self.stats.files_not_found.saturating_add(amount);
    }

    pub fn file_not_found(&mut self)
        ensures
            final(self)@ == (Stats {
                files_not_found: sat(old(self)@.files_not_found, 1),
                ..old(self)@
            }),
    {
        self.files_not_found(1)
    }

    pub fn duplicates_removed(&mut self, amount: u64)
        ensures
            final(self)@ == (Stats {
                files_duplicate_removed: sat(old(self)@.files_duplicate_removed, amount),
                ..old(self)@
            }),
    {
        self.stats.files_duplicate_removed = self.stats.files_duplicate_removed.saturating_add(
            amount,
        );
    }

    /// A tracked file found unchanged without reading it.
    pub fn file_unchanged(&mut self, file_info: &FileInfo)
        ensures
            final(self)@ == (Stats {
                files_unchanged: sat(old(self)@.files_unchanged, 1),
                files_unchanged_size: sat(old(self)@.files_unchanged_size, file_info.len),
                ..old(self)@
            }),
    {
        self.stats.files_unchanged = self.stats.files_unchanged.saturating_add(1);
        self.stats.files_unchanged_size = self.stats.files_unchanged_size.saturating_add(
            file_info.len,
        );
    }

    /// A tracked file read in full, with the recorded contents.
    pub fn file_read_unmodifed(&mut self, file_info: &FileInfo)
        ensures
            final(self)@ == (Stats {
                files_read: sat(old(self)@.files_read, 1),
                bytes_read: sat(old(self)@.bytes_read, file_info.len),
                files_unchanged: sat(old(self)@.files_unchanged, 1),
                files_unchanged_size: sat(old(self)@.files_unchanged_size, file_info.len),
                ..old(self)@
            }),
    {
        self.stats.files_read = self.stats.files_read.saturating_add(1);
        self.stats.bytes_read = self.stats.bytes_read.saturating_add(file_info.len);
        self.stats.files_unchanged = self.stats.files_unchanged.saturating_add(1);
        self.stats.files_unchanged_size = self.stats.files_unchanged_size.saturating_add(
            file_info.len,
        );
    }

    /// A tracked file read in full, with other contents.
    pub fn file_read_modified(&mut self, file_info: &FileInfo)
        ensures
            final(self)@ == (Stats {
                files_read: sat(old(self)@.files_read, 1),
                bytes_read: sat(old(self)@.bytes_read, file_info.len),
                files_modified: sat(old(self)@.files_modified, 1),
                ..old(self)@
            }),
    {
        self.stats.files_read = self.stats.files_read.saturating_add(1);
        self.stats.bytes_read = self.stats.bytes_read.saturating_add(file_info.len);
        self.stats.files_modified = self.stats.files_modified.saturating_add(1);
    }

    /// A new file read in full.
    pub fn file_read_new(&mut self, file_info: &FileInfo)
        ensures
            final(self)@ == (Stats {
                files_read: sat(old(self)@.files_read, 1),
                bytes_read: sat(old(self)@.bytes_read, file_info.len),
                files_new: sat(old(self)@.files_new, 1),
                ..old(self)@
            }),
    {
        self.stats.files_read = self.stats.files_read.saturating_add(1);
        self.stats.bytes_read = self.stats.bytes_read.saturating_add(file_info.len);
        self.stats.files_new = self.stats.files_new.saturating_add(1);
    }

    pub fn get_results(&self) -> (r: Stats)
        ensures
            r == self@,
    {
        self.stats
    }
}

} // verus!
