//! What a run finds for one path, and how a read file is judged.
use vstd::prelude::*;

use crate::digest::{sha256, sha256_of};
use crate::file_info::FileInfo;

verus! {

/// A file whose contents must be read.
pub enum FileToCheck {
    /// Not in the snapshot; holds the path relative to the tree's root.
    New(String),
    /// In the snapshot, with other metadata (or every file is read).
    NeedsChecking(FileInfo),
}

/// A tracked file whose contents changed.
pub struct FileCheckResultModified {
    /// The record of the previous snapshot.
    pub previous: FileInfo,
    /// The record of this run.
    pub current: FileInfo,
}

/// What a run finds for one path.
pub enum FileCheckResult {
    /// The path was not in the snapshot.
    New(FileInfo),
    /// The path was in the snapshot with the same contents.
    Unmodifed(FileInfo),
    /// The path was in the snapshot with other contents.
    Modified(FileCheckResultModified),
    /// The path was in the snapshot and is gone.
    Missing(FileInfo),
}

impl FileCheckResult {
    /// The record the outcome sorts by: the current one for a modified file.
    pub open spec fn record(self) -> FileInfo {
        match self {
            FileCheckResult::New(fi) => fi,
            FileCheckResult::Unmodifed(fi) => fi,
            FileCheckResult::Modified(m) => m.current,
            FileCheckResult::Missing(fi) => fi,
        }
    }

    pub open spec fn path(self) -> Seq<char> {
        self.record().rel_path@
    }

    /// The digest of contents found on disk in this run, if any.
    pub open spec fn present_digest(self) -> Option<Seq<u8>> {
        match self {
            FileCheckResult::New(fi) => Some(fi.sha256_digest@),
            FileCheckResult::Unmodifed(fi) => Some(fi.sha256_digest@),
            FileCheckResult::Modified(m) => Some(m.current.sha256_digest@),
            FileCheckResult::Missing(_) => None,
        }
    }

    /// The digest the snapshot holds for this path, if it held the path.
    pub open spec fn archived_digest(self) -> Option<Seq<u8>> {
        match self {
            FileCheckResult::New(_) => None,
            FileCheckResult::Unmodifed(fi) => Some(fi.sha256_digest@),
            FileCheckResult::Modified(m) => Some(m.previous.sha256_digest@),
            FileCheckResult::Missing(fi) => Some(fi.sha256_digest@),
        }
    }

    /// The path the outcome sorts by.
    pub fn rel_path(&self) -> (r: &String)
        ensures
            r@ == self.path(),
    {
        match self {
            FileCheckResult::New(fi) => &fi.rel_path,
            FileCheckResult::Unmodifed(fi) => &fi.rel_path,
            FileCheckResult::Modified(m) => &m.current.rel_path,
            FileCheckResult::Missing(fi) => &fi.rel_path,
        }
    }
}

/// Whether two digests are equal.
pub fn digests_equal(a: &[u8; 32], b: &[u8; 32]) -> (r: bool)
    ensures
        r == (a@ == b@),
{
    let mut i: usize = 0;
    while i < 32
        invariant
            i <= 32,
            a@.len() == 32,
            b@.len() == 32,
            forall|j: int| 0 <= j < i ==> a@[j] == b@[j],
        decreases 32 - i,
    {
        if a[i] != b[i] {
            return false;
        }
        i = i + 1;
    }
    assert(a@ =~= b@);
    true
}

/// The record of a file whose contents were just read in full at time `now`.
pub fn file_info_from_read(
    rel_path: String,
    contents: &[u8],
    mtime_secs: u64,
    mtime_nanos: u32,
    now: u64,
) -> (r: FileInfo)
    ensures
        r.rel_path@ == rel_path@,
        r.sha256_digest@ == sha256_of(contents@),
        r.len == contents@.len() as u64,
        r.mtime_secs == mtime_secs,
        r.mtime_nanos == mtime_nanos,
        r.fully_read == now,
        r.last_seen == now,
{
    FileInfo {
        rel_path,
        sha256_digest: sha256(contents),
        mtime_secs,
        mtime_nanos,
        len: contents.len() as u64,
        last_seen: now,
        fully_read: now,
    }
}

impl FileToCheck {
    /// Judges the file from its full contents, read at time `now`, and its
    /// modification time: a new file is `New`; a tracked one is `Unmodifed`
    /// where the digest is the recorded one, else `Modified`.
    pub fn check(self, contents: &[u8], mtime_secs: u64, mtime_nanos: u32, now: u64) -> (r:
        FileCheckResult)
        ensures
            ({
                let fresh = |fi: FileInfo|
                    fi.sha256_digest@ == sha256_of(contents@) && fi.len == contents@.len() as u64
                        && fi.mtime_secs == mtime_secs && fi.mtime_nanos == mtime_nanos
                        && fi.fully_read == now && fi.last_seen == now;
                match self {
                    FileToCheck::New(p) => r matches FileCheckResult::New(fi) && fi.rel_path@
                        == p@ && fresh(fi),
                    FileToCheck::NeedsChecking(prev) => if prev.sha256_digest@ == sha256_of(
                        contents@,
                    ) {
                        r matches FileCheckResult::Unmodifed(fi) && fi.rel_path@ == prev.rel_path@
                            && fresh(fi)
                    } else {
                        r matches FileCheckResult::Modified(m) && m.previous == prev
                            && m.current.rel_path@ == prev.rel_path@ && fresh(m.current)
                    },
                }
            }),
    {
        match self {
            FileToCheck::New(p) => FileCheckResult::New(
                file_info_from_read(p, contents, mtime_secs, mtime_nanos, now),
            ),
            FileToCheck::NeedsChecking(prev) => {
                let current = file_info_from_read(
                    prev.rel_path.clone(),
                    contents,
                    mtime_secs,
                    mtime_nanos,
                    now,
                );
                if digests_equal(&current.sha256_digest, &prev.sha256_digest) {
                    FileCheckResult::Unmodifed(current)
                } else {
                    FileCheckResult::Modified(FileCheckResultModified { previous: prev, current })
                }
            },
        }
    }
}

} // verus!
