//! The verdict of a verify run under its two flags.
use vstd::prelude::*;

use crate::digest_set::DigestSet;
use crate::file_check::FileCheckResult;
use crate::reconcile::{
    archive_set, archived_digests, lemma_archive_set_push, present_digests, present_set,
};
use crate::text::{dec_repr, push_decimal};

verus! {

/// Why a verify run fails, with its counts.
#[derive(Debug, Clone, Copy, PartialEq, Eq, Structural)]
pub enum VerifyError {
    /// Found files whose contents the snapshot does not hold.
    NotInArchive { not_present: u64 },
    /// Tracked files changed in place; `new` untracked files were found.
    Changed { changed: u64, new: u64 },
    /// Found contents the snapshot lacks, or snapshot contents found nowhere.
    PresenceMismatch { not_present: u64, archive_not_found: u64 },
    /// Tracked files missing or changed, or untracked files found.
    Mismatch { missing_or_changed: u64, new: u64 },
}

/// Found contents (of a new or modified file) that the snapshot does not hold.
pub open spec fn not_in_archive(o: FileCheckResult, archive: Set<Seq<u8>>) -> bool {
    match o {
        FileCheckResult::New(fi) => !archive.contains(fi.sha256_digest@),
        FileCheckResult::Modified(m) => !archive.contains(m.current.sha256_digest@),
        _ => false,
    }
}

pub open spec fn count_new(s: Seq<FileCheckResult>) -> nat
    decreases s.len(),
{
    if s.len() == 0 {
        0
    } else {
        count_new(s.drop_last()) + if s.last() is New {
            1nat
        } else {
            0nat
        }
    }
}

pub open spec fn count_modified(s: Seq<FileCheckResult>) -> nat
    decreases s.len(),
{
    if s.len() == 0 {
        0
    } else {
        count_modified(s.drop_last()) + if s.last() is Modified {
            1nat
        } else {
            0nat
        }
    }
}

pub open spec fn count_missing(s: Seq<FileCheckResult>) -> nat
    decreases s.len(),
{
    if s.len() == 0 {
        0
    } else {
        count_missing(s.drop_last()) + if s.last() is Missing {
            1nat
        } else {
            0nat
        }
    }
}

pub open spec fn count_not_in_archive(s: Seq<FileCheckResult>, archive: Set<Seq<u8>>) -> nat
    decreases s.len(),
{
    if s.len() == 0 {
        0
    } else {
        count_not_in_archive(s.drop_last(), archive) + if not_in_archive(s.last(), archive) {
            1nat
        } else {
            0nat
        }
    }
}

/// The verdict on a verify run's outcomes.
pub open spec fn verdict(outs: Seq<FileCheckResult>, ignore_missing: bool, only_presence: bool) -> Result<(), VerifyError> {
    let archive = archive_set(outs);
    let not_present = count_not_in_archive(outs, archive);
    let new = count_new(outs);
    let changed = count_modified(outs);
    let missing = count_missing(outs);
    let archive_not_found = archive.difference(present_set(outs)).len();
    if ignore_missing && only_presence {
        if not_present > 0 {
            Err(VerifyError::NotInArchive { not_present: not_present as u64 })
        } else {
            Ok(())
        }
    } else if ignore_missing {
        if changed > 0 {
            Err(VerifyError::Changed { changed: changed as u64, new: new as u64 })
        } else {
            Ok(())
        }
    } else if only_presence {
        if not_present > 0 || archive_not_found > 0 {
            Err(
                VerifyError::PresenceMismatch {
                    not_present: not_present as u64,
                    archive_not_found: archive_not_found as u64,
                },
            )
        } else {
            Ok(())
        }
    } else {
        if missing + changed > 0 || new > 0 {
            Err(
                VerifyError::Mismatch {
                    missing_or_changed: (missing + changed) as u64,
                    new: new as u64,
                },
            )
        } else {
            Ok(())
        }
    }
}

/// Judges a verify run's outcomes: with `ignore_missing` and `only_presence`
/// every found file's contents must be in the snapshot; with `ignore_missing`
/// alone no tracked file may have changed in place; with `only_presence` alone
/// found and snapshot contents must match both ways; with neither every
/// tracked file must be found unchanged and no untracked file may exist.
pub fn verify_outcomes(outcomes: &Vec<FileCheckResult>, ignore_missing: bool, only_presence: bool) -> (r: Result<(), VerifyError>)
    ensures
        r == verdict(outcomes@, ignore_missing, only_presence),
{
    let ghost outs = outcomes@;
    let archive = archived_digests(outcomes);
    let found = present_digests(outcomes);
    let mut not_present: u64 = 0;
    let mut new: u64 = 0;
    let mut changed: u64 = 0;
    let mut missing: u64 = 0;
    let mut archive_not_found: u64 = 0;
    let mut counted = DigestSet::new();
    let n = outcomes.len();
    let mut i: usize = 0;
    proof {
        assert(outs.subrange(0, 0) =~= Seq::<FileCheckResult>::empty());
        assert(archive_set(outs.subrange(0, 0)).difference(found.view()) =~= Set::<Seq<u8>>::empty());
        counted.lemma_finite();
    }
    while i < n
        invariant
            n == outs.len(),
            outs == outcomes@,
            i <= n,
            archive.wf(),
            archive.view() == archive_set(outs),
            found.wf(),
            found.view() == present_set(outs),
            counted.wf(),
            counted.view() == archive_set(outs.subrange(0, i as int)).difference(found.view()),
            archive_not_found as nat == counted.view().len(),
            not_present as nat == count_not_in_archive(outs.subrange(0, i as int), archive.view()),
            new as nat == count_new(outs.subrange(0, i as int)),
            changed as nat == count_modified(outs.subrange(0, i as int)),
            missing as nat == count_missing(outs.subrange(0, i as int)),
            not_present <= i,
            new <= i,
            changed <= i,
            missing + changed <= i,
            archive_not_found <= i,
        decreases n - i,
    {
        let ghost pre = outs.subrange(0, i as int);
        proof {
            assert(outs.subrange(0, i + 1).drop_last() =~= pre);
            assert(outs.subrange(0, i + 1) =~= pre.push(outs[i as int]));
            lemma_archive_set_push(pre, outs[i as int]);
            counted.lemma_finite();
        }
        let ghost before = counted.view();
        let archived: Option<&[u8; 32]> = match &outcomes[i] {
            FileCheckResult::New(fi) => {
                new = new + 1;
                if !archive.contains(&fi.sha256_digest) {
                    not_present = not_present + 1;
                }
                None
            },
            FileCheckResult::Unmodifed(fi) => Some(&fi.sha256_digest),
            FileCheckResult::Modified(m) => {
                changed = changed + 1;
                if !archive.contains(&m.current.sha256_digest) {
                    not_present = not_present + 1;
                }
                Some(&m.previous.sha256_digest)
            },
            FileCheckResult::Missing(fi) => {
                missing = missing + 1;
                Some(&fi.sha256_digest)
            },
        };
        match archived {
            Some(d) => {
                if !found.contains(d) && !counted.contains(d) {
                    counted.insert(*d);
                    archive_not_found = archive_not_found + 1;
                    proof {
                        counted.lemma_finite();
                    }
                    assert(counted.view().len() == before.len() + 1);
                }
                assert(counted.view() =~= archive_set(pre.push(outs[i as int])).difference(found.view()));
            },
            None => {
                assert(counted.view() =~= archive_set(pre.push(outs[i as int])).difference(found.view()));
            },
        }
        i = i + 1;
    }
    proof {
        assert(outs.subrange(0, n as int) =~= outs);
    }
    if ignore_missing && only_presence {
        if not_present > 0 {
            return Err(VerifyError::NotInArchive { not_present });
        }
    } else if ignore_missing {
        if changed > 0 {
            return Err(VerifyError::Changed { changed, new });
        }
    } else if only_presence {
        if not_present > 0 || archive_not_found > 0 {
            return Err(VerifyError::PresenceMismatch { not_present, archive_not_found });
        }
    } else {
        if missing + changed > 0 || new > 0 {
            return Err(VerifyError::Mismatch { missing_or_changed: missing + changed, new });
        }
    }
    Ok(())
}

impl VerifyError {
    /// A one-line summary of the counts.
    pub fn message(&self) -> (r: String)
        ensures
            r@ == match *self {
                VerifyError::NotInArchive { not_present } => dec_repr(not_present as nat)
                    + " files not found in archive"@,
                VerifyError::Changed { changed, new } => dec_repr(changed as nat)
                    + " files changed, "@ + dec_repr(new as nat) + " files not found in archive"@,
                VerifyError::PresenceMismatch { not_present, archive_not_found } => dec_repr(
                    not_present as nat,
                ) + " files not found in archive, "@ + dec_repr(archive_not_found as nat)
                    + " files in archive not found"@,
                VerifyError::Mismatch { missing_or_changed, new } => dec_repr(
                    missing_or_changed as nat,
                ) + " files missing or changed, "@ + dec_repr(new as nat)
                    + " files not found in archive"@,
            },
    {
        let mut s = String::new();
        match *self {
            VerifyError::NotInArchive { not_present } => {
                push_decimal(&mut s, not_present);
                s.append(" files not found in archive");
            },
            VerifyError::Changed { changed, new } => {
                push_decimal(&mut s, changed);
                s.append(" files changed, ");
                push_decimal(&mut s, new);
                s.append(" files not found in archive");
            },
            VerifyError::PresenceMismatch { not_present, archive_not_found } => {
                push_decimal(&mut s, not_present);
                s.append(" files not found in archive, ");
                push_decimal(&mut s, archive_not_found);
                s.append(" files in archive not found");
            },
            VerifyError::Mismatch { missing_or_changed, new } => {
                push_decimal(&mut s, missing_or_changed);
                s.append(" files missing or changed, ");
                push_decimal(&mut s, new);
                s.append(" files not found in archive");
            },
        }
        assert(s@ =~= match *self {
            VerifyError::NotInArchive { not_present } => dec_repr(not_present as nat)
                + " files not found in archive"@,
            VerifyError::Changed { changed, new } => dec_repr(changed as nat) + " files changed, "@
                + dec_repr(new as nat) + " files not found in archive"@,
            VerifyError::PresenceMismatch { not_present, archive_not_found } => dec_repr(
                not_present as nat,
            ) + " files not found in archive, "@ + dec_repr(archive_not_found as nat)
                + " files in archive not found"@,
            VerifyError::Mismatch { missing_or_changed, new } => dec_repr(missing_or_changed as nat)
                + " files missing or changed, "@ + dec_repr(new as nat)
                + " files not found in archive"@,
        });
        s
    }
}

} // verus!
