use hashdir::file_check::{FileCheckResult, FileCheckResultModified, FileToCheck};
use hashdir::file_info::FileInfo;
use hashdir::policy::{verify_outcomes, VerifyError};
use hashdir::reconcile::dedup;

fn rec(path: &str, digest: u8) -> FileInfo {
    FileInfo {
        rel_path: String::from(path),
        sha256_digest: [digest; 32],
        mtime_secs: 1,
        mtime_nanos: 0,
        len: 10,
        last_seen: 2,
        fully_read: 2,
    }
}

fn kinds(v: &[FileCheckResult]) -> Vec<(String, &'static str)> {
    v.iter()
        .map(|o| match o {
            FileCheckResult::New(fi) => (fi.rel_path.clone(), "new"),
            FileCheckResult::Unmodifed(fi) => (fi.rel_path.clone(), "unchanged"),
            FileCheckResult::Modified(m) => (m.current.rel_path.clone(), "modified"),
            FileCheckResult::Missing(fi) => (fi.rel_path.clone(), "missing"),
        })
        .collect()
}

#[test]
fn dedup_drops_missing_duplicate() {
    let outs = vec![FileCheckResult::Missing(rec("a", 7)), FileCheckResult::Unmodifed(rec("b", 7))];
    let (kept, removed) = dedup(outs);
    assert_eq!(removed, 1);
    assert_eq!(kinds(&kept), vec![(String::from("b"), "unchanged")]);
}

#[test]
fn dedup_keeps_mutual_missing_duplicates() {
    let outs = vec![FileCheckResult::Missing(rec("a", 7)), FileCheckResult::Missing(rec("b", 7))];
    let (kept, removed) = dedup(outs);
    assert_eq!(removed, 0);
    assert_eq!(kinds(&kept), vec![(String::from("a"), "missing"), (String::from("b"), "missing")]);
}

#[test]
fn dedup_turns_modified_with_surviving_content_into_new() {
    let outs = vec![
        FileCheckResult::Modified(FileCheckResultModified { previous: rec("a", 1), current: rec("a", 2) }),
        FileCheckResult::New(rec("b", 1)),
        FileCheckResult::Modified(FileCheckResultModified { previous: rec("c", 3), current: rec("c", 4) }),
    ];
    let (kept, removed) = dedup(outs);
    assert_eq!(removed, 1);
    assert_eq!(
        kinds(&kept),
        vec![(String::from("a"), "new"), (String::from("b"), "new"), (String::from("c"), "modified")]
    );
}

#[test]
fn dedup_twice_is_dedup_once() {
    let outs = || {
        vec![
            FileCheckResult::Missing(rec("a", 7)),
            FileCheckResult::Unmodifed(rec("b", 7)),
            FileCheckResult::Missing(rec("c", 9)),
            FileCheckResult::Modified(FileCheckResultModified { previous: rec("d", 7), current: rec("d", 8) }),
        ]
    };
    let (once, _) = dedup(outs());
    let (twice, removed_again) = dedup(dedup(outs()).0);
    assert_eq!(removed_again, 0);
    assert_eq!(kinds(&once), kinds(&twice));
}

#[test]
fn verify_strict_passes_when_unchanged() {
    let outs = vec![FileCheckResult::Unmodifed(rec("f", 1))];
    assert_eq!(verify_outcomes(&outs, false, false), Ok(()));
}

#[test]
fn verify_strict_fails_on_missing() {
    let outs = vec![FileCheckResult::Missing(rec("f", 1))];
    assert_eq!(
        verify_outcomes(&outs, false, false),
        Err(VerifyError::Mismatch { missing_or_changed: 1, new: 0 })
    );
}

#[test]
fn verify_ignore_missing_tolerates_new() {
    let outs = vec![FileCheckResult::Unmodifed(rec("f", 1)), FileCheckResult::New(rec("g", 2))];
    assert_eq!(verify_outcomes(&outs, true, false), Ok(()));
}

#[test]
fn verify_ignore_missing_fails_on_change() {
    let outs = vec![
        FileCheckResult::Modified(FileCheckResultModified { previous: rec("f", 1), current: rec("f", 3) }),
        FileCheckResult::New(rec("g", 2)),
    ];
    let r = verify_outcomes(&outs, true, false);
    assert_eq!(r, Err(VerifyError::Changed { changed: 1, new: 1 }));
    assert_eq!(r.unwrap_err().message(), "1 files changed, 1 files not found in archive");
}

#[test]
fn verify_presence_finds_digest_elsewhere() {
    let outs = vec![FileCheckResult::Missing(rec("f", 1)), FileCheckResult::New(rec("g", 1))];
    assert_eq!(verify_outcomes(&outs, true, true), Ok(()));
}

#[test]
fn verify_presence_both_ways() {
    let outs = vec![FileCheckResult::Missing(rec("f", 1)), FileCheckResult::New(rec("g", 2))];
    assert_eq!(
        verify_outcomes(&outs, false, true),
        Err(VerifyError::PresenceMismatch { not_present: 1, archive_not_found: 1 })
    );
    assert_eq!(
        verify_outcomes(&outs, true, true),
        Err(VerifyError::NotInArchive { not_present: 1 })
    );
    let moved = vec![FileCheckResult::Missing(rec("f", 1)), FileCheckResult::New(rec("g", 1))];
    assert_eq!(verify_outcomes(&moved, false, true), Ok(()));
}

#[test]
fn check_hashes_contents() {
    let r = FileToCheck::New(String::from("x")).check(b"abc", 3, 4, 5);
    let expected: [u8; 32] = [
        0xba, 0x78, 0x16, 0xbf, 0x8f, 0x01, 0xcf, 0xea, 0x41, 0x41, 0x40, 0xde, 0x5d, 0xae, 0x22, 0x23,
        0xb0, 0x03, 0x61, 0xa3, 0x96, 0x17, 0x7a, 0x9c, 0xb4, 0x10, 0xff, 0x61, 0xf2, 0x00, 0x15, 0xad,
    ];
    match r {
        FileCheckResult::New(fi) => {
            assert_eq!(fi.sha256_digest, expected);
            assert_eq!(fi.len, 3);
            assert_eq!(fi.rel_path, "x");
            assert_eq!((fi.mtime_secs, fi.mtime_nanos, fi.fully_read, fi.last_seen), (3, 4, 5, 5));
        }
        _ => panic!("expected a new file"),
    }
}

#[test]
fn check_compares_digest_with_record() {
    let mut prev = rec("x", 0);
    prev.sha256_digest = [
        0xba, 0x78, 0x16, 0xbf, 0x8f, 0x01, 0xcf, 0xea, 0x41, 0x41, 0x40, 0xde, 0x5d, 0xae, 0x22, 0x23,
        0xb0, 0x03, 0x61, 0xa3, 0x96, 0x17, 0x7a, 0x9c, 0xb4, 0x10, 0xff, 0x61, 0xf2, 0x00, 0x15, 0xad,
    ];
    let same = FileToCheck::NeedsChecking(prev.clone()).check(b"abc", 8, 0, 9);
    assert!(matches!(same, FileCheckResult::Unmodifed(_)));
    let other = FileToCheck::NeedsChecking(prev.clone()).check(b"abd", 8, 0, 9);
    match other {
        FileCheckResult::Modified(m) => {
            assert_eq!(m.previous, prev);
            assert_eq!(m.current.rel_path, "x");
        }
        _ => panic!("expected a modified file"),
    }
}

#[test]
fn verify_messages() {
    assert_eq!(VerifyError::NotInArchive { not_present: 3 }.message(), "3 files not found in archive");
    assert_eq!(
        VerifyError::PresenceMismatch { not_present: 0, archive_not_found: 12 }.message(),
        "0 files not found in archive, 12 files in archive not found"
    );
    assert_eq!(
        VerifyError::Mismatch { missing_or_changed: 2, new: 1 }.message(),
        "2 files missing or changed, 1 files not found in archive"
    );
}
