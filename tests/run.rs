use hashdir::check_run::{compare_paths, CheckRun};
use std::cmp::Ordering;
use hashdir::file_check::{FileCheckResult, FileToCheck};
use hashdir::file_info::FileInfo;
use hashdir::state::{latest_state, parse_lines, render_state};
use hashdir::stats::StatsCollector;

fn rec(path: &str, digest: u8, len: u64) -> FileInfo {
    FileInfo {
        rel_path: String::from(path),
        sha256_digest: [digest; 32],
        mtime_secs: 100,
        mtime_nanos: 5,
        len,
        last_seen: 2,
        fully_read: 2,
    }
}

#[test]
fn run_classifies_every_path_once() {
    let prior = vec![rec("a", 1, 10), rec("b", 2, 20), rec("c", 3, 30)];
    let mut run = CheckRun::new(prior, false);
    let mut stats = StatsCollector::new();
    // same metadata: not read
    assert!(run.consider(String::from("a"), 100, 5, 10, 50, &mut stats).is_none());
    // other size: read
    let t = run.consider(String::from("b"), 100, 5, 21, 50, &mut stats);
    assert!(matches!(t, Some(FileToCheck::NeedsChecking(ref fi)) if fi.rel_path == "b"));
    // untracked
    let n = run.consider(String::from("d"), 1, 0, 1, 50, &mut stats);
    assert!(matches!(n, Some(FileToCheck::New(ref p)) if p == "d"));
    let read = vec![
        t.unwrap().check(b"changed", 100, 5, 50),
        n.unwrap().check(b"fresh", 1, 0, 50),
    ];
    let outs = run.finish(read, &mut stats);
    let got: Vec<(String, &str)> = outs
        .iter()
        .map(|o| match o {
            FileCheckResult::New(fi) => (fi.rel_path.clone(), "new"),
            FileCheckResult::Unmodifed(fi) => (fi.rel_path.clone(), "unchanged"),
            FileCheckResult::Modified(m) => (m.current.rel_path.clone(), "modified"),
            FileCheckResult::Missing(fi) => (fi.rel_path.clone(), "missing"),
        })
        .collect();
    assert_eq!(
        got,
        vec![
            (String::from("a"), "unchanged"),
            (String::from("b"), "modified"),
            (String::from("c"), "missing"),
            (String::from("d"), "new"),
        ]
    );
    match &outs[0] {
        FileCheckResult::Unmodifed(fi) => {
            assert_eq!(fi.sha256_digest, [1; 32]);
            assert_eq!(fi.last_seen, 50);
        }
        _ => panic!("expected unchanged"),
    }
    let s = stats.get_results();
    assert_eq!(s.files_checked, 4);
    assert_eq!(s.files_not_found, 1);
    assert_eq!(s.files_unchanged, 1);
    assert_eq!(s.files_unchanged_size, 10);
}

#[test]
fn run_reads_all_when_asked() {
    let mut run = CheckRun::new(vec![rec("a", 1, 10)], true);
    let mut stats = StatsCollector::new();
    let t = run.consider(String::from("a"), 100, 5, 10, 50, &mut stats);
    assert!(matches!(t, Some(FileToCheck::NeedsChecking(_))));
}

#[test]
fn later_record_of_a_path_stands() {
    let mut run = CheckRun::new(vec![rec("a", 1, 10), rec("a", 2, 11)], false);
    let mut stats = StatsCollector::new();
    assert!(run.consider(String::from("a"), 100, 5, 11, 50, &mut stats).is_none());
    let outs = run.finish(Vec::new(), &mut stats);
    assert_eq!(outs.len(), 1);
    match &outs[0] {
        FileCheckResult::Unmodifed(fi) => assert_eq!(fi.sha256_digest, [2; 32]),
        _ => panic!("expected unchanged"),
    }
}

#[test]
fn paths_sort_directory_first() {
    assert_eq!(compare_paths(&String::from("a/b"), &String::from("a-b")), Ordering::Less);
    assert_eq!(compare_paths(&String::from("a"), &String::from("a/b")), Ordering::Less);
    assert_eq!(compare_paths(&String::from("b"), &String::from("a")), Ordering::Greater);
    assert_eq!(compare_paths(&String::from("x"), &String::from("x")), Ordering::Equal);
}

#[test]
fn latest_snapshot_is_selected() {
    let names = vec![
        String::from("20220101 120000.state"),
        String::from("20230101 120000.missing"),
        String::from("20230101 120000.state"),
        String::from("20221231 235959.state"),
        String::from("notes.txt"),
    ];
    assert_eq!(latest_state(&names), Some(2));
    assert_eq!(latest_state(&vec![String::from("a.missing")]), None);
    assert_eq!(latest_state(&Vec::new()), None);
}

#[test]
fn snapshot_text_and_logs() {
    let outs = vec![
        FileCheckResult::Unmodifed(rec("a", 1, 1)),
        FileCheckResult::Missing(rec("m", 2, 2)),
    ];
    let files = render_state(&outs);
    assert_eq!(files.state, rec("a", 1, 1).write());
    assert_eq!(files.missing, Some(rec("m", 2, 2).write()));
    assert_eq!(files.modified, None);
    let lines: Vec<String> = files.state.lines().map(String::from).collect();
    let back = parse_lines(&lines).unwrap();
    assert_eq!(back, vec![rec("a", 1, 1)]);
    let bad = vec![rec("a", 1, 1).write(), String::from("garbage")];
    assert_eq!(parse_lines(&bad).unwrap_err().line, "garbage");
}

#[test]
fn stats_count() {
    let mut s = StatsCollector::new();
    s.files_checked(3);
    s.file_not_found();
    s.files_not_found(2);
    s.duplicates_removed(4);
    s.file_read_new(&rec("a", 1, 7));
    s.file_read_modified(&rec("b", 1, 8));
    s.file_read_unmodifed(&rec("c", 1, 9));
    s.files_checked(u64::MAX);
    let r = s.get_results();
    assert_eq!(r.files_checked, u64::MAX);
    assert_eq!(r.files_not_found, 3);
    assert_eq!(r.files_duplicate_removed, 4);
    assert_eq!(r.files_read, 3);
    assert_eq!(r.bytes_read, 24);
    assert_eq!((r.files_new, r.files_modified, r.files_unchanged, r.files_unchanged_size), (1, 1, 1, 9));
}

#[test]
fn reread_file_counts_only_as_checked() {
    let mut run = CheckRun::new(vec![rec("a", 1, 10)], false);
    let mut stats = StatsCollector::new();
    let t = run.consider(String::from("a"), 100, 6, 10, 50, &mut stats);
    assert!(t.is_some());
    let s = stats.get_results();
    assert_eq!((s.files_checked, s.files_unchanged, s.files_unchanged_size), (1, 0, 0));
}
