use hashdir::file_info::FileInfo;

fn sample() -> FileInfo {
    FileInfo {
        rel_path: String::from("test/äöüß/#!,.\"§$%&()=?{[]}/something"),
        sha256_digest: [5; 32],
        mtime_secs: 1653660805,
        mtime_nanos: 133248800,
        len: 123456,
        last_seen: 1653660810,
        fully_read: 1653660817,
    }
}

#[test]
fn round_trip() {
    let fi = sample();
    let line = fi.write();
    let fi_parsed = FileInfo::parse(&line).unwrap();
    assert_eq!(fi, fi_parsed);
    let line2 = fi_parsed.write();
    assert_eq!(line, line2);
}

#[test]
fn write_exact_line() {
    let fi = FileInfo {
        rel_path: String::from("dir/file.txt"),
        sha256_digest: [0xab; 32],
        mtime_secs: 12,
        mtime_nanos: 5,
        len: 0,
        last_seen: 7,
        fully_read: 9,
    };
    let expected = format!(
        "{} dir/file.txt # mtime 12.000000005 size 0 fully_read 9 last_seen 7\n",
        "ab".repeat(32)
    );
    assert_eq!(fi.write(), expected);
}

#[test]
fn parse_tolerates_fractional_seconds() {
    let line = format!(
        "{} a # mtime 1.000000002 size 3 fully_read 4.75 last_seen 5.5",
        "0f".repeat(32)
    );
    let fi = FileInfo::parse(&line).unwrap();
    assert_eq!(fi.rel_path, "a");
    assert_eq!(fi.sha256_digest, [0x0f; 32]);
    assert_eq!(fi.mtime_secs, 1);
    assert_eq!(fi.mtime_nanos, 2);
    assert_eq!(fi.len, 3);
    assert_eq!(fi.fully_read, 4);
    assert_eq!(fi.last_seen, 5);
}

#[test]
fn path_may_hold_the_field_marker() {
    let mut fi = sample();
    fi.rel_path = String::from("x # mtime 1.000000000 size 1 fully_read 1 last_seen 1/y");
    let parsed = FileInfo::parse(&fi.write()).unwrap();
    assert_eq!(parsed, fi);
}

#[test]
fn parse_rejects_malformed_lines() {
    let hex = "12".repeat(32);
    let bad = vec![
        String::new(),
        format!("{} a # mtime 1.000000000 size 1 fully_read 1", hex),
        format!("{} a # mtime 1.00000000 size 1 fully_read 1 last_seen 1", hex),
        format!("{} /a # mtime 1.000000000 size 1 fully_read 1 last_seen 1", hex),
        format!("{} a # mtime 1.000000000 size 99999999999999999999 fully_read 1 last_seen 1", hex),
        format!("{} a # mtime 1.000000000 size 1 fully_read 1 last_seen 1 extra", hex),
        format!("{} a # mtime 1.000000000 size 1 fully_read 1 last_seen 1", "AB".repeat(32)),
        format!("{} a # mtime 1.000000000 size 1 fully_read 1 last_seen 1", "1g".repeat(32)),
    ];
    for line in bad {
        let err = FileInfo::parse(&line).unwrap_err();
        assert_eq!(err.line, line);
    }
}

#[test]
fn needs_reading_compares_metadata() {
    let fi = sample();
    assert!(!fi.needs_reading(1653660805, 133248800, 123456));
    assert!(fi.needs_reading(1653660805, 133248801, 123456));
    assert!(fi.needs_reading(1653660805, 133248800, 123457));
}
