use tarlens::header::{EntryType, TarFormat, TarHeader};
use tarlens::reader::TarEntry;
use tarlens::verify::{verify_archive, IssueSeverity, VerifyStatus};

fn make_entry(
    name: &str,
    size: u64,
    content: &[u8],
    checksum_valid: bool,
    entry_type: EntryType,
) -> TarEntry {
    TarEntry {
        header: TarHeader {
            name: name.to_string(),
            mode: 0o644,
            uid: 1000,
            gid: 1000,
            size,
            mtime: 1000,
            checksum: 12345,
            entry_type,
            linkname: String::new(),
            format: TarFormat::Ustar,
            uname: String::new(),
            gname: String::new(),
            devmajor: 0,
            devminor: 0,
            prefix: String::new(),
            pax_records: Vec::new(),
            checksum_valid,
        },
        content: content.to_vec(),
        raw_block: [0u8; 512],
        offset: 0,
    }
}

#[test]
fn test_verify_clean_archive() {
    let entries = vec![
        make_entry("file1.txt", 5, b"hello", true, EntryType::Regular),
        make_entry("file2.txt", 5, b"world", true, EntryType::Regular),
    ];
    let report = verify_archive(&entries);
    assert_eq!(report.overall_status, VerifyStatus::Pass);
    assert_eq!(report.valid_checksums, 2);
    assert_eq!(report.invalid_checksums, 0);
    assert!(report.issues.is_empty());
}

#[test]
fn test_verify_invalid_checksum() {
    let entries = vec![make_entry("bad.txt", 5, b"hello", false, EntryType::Regular)];
    let report = verify_archive(&entries);
    assert_eq!(report.overall_status, VerifyStatus::Fail);
    assert_eq!(report.invalid_checksums, 1);
    assert!(report.issues.iter().any(|i| i.severity == IssueSeverity::Error));
}

#[test]
fn test_verify_path_traversal() {
    let entries = vec![make_entry("../etc/passwd", 0, b"", true, EntryType::Regular)];
    let report = verify_archive(&entries);
    assert_eq!(report.overall_status, VerifyStatus::Fail);
    assert!(report.issues.iter().any(|i| i.message.contains("path traversal")));
}

#[test]
fn test_verify_absolute_path() {
    let entries = vec![make_entry("/etc/passwd", 0, b"", true, EntryType::Regular)];
    let report = verify_archive(&entries);
    assert_eq!(report.overall_status, VerifyStatus::Warning);
    assert!(report.issues.iter().any(|i| i.message.contains("absolute path")));
}

#[test]
fn test_verify_world_writable() {
    let mut entry = make_entry("dangerous.sh", 0, b"", true, EntryType::Regular);
    entry.header.mode = 0o777;
    let report = verify_archive(&[entry]);
    assert!(report.issues.iter().any(|i| i.message.contains("0777")));
}

#[test]
fn test_verify_symlink_traversal() {
    let mut entry = make_entry("link.txt", 0, b"", true, EntryType::Symlink);
    entry.header.linkname = "../../../etc/passwd".to_string();
    let report = verify_archive(&[entry]);
    assert!(report.issues.iter().any(|i| i.message.contains("traverse parent")));
}

#[test]
fn test_verify_content_size_mismatch() {
    let entries = vec![make_entry("bad.txt", 100, b"short", true, EntryType::Regular)];
    let report = verify_archive(&entries);
    assert_eq!(report.overall_status, VerifyStatus::Fail);
    assert!(report.issues.iter().any(|i| i.message.contains("size mismatch")));
}

#[test]
fn test_verify_duplicate_entries() {
    let entries = vec![
        make_entry("file.txt", 5, b"hello", true, EntryType::Regular),
        make_entry("file.txt", 5, b"world", true, EntryType::Regular),
    ];
    let report = verify_archive(&entries);
    assert!(report.issues.iter().any(|i| i.message.contains("duplicate")));
}

#[test]
fn verify_checksum_counts_cover_all_entries() {
    let entries = vec![
        make_entry("a", 1, b"x", true, EntryType::Regular),
        make_entry("b", 1, b"y", false, EntryType::Regular),
        make_entry("pax", 0, b"", false, EntryType::PaxHeader),
    ];
    let report = verify_archive(&entries);
    assert_eq!(report.valid_checksums + report.invalid_checksums, 3);
    assert_eq!(report.total_entries, 2);
}

#[test]
fn verify_path_traversal_fails_whatever_else() {
    let entries = vec![make_entry("../x", 1, b"x", true, EntryType::Regular)];
    let report = verify_archive(&entries);
    assert_eq!(report.overall_status, VerifyStatus::Fail);
    assert!(report
        .issues
        .iter()
        .any(|i| i.severity == IssueSeverity::Error
            && i.entry_name == "../x"
            && i.message == "path traversal detected (contains '..')"));
}

#[test]
fn verify_checksum_mismatch_issues_match_invalid_count() {
    let entries = vec![
        make_entry("a", 1, b"x", false, EntryType::Regular),
        make_entry("b", 1, b"y", true, EntryType::Regular),
        make_entry("pax", 0, b"", false, EntryType::PaxHeader),
        make_entry("c", 1, b"z", false, EntryType::Regular),
    ];
    let report = verify_archive(&entries);
    let mismatches = report
        .issues
        .iter()
        .filter(|i| i.message.starts_with("checksum mismatch"))
        .count();
    assert_eq!(report.invalid_checksums, 3);
    assert_eq!(mismatches, 3);
    let names: Vec<&str> = entries.iter().map(|e| e.header.name.as_str()).collect();
    assert!(report.issues.iter().all(|i| names.contains(&i.entry_name.as_str())));
}

#[test]
fn verify_status_follows_worst_issue() {
    let warn_only = vec![make_entry("/abs", 1, b"x", true, EntryType::Regular)];
    let report = verify_archive(&warn_only);
    assert!(report.issues.iter().all(|i| i.severity != IssueSeverity::Error));
    assert!(report.issues.iter().any(|i| i.severity == IssueSeverity::Warning));
    assert_eq!(report.overall_status, VerifyStatus::Warning);

    let mut mixed = vec![make_entry("/abs", 1, b"x", true, EntryType::Regular)];
    mixed.push(make_entry("short", 10, b"x", true, EntryType::Regular));
    let report = verify_archive(&mixed);
    assert!(report.issues.iter().any(|i| i.severity == IssueSeverity::Error));
    assert_eq!(report.overall_status, VerifyStatus::Fail);

    let clean = vec![make_entry("ok", 1, b"x", true, EntryType::Regular)];
    let report = verify_archive(&clean);
    assert!(report.issues.iter().all(|i| i.severity == IssueSeverity::Info));
    assert_eq!(report.overall_status, VerifyStatus::Pass);
}
