use tarlens::diff::{Change, DiffResult};
use tarlens::header::{EntryType, TarFormat, TarHeader};
use tarlens::output::{
    days_to_date, format_mtime, json_escape, print_diff, print_diff_json, print_info,
    print_list, print_list_json, print_verify, print_verify_json,
};
use tarlens::reader::TarEntry;
use tarlens::verify::{IssueSeverity, VerifyIssue, VerifyReport, VerifyStatus};

fn make_entry(name: &str, size: u64, entry_type: EntryType) -> TarEntry {
    TarEntry {
        header: TarHeader {
            name: name.to_string(),
            mode: 0o644,
            uid: 1000,
            gid: 1000,
            size,
            mtime: 1000,
            checksum: 0,
            entry_type,
            linkname: String::new(),
            format: TarFormat::Ustar,
            uname: "user".to_string(),
            gname: "group".to_string(),
            devmajor: 0,
            devminor: 0,
            prefix: String::new(),
            pax_records: Vec::new(),
            checksum_valid: true,
        },
        content: vec![b'x'; size as usize],
        raw_block: [0u8; 512],
        offset: 0,
    }
}

#[test]
fn test_print_list_short() {
    let entries = vec![
        make_entry("file1.txt", 10, EntryType::Regular),
        make_entry("file2.txt", 20, EntryType::Regular),
    ];
    let mut buf = Vec::new();
    print_list(&mut buf, &entries, false);
    let output = String::from_utf8(buf).unwrap();
    assert!(output.contains("file1.txt"));
    assert!(output.contains("file2.txt"));
}

#[test]
fn test_print_list_long() {
    let entries = vec![make_entry("file1.txt", 10, EntryType::Regular)];
    let mut buf = Vec::new();
    print_list(&mut buf, &entries, true);
    let output = String::from_utf8(buf).unwrap();
    assert!(output.contains("file1.txt"));
    assert!(output.contains("user"));
}

#[test]
fn test_print_verify_pass() {
    let report = VerifyReport {
        total_entries: 5,
        valid_checksums: 5,
        invalid_checksums: 0,
        issues: vec![],
        overall_status: VerifyStatus::Pass,
    };
    let mut buf = Vec::new();
    print_verify(&mut buf, &report);
    let output = String::from_utf8(buf).unwrap();
    assert!(output.contains("PASS"));
    assert!(output.contains("Total entries:     5"));
}

#[test]
fn test_print_verify_fail() {
    let report = VerifyReport {
        total_entries: 1,
        valid_checksums: 0,
        invalid_checksums: 1,
        issues: vec![VerifyIssue {
            severity: IssueSeverity::Error,
            entry_name: "bad.txt".to_string(),
            message: "checksum mismatch".to_string(),
        }],
        overall_status: VerifyStatus::Fail,
    };
    let mut buf = Vec::new();
    print_verify(&mut buf, &report);
    let output = String::from_utf8(buf).unwrap();
    assert!(output.contains("FAIL"));
    assert!(output.contains("bad.txt"));
}

fn sample_diff() -> DiffResult {
    DiffResult {
        changes: vec![
            Change::Added {
                name: "added.txt".to_string(),
                entry_type: EntryType::Regular,
                size: 100,
            },
            Change::Removed {
                name: "removed.txt".to_string(),
                entry_type: EntryType::Regular,
                size: 50,
            },
            Change::Modified {
                name: "mod.txt".to_string(),
                entry_type: EntryType::Regular,
                old_size: 100,
                new_size: 200,
                old_mtime: 1000,
                new_mtime: 2000,
                old_mode: 0o644,
                new_mode: 0o644,
                content_changed: true,
            },
        ],
        added_count: 1,
        removed_count: 1,
        modified_count: 1,
        type_changed_count: 0,
        unchanged_count: 0,
    }
}

#[test]
fn test_print_diff() {
    let diff = sample_diff();
    let mut buf = Vec::new();
    print_diff(&mut buf, &diff, "a.tar", "b.tar");
    let output = String::from_utf8(buf).unwrap();
    assert!(output.contains("removed.txt"));
    assert!(output.contains("added.txt"));
    assert!(output.contains("mod.txt"));
    assert!(output.contains("size: 100 B -> 200 B"));
}

#[test]
fn test_print_info() {
    let entries = vec![
        make_entry("file1.txt", 10, EntryType::Regular),
        make_entry("dir/", 0, EntryType::Directory),
    ];
    let mut buf = Vec::new();
    print_info(&mut buf, &entries, "test.tar");
    let output = String::from_utf8(buf).unwrap();
    assert!(output.contains("test.tar"));
    assert!(output.contains("Ustar"));
    assert!(output.contains("Files:       1"));
    assert!(output.contains("Directories: 1"));
}

#[test]
fn test_json_escape() {
    assert_eq!(json_escape("hello"), "hello");
    assert_eq!(json_escape(r#"he said "hi""#), r#"he said \"hi\""#);
    assert_eq!(json_escape("line\nbreak"), r#"line\nbreak"#);
}

#[test]
fn test_print_list_json() {
    let entries = vec![make_entry("file.txt", 10, EntryType::Regular)];
    let mut buf = Vec::new();
    print_list_json(&mut buf, &entries);
    let output = String::from_utf8(buf).unwrap();
    assert!(output.contains("file.txt"));
    assert!(output.contains("regular file"));
    assert!(output.starts_with("["));
    assert!(output.trim().ends_with("]"));
}

#[test]
fn test_days_to_date() {
    assert_eq!(days_to_date(0), (1970, 1, 1));
    assert_eq!(days_to_date(31), (1970, 2, 1));
    assert_eq!(days_to_date(365), (1971, 1, 1));
}

#[test]
fn test_format_mode() {
    let mut buf = Vec::new();
    let entry = make_entry("test", 0, EntryType::Regular);
    print_list(&mut buf, &[entry], true);
    let output = String::from_utf8(buf).unwrap();
    assert!(output.contains("rw-r--r--"));
}

// ---------------------------------------------------------------------------
// Exact texts
// ---------------------------------------------------------------------------

#[test]
fn print_list_long_exact_line() {
    let mut e = make_entry("big.bin", 2048, EntryType::Regular);
    e.header.uname = String::new();
    e.header.mtime = 86400 + 3661;
    let meta = make_entry("pax", 3, EntryType::PaxHeader);
    let mut buf = Vec::new();
    print_list(&mut buf, &[meta, e], true);
    let output = String::from_utf8(buf).unwrap();
    assert_eq!(
        output,
        "-rw-r--r--  2.00 KB 1000 group 1970-01-02 01:01:01 big.bin\n"
    );
}

#[test]
fn print_list_skips_metadata() {
    let entries = vec![
        make_entry("././@LongLink", 20, EntryType::GnuLongName),
        make_entry("real.txt", 1, EntryType::Regular),
    ];
    let mut buf = Vec::new();
    print_list(&mut buf, &entries, false);
    assert_eq!(String::from_utf8(buf).unwrap(), "real.txt\n");
}

#[test]
fn print_list_appends_to_buffer() {
    let entries = vec![make_entry("a", 1, EntryType::Regular)];
    let mut buf = b"x".to_vec();
    print_list(&mut buf, &entries, false);
    assert_eq!(buf, b"xa\n".to_vec());
}

#[test]
fn print_verify_exact_text() {
    let report = VerifyReport {
        total_entries: 2,
        valid_checksums: 1,
        invalid_checksums: 1,
        issues: vec![
            VerifyIssue {
                severity: IssueSeverity::Warning,
                entry_name: "/abs".to_string(),
                message: "absolute path".to_string(),
            },
            VerifyIssue {
                severity: IssueSeverity::Info,
                entry_name: "x".to_string(),
                message: "note".to_string(),
            },
        ],
        overall_status: VerifyStatus::Warning,
    };
    let mut buf = Vec::new();
    print_verify(&mut buf, &report);
    let expected = "Archive Verification Report\n\
============================\n\
Total entries:     2\n\
Valid checksums:   1\n\
Invalid checksums: 1\n\
Issues found:      2\n\
\n\
Status: WARNING\n\
\n\
Issues:\n\
\x20 [WARN] /abs: absolute path\n\
\x20 [INFO] x: note\n";
    assert_eq!(String::from_utf8(buf).unwrap(), expected);
}

#[test]
fn print_verify_json_exact_text() {
    let report = VerifyReport {
        total_entries: 1,
        valid_checksums: 0,
        invalid_checksums: 1,
        issues: vec![
            VerifyIssue {
                severity: IssueSeverity::Error,
                entry_name: "a\"b".to_string(),
                message: "checksum mismatch".to_string(),
            },
            VerifyIssue {
                severity: IssueSeverity::Info,
                entry_name: "c".to_string(),
                message: "m".to_string(),
            },
        ],
        overall_status: VerifyStatus::Fail,
    };
    let mut buf = Vec::new();
    print_verify_json(&mut buf, &report);
    assert_eq!(
        String::from_utf8(buf).unwrap(),
        "{\"total_entries\":1,\"valid_checksums\":0,\"invalid_checksums\":1,\"status\":\"fail\",\"issues\":[{\"severity\":\"error\",\"entry\":\"a\\\"b\",\"message\":\"checksum mismatch\"},{\"severity\":\"info\",\"entry\":\"c\",\"message\":\"m\"}]}\n"
    );
}

#[test]
fn print_list_json_exact_text() {
    let entries = vec![
        make_entry("a", 1, EntryType::Regular),
        make_entry("meta", 1, EntryType::PaxHeader),
        make_entry("d/", 0, EntryType::Directory),
    ];
    let mut buf = Vec::new();
    print_list_json(&mut buf, &entries);
    assert_eq!(
        String::from_utf8(buf).unwrap(),
        "[{\"name\":\"a\",\"type\":\"regular file\",\"size\":1,\"mode\":\"000644\",\"uid\":1000,\"gid\":1000,\"mtime\":1000},{\"name\":\"d/\",\"type\":\"directory\",\"size\":0,\"mode\":\"000644\",\"uid\":1000,\"gid\":1000,\"mtime\":1000}]\n"
    );
}

#[test]
fn print_list_json_empty() {
    let mut buf = Vec::new();
    print_list_json(&mut buf, &[]);
    assert_eq!(String::from_utf8(buf).unwrap(), "[]\n");
}

#[test]
fn print_diff_exact_text() {
    let mut diff = sample_diff();
    diff.changes.push(Change::TypeChanged {
        name: "t".to_string(),
        old_type: EntryType::Regular,
        new_type: EntryType::Symlink,
    });
    diff.type_changed_count = 1;
    let mut buf = Vec::new();
    print_diff(&mut buf, &diff, "a.tar", "b.tar");
    let expected = "Archive Diff: a.tar vs b.tar\n\
==========================================\n\
Added entries:      1\n\
Removed entries:    1\n\
Modified entries:   1\n\
Type changes:       1\n\
Unchanged entries:  0\n\
\n\
Changes:\n\
\x20 + added.txt  (regular file, 100 B)\n\
\x20 - removed.txt  (regular file, 50 B)\n\
\x20 M mod.txt\n\
\x20     size: 100 B -> 200 B\n\
\x20     mtime: 1970-01-01 00:16:40 -> 1970-01-01 00:33:20\n\
\x20     content changed\n\
\x20 T t: regular file -> symbolic link\n";
    assert_eq!(String::from_utf8(buf).unwrap(), expected);
}

#[test]
fn print_diff_json_exact_text() {
    let diff = sample_diff();
    let mut buf = Vec::new();
    print_diff_json(&mut buf, &diff);
    assert_eq!(
        String::from_utf8(buf).unwrap(),
        "{\"added_count\":1,\"removed_count\":1,\"modified_count\":1,\"type_changed_count\":0,\"unchanged_count\":0,\"changes\":[{\"type\":\"added\",\"name\":\"added.txt\",\"entry_type\":\"regular file\",\"size\":100},{\"type\":\"removed\",\"name\":\"removed.txt\",\"entry_type\":\"regular file\",\"size\":50},{\"type\":\"modified\",\"name\":\"mod.txt\",\"old_size\":100,\"new_size\":200,\"old_mtime\":1000,\"new_mtime\":2000,\"content_changed\":true}]}\n"
    );
}

#[test]
fn print_info_exact_text() {
    let mut gnu = make_entry("l", 0, EntryType::Symlink);
    gnu.header.format = TarFormat::Gnu;
    let entries = vec![
        make_entry("f", 1, EntryType::Regular),
        make_entry("meta", 1, EntryType::PaxHeader),
        gnu,
        make_entry("fifo", 0, EntryType::Fifo),
    ];
    let mut buf = Vec::new();
    print_info(&mut buf, &entries, "x.tar");
    let expected = "Archive: x.tar\n\
================\n\
Total blocks:       4\n\
Data entries:       3\n\
Metadata entries:   1\n\
\n\
Formats detected:\n\
\x20 - Ustar\n\
\x20 - GNU\n\
\n\
Entry summary:\n\
\x20 Files:       1\n\
\x20 Directories: 0\n\
\x20 Links:       1\n\
\x20 Other:       1\n";
    assert_eq!(String::from_utf8(buf).unwrap(), expected);
}

#[test]
fn print_info_empty_archive() {
    let mut buf = Vec::new();
    print_info(&mut buf, &[], "e.tar");
    let output = String::from_utf8(buf).unwrap();
    assert!(output.contains("Format: (empty archive)\n"));
    assert!(output.contains("Total blocks:       0\n"));
}

#[test]
fn json_escape_all_specials() {
    assert_eq!(json_escape("a\\b\r\tc"), "a\\\\b\\r\\tc");
    assert_eq!(json_escape("é\u{1F600}"), "é\u{1F600}");
}

#[test]
fn format_mtime_examples() {
    assert_eq!(format_mtime(0), "epoch");
    assert_eq!(format_mtime(1_700_000_000), "2023-11-14 22:13:20");
    assert_eq!(format_mtime(951_782_400), "2000-02-29 00:00:00");
}

#[test]
fn days_to_date_leap_years() {
    assert_eq!(days_to_date(59), (1970, 3, 1));
    assert_eq!(days_to_date(11016), (2000, 2, 29));
    assert_eq!(days_to_date(11017), (2000, 3, 1));
}

fn unescape(t: &str) -> String {
    let mut out = String::new();
    let mut chars = t.chars();
    while let Some(c) = chars.next() {
        if c == '\\' {
            match chars.next() {
                Some('n') => out.push('\n'),
                Some('r') => out.push('\r'),
                Some('t') => out.push('\t'),
                Some(other) => out.push(other),
                None => out.push('\\'),
            }
        } else {
            out.push(c);
        }
    }
    out
}

#[test]
fn json_escape_round_trips() {
    for s in ["", "plain", "a\"b\\c", "\n\r\t", "\\n", "tab\there \"q\" \\\\ end", "ünï\u{1F600}"] {
        assert_eq!(unescape(&json_escape(s)), s);
    }
}
