use tarlens::header::{EntryType, TarFormat, TarHeader};
use tarlens::output::{print_stats, print_stats_json};
use tarlens::reader::TarEntry;
use tarlens::stats::{average_text, compute_stats, format_size, total_file_size, ArchiveStats};

fn make_entry(name: &str, size: u64, entry_type: EntryType) -> TarEntry {
    TarEntry {
        header: TarHeader {
            name: name.to_string(),
            mode: 0o644,
            uid: 1000,
            gid: 1000,
            size,
            mtime: 1000,
            checksum: 0,
            entry_type,
            linkname: String::new(),
            format: TarFormat::Ustar,
            uname: String::new(),
            gname: String::new(),
            devmajor: 0,
            devminor: 0,
            prefix: String::new(),
            pax_records: Vec::new(),
            checksum_valid: true,
        },
        content: Vec::new(),
        raw_block: [0u8; 512],
        offset: 0,
    }
}

fn average_file_size(stats: &ArchiveStats) -> f64 {
    if stats.file_count > 0 {
        stats.total_uncompressed_size as f64 / stats.file_count as f64
    } else {
        0.0
    }
}

#[test]
fn test_stats_empty() {
    let stats = compute_stats(&[]);
    assert_eq!(stats.total_entries, 0);
    assert_eq!(stats.file_count, 0);
}

#[test]
fn test_stats_files() {
    let entries = vec![
        make_entry("a.txt", 100, EntryType::Regular),
        make_entry("b.txt", 200, EntryType::Regular),
        make_entry("c.txt", 300, EntryType::Regular),
    ];
    let stats = compute_stats(&entries);

    assert_eq!(stats.file_count, 3);
    assert_eq!(stats.total_uncompressed_size, 600);
    assert!((average_file_size(&stats) - 200.0).abs() < 0.01);
}

#[test]
fn test_stats_largest_smallest() {
    let entries = vec![
        make_entry("small.txt", 10, EntryType::Regular),
        make_entry("large.txt", 1000, EntryType::Regular),
        make_entry("medium.txt", 100, EntryType::Regular),
    ];
    let stats = compute_stats(&entries);

    assert_eq!(stats.largest_file.as_ref().unwrap().0, "large.txt");
    assert_eq!(stats.largest_file.as_ref().unwrap().1, 1000);
    assert_eq!(stats.smallest_file.as_ref().unwrap().0, "small.txt");
    assert_eq!(stats.smallest_file.as_ref().unwrap().1, 10);
}

#[test]
fn test_stats_mixed_types() {
    let entries = vec![
        make_entry("file.txt", 100, EntryType::Regular),
        make_entry("dir/", 0, EntryType::Directory),
        make_entry("link.txt", 0, EntryType::Symlink),
    ];
    let stats = compute_stats(&entries);

    assert_eq!(stats.file_count, 1);
    assert_eq!(stats.directory_count, 1);
    assert_eq!(stats.link_count, 1);
}

#[test]
fn test_stats_top_largest() {
    let entries: Vec<TarEntry> = (0..15)
        .map(|i| make_entry(&format!("file{i}.txt"), (i + 1) * 100, EntryType::Regular))
        .collect();
    let stats = compute_stats(&entries);

    assert_eq!(stats.top_largest_files.len(), 10);
    // Should be sorted by size descending.
    assert_eq!(stats.top_largest_files[0].0, "file14.txt");
    assert_eq!(stats.top_largest_files[0].1, 1500);
}

#[test]
fn test_format_size() {
    assert_eq!(format_size(0), "0 B");
    assert_eq!(format_size(512), "512 B");
    assert_eq!(format_size(1024), "1.00 KB");
    assert_eq!(format_size(1048576), "1.00 MB");
}

#[test]
fn test_print_stats() {
    let stats = ArchiveStats {
        total_entries: 3,
        file_count: 3,
        directory_count: 0,
        link_count: 0,
        other_count: 0,
        metadata_count: 0,
        total_uncompressed_size: 600,
        largest_file: Some(("big.txt".to_string(), 300)),
        smallest_file: Some(("small.txt".to_string(), 100)),
        format: Some(TarFormat::Ustar),
        formats_detected: vec![TarFormat::Ustar],
        entry_types: vec![("regular file".to_string(), 3)],
        top_largest_files: vec![("big.txt".to_string(), 300)],
    };
    let mut buf = Vec::new();
    print_stats(&mut buf, &stats);
    let output = String::from_utf8(buf).unwrap();
    assert!(output.contains("Files:"));
    assert!(output.contains("big.txt"));
    assert!(output.contains("Ustar"));
}

// ---------------------------------------------------------------------------
// More cases
// ---------------------------------------------------------------------------

#[test]
fn stats_counts_metadata_and_types() {
    let mut gnu = make_entry("g.txt", 7, EntryType::Contiguous);
    gnu.header.format = TarFormat::Gnu;
    let entries = vec![
        make_entry("pax", 30, EntryType::PaxHeader),
        make_entry("a", 5, EntryType::Regular),
        make_entry("d/", 0, EntryType::Directory),
        make_entry("h", 0, EntryType::HardLink),
        make_entry("fifo", 0, EntryType::Fifo),
        gnu,
        make_entry("b", 5, EntryType::Regular),
    ];
    let stats = compute_stats(&entries);
    assert_eq!(stats.total_entries, 6);
    assert_eq!(stats.metadata_count, 1);
    assert_eq!(stats.file_count, 3);
    assert_eq!(stats.directory_count, 1);
    assert_eq!(stats.link_count, 1);
    assert_eq!(stats.other_count, 1);
    assert_eq!(stats.total_uncompressed_size, 17);
    assert_eq!(stats.formats_detected, vec![TarFormat::Ustar, TarFormat::Gnu]);
    assert_eq!(stats.format, Some(TarFormat::Ustar));
    assert_eq!(
        stats.entry_types,
        vec![
            ("PAX extended header".to_string(), 1),
            ("regular file".to_string(), 2),
            ("directory".to_string(), 1),
            ("hard link".to_string(), 1),
            ("FIFO".to_string(), 1),
            ("contiguous file".to_string(), 1),
        ]
    );
    // Ties keep archive order; the first of equal sizes wins.
    assert_eq!(stats.largest_file, Some(("g.txt".to_string(), 7)));
    assert_eq!(stats.smallest_file, Some(("a".to_string(), 5)));
    assert_eq!(
        stats.top_largest_files,
        vec![("g.txt".to_string(), 7), ("a".to_string(), 5), ("b".to_string(), 5)]
    );
}

#[test]
fn total_file_size_detects_overflow() {
    let entries = vec![
        make_entry("a", u64::MAX, EntryType::Regular),
        make_entry("b", 1, EntryType::Regular),
    ];
    assert_eq!(total_file_size(&entries), None);
    let entries = vec![
        make_entry("a", u64::MAX - 1, EntryType::Regular),
        make_entry("d", 5, EntryType::Directory),
        make_entry("b", 1, EntryType::Regular),
    ];
    assert_eq!(total_file_size(&entries), Some(u64::MAX));
}

#[test]
fn print_stats_exact_text() {
    let mut gnu = make_entry("g.txt", 2048, EntryType::Regular);
    gnu.header.format = TarFormat::Gnu;
    let entries = vec![
        make_entry("a", 10, EntryType::Regular),
        make_entry("d/", 0, EntryType::Directory),
        gnu,
    ];
    let stats = compute_stats(&entries);
    let mut buf = Vec::new();
    print_stats(&mut buf, &stats);
    let expected = "Archive Statistics\n\
==================\n\
Total entries:      3\n\
Files:              2\n\
Directories:        1\n\
Links:              0\n\
Other:              0\n\
Metadata entries:   0\n\
\n\
Total uncompressed:  2.01 KB\n\
Largest file:        g.txt (2.00 KB)\n\
Smallest file:       a (10 B)\n\
Average file size:   1029.00 bytes\n\
\n\
Detected format:     Ustar\n\
All formats:         Ustar, GNU\n\
\n\
Entry type breakdown:\n\
\x20 regular file: 2\n\
\x20 directory: 1\n\
\n\
Top largest files:\n\
\x20 g.txt: 2.00 KB\n\
\x20 a: 10 B\n";
    assert_eq!(String::from_utf8(buf).unwrap(), expected);
}

#[test]
fn print_stats_json_exact_text() {
    let entries = vec![make_entry("q\"", 3, EntryType::Regular)];
    let stats = compute_stats(&entries);
    let mut buf = Vec::new();
    print_stats_json(&mut buf, &stats);
    assert_eq!(
        String::from_utf8(buf).unwrap(),
        "{\"total_entries\":1,\"file_count\":1,\"directory_count\":0,\"link_count\":0,\"other_count\":0,\"total_uncompressed_size\":3,\"largest_file\":{\"name\":\"q\\\"\",\"size\":3},\"smallest_file\":{\"name\":\"q\\\"\",\"size\":3},\"average_file_size\":3.00,\"format\":\"Ustar\"}\n"
    );
    let empty = compute_stats(&[]);
    let mut buf = Vec::new();
    print_stats_json(&mut buf, &empty);
    assert_eq!(
        String::from_utf8(buf).unwrap(),
        "{\"total_entries\":0,\"file_count\":0,\"directory_count\":0,\"link_count\":0,\"other_count\":0,\"total_uncompressed_size\":0,\"largest_file\":null,\"smallest_file\":null,\"average_file_size\":0.00,\"format\":null}\n"
    );
}

#[test]
fn format_size_matches_float_formatting() {
    let samples: Vec<u64> = vec![
        0, 1, 1023, 1024, 1025, 1535, 1536, 1537, 5119, 5120, 10239, 1024 * 1024 - 1,
        1024 * 1024, 1024 * 1024 + 5243, 3 * 1024 * 1024 + 1, 1024 * 1024 * 1024 - 1,
        1024 * 1024 * 1024, 5 * 1024 * 1024 * 1024 + 123_456_789, (1u64 << 53) + 1,
        (1u64 << 53) + 3, u64::MAX, u64::MAX - 2048, 123_456_789_012_345,
    ];
    for size in samples {
        let expected = if size < 1024 {
            format!("{size} B")
        } else if size < 1024 * 1024 {
            format!("{:.2} KB", size as f64 / 1024.0)
        } else if size < 1024 * 1024 * 1024 {
            format!("{:.2} MB", size as f64 / (1024.0 * 1024.0))
        } else {
            format!("{:.2} GB", size as f64 / (1024.0 * 1024.0 * 1024.0))
        };
        assert_eq!(format_size(size), expected, "size {size}");
    }
    for size in (1024u64..200_000).step_by(7) {
        let expected = if size < 1024 * 1024 {
            format!("{:.2} KB", size as f64 / 1024.0)
        } else {
            format!("{:.2} MB", size as f64 / (1024.0 * 1024.0))
        };
        assert_eq!(format_size(size), expected, "size {size}");
    }
}

fn float_average(total: u64, count: usize) -> String {
    let average = if count > 0 { total as f64 / count as f64 } else { 0.0 };
    format!("{:.2}", average)
}

#[test]
fn average_text_matches_float_division() {
    let totals: Vec<u64> = vec![
        0, 1, 2, 3, 5, 7, 10, 99, 100, 101, 125, 1000, 1023, 12345, 999_999, 1 << 20,
        (1 << 53) - 1, 1 << 53, (1 << 53) + 1, (1 << 53) + 3, 123_456_789_012_345_678,
        u64::MAX - 1, u64::MAX, 1 << 63, 6_000_000_000_000_000_005,
    ];
    let counts: Vec<usize> = vec![
        0, 1, 2, 3, 4, 7, 8, 9, 10, 16, 40, 64, 80, 100, 333, 1000, 1024, 65_537, 1 << 40,
        (1 << 53) + 1, usize::MAX, usize::MAX / 3,
    ];
    for &t in &totals {
        for &c in &counts {
            assert_eq!(average_text(t, c), float_average(t, c), "total {t} count {c}");
        }
    }
    let mut x: u64 = 0x9e37_79b9_7f4a_7c15;
    for _ in 0..20000 {
        x ^= x << 13;
        x ^= x >> 7;
        x ^= x << 17;
        let t = x >> (x % 64);
        let c = ((x.rotate_left(17) >> (x % 61)) as usize) | 1;
        assert_eq!(average_text(t, c), float_average(t, c), "total {t} count {c}");
        let small_t = x % 100_000;
        let small_c = (x >> 40) as usize % 64 + 1;
        assert_eq!(average_text(small_t, small_c), float_average(small_t, small_c));
    }
}

#[test]
fn average_text_examples() {
    assert_eq!(average_text(600, 3), "200.00");
    assert_eq!(average_text(0, 0), "0.00");
    assert_eq!(average_text(1, 3), "0.33");
    assert_eq!(average_text(2, 3), "0.67");
    assert_eq!(average_text(1, 8), "0.12");
    assert_eq!(average_text(3, 8), "0.38");
    assert_eq!(average_text(u64::MAX, 1), "18446744073709551616.00");
}
