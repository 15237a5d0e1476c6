use tarlens::diff::{diff_archives, Change};
use tarlens::header::{EntryType, TarFormat, TarHeader};
use tarlens::reader::TarEntry;

fn make_entry(name: &str, size: u64, mtime: u64, content: &[u8]) -> TarEntry {
    make_typed_entry(name, size, mtime, content, EntryType::Regular)
}

fn make_typed_entry(
    name: &str,
    size: u64,
    mtime: u64,
    content: &[u8],
    entry_type: EntryType,
) -> TarEntry {
    TarEntry {
        header: TarHeader {
            name: name.to_string(),
            mode: 0o644,
            uid: 1000,
            gid: 1000,
            size,
            mtime,
            checksum: 0,
            entry_type,
            linkname: String::new(),
            format: TarFormat::Ustar,
            uname: String::new(),
            gname: String::new(),
            devmajor: 0,
            devminor: 0,
            prefix: String::new(),
            pax_records: Vec::new(),
            checksum_valid: true,
        },
        content: content.to_vec(),
        raw_block: [0u8; 512],
        offset: 0,
    }
}

fn change_name(c: &Change) -> &str {
    match c {
        Change::Added { name, .. } => name,
        Change::Removed { name, .. } => name,
        Change::Modified { name, .. } => name,
        Change::TypeChanged { name, .. } => name,
    }
}

#[test]
fn test_diff_identical_archives() {
    let entries1 = vec![
        make_entry("file1.txt", 10, 1000, b"content1!!!"),
        make_entry("file2.txt", 10, 2000, b"content2!!!"),
    ];
    let entries2 = vec![
        make_entry("file1.txt", 10, 1000, b"content1!!!"),
        make_entry("file2.txt", 10, 2000, b"content2!!!"),
    ];

    let result = diff_archives(&entries1, &entries2);
    assert_eq!(result.unchanged_count, 2);
    assert_eq!(result.added_count, 0);
    assert_eq!(result.removed_count, 0);
    assert_eq!(result.modified_count, 0);
}

#[test]
fn test_diff_added_file() {
    let entries1 = vec![make_entry("file1.txt", 10, 1000, b"content1!!!")];
    let entries2 = vec![
        make_entry("file1.txt", 10, 1000, b"content1!!!"),
        make_entry("file2.txt", 20, 2000, b"content2_longer!!!"),
    ];

    let result = diff_archives(&entries1, &entries2);
    assert_eq!(result.added_count, 1);
    assert_eq!(result.unchanged_count, 1);
}

#[test]
fn test_diff_removed_file() {
    let entries1 = vec![
        make_entry("file1.txt", 10, 1000, b"content1!!!"),
        make_entry("file2.txt", 20, 2000, b"content2_longer!!!"),
    ];
    let entries2 = vec![make_entry("file1.txt", 10, 1000, b"content1!!!")];

    let result = diff_archives(&entries1, &entries2);
    assert_eq!(result.removed_count, 1);
    assert_eq!(result.unchanged_count, 1);
}

#[test]
fn test_diff_modified_file() {
    let entries1 = vec![make_entry("file1.txt", 10, 1000, b"old content")];
    let entries2 = vec![make_entry("file1.txt", 13, 2000, b"new content!")];

    let result = diff_archives(&entries1, &entries2);
    assert_eq!(result.modified_count, 1);
    assert_eq!(result.unchanged_count, 0);

    if let Some(Change::Modified { content_changed, .. }) = result.changes.first() {
        assert!(*content_changed);
    }
}

#[test]
fn test_diff_empty_archives() {
    let result = diff_archives(&[], &[]);
    assert_eq!(result.unchanged_count, 0);
    assert!(result.changes.is_empty());
}

#[test]
fn test_diff_all_added() {
    let entries2 = vec![
        make_entry("a.txt", 5, 1000, b"hello"),
        make_entry("b.txt", 5, 2000, b"world"),
    ];
    let result = diff_archives(&[], &entries2);
    assert_eq!(result.added_count, 2);
}

#[test]
fn test_diff_all_removed() {
    let entries1 = vec![
        make_entry("a.txt", 5, 1000, b"hello"),
        make_entry("b.txt", 5, 2000, b"world"),
    ];
    let result = diff_archives(&entries1, &[]);
    assert_eq!(result.removed_count, 2);
}

#[test]
fn diff_type_change_and_order() {
    let entries1 = vec![
        make_entry("zeta", 0, 1, b""),
        make_typed_entry("dir", 0, 1, b"", EntryType::Regular),
        make_entry("alpha", 1, 1, b"a"),
    ];
    let entries2 = vec![
        make_typed_entry("dir", 0, 1, b"", EntryType::Directory),
        make_entry("beta", 1, 1, b"b"),
        make_entry("alpha", 1, 1, b"a"),
    ];
    let result = diff_archives(&entries1, &entries2);
    assert_eq!(result.type_changed_count, 1);
    assert_eq!(result.added_count, 1);
    assert_eq!(result.removed_count, 1);
    assert_eq!(result.unchanged_count, 1);
    let names: Vec<&str> = result.changes.iter().map(change_name).collect();
    assert_eq!(names, vec!["beta", "dir", "zeta"]);
    assert_eq!(
        result.changes[1],
        Change::TypeChanged {
            name: "dir".to_string(),
            old_type: EntryType::Regular,
            new_type: EntryType::Directory,
        }
    );
}

#[test]
fn diff_ignores_metadata_and_takes_last_duplicate() {
    let entries1 = vec![
        make_entry("f", 1, 1, b"x"),
        make_entry("f", 1, 5, b"y"),
        make_typed_entry("meta", 3, 1, b"abc", EntryType::PaxHeader),
    ];
    let entries2 = vec![make_entry("f", 1, 5, b"y")];
    let result = diff_archives(&entries1, &entries2);
    assert_eq!(result.unchanged_count, 1);
    assert_eq!(result.removed_count, 0);
    assert!(result.changes.is_empty());
}

#[test]
fn diff_mode_only_change() {
    let entries1 = vec![make_entry("f", 1, 1, b"x")];
    let mut e = make_entry("f", 1, 1, b"x");
    e.header.mode = 0o755;
    let result = diff_archives(&entries1, &[e]);
    assert_eq!(result.modified_count, 1);
    assert_eq!(
        result.changes[0],
        Change::Modified {
            name: "f".to_string(),
            entry_type: EntryType::Regular,
            old_size: 1,
            new_size: 1,
            old_mtime: 1,
            new_mtime: 1,
            old_mode: 0o644,
            new_mode: 0o755,
            content_changed: false,
        }
    );
}

#[test]
fn diff_swapped_archives_swap_added_and_removed() {
    let a = vec![make_entry("x", 1, 1, b"1"), make_entry("y", 1, 1, b"2")];
    let b = vec![make_entry("y", 1, 1, b"2"), make_entry("z", 1, 1, b"3")];
    let ab = diff_archives(&a, &b);
    let ba = diff_archives(&b, &a);
    assert_eq!(ab.added_count, ba.removed_count);
    assert_eq!(ab.removed_count, ba.added_count);
    assert_eq!(ab.unchanged_count, ba.unchanged_count);
}

#[test]
fn diff_counts_are_name_set_sizes() {
    let entries1 = vec![
        make_entry("keep", 1, 1, b"k"),
        make_entry("gone", 1, 1, b"g"),
        make_entry("gone", 1, 2, b"g"),
        make_entry("edit", 1, 1, b"a"),
        make_typed_entry("flip", 0, 1, b"", EntryType::Regular),
        make_typed_entry("meta", 0, 1, b"", EntryType::PaxHeader),
    ];
    let entries2 = vec![
        make_entry("keep", 1, 1, b"k"),
        make_entry("edit", 2, 1, b"ab"),
        make_typed_entry("flip", 0, 1, b"", EntryType::Directory),
        make_entry("new1", 1, 1, b"n"),
        make_entry("new2", 1, 1, b"n"),
        make_entry("new2", 1, 1, b"n"),
    ];
    let r = diff_archives(&entries1, &entries2);
    // names only in the second: new1, new2; only in the first: gone; in both: keep, edit, flip
    assert_eq!(r.added_count, 2);
    assert_eq!(r.removed_count, 1);
    assert_eq!(r.modified_count + r.type_changed_count + r.unchanged_count, 3);
    assert_eq!(
        r.changes.len(),
        r.added_count + r.removed_count + r.modified_count + r.type_changed_count
    );
    let added = r.changes.iter().filter(|c| matches!(c, Change::Added { .. })).count();
    let removed = r.changes.iter().filter(|c| matches!(c, Change::Removed { .. })).count();
    let modified = r.changes.iter().filter(|c| matches!(c, Change::Modified { .. })).count();
    let flipped = r.changes.iter().filter(|c| matches!(c, Change::TypeChanged { .. })).count();
    assert_eq!((added, removed, modified, flipped), (2, 1, 1, 1));
}
