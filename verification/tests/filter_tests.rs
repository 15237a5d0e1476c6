use tarlens::filter::{matches_type, select_entries, select_lowered};
use tarlens::header::{EntryType, TarFormat, TarHeader};
use tarlens::reader::TarEntry;

fn make_entry(name: &str, entry_type: EntryType) -> TarEntry {
    TarEntry {
        header: TarHeader {
            name: name.to_string(),
            mode: 0o644,
            uid: 0,
            gid: 0,
            size: 0,
            mtime: 0,
            checksum: 0,
            entry_type,
            linkname: String::new(),
            format: TarFormat::Ustar,
            uname: String::new(),
            gname: String::new(),
            devmajor: 0,
            devminor: 0,
            prefix: String::new(),
            pax_records: Vec::new(),
            checksum_valid: true,
        },
        content: Vec::new(),
        raw_block: [0u8; 512],
        offset: 0,
    }
}

#[test]
fn matches_type_filters() {
    assert!(matches_type(&EntryType::Regular, "file"));
    assert!(matches_type(&EntryType::Contiguous, "F"));
    assert!(!matches_type(&EntryType::Directory, "file"));
    assert!(matches_type(&EntryType::Directory, "DIR"));
    assert!(matches_type(&EntryType::Directory, "d"));
    assert!(matches_type(&EntryType::Symlink, "link"));
    assert!(matches_type(&EntryType::HardLink, "l"));
    assert!(matches_type(&EntryType::Symlink, "SymLink"));
    assert!(!matches_type(&EntryType::HardLink, "symlink"));
    assert!(matches_type(&EntryType::HardLink, "hardlink"));
    assert!(matches_type(&EntryType::Fifo, "all"));
    assert!(matches_type(&EntryType::PaxHeader, ""));
    assert!(!matches_type(&EntryType::Regular, "files"));
}

#[test]
fn select_entries_keeps_order() {
    let entries = vec![
        make_entry("a", EntryType::Regular),
        make_entry("b/", EntryType::Directory),
        make_entry("c", EntryType::Regular),
        make_entry("l", EntryType::Symlink),
    ];
    let kept = select_entries(entries, "File");
    let names: Vec<&str> = kept.iter().map(|e| e.header.name.as_str()).collect();
    assert_eq!(names, vec!["a", "c"]);
}

#[test]
fn select_entries_none_and_all() {
    let entries = vec![make_entry("a", EntryType::Regular), make_entry("b", EntryType::Fifo)];
    assert!(select_entries(entries, "dir").is_empty());
    let entries = vec![make_entry("a", EntryType::Regular), make_entry("b", EntryType::Fifo)];
    assert_eq!(select_entries(entries, "all").len(), 2);
}

#[test]
fn select_lowered_takes_filter_as_given() {
    let entries = vec![
        make_entry("a", EntryType::Regular),
        make_entry("d/", EntryType::Directory),
        make_entry("h", EntryType::HardLink),
        make_entry("s", EntryType::Symlink),
    ];
    let kept = select_lowered(entries, "link");
    let names: Vec<&str> = kept.iter().map(|e| e.header.name.as_str()).collect();
    assert_eq!(names, vec!["h", "s"]);
    let entries = vec![make_entry("a", EntryType::Regular), make_entry("d/", EntryType::Directory)];
    assert!(select_lowered(entries, "DIR").is_empty());
}
