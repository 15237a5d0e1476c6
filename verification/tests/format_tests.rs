use tarlens::header::{
    compute_checksum, parse_pax_records, EntryType, HeaderError, PaxRecord, TarFormat, TarHeader,
    BLOCK_SIZE,
};
use tarlens::reader::{read_archive_checked, read_archive_from, read_raw_blocks_checked, ReaderError};

fn write_field(block: &mut [u8; BLOCK_SIZE], at: usize, bytes: &[u8]) {
    block[at..at + bytes.len()].copy_from_slice(bytes);
}

fn seal(block: &mut [u8; BLOCK_SIZE]) {
    let checksum = compute_checksum(block);
    let cs = format!("{:07o}", checksum);
    block[148..155].copy_from_slice(cs.as_bytes());
    block[155] = 0;
}

fn ustar_block(name: &str, size: u64, typeflag: u8) -> [u8; BLOCK_SIZE] {
    let mut block = [0u8; BLOCK_SIZE];
    write_field(&mut block, 0, name.as_bytes());
    write_field(&mut block, 100, b"0000644\0");
    write_field(&mut block, 108, b"0001750\0");
    write_field(&mut block, 116, b"0001750\0");
    write_field(&mut block, 124, format!("{:011o}\0", size).as_bytes());
    write_field(&mut block, 136, b"14631514600\0");
    block[156] = typeflag;
    write_field(&mut block, 257, b"ustar\0");
    write_field(&mut block, 263, b"00");
    seal(&mut block);
    block
}

fn with_content(block: [u8; BLOCK_SIZE], content: &[u8]) -> Vec<u8> {
    let mut data = block.to_vec();
    data.extend_from_slice(content);
    let padding = (BLOCK_SIZE - content.len() % BLOCK_SIZE) % BLOCK_SIZE;
    data.extend(std::iter::repeat_n(0u8, padding));
    data
}

// ---------------------------------------------------------------------------
// Header fields and errors
// ---------------------------------------------------------------------------

#[test]
fn header_invalid_octal_mode() {
    let mut block = ustar_block("f", 0, b'0');
    write_field(&mut block, 100, b"0000x44\0");
    seal(&mut block);
    let err = TarHeader::parse(&block).unwrap_err();
    assert_eq!(err, HeaderError::InvalidOctal { field: "octal", value: "0000x44".to_string() });
    assert_eq!(err.message(), "invalid octal in octal: \"0000x44\"");
}

#[test]
fn header_octal_field_not_utf8() {
    let mut block = ustar_block("f", 0, b'0');
    write_field(&mut block, 100, &[0xff, 0x31, 0, 0, 0, 0, 0, 0]);
    seal(&mut block);
    let err = TarHeader::parse(&block).unwrap_err();
    assert_eq!(err, HeaderError::InvalidOctal { field: "octal", value: "[255, 49]".to_string() });
}

#[test]
fn header_invalid_size_field() {
    let mut block = ustar_block("f", 0, b'0');
    write_field(&mut block, 124, b"00000000009\0");
    seal(&mut block);
    assert_eq!(
        TarHeader::parse(&block).unwrap_err(),
        HeaderError::InvalidOctal { field: "size", value: "00000000009".to_string() }
    );
}

#[test]
fn header_name_not_utf8() {
    let mut block = ustar_block("", 0, b'0');
    write_field(&mut block, 0, &[b'a', 0xc3]);
    seal(&mut block);
    let err = TarHeader::parse(&block).unwrap_err();
    assert_eq!(err, HeaderError::InvalidUtf8 { field: "string" });
    assert_eq!(err.message(), "invalid UTF-8 in string");
    assert_eq!(HeaderError::EndOfArchive.message(), "end of archive");
}

#[test]
fn header_prefix_joins_name() {
    let mut block = ustar_block("file.txt", 0, b'0');
    write_field(&mut block, 345, b"some/dir");
    seal(&mut block);
    let h = TarHeader::parse(&block).unwrap();
    assert_eq!(h.name, "some/dir/file.txt");
    assert_eq!(h.prefix, "some/dir");
    assert_eq!(h.mode, 0o644);
    assert_eq!(h.uid, 1000);
    assert_eq!(h.gid, 1000);
    assert_eq!(h.mtime, 1718000000);
    assert!(h.checksum_valid);
}

#[test]
fn header_name_trailing_whitespace_trimmed() {
    let block = ustar_block("name \t", 0, b'0');
    let h = TarHeader::parse(&block).unwrap();
    assert_eq!(h.name, "name");
}

#[test]
fn header_unknown_typeflag_round_trips() {
    let block = ustar_block("x", 0, b'Z');
    let h = TarHeader::parse(&block).unwrap();
    assert_eq!(h.entry_type, EntryType::Other('Z'));
    assert_eq!(h.entry_type.as_flag(), b'Z');
    assert_eq!(EntryType::from_flag(0), EntryType::Regular);
    assert_eq!(EntryType::from_flag(b'5').as_flag(), b'5');
    assert_eq!(h.entry_type.description(), "unknown");
}

#[test]
fn header_mtime_and_size_strings() {
    let mut h = TarHeader::parse(&ustar_block("x", 0, b'0')).unwrap();
    assert_eq!(h.mtime_string(), "2024-06-10 06:13:20 UTC");
    h.mtime = 0;
    assert_eq!(h.mtime_string(), "1970-01-01 00:00:00 UTC");
    h.size = 1536;
    assert_eq!(h.size_string(), "1.5K");
    h.size = 5 * 1024 * 1024 * 1024;
    assert_eq!(h.size_string(), "5.0G");
}

#[test]
fn header_apply_pax_numeric_and_unknown_keys() {
    let mut h = TarHeader::parse(&ustar_block("x", 0, b'0')).unwrap();
    let records = vec![
        PaxRecord { key: "size".to_string(), value: "4096".to_string() },
        PaxRecord { key: "uid".to_string(), value: "99999999999".to_string() },
        PaxRecord { key: "gid".to_string(), value: "42".to_string() },
        PaxRecord { key: "mtime".to_string(), value: "12.5".to_string() },
        PaxRecord { key: "linkpath".to_string(), value: "target".to_string() },
        PaxRecord { key: "comment".to_string(), value: "hi".to_string() },
    ];
    h.apply_pax(&records);
    assert_eq!(h.size, 4096);
    assert_eq!(h.uid, 1000);
    assert_eq!(h.gid, 42);
    assert_eq!(h.mtime, 1718000000);
    assert_eq!(h.linkname, "target");
    assert_eq!(h.format, TarFormat::Pax);
    assert_eq!(h.pax_records, records);
}

#[test]
fn pax_records_errors() {
    assert_eq!(
        parse_pax_records(b"nospace").unwrap_err(),
        HeaderError::InvalidUtf8 { field: "pax length" }
    );
    assert_eq!(
        parse_pax_records(b"xx path=a\n").unwrap_err(),
        HeaderError::InvalidOctal { field: "pax length", value: "xx".to_string() }
    );
    assert_eq!(
        parse_pax_records(b"9 pathab\n").unwrap_err(),
        HeaderError::InvalidUtf8 { field: "pax key" }
    );
}

#[test]
fn pax_records_stop_at_nul_and_overlong() {
    let recs = parse_pax_records(b"11 path=ab\n\0garbage").unwrap();
    assert_eq!(recs, vec![PaxRecord { key: "path".to_string(), value: "ab".to_string() }]);
    let recs = parse_pax_records(b"11 path=ab\n99 uid=1\n").unwrap();
    assert_eq!(recs.len(), 1);
}

// ---------------------------------------------------------------------------
// Reading archives
// ---------------------------------------------------------------------------

#[test]
fn read_truncated_header() {
    let data = vec![1u8; 100];
    let err = read_archive_from(&data).unwrap_err();
    assert!(matches!(err, ReaderError::TruncatedHeader));
    assert_eq!(err.message(), "truncated header (less than 512 bytes)");
}

#[test]
fn read_truncated_content() {
    let mut data = ustar_block("f", 1000, b'0').to_vec();
    data.extend(std::iter::repeat_n(b'a', 600));
    let err = read_archive_from(&data).unwrap_err();
    assert!(matches!(err, ReaderError::TruncatedContent { expected: 1000 }));
    assert_eq!(err.message(), "truncated content (expected 1000 bytes)");
}

#[test]
fn read_header_parse_error() {
    let mut block = ustar_block("f", 0, b'0');
    write_field(&mut block, 108, b"99\0");
    seal(&mut block);
    let err = read_archive_from(&block).unwrap_err();
    match &err {
        ReaderError::HeaderParse(msg) => assert_eq!(msg, "invalid octal in octal: \"99\""),
        other => panic!("unexpected {:?}", other),
    }
    assert_eq!(err.message(), "header parse error: invalid octal in octal: \"99\"");
}

#[test]
fn read_pax_parse_error() {
    let data = with_content(ustar_block("pax", 7, b'x'), b"nospace");
    let err = read_archive_from(&data).unwrap_err();
    match &err {
        ReaderError::PaxParse(msg) => assert_eq!(msg, "invalid UTF-8 in pax length"),
        other => panic!("unexpected {:?}", other),
    }
    assert_eq!(ReaderError::Io("gone".to_string()).message(), "I/O error: gone");
}

#[test]
fn read_gnu_long_name_and_pax_apply_to_next_entry() {
    let long = "d/".repeat(60) + "file.txt";
    let mut data = with_content(ustar_block("././@LongLink", long.len() as u64 + 1, b'L'), &{
        let mut v = long.as_bytes().to_vec();
        v.push(0);
        v
    });
    data.extend(with_content(ustar_block("short", 3, b'0'), b"abc"));
    data.extend(with_content(ustar_block("pax", 11, b'x'), b"10 uid=77\n\0"));
    data.extend(with_content(ustar_block("plain", 0, b'0'), b""));
    data.extend(std::iter::repeat_n(0u8, 1024));
    let entries = read_archive_from(&data).unwrap();
    assert_eq!(entries.len(), 4);
    assert_eq!(entries[0].header.entry_type, EntryType::GnuLongName);
    assert_eq!(entries[1].header.name, long);
    assert_eq!(entries[1].header.format, TarFormat::Gnu);
    assert_eq!(entries[1].content, b"abc".to_vec());
    assert_eq!(entries[1].offset, 1024);
    assert_eq!(entries[3].header.uid, 77);
    assert_eq!(entries[3].header.format, TarFormat::Pax);
}

#[test]
fn read_archive_checked_agrees_with_read() {
    let data = with_content(ustar_block("a", 2, b'0'), b"hi");
    match read_archive_checked(&data) {
        Some(Ok(entries)) => {
            assert_eq!(entries.len(), 1);
            assert_eq!(entries[0].content, b"hi".to_vec());
        }
        other => panic!("unexpected {:?}", other.map(|r| r.map(|v| v.len()))),
    }
}

#[test]
fn raw_blocks_skip_content() {
    let mut data = with_content(ustar_block("a", 600, b'0'), &[7u8; 600]);
    data.extend(with_content(ustar_block("b", 0, b'5'), b""));
    data.extend(std::iter::repeat_n(0u8, 1024));
    let blocks = read_raw_blocks_checked(&data).unwrap();
    assert_eq!(blocks.len(), 2);
    assert_eq!(blocks[0].offset, 0);
    assert_eq!(blocks[1].offset, 1536);
    assert!(blocks[1].is_header);
}

#[test]
fn read_gnu_long_name_with_invalid_utf8() {
    let mut data = with_content(ustar_block("././@LongLink", 6, b'L'), &[b'a', 0xff, b'b', 0, 0, 0]);
    data.extend(with_content(ustar_block("short", 0, b'0'), b""));
    data.extend(std::iter::repeat_n(0u8, 1024));
    let entries = read_archive_from(&data).unwrap();
    assert_eq!(entries[1].header.name, "a\u{fffd}b");
}

#[test]
fn header_checksum_field_holds_computed_sum() {
    let mut block = ustar_block("f", 0, b'0');
    let computed = compute_checksum(&block);
    block[148..156].copy_from_slice(b"0000001\0");
    let h = TarHeader::parse(&block).unwrap();
    assert_eq!(h.checksum, computed);
    assert!(!h.checksum_valid);
    let good = ustar_block("f", 0, b'0');
    let h = TarHeader::parse(&good).unwrap();
    assert_eq!(h.checksum, compute_checksum(&good));
    assert!(h.checksum_valid);
}
