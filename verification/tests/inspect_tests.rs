use tarlens::header::{compute_checksum, BLOCK_SIZE};
use tarlens::inspect::{inspect_entry, inspect_entry_checked, truncate, InspectError};
use tarlens::reader::RawBlock;

fn make_test_block() -> [u8; BLOCK_SIZE] {
    let mut block = [0u8; BLOCK_SIZE];
    block[..8].copy_from_slice(b"test.txt");
    let mode = format!("{:07o}", 0o644);
    block[100..100 + mode.len()].copy_from_slice(mode.as_bytes());
    let size = format!("{:011o}", 42u64);
    block[124..124 + size.len()].copy_from_slice(size.as_bytes());
    block[156] = b'0';
    block[257..262].copy_from_slice(b"ustar");
    block[262] = 0;
    block[263] = b'0';
    block[264] = b'0';
    let checksum = compute_checksum(&block);
    let cs = format!("{:07o}", checksum);
    block[148..148 + cs.len()].copy_from_slice(cs.as_bytes());
    block
}

#[test]
fn test_inspect_entry_not_found() {
    let blocks = vec![];
    let result = inspect_entry(&blocks, 0, false);
    assert!(result.is_err());
}

#[test]
fn test_inspect_valid_entry() {
    let block = make_test_block();
    let blocks = vec![RawBlock { block, offset: 0, is_header: true }];
    let result = inspect_entry(&blocks, 0, false);
    assert!(result.is_ok());
}

#[test]
fn test_inspect_with_hex() {
    let block = make_test_block();
    let blocks = vec![RawBlock { block, offset: 0, is_header: true }];
    let result = inspect_entry(&blocks, 0, true);
    assert!(result.is_ok());
}

#[test]
fn test_truncate() {
    assert_eq!(truncate("hello", 10), "hello");
    assert_eq!(truncate("hello world", 8), "hello...");
}

#[test]
fn inspect_not_found_error_values() {
    let block = make_test_block();
    let blocks = vec![RawBlock { block, offset: 0, is_header: true }];
    match inspect_entry(&blocks, 3, false) {
        Err(e @ InspectError::EntryNotFound { .. }) => {
            assert!(matches!(e, InspectError::EntryNotFound { index: 3, total: 1 }));
            assert_eq!(e.message(), "entry index 3 not found (archive has 1 entries)");
        }
        other => panic!("unexpected {:?}", other),
    }
}

#[test]
fn inspect_zero_block_is_parse_error() {
    let blocks = vec![RawBlock { block: [0u8; BLOCK_SIZE], offset: 512, is_header: true }];
    match inspect_entry(&blocks, 0, false) {
        Err(InspectError::HeaderParse(msg)) => {
            assert_eq!(msg, "end of archive");
            assert_eq!(
                InspectError::HeaderParse(msg).message(),
                "header parse error: end of archive"
            );
        }
        other => panic!("unexpected {:?}", other),
    }
}

#[test]
fn inspect_breakdown_lines() {
    let block = make_test_block();
    let blocks = vec![RawBlock { block, offset: 1024, is_header: true }];
    let text = inspect_entry(&blocks, 0, false).unwrap();
    let checksum = compute_checksum(&block);
    assert!(text.starts_with("=== Header Inspection (entry at offset 1024) ===\n\nField Breakdown:\n"));
    assert!(text.contains("        0 | name       |   100 | test.txt\n"));
    assert!(text.contains("      100 | mode       |     8 | 000644\n"));
    assert!(text.contains("      124 | size       |    12 | 42 (42B bytes)\n"));
    assert!(text.contains(&format!("      148 | checksum   |     8 | {} (VALID)\n", checksum)));
    assert!(text.contains("      156 | typeflag   |     1 | '0' (regular file)\n"));
    assert!(text.contains("      157 | linkname   |   100 | (none)\n"));
    assert!(text.contains("      257 | magic      |     6 | \"ustar\\0\"\n"));
    assert!(text.contains("      263 | version    |     2 | \"00\"\n"));
    assert!(text.contains(&format!("  Computed checksum: {}\n", checksum)));
    assert!(text.contains("  Match: YES\n"));
    assert!(text.contains("Format: Ustar\n"));
    assert!(text.contains("Permissions: -rw-r--r--\n"));
    assert!(!text.contains("Hex Dump"));
    assert!(!text.contains("PAX Extended Records"));
}

#[test]
fn inspect_hex_dump_rows() {
    let block = make_test_block();
    let blocks = vec![RawBlock { block, offset: 0, is_header: true }];
    let text = inspect_entry(&blocks, 0, true).unwrap();
    assert!(text.contains("\nHex Dump (512 bytes):\n\n"));
    assert!(text.contains(
        "  0000  74 65 73 74 2e 74 78 74  00 00 00 00 00 00 00 00  |test.txt........|\n"
    ));
    assert!(text.contains(
        "  01f0  00 00 00 00 00 00 00 00  00 00 00 00 00 00 00 00  |................|\n"
    ));
    assert!(text.ends_with("|................|\n"));
    assert_eq!(text.matches("\n  0").count(), 32);
}

#[test]
fn truncate_keeps_short_and_cuts_at_boundary() {
    assert_eq!(truncate("", 0), "");
    assert_eq!(truncate("abcdef", 6), "abcdef");
    assert_eq!(truncate("abcdefg", 6), "abc...");
    assert_eq!(truncate("ééé", 5), "é...");
}

#[test]
fn inspect_checked_refuses_cut_inside_character() {
    let mut block = [0u8; BLOCK_SIZE];
    let name = "a".repeat(56) + "ééé";
    block[..name.len()].copy_from_slice(name.as_bytes());
    block[100..107].copy_from_slice(b"0000644");
    block[156] = b'0';
    let blocks = vec![RawBlock { block, offset: 0, is_header: true }];
    assert!(inspect_entry_checked(&blocks, 0, false).is_none());
    let ok = make_test_block();
    let blocks = vec![RawBlock { block: ok, offset: 0, is_header: true }];
    assert!(inspect_entry_checked(&blocks, 0, false).is_some());
    assert!(matches!(
        inspect_entry_checked(&blocks, 5, false),
        Some(Err(InspectError::EntryNotFound { index: 5, total: 1 }))
    ));
}

#[test]
fn inspect_magic_with_invalid_utf8() {
    let mut block = make_test_block();
    block[257] = 0xff;
    block[148..156].copy_from_slice(b"        ");
    let checksum = compute_checksum(&block);
    let cs = format!("{:07o}", checksum);
    block[148..148 + cs.len()].copy_from_slice(cs.as_bytes());
    block[155] = 0;
    let blocks = vec![RawBlock { block, offset: 0, is_header: true }];
    let text = inspect_entry(&blocks, 0, false).unwrap();
    assert!(text.contains("      257 | magic      |     6 | \"\u{fffd}star\\0\"\n"));
    assert!(text.contains("Format: V7\n"));
}

#[test]
fn truncate_result_fits_limit() {
    let s = "αβγδεζηθικλμνξοπρστυφχψω".repeat(3);
    for max in [3usize, 5, 7, 9, 11, 21, 61] {
        if s.len() <= max || s.is_char_boundary(max - 3) {
            let t = truncate(&s, max);
            assert!(t.len() <= max);
            if s.len() > max {
                assert!(t.ends_with("..."));
                assert!(s.starts_with(&t[..t.len() - 3]));
            }
        }
    }
}

#[test]
fn inspect_checksum_lines_on_bad_checksum() {
    let mut block = make_test_block();
    // overwrite the stored checksum with a wrong value
    block[148..156].copy_from_slice(b"0000001\0");
    let computed = compute_checksum(&block);
    let blocks = vec![RawBlock { block, offset: 512, is_header: true }];
    let text = inspect_entry(&blocks, 0, false).unwrap();
    assert!(text.starts_with("=== Header Inspection (entry at offset 512) ===\n"));
    assert!(text.contains(&format!("  Computed checksum: {}\n", computed)));
    assert!(text.contains(&format!("  Stored checksum:   {}\n", computed)));
    assert!(text.contains("  Match: NO\n"));
}
