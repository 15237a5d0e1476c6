use tarlens::header::{compute_checksum, EntryType, BLOCK_SIZE};
use tarlens::reader::{read_archive_from, read_raw_blocks_from};

fn make_header_block(name: &str, size: u64, typeflag: u8) -> [u8; BLOCK_SIZE] {
    let mut block = [0u8; BLOCK_SIZE];
    let name_bytes = name.as_bytes();
    let copy_len = name_bytes.len().min(100);
    block[..copy_len].copy_from_slice(&name_bytes[..copy_len]);
    let mode = format!("{:07o}", 0o644);
    block[100..100 + mode.len()].copy_from_slice(mode.as_bytes());
    block[100 + mode.len()] = 0;
    let uid = format!("{:07o}", 1000);
    block[108..108 + uid.len()].copy_from_slice(uid.as_bytes());
    block[108 + uid.len()] = 0;
    let gid = format!("{:07o}", 1000);
    block[116..116 + gid.len()].copy_from_slice(gid.as_bytes());
    block[116 + gid.len()] = 0;
    let size_s = format!("{:011o}", size);
    block[124..124 + size_s.len()].copy_from_slice(size_s.as_bytes());
    block[124 + size_s.len()] = 0;
    let mtime = format!("{:011o}", 1718000000u64);
    block[136..136 + mtime.len()].copy_from_slice(mtime.as_bytes());
    block[136 + mtime.len()] = 0;
    block[156] = typeflag;
    block[257..262].copy_from_slice(b"ustar");
    block[262] = 0;
    block[263] = b'0';
    block[264] = b'0';
    let checksum = compute_checksum(&block);
    let cs = format!("{:07o}", checksum);
    block[148..148 + cs.len()].copy_from_slice(cs.as_bytes());
    block[148 + cs.len()] = 0;
    block
}

fn make_archive(entries: &[(&str, &[u8], u8)]) -> Vec<u8> {
    let mut data = Vec::new();
    for (name, content, typeflag) in entries {
        let block = make_header_block(name, content.len() as u64, *typeflag);
        data.extend_from_slice(&block);
        if !content.is_empty() {
            data.extend_from_slice(content);
            let padding = (BLOCK_SIZE - (content.len() % BLOCK_SIZE)) % BLOCK_SIZE;
            data.extend(std::iter::repeat_n(0u8, padding));
        }
    }
    data.extend(std::iter::repeat_n(0u8, BLOCK_SIZE * 2));
    data
}

#[test]
fn test_read_empty_archive() {
    let data = vec![0u8; BLOCK_SIZE * 2];
    let entries = read_archive_from(&data).unwrap();
    assert!(entries.is_empty());
}

#[test]
fn test_read_single_file() {
    let content = b"Hello, World!";
    let data = make_archive(&[("test.txt", content, b'0')]);
    let entries = read_archive_from(&data).unwrap();
    assert_eq!(entries.len(), 1);
    assert_eq!(entries[0].header.name, "test.txt");
    assert_eq!(entries[0].header.size, 13);
    assert_eq!(entries[0].content, content);
    assert!(entries[0].header.entry_type.is_regular());
}

#[test]
fn test_read_multiple_files() {
    let data = make_archive(&[
        ("file1.txt", b"content1", b'0'),
        ("file2.txt", b"content2 is longer", b'0'),
        ("dir/", b"", b'5'),
    ]);
    let entries = read_archive_from(&data).unwrap();
    assert_eq!(entries.len(), 3);
    assert_eq!(entries[0].header.name, "file1.txt");
    assert_eq!(entries[1].header.name, "file2.txt");
    assert_eq!(entries[2].header.name, "dir/");
    assert!(entries[2].header.entry_type.is_directory());
}

#[test]
fn test_read_large_file() {
    let content = vec![b'A'; 600];
    let data = make_archive(&[("large.bin", &content, b'0')]);
    let entries = read_archive_from(&data).unwrap();
    assert_eq!(entries.len(), 1);
    assert_eq!(entries[0].header.size, 600);
    assert_eq!(entries[0].content.len(), 600);
    assert!(entries[0].content.iter().all(|&b| b == b'A'));
}

#[test]
fn test_read_symlink() {
    let data = make_archive(&[("link.txt", b"", b'2')]);
    let entries = read_archive_from(&data).unwrap();
    assert_eq!(entries[0].header.entry_type, EntryType::Symlink);
    assert_eq!(entries[0].content.len(), 0);
}

#[test]
fn test_read_raw_blocks() {
    let content = b"test content";
    let data = make_archive(&[("test.txt", content, b'0')]);
    let blocks = read_raw_blocks_from(&data);
    assert_eq!(blocks.len(), 1);
    assert_eq!(blocks[0].offset, 0);
}

#[test]
fn read_then_verify_finds_no_size_mismatch() {
    let data = make_archive(&[
        ("a.txt", b"hello world", b'0'),
        ("dir/", b"", b'5'),
        ("b.bin", &[1u8; 700], b'0'),
    ]);
    let entries = read_archive_from(&data).unwrap();
    for e in &entries {
        if e.header.entry_type.is_regular() {
            assert_eq!(e.content.len() as u64, e.header.size);
        }
    }
    let report = tarlens::verify::verify_archive(&entries);
    assert!(!report.issues.iter().any(|i| i.message.starts_with("content size mismatch")));
}
