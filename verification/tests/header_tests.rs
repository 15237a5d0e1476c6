use tarlens::header::{
    compute_checksum, days_to_ymd, parse_pax_records, EntryType, HeaderError, PaxRecord,
    TarFormat, TarHeader, BLOCK_SIZE,
};

fn make_zero_block() -> [u8; BLOCK_SIZE] {
    [0u8; BLOCK_SIZE]
}

fn make_simple_header(name: &str, size: u64, typeflag: u8) -> [u8; BLOCK_SIZE] {
    let mut block = [0u8; BLOCK_SIZE];
    let name_bytes = name.as_bytes();
    let copy_len = name_bytes.len().min(100);
    block[..copy_len].copy_from_slice(&name_bytes[..copy_len]);
    write_octal(&mut block[100..108], 0o644);
    write_octal(&mut block[108..116], 1000);
    write_octal(&mut block[116..124], 1000);
    write_octal(&mut block[124..136], size);
    write_octal(&mut block[136..148], 1718000000);
    block[156] = typeflag;
    block[257..262].copy_from_slice(b"ustar");
    block[262] = 0;
    block[263] = b'0';
    block[264] = b'0';
    let checksum = compute_checksum(&block);
    write_octal(&mut block[148..155], checksum as u64);
    block[155] = 0;
    block
}

fn write_octal(field: &mut [u8], value: u64) {
    let width = field.len() - 1;
    let s = format!("{:0width$o}", value, width = width);
    let len = s.len().min(width);
    field[..len].copy_from_slice(&s.as_bytes()[..len]);
    field[len] = 0;
}

#[test]
fn test_end_of_archive() {
    let block = make_zero_block();
    let result = TarHeader::parse(&block);
    assert_eq!(result.unwrap_err(), HeaderError::EndOfArchive);
}

#[test]
fn test_simple_regular_file() {
    let block = make_simple_header("test.txt", 42, b'0');
    let header = TarHeader::parse(&block).unwrap();
    assert_eq!(header.name, "test.txt");
    assert_eq!(header.mode, 0o644);
    assert_eq!(header.uid, 1000);
    assert_eq!(header.gid, 1000);
    assert_eq!(header.size, 42);
    assert_eq!(header.entry_type, EntryType::Regular);
    assert!(header.entry_type.is_regular());
    assert!(header.checksum_valid);
    assert_eq!(header.format, TarFormat::Ustar);
}

#[test]
fn test_directory() {
    let block = make_simple_header("mydir/", 0, b'5');
    let header = TarHeader::parse(&block).unwrap();
    assert_eq!(header.name, "mydir/");
    assert_eq!(header.entry_type, EntryType::Directory);
    assert!(header.entry_type.is_directory());
    assert_eq!(header.size, 0);
}

#[test]
fn test_symlink() {
    let mut block = make_simple_header("link.txt", 0, b'2');
    let linkname = b"target.txt";
    block[157..157 + linkname.len()].copy_from_slice(linkname);
    let header = TarHeader::parse(&block).unwrap();
    assert_eq!(header.entry_type, EntryType::Symlink);
    assert!(header.entry_type.is_link());
    assert_eq!(header.linkname, "target.txt");
}

#[test]
fn test_v7_format() {
    let mut block = make_simple_header("old.txt", 10, b'0');
    for b in &mut block[257..265] {
        *b = 0;
    }
    let checksum = compute_checksum(&block);
    write_octal(&mut block[148..155], checksum as u64);
    block[155] = 0;
    let header = TarHeader::parse(&block).unwrap();
    assert_eq!(header.format, TarFormat::V7);
    assert!(header.uname.is_empty());
    assert!(header.gname.is_empty());
}

#[test]
fn test_gnu_format() {
    let mut block = make_simple_header("gnu.txt", 10, b'0');
    block[257..263].copy_from_slice(b"ustar ");
    block[263] = b' ';
    block[264] = 0;
    let checksum = compute_checksum(&block);
    write_octal(&mut block[148..155], checksum as u64);
    block[155] = 0;
    let header = TarHeader::parse(&block).unwrap();
    assert_eq!(header.format, TarFormat::Gnu);
}

#[test]
fn test_base256_size() {
    let mut block = make_simple_header("big.bin", 0, b'0');
    for b in &mut block[124..136] {
        *b = 0;
    }
    block[124] = 0x80;
    block[131] = 0x02;
    let checksum = compute_checksum(&block);
    write_octal(&mut block[148..155], checksum as u64);
    block[155] = 0;
    let header = TarHeader::parse(&block).unwrap();
    assert_eq!(header.size, 0x200000000);
}

#[test]
fn test_checksum_verification() {
    let block = make_simple_header("test.txt", 42, b'0');
    let header = TarHeader::parse(&block).unwrap();
    assert!(header.checksum_valid);
}

#[test]
fn test_invalid_checksum() {
    let mut block = make_simple_header("test.txt", 42, b'0');
    block[148] = b'7';
    block[149] = b'7';
    block[150] = b'7';
    let header = TarHeader::parse(&block).unwrap();
    assert!(!header.checksum_valid);
}

#[test]
fn test_permissions() {
    let block = make_simple_header("test.txt", 0, b'0');
    let header = TarHeader::parse(&block).unwrap();
    assert_eq!(header.permissions(), "-rw-r--r--");
}

#[test]
fn test_permissions_directory() {
    let block = make_simple_header("dir/", 0, b'5');
    let header = TarHeader::parse(&block).unwrap();
    assert_eq!(header.permissions(), "drw-r--r--");
}

#[test]
fn test_pax_records_parsing() {
    let data = b"12 path=foo\n10 uid=42\n";
    let records = parse_pax_records(data).unwrap();
    assert_eq!(records.len(), 2);
    assert_eq!(records[0].key, "path");
    assert_eq!(records[0].value, "foo");
    assert_eq!(records[1].key, "uid");
    assert_eq!(records[1].value, "42");
}

#[test]
fn test_apply_pax_path() {
    let block = make_simple_header("short.txt", 10, b'0');
    let mut header = TarHeader::parse(&block).unwrap();
    let records = vec![PaxRecord {
        key: "path".to_string(),
        value: "very/long/path/that/exceeds/100/characters/and/needs/pax/extension/to/be/stored.txt"
            .to_string(),
    }];
    header.apply_pax(&records);
    assert_eq!(header.format, TarFormat::Pax);
    assert!(header.name.starts_with("very/long/path/"));
}

#[test]
fn test_size_string() {
    let block = make_simple_header("test.txt", 0, b'0');
    let header = TarHeader::parse(&block).unwrap();
    assert_eq!(header.size_string(), "0B");
}

#[test]
fn test_entry_type_description() {
    assert_eq!(EntryType::Regular.description(), "regular file");
    assert_eq!(EntryType::Directory.description(), "directory");
    assert_eq!(EntryType::Symlink.description(), "symbolic link");
    assert_eq!(EntryType::PaxHeader.description(), "PAX extended header");
}

#[test]
fn test_days_to_ymd() {
    assert_eq!(days_to_ymd(0), (1970, 1, 1));
    assert_eq!(days_to_ymd(19723), (2024, 1, 1));
    let (y, m, d) = days_to_ymd(20572);
    assert_eq!(y, 2026);
    assert_eq!(m, 4);
    assert!((27..=29).contains(&d));
}

#[test]
fn pax_records_read_back_as_written() {
    let records = vec![
        PaxRecord { key: "path".to_string(), value: "dir/é file.txt".to_string() },
        PaxRecord { key: "comment".to_string(), value: "a=b\nc".to_string() },
        PaxRecord { key: "x".to_string(), value: String::new() },
    ];
    let mut data: Vec<u8> = Vec::new();
    for r in &records {
        let body = format!(" {}={}\n", r.key, r.value);
        // the length field counts the whole record, its own digits included
        let mut len = body.len() + 1;
        while format!("{}{}", len, body).len() != len {
            len += 1;
        }
        data.extend_from_slice(format!("{}{}", len, body).as_bytes());
    }
    data.extend_from_slice(&[0u8; 7]);
    assert_eq!(parse_pax_records(&data).unwrap(), records);
}
