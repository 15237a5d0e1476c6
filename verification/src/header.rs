//! Tar header parsing: the 512-byte block format (V7, USTAR, PAX, GNU).

use vstd::prelude::*;
use vstd::utf8::*;
use crate::calendar::civil_from_days;
pub use crate::calendar::days_to_ymd;
use crate::text::{
    chars_of, dec, decode_utf8_string, lemma_encode_concat, parse_radix, push_ascii, push_dec,
    spec_from_str_radix, str_eq, string_from_encoded, TextBuf, pad_left, signed_dec_padded,
    digits_value, digit_char, digit_value, is_radix_digit,
    fixed_point, nearest_f64, nearest_f64_exec, debug_str, debug_quoted, trim_chars, trim_end_chars, trim_end_string, trim_string,
};

verus! {

/// Size of a tar header block in bytes.
pub const BLOCK_SIZE: usize = 512;

/// Tar entry type flags.
#[derive(Debug, Clone, Copy, PartialEq, Eq, Structural)]
pub enum EntryType {
    Regular,
    HardLink,
    Symlink,
    CharDevice,
    BlockDevice,
    Directory,
    Fifo,
    Contiguous,
    PaxHeader,
    PaxGlobal,
    GnuLongName,
    GnuLongLink,
    GnuSparse,
    Other(char),
}

/// The entry type that a type flag byte denotes.
pub open spec fn flag_entry_type(flag: u8) -> EntryType {
    if flag == 0x30 || flag == 0 {
        EntryType::Regular
    } else if flag == 0x31 {
        EntryType::HardLink
    } else if flag == 0x32 {
        EntryType::Symlink
    } else if flag == 0x33 {
        EntryType::CharDevice
    } else if flag == 0x34 {
        EntryType::BlockDevice
    } else if flag == 0x35 {
        EntryType::Directory
    } else if flag == 0x36 {
        EntryType::Fifo
    } else if flag == 0x37 {
        EntryType::Contiguous
    } else if flag == 0x78 {
        EntryType::PaxHeader
    } else if flag == 0x67 {
        EntryType::PaxGlobal
    } else if flag == 0x4c {
        EntryType::GnuLongName
    } else if flag == 0x4b {
        EntryType::GnuLongLink
    } else if flag == 0x53 {
        EntryType::GnuSparse
    } else {
        EntryType::Other(flag as char)
    }
}

impl EntryType {
    /// The type flag byte written for this entry type.
    pub open spec fn spec_flag(self) -> u8 {
        match self {
            EntryType::Regular => 0x30,
            EntryType::HardLink => 0x31,
            EntryType::Symlink => 0x32,
            EntryType::CharDevice => 0x33,
            EntryType::BlockDevice => 0x34,
            EntryType::Directory => 0x35,
            EntryType::Fifo => 0x36,
            EntryType::Contiguous => 0x37,
            EntryType::PaxHeader => 0x78,
            EntryType::PaxGlobal => 0x67,
            EntryType::GnuLongName => 0x4c,
            EntryType::GnuLongLink => 0x4b,
            EntryType::GnuSparse => 0x53,
            EntryType::Other(c) => c as u8,
        }
    }

    pub open spec fn spec_is_regular(self) -> bool {
        self is Regular || self is Contiguous
    }

    pub open spec fn spec_is_directory(self) -> bool {
        self is Directory
    }

    pub open spec fn spec_is_link(self) -> bool {
        self is HardLink || self is Symlink
    }

    pub open spec fn spec_is_metadata(self) -> bool {
        self is PaxHeader || self is PaxGlobal || self is GnuLongName || self is GnuLongLink
            || self is GnuSparse
    }

    pub fn from_flag(flag: u8) -> (t: Self)
        ensures
            t == flag_entry_type(flag),
    {
        match flag {
            0x30 | 0 => EntryType::Regular,
            0x31 => EntryType::HardLink,
            0x32 => EntryType::Symlink,
            0x33 => EntryType::CharDevice,
            0x34 => EntryType::BlockDevice,
            0x35 => EntryType::Directory,
            0x36 => EntryType::Fifo,
            0x37 => EntryType::Contiguous,
            0x78 => EntryType::PaxHeader,
            0x67 => EntryType::PaxGlobal,
            0x4c => EntryType::GnuLongName,
            0x4b => EntryType::GnuLongLink,
            0x53 => EntryType::GnuSparse,
            other => EntryType::Other(other as char),
        }
    }

    pub fn as_flag(&self) -> (f: u8)
        ensures
            f == self.spec_flag(),
    {
        match self {
            EntryType::Regular => 0x30,
            EntryType::HardLink => 0x31,
            EntryType::Symlink => 0x32,
            EntryType::CharDevice => 0x33,
            EntryType::BlockDevice => 0x34,
            EntryType::Directory => 0x35,
            EntryType::Fifo => 0x36,
            EntryType::Contiguous => 0x37,
            EntryType::PaxHeader => 0x78,
            EntryType::PaxGlobal => 0x67,
            EntryType::GnuLongName => 0x4c,
            EntryType::GnuLongLink => 0x4b,
            EntryType::GnuSparse => 0x53,
            EntryType::Other(c) => *c as u8,
        }
    }
}

/// Reading a type flag and writing it back gives the same byte, for every flag but
/// the NUL byte, which old archives use for regular files and which reads back as `'0'`.
pub proof fn lemma_flag_roundtrip(flag: u8)
    requires
        flag != 0,
    ensures
        flag_entry_type(flag).spec_flag() == flag,
{
    assert((flag as char) as u8 == flag);
}


impl EntryType {
    /// What `description` answers, per entry type.
    pub open spec fn spec_description(self) -> Seq<char> {
        match self {
            EntryType::Regular => "regular file"@,
            EntryType::HardLink => "hard link"@,
            EntryType::Symlink => "symbolic link"@,
            EntryType::CharDevice => "character device"@,
            EntryType::BlockDevice => "block device"@,
            EntryType::Directory => "directory"@,
            EntryType::Fifo => "FIFO"@,
            EntryType::Contiguous => "contiguous file"@,
            EntryType::PaxHeader => "PAX extended header"@,
            EntryType::PaxGlobal => "PAX global header"@,
            EntryType::GnuLongName => "GNU long name"@,
            EntryType::GnuLongLink => "GNU long link"@,
            EntryType::GnuSparse => "GNU sparse file"@,
            EntryType::Other(_) => "unknown"@,
        }
    }

    pub fn is_regular(&self) -> (r: bool)
        ensures
            r == self.spec_is_regular(),
    {
        matches!(self, EntryType::Regular | EntryType::Contiguous)
    }

    pub fn is_directory(&self) -> (r: bool)
        ensures
            r == self.spec_is_directory(),
    {
        matches!(self, EntryType::Directory)
    }

    pub fn is_link(&self) -> (r: bool)
        ensures
            r == self.spec_is_link(),
    {
        matches!(self, EntryType::HardLink | EntryType::Symlink)
    }

    pub fn is_metadata(&self) -> (r: bool)
        ensures
            r == self.spec_is_metadata(),
    {
        matches!(
            self,
            EntryType::PaxHeader | EntryType::PaxGlobal | EntryType::GnuLongName
                | EntryType::GnuLongLink | EntryType::GnuSparse
        )
    }

    pub fn description(&self) -> (d: &'static str)
        ensures
            d@ == self.spec_description(),
    {
        match self {
            EntryType::Regular => "regular file",
            EntryType::HardLink => "hard link",
            EntryType::Symlink => "symbolic link",
            EntryType::CharDevice => "character device",
            EntryType::BlockDevice => "block device",
            EntryType::Directory => "directory",
            EntryType::Fifo => "FIFO",
            EntryType::Contiguous => "contiguous file",
            EntryType::PaxHeader => "PAX extended header",
            EntryType::PaxGlobal => "PAX global header",
            EntryType::GnuLongName => "GNU long name",
            EntryType::GnuLongLink => "GNU long link",
            EntryType::GnuSparse => "GNU sparse file",
            EntryType::Other(_) => "unknown",
        }
    }
}

/// Tar format variant detected from header magic bytes.
#[derive(Debug, Clone, Copy, PartialEq, Eq, Structural)]
pub enum TarFormat {
    /// Unix V7 tar (no magic field).
    V7,
    /// POSIX.1-1988 USTAR format (magic = "ustar\0").
    Ustar,
    /// GNU tar format (magic = "ustar " with space).
    Gnu,
    /// PAX POSIX.1-2001 format (USTAR header + PAX extended headers).
    Pax,
}

impl TarFormat {
    pub open spec fn spec_name(self) -> Seq<char> {
        match self {
            TarFormat::V7 => "V7"@,
            TarFormat::Ustar => "Ustar"@,
            TarFormat::Gnu => "GNU"@,
            TarFormat::Pax => "PAX"@,
        }
    }

    /// The display name of the format.
    pub fn name(&self) -> (n: &'static str)
        ensures
            n@ == self.spec_name(),
    {
        match self {
            TarFormat::V7 => "V7",
            TarFormat::Ustar => "Ustar",
            TarFormat::Gnu => "GNU",
            TarFormat::Pax => "PAX",
        }
    }
}

/// PAX extended header record (key-value pair).
#[derive(Debug, Clone, PartialEq, Eq)]
pub struct PaxRecord {
    pub key: String,
    pub value: String,
}

impl View for PaxRecord {
    type V = (Seq<char>, Seq<char>);

    open spec fn view(&self) -> (Seq<char>, Seq<char>) {
        (self.key@, self.value@)
    }
}

/// The records of a list, by their views.
pub open spec fn records_view(v: Seq<PaxRecord>) -> Seq<(Seq<char>, Seq<char>)> {
    v.map_values(|r: PaxRecord| r@)
}

/// Errors that can occur during header parsing.
#[derive(Debug, Clone, PartialEq, Eq)]
pub enum HeaderError {
    /// End of archive (zero block encountered).
    EndOfArchive,
    /// Invalid octal number in a numeric field.
    InvalidOctal { field: &'static str, value: String },
    /// Invalid UTF-8 in a string field.
    InvalidUtf8 { field: &'static str },
}

/// A header error as plain values.
pub enum HeaderFault {
    EndOfArchive,
    InvalidOctal { field: Seq<char>, value: Seq<char> },
    InvalidUtf8 { field: Seq<char> },
}

impl View for HeaderError {
    type V = HeaderFault;

    open spec fn view(&self) -> HeaderFault {
        match self {
            HeaderError::EndOfArchive => HeaderFault::EndOfArchive,
            HeaderError::InvalidOctal { field, value } => HeaderFault::InvalidOctal {
                field: field@,
                value: value@,
            },
            HeaderError::InvalidUtf8 { field } => HeaderFault::InvalidUtf8 { field: field@ },
        }
    }
}

// ---------------------------------------------------------------------------
// Field decoding
// ---------------------------------------------------------------------------

/// The index of the first byte at or after `i` that ends a field: a NUL byte, or
/// also a space when `space` holds; the length of `s` where there is none.
pub open spec fn field_end_from(s: Seq<u8>, i: nat, space: bool) -> nat
    decreases s.len() - i,
{
    if i >= s.len() {
        s.len()
    } else if s[i as int] == 0 || (space && s[i as int] == 0x20) {
        i
    } else {
        field_end_from(s, i + 1, space)
    }
}

pub open spec fn field_end(s: Seq<u8>, space: bool) -> nat {
    field_end_from(s, 0, space)
}

proof fn lemma_field_end_bound(s: Seq<u8>, i: nat, space: bool)
    ensures
        field_end_from(s, i, space) <= s.len(),
        i <= s.len() ==> i <= field_end_from(s, i, space),
    decreases s.len() - i,
{
    if i < s.len() && !(s[i as int] == 0 || (space && s[i as int] == 0x20)) {
        lemma_field_end_bound(s, i + 1, space);
    }
}

fn find_field_end(data: &[u8], space: bool) -> (e: usize)
    ensures
        e == field_end(data@, space),
        e <= data@.len(),
{
    let mut i: usize = 0;
    while i < data.len() && !(data[i] == 0 || (space && data[i] == 0x20))
        invariant
            i <= data@.len(),
            field_end(data@, space) == field_end_from(data@, i as nat, space),
        decreases data.len() - i,
    {
        i = i + 1;
    }
    proof {
        lemma_field_end_bound(data@, i as nat, space);
    }
    i
}

/// The text of a NUL-terminated string field: the bytes before the first NUL,
/// decoded as UTF-8 and without trailing whitespace; `None` where they are not UTF-8.
pub open spec fn spec_cstr(data: Seq<u8>) -> Option<Seq<char>> {
    let t = data.take(field_end(data, false) as int);
    if valid_utf8(t) {
        Some(trim_end_chars(decode_utf8(t)))
    } else {
        None
    }
}

/// Parse a null-terminated string from a byte slice.
fn parse_cstr(data: &[u8]) -> (r: Result<String, HeaderError>)
    ensures
        match r {
            Ok(s) => spec_cstr(data@) == Some(s@),
            Err(e) => spec_cstr(data@) is None && e@ == (HeaderFault::InvalidUtf8 {
                field: "string"@,
            }),
        },
{
    let end = find_field_end(data, false);
    let t = &data[0..end];
    assert(t@ =~= data@.take(end as int));
    match decode_utf8_string(t) {
        Some(s) => Ok(trim_end_string(s.as_str())),
        None => Err(HeaderError::InvalidUtf8 { field: "string" }),
    }
}

/// The items of the `Debug` text of a byte slice: the decimal values, comma separated.
pub open spec fn byte_items(t: Seq<u8>) -> Seq<char>
    decreases t.len(),
{
    if t.len() == 0 {
        seq![]
    } else if t.len() == 1 {
        dec(t[0] as nat)
    } else {
        byte_items(t.drop_last()) + seq![',', ' '] + dec(t.last() as nat)
    }
}

/// The `Debug` text of a byte slice, such as `[1, 2, 255]`.
pub open spec fn debug_byte_list(t: Seq<u8>) -> Seq<char> {
    seq!['['] + byte_items(t) + seq![']']
}

fn debug_byte_list_string(t: &[u8]) -> (s: String)
    ensures
        s@ == debug_byte_list(t@),
{
    let mut out: Vec<u8> = Vec::new();
    push_ascii(&mut out, '[');
    assert(seq!['['] + byte_items(t@.take(0)) =~= seq!['[']);
    for i in 0..t.len()
        invariant
            out@ == encode_utf8(seq!['['] + byte_items(t@.take(i as int))),
    {
        let ghost before = seq!['['] + byte_items(t@.take(i as int));
        assert(t@.take(i + 1).drop_last() =~= t@.take(i as int));
        if i > 0 {
            push_ascii(&mut out, ',');
            push_ascii(&mut out, ' ');
            push_dec(&mut out, t[i] as u64);
            proof {
                lemma_encode_concat(before, seq![',']);
                lemma_encode_concat(before + seq![','], seq![' ']);
                lemma_encode_concat(before + seq![','] + seq![' '], dec(t@[i as int] as nat));
                assert(before + seq![','] + seq![' '] + dec(t@[i as int] as nat) =~= seq!['[']
                    + byte_items(t@.take(i + 1)));
            }
        } else {
            push_dec(&mut out, t[i] as u64);
            proof {
                lemma_encode_concat(before, dec(t@[i as int] as nat));
                assert(before + dec(t@[i as int] as nat) =~= seq!['['] + byte_items(
                    t@.take(i + 1),
                ));
            }
        }
    }
    let ghost body = seq!['['] + byte_items(t@.take(t@.len() as int));
    push_ascii(&mut out, ']');
    proof {
        lemma_encode_concat(body, seq![']']);
        assert(t@.take(t@.len() as int) =~= t@);
    }
    string_from_encoded(&out, Ghost(debug_byte_list(t@)))
}

/// A numeric field read as octal text: the bytes before the first NUL or space,
/// decoded as UTF-8 and trimmed of whitespace; empty text reads as 0. On failure, the
/// text the error reports: the `Debug` list of the bytes when they are not UTF-8, or
/// the trimmed text when it is no octal number up to `max`.
pub open spec fn spec_octal_field(data: Seq<u8>, max: nat) -> Result<nat, Seq<char>> {
    let t = data.take(field_end(data, true) as int);
    if !valid_utf8(t) {
        Err(debug_byte_list(t))
    } else {
        let s = trim_chars(decode_utf8(t));
        if s.len() == 0 {
            Ok(0)
        } else {
            match spec_from_str_radix(s, 8, max) {
                Some(v) => Ok(v),
                None => Err(s),
            }
        }
    }
}

/// Reads an octal field; `Err` carries the text that the error reports.
fn octal_field(data: &[u8], max: u64) -> (r: Result<u64, String>)
    ensures
        match r {
            Ok(v) => spec_octal_field(data@, max as nat) == Ok::<nat, Seq<char>>(v as nat),
            Err(s) => spec_octal_field(data@, max as nat) == Err::<nat, Seq<char>>(s@),
        },
{
    let end = find_field_end(data, true);
    let t = &data[0..end];
    assert(t@ =~= data@.take(end as int));
    match decode_utf8_string(t) {
        None => Err(debug_byte_list_string(t)),
        Some(s) => {
            let trimmed = trim_string(s.as_str());
            let c = chars_of(trimmed.as_str());
            if c.len() == 0 {
                Ok(0)
            } else {
                match parse_radix(&c, 8, max) {
                    Some(v) => Ok(v),
                    None => Err(trimmed),
                }
            }
        },
    }
}

pub open spec fn octal_fault(value: Seq<char>) -> HeaderFault {
    HeaderFault::InvalidOctal { field: "octal"@, value }
}

pub open spec fn size_fault(value: Seq<char>) -> HeaderFault {
    HeaderFault::InvalidOctal { field: "size"@, value }
}

/// Parse an octal number from a tar field.
fn parse_octal(data: &[u8]) -> (r: Result<u32, HeaderError>)
    ensures
        match r {
            Ok(v) => spec_octal_field(data@, 0xffff_ffff) == Ok::<nat, Seq<char>>(v as nat),
            Err(e) => spec_octal_field(data@, 0xffff_ffff) is Err && e@ == octal_fault(
                spec_octal_field(data@, 0xffff_ffff)->Err_0,
            ),
        },
{
    match octal_field(data, 0xffff_ffff) {
        Ok(v) => Ok(v as u32),
        Err(value) => Err(HeaderError::InvalidOctal { field: "octal", value }),
    }
}

/// The big-endian value of a byte sequence.
pub open spec fn be_value(s: Seq<u8>) -> nat
    decreases s.len(),
{
    if s.len() == 0 {
        0
    } else {
        be_value(s.drop_last()) * 256 + s.last() as nat
    }
}

/// A size field in GNU base-256 form: the low 64 bits of the big-endian number whose
/// first byte has its top bit cleared.
pub open spec fn base256_value(data: Seq<u8>) -> nat {
    be_value(seq![data[0] & 0x7f] + data.subrange(1, 12)) % 0x1_0000_0000_0000_0000
}

/// A size field: base-256 when the first byte has its top bit set, else octal.
pub open spec fn spec_size_field(data: Seq<u8>) -> Result<nat, Seq<char>> {
    if data.len() > 0 && data[0] & 0x80 != 0 {
        Ok(base256_value(data))
    } else {
        spec_octal_field(data, 0xffff_ffff_ffff_ffff)
    }
}

proof fn lemma_shift_in_byte(r: u64, b: u8, x: nat)
    requires
        r as nat == x % 0x1_0000_0000_0000_0000,
    ensures
        ((r << 8u64) | (b as u64)) as nat == (x * 256 + b as nat) % 0x1_0000_0000_0000_0000,
{
    let b64 = b as u64;
    assert(((r << 8u64) | b64) as int == ((r as int) * 256 + b64 as int) % 0x1_0000_0000_0000_0000)
        by (bit_vector)
        requires
            b64 < 256,
    ;
    let m: int = 0x1_0000_0000_0000_0000;
    vstd::arithmetic::div_mod::lemma_mul_mod_noop_left(x as int, 256, m);
    vstd::arithmetic::div_mod::lemma_add_mod_noop((x as int) * 256, b as int, m);
    vstd::arithmetic::div_mod::lemma_add_mod_noop(((x as int) % m) * 256, b as int, m);
    vstd::arithmetic::div_mod::lemma_small_mod(b as nat, m as nat);
}

/// Parse a size field (12 bytes). Supports octal and GNU base-256 encoding.
fn parse_size(data: &[u8]) -> (r: Result<u64, HeaderError>)
    requires
        data@.len() == 12,
    ensures
        match r {
            Ok(v) => spec_size_field(data@) == Ok::<nat, Seq<char>>(v as nat),
            Err(e) => spec_size_field(data@) is Err && e@ == size_fault(
                spec_size_field(data@)->Err_0,
            ),
        },
{
    if data[0] & 0x80 != 0 {
        let ghost m = seq![data@[0] & 0x7f] + data@.subrange(1, 12);
        let mut result: u64 = (data[0] & 0x7f) as u64;
        assert(m.take(1) =~= seq![data@[0] & 0x7f]);
        assert(m.take(1).drop_last() =~= Seq::<u8>::empty());
        assert(be_value(m.take(1).drop_last()) == 0);
        assert(m.take(1).last() == data@[0] & 0x7f);
        assert(be_value(m.take(1)) == (data@[0] & 0x7f) as nat);
        for i in 1..12
            invariant
                data@.len() == 12,
                m == seq![data@[0] & 0x7f] + data@.subrange(1, 12),
                result as nat == be_value(m.take(i as int)) % 0x1_0000_0000_0000_0000,
        {
            let ghost prev = result;
            proof {
                lemma_shift_in_byte(result, data@[i as int], be_value(m.take(i as int)));
                assert(m.take(i + 1).drop_last() =~= m.take(i as int));
                assert(m.take(i + 1).last() == data@[i as int]);
            }
            result = (result << 8u64) | (data[i] as u64);
        }
        assert(m.take(12) =~= m);
        Ok(result)
    } else {
        match octal_field(data, 0xffff_ffff_ffff_ffff) {
            Ok(v) => Ok(v),
            Err(value) => Err(HeaderError::InvalidOctal { field: "size", value }),
        }
    }
}

/// The format that the magic field (8 bytes from offset 257) announces.
pub open spec fn spec_detect_format(m: Seq<u8>) -> TarFormat {
    let ustar = m.len() >= 6 && m[0] == 0x75 && m[1] == 0x73 && m[2] == 0x74 && m[3] == 0x61
        && m[4] == 0x72;
    if ustar && m[5] == 0 {
        TarFormat::Ustar
    } else if ustar && m.len() >= 8 && m[5] == 0x20 && m[6] == 0x20 {
        TarFormat::Gnu
    } else {
        TarFormat::V7
    }
}

/// Detect the tar format from the magic field.
fn detect_format(magic: &[u8]) -> (f: TarFormat)
    ensures
        f == spec_detect_format(magic@),
{
    let ustar = magic.len() >= 6 && magic[0] == 0x75 && magic[1] == 0x73 && magic[2] == 0x74
        && magic[3] == 0x61 && magic[4] == 0x72;
    if ustar && magic[5] == 0 {
        return TarFormat::Ustar;
    }
    if ustar && magic.len() >= 8 && magic[5] == 0x20 && magic[6] == 0x20 {
        return TarFormat::Gnu;
    }
    TarFormat::V7
}

/// The byte that the checksum counts at offset `i`: a space inside the checksum
/// field (offsets 148 to 155), the block's byte elsewhere.
pub open spec fn checksum_byte(b: Seq<u8>, i: int) -> nat {
    if 148 <= i < 156 {
        0x20
    } else {
        b[i] as nat
    }
}

/// The sum of the first `n` counted bytes.
pub open spec fn checksum_sum(b: Seq<u8>, n: int) -> nat
    decreases n,
{
    if n <= 0 {
        0
    } else {
        checksum_sum(b, n - 1) + checksum_byte(b, n - 1)
    }
}

/// The sum of the bytes of `s`.
pub open spec fn byte_sum(s: Seq<u8>) -> nat
    decreases s.len(),
{
    if s.len() == 0 {
        0
    } else {
        byte_sum(s.drop_last()) + s.last() as nat
    }
}

proof fn lemma_checksum_sum_parts(b: Seq<u8>, n: int)
    requires
        0 <= n <= b.len(),
    ensures
        n <= 148 ==> checksum_sum(b, n) == byte_sum(b.take(n)),
        148 <= n <= 156 ==> checksum_sum(b, n) == byte_sum(b.take(148)) + 0x20 * (n - 148),
        156 <= n ==> checksum_sum(b, n) == byte_sum(b.take(148)) + 0x100 + byte_sum(
            b.subrange(156, n),
        ),
    decreases n,
{
    if n > 0 {
        lemma_checksum_sum_parts(b, n - 1);
        if n <= 148 {
            assert(b.take(n).drop_last() =~= b.take(n - 1));
        } else if n > 156 {
            assert(b.subrange(156, n).drop_last() =~= b.subrange(156, n - 1));
        } else if n == 156 {
            assert(b.subrange(156, n) =~= Seq::<u8>::empty());
        }
    } else {
        assert(b.take(0) =~= Seq::<u8>::empty());
    }
}

/// The checksum of a block is the sum of all its bytes, with each of the eight
/// bytes of the checksum field (offsets 148 to 155) counted as an ASCII space, that
/// is, the bytes before the field, plus 256, plus the bytes after it.
pub proof fn lemma_checksum_counts_field_as_spaces(b: Seq<u8>)
    requires
        b.len() == 512,
    ensures
        checksum_sum(b, 512) == byte_sum(b.take(148)) + 8 * 0x20 + byte_sum(b.skip(156)),
        b.subrange(148, 156) == seq![0x20u8, 0x20u8, 0x20u8, 0x20u8, 0x20u8, 0x20u8, 0x20u8, 0x20u8]
            ==> checksum_sum(b, 512) == byte_sum(b),
{
    lemma_checksum_sum_parts(b, 512);
    assert(b.subrange(156, 512) =~= b.skip(156));
    if b.subrange(148, 156) == seq![0x20u8, 0x20u8, 0x20u8, 0x20u8, 0x20u8, 0x20u8, 0x20u8, 0x20u8] {
        lemma_byte_sum_split(b, 156);
        lemma_byte_sum_split(b.take(156), 148);
        assert(b.take(156).take(148) =~= b.take(148));
        assert(b.take(156).skip(148) =~= b.subrange(148, 156));
        reveal_with_fuel(byte_sum, 9);
        assert(byte_sum(b.subrange(148, 156)) == 0x100);
    }
}

proof fn lemma_byte_sum_split(s: Seq<u8>, k: int)
    requires
        0 <= k <= s.len(),
    ensures
        byte_sum(s) == byte_sum(s.take(k)) + byte_sum(s.skip(k)),
    decreases s.len(),
{
    if s.len() > k {
        lemma_byte_sum_split(s.drop_last(), k);
        assert(s.drop_last().take(k) =~= s.take(k));
        assert(s.drop_last().skip(k) =~= s.skip(k).drop_last());
    } else {
        assert(s.take(k) =~= s);
        assert(s.skip(k) =~= Seq::<u8>::empty());
    }
}

/// Compute the tar checksum: sum of all bytes with the checksum field
/// treated as 8 spaces (0x20).
pub fn compute_checksum(block: &[u8; BLOCK_SIZE]) -> (sum: u32)
    ensures
        sum == checksum_sum(block@, 512),
{
    let mut sum: u32 = 0;
    for i in 0..512
        invariant
            block@.len() == 512,
            sum == checksum_sum(block@, i as int),
            sum <= 255 * i,
    {
        if 148 <= i && i < 156 {
            sum = sum + 0x20;
        } else {
            sum = sum + block[i] as u32;
        }
    }
    sum
}

/// The checksum does not depend on what the checksum field holds.
pub proof fn lemma_checksum_ignores_field(b1: Seq<u8>, b2: Seq<u8>, n: int)
    requires
        b1.len() == b2.len(),
        forall|i: int| 0 <= i < b1.len() && !(148 <= i < 156) ==> b1[i] == b2[i],
        n <= b1.len(),
    ensures
        checksum_sum(b1, n) == checksum_sum(b2, n),
    decreases n,
{
    if n > 0 {
        lemma_checksum_ignores_field(b1, b2, n - 1);
    }
}


// ---------------------------------------------------------------------------
// Headers
// ---------------------------------------------------------------------------

/// A parsed tar header with all fields decoded.
#[derive(Debug, Clone)]
pub struct TarHeader {
    /// File name (may be overridden by PAX or GNU long name).
    pub name: String,
    /// File mode (permission bits).
    pub mode: u32,
    /// Owner user ID.
    pub uid: u32,
    /// Owner group ID.
    pub gid: u32,
    /// File size in bytes.
    pub size: u64,
    /// Modification time (Unix timestamp).
    pub mtime: u64,
    /// Computed checksum (sum of all bytes with checksum field as spaces).
    pub checksum: u32,
    /// Entry type flag.
    pub entry_type: EntryType,
    /// Link target name (for symlinks/hardlinks).
    pub linkname: String,
    /// Detected format variant.
    pub format: TarFormat,
    /// Owner user name.
    pub uname: String,
    /// Owner group name.
    pub gname: String,
    /// Device major number.
    pub devmajor: u32,
    /// Device minor number.
    pub devminor: u32,
    /// Prefix (for long paths in USTAR format).
    pub prefix: String,
    /// PAX extended records (if any were applied).
    pub pax_records: Vec<PaxRecord>,
    /// Whether the stored checksum matches the computed one.
    pub checksum_valid: bool,
}

/// A header as plain values.
#[verifier::ext_equal]
pub struct HeaderView {
    pub name: Seq<char>,
    pub mode: u32,
    pub uid: u32,
    pub gid: u32,
    pub size: u64,
    pub mtime: u64,
    pub checksum: u32,
    pub entry_type: EntryType,
    pub linkname: Seq<char>,
    pub format: TarFormat,
    pub uname: Seq<char>,
    pub gname: Seq<char>,
    pub devmajor: u32,
    pub devminor: u32,
    pub prefix: Seq<char>,
    pub pax_records: Seq<(Seq<char>, Seq<char>)>,
    pub checksum_valid: bool,
}

impl View for TarHeader {
    type V = HeaderView;

    open spec fn view(&self) -> HeaderView {
        HeaderView {
            name: self.name@,
            mode: self.mode,
            uid: self.uid,
            gid: self.gid,
            size: self.size,
            mtime: self.mtime,
            checksum: self.checksum,
            entry_type: self.entry_type,
            linkname: self.linkname@,
            format: self.format,
            uname: self.uname@,
            gname: self.gname@,
            devmajor: self.devmajor,
            devminor: self.devminor,
            prefix: self.prefix@,
            pax_records: records_view(self.pax_records@),
            checksum_valid: self.checksum_valid,
        }
    }
}

/// A block of zero bytes only: the end-of-archive marker.
pub open spec fn is_zero_block(b: Seq<u8>) -> bool {
    forall|i: int| 0 <= i < b.len() ==> b[i] == 0
}

/// A string field that falls back to the empty string where it is not UTF-8.
pub open spec fn cstr_or_empty(data: Seq<u8>) -> Seq<char> {
    match spec_cstr(data) {
        Some(s) => s,
        None => seq![],
    }
}

/// An octal field that falls back to zero where it does not read.
pub open spec fn octal_or_zero(data: Seq<u8>) -> nat {
    match spec_octal_field(data, 0xffff_ffff) {
        Ok(v) => v,
        Err(_) => 0,
    }
}

/// The header that a 512-byte block holds, or the error of the first field, in the
/// order name, mode, uid, gid, size, mtime, linkname, that does not read. USTAR and
/// GNU headers also carry user and group names, device numbers and a path prefix,
/// which are read leniently; the prefix and name are joined with a slash. The
/// checksum is the one computed over the block, and it is valid where it equals the
/// one stored in the checksum field.
pub open spec fn spec_parse_header(b: Seq<u8>) -> Result<HeaderView, HeaderFault> {
    if is_zero_block(b) {
        Err(HeaderFault::EndOfArchive)
    } else {
        match spec_cstr(b.subrange(0, 100)) {
            None => Err(HeaderFault::InvalidUtf8 { field: "string"@ }),
            Some(name) => match spec_octal_field(b.subrange(100, 108), 0xffff_ffff) {
                Err(v) => Err(octal_fault(v)),
                Ok(mode) => match spec_octal_field(b.subrange(108, 116), 0xffff_ffff) {
                    Err(v) => Err(octal_fault(v)),
                    Ok(uid) => match spec_octal_field(b.subrange(116, 124), 0xffff_ffff) {
                        Err(v) => Err(octal_fault(v)),
                        Ok(gid) => match spec_size_field(b.subrange(124, 136)) {
                            Err(v) => Err(size_fault(v)),
                            Ok(size) => match spec_size_field(b.subrange(136, 148)) {
                                Err(v) => Err(size_fault(v)),
                                Ok(mtime) => match spec_cstr(b.subrange(157, 257)) {
                                    None => Err(HeaderFault::InvalidUtf8 { field: "string"@ }),
                                    Some(linkname) => {
                                        let stored = octal_or_zero(b.subrange(148, 156));
                                        let format = spec_detect_format(b.subrange(257, 265));
                                        let ext = format != TarFormat::V7;
                                        let prefix = if ext {
                                            cstr_or_empty(b.subrange(345, 500))
                                        } else {
                                            seq![]
                                        };
                                        Ok(
                                            HeaderView {
                                                name: if prefix.len() > 0 && name.len() > 0 {
                                                    prefix + seq!['/'] + name
                                                } else {
                                                    name
                                                },
                                                mode: mode as u32,
                                                uid: uid as u32,
                                                gid: gid as u32,
                                                size: size as u64,
                                                mtime: mtime as u64,
                                                checksum: checksum_sum(b, 512) as u32,
                                                entry_type: flag_entry_type(b[156]),
                                                linkname,
                                                format,
                                                uname: if ext {
                                                    cstr_or_empty(b.subrange(265, 297))
                                                } else {
                                                    seq![]
                                                },
                                                gname: if ext {
                                                    cstr_or_empty(b.subrange(297, 329))
                                                } else {
                                                    seq![]
                                                },
                                                devmajor: if ext {
                                                    octal_or_zero(b.subrange(329, 337)) as u32
                                                } else {
                                                    0
                                                },
                                                devminor: if ext {
                                                    octal_or_zero(b.subrange(337, 345)) as u32
                                                } else {
                                                    0
                                                },
                                                prefix,
                                                pax_records: seq![],
                                                checksum_valid: checksum_sum(b, 512) == stored,
                                            },
                                        )
                                    },
                                },
                            },
                        },
                    },
                },
            },
        }
    }
}

fn all_zero(b: &[u8]) -> (r: bool)
    ensures
        r == is_zero_block(b@),
{
    for i in 0..b.len()
        invariant
            forall|j: int| 0 <= j < i ==> b@[j] == 0,
    {
        if b[i] != 0 {
            return false;
        }
    }
    true
}

fn cstr_lenient(data: &[u8]) -> (s: String)
    ensures
        s@ == cstr_or_empty(data@),
{
    match parse_cstr(data) {
        Ok(s) => s,
        Err(_) => String::new(),
    }
}

fn octal_lenient(data: &[u8]) -> (v: u32)
    ensures
        v as nat == octal_or_zero(data@),
{
    match parse_octal(data) {
        Ok(v) => v,
        Err(_) => 0,
    }
}

impl TarHeader {
    /// Parse a 512-byte block into a TarHeader.
    ///
    /// Returns an error if the block is empty (all zeros) or a field does not read.
    pub fn parse(block: &[u8; BLOCK_SIZE]) -> (r: Result<Self, HeaderError>)
        ensures
            match r {
                Ok(h) => spec_parse_header(block@) == Ok::<HeaderView, HeaderFault>(h@),
                Err(e) => spec_parse_header(block@) == Err::<HeaderView, HeaderFault>(e@),
            },
    {
        let b: &[u8] = block.as_slice();
        if all_zero(b) {
            return Err(HeaderError::EndOfArchive);
        }
        let name = parse_cstr(&b[0..100])?;
        let mode = parse_octal(&b[100..108])?;
        let uid = parse_octal(&b[108..116])?;
        let gid = parse_octal(&b[116..124])?;
        let size = parse_size(&b[124..136])?;
        let mtime = parse_size(&b[136..148])?;
        let stored_checksum = octal_lenient(&b[148..156]);
        let typeflag = b[156];
        let entry_type = EntryType::from_flag(typeflag);
        let linkname = parse_cstr(&b[157..257])?;
        let format = detect_format(&b[257..265]);
        let ext = format != TarFormat::V7;
        let uname = if ext {
            cstr_lenient(&b[265..297])
        } else {
            String::new()
        };
        let gname = if ext {
            cstr_lenient(&b[297..329])
        } else {
            String::new()
        };
        let devmajor = if ext {
            octal_lenient(&b[329..337])
        } else {
            0
        };
        let devminor = if ext {
            octal_lenient(&b[337..345])
        } else {
            0
        };
        let prefix = if ext {
            cstr_lenient(&b[345..500])
        } else {
            String::new()
        };
        let computed_checksum = compute_checksum(block);
        let checksum_valid = computed_checksum == stored_checksum;
        let full_name = if !prefix.as_str().is_empty() && !name.as_str().is_empty() {
            let mut joined = prefix.clone();
            joined.append("/");
            joined.append(name.as_str());
            proof {
                reveal_strlit("/");
                assert(joined@ =~= prefix@ + seq!['/'] + name@);
            }
            joined
        } else {
            name
        };
        let ghost bb = block@;
        assert(b@ == bb);
        let h = TarHeader {
                name: full_name,
                mode,
                uid,
                gid,
                size,
                mtime,
                checksum: computed_checksum,
                entry_type,
                linkname,
                format,
                uname,
                gname,
                devmajor,
                devminor,
                prefix,
                pax_records: Vec::new(),
                checksum_valid,
            };
        proof {
            assert(spec_parse_header(bb) is Ok);
            assert(spec_parse_header(bb)->Ok_0 =~= h@);
        }
        Ok(h)
    }
}


/// The header after one PAX record: `path`, `linkpath`, `uname` and `gname` replace
/// their fields; `size`, `mtime` (u64) and `uid`, `gid` (u32) replace theirs where the
/// value reads as a decimal number of that type; other keys change nothing.
pub open spec fn apply_record(h: HeaderView, r: (Seq<char>, Seq<char>)) -> HeaderView {
    let k = r.0;
    let v = r.1;
    if k == "path"@ {
        HeaderView { name: v, ..h }
    } else if k == "linkpath"@ {
        HeaderView { linkname: v, ..h }
    } else if k == "size"@ {
        match spec_from_str_radix(v, 10, 0xffff_ffff_ffff_ffff) {
            Some(n) => HeaderView { size: n as u64, ..h },
            None => h,
        }
    } else if k == "uid"@ {
        match spec_from_str_radix(v, 10, 0xffff_ffff) {
            Some(n) => HeaderView { uid: n as u32, ..h },
            None => h,
        }
    } else if k == "gid"@ {
        match spec_from_str_radix(v, 10, 0xffff_ffff) {
            Some(n) => HeaderView { gid: n as u32, ..h },
            None => h,
        }
    } else if k == "uname"@ {
        HeaderView { uname: v, ..h }
    } else if k == "gname"@ {
        HeaderView { gname: v, ..h }
    } else if k == "mtime"@ {
        match spec_from_str_radix(v, 10, 0xffff_ffff_ffff_ffff) {
            Some(n) => HeaderView { mtime: n as u64, ..h },
            None => h,
        }
    } else {
        h
    }
}

/// The header after the records, applied in order.
pub open spec fn apply_records(h: HeaderView, rs: Seq<(Seq<char>, Seq<char>)>) -> HeaderView
    decreases rs.len(),
{
    if rs.len() == 0 {
        h
    } else {
        apply_record(apply_records(h, rs.drop_last()), rs.last())
    }
}

/// The header after `apply_pax`: the records applied in order and kept, and the
/// format set to PAX when there is at least one record.
pub open spec fn spec_apply_pax(h: HeaderView, rs: Seq<(Seq<char>, Seq<char>)>) -> HeaderView {
    let a = apply_records(h, rs);
    HeaderView {
        pax_records: rs,
        format: if rs.len() > 0 {
            TarFormat::Pax
        } else {
            a.format
        },
        ..a
    }
}

/// Reads a decimal number of a given maximum, as `str::parse` does for unsigned types.
pub fn parse_decimal(s: &str, max: u64) -> (r: Option<u64>)
    ensures
        r matches Some(v) ==> spec_from_str_radix(s@, 10, max as nat) == Some(v as nat),
        r is None ==> spec_from_str_radix(s@, 10, max as nat) is None,
{
    let c = chars_of(s);
    parse_radix(&c, 10, max)
}

impl TarHeader {
    fn apply_record(&mut self, record: &PaxRecord)
        ensures
            final(self)@ == apply_record(old(self)@, record@),
    {
        let key = record.key.as_str();
        let value = record.value.as_str();
        if str_eq(key, "path") {
            self.name = record.value.clone();
        } else if str_eq(key, "linkpath") {
            self.linkname = record.value.clone();
        } else if str_eq(key, "size") {
            if let Some(v) = parse_decimal(value, 0xffff_ffff_ffff_ffff) {
                self.size = v;
            }
        } else if str_eq(key, "uid") {
            if let Some(v) = parse_decimal(value, 0xffff_ffff) {
                self.uid = v as u32;
            }
        } else if str_eq(key, "gid") {
            if let Some(v) = parse_decimal(value, 0xffff_ffff) {
                self.gid = v as u32;
            }
        } else if str_eq(key, "uname") {
            self.uname = record.value.clone();
        } else if str_eq(key, "gname") {
            self.gname = record.value.clone();
        } else if str_eq(key, "mtime") {
            if let Some(v) = parse_decimal(value, 0xffff_ffff_ffff_ffff) {
                self.mtime = v;
            }
        }
        proof {
            assert(self@ =~= apply_record(old(self)@, record@));
        }
    }

    /// Apply PAX records to override header fields.
    pub fn apply_pax(&mut self, records: &[PaxRecord])
        ensures
            final(self)@ == spec_apply_pax(old(self)@, records_view(records@)),
    {
        let ghost start = self@;
        let mut kept: Vec<PaxRecord> = Vec::new();
        for i in 0..records.len()
            invariant
                self@ == apply_records(start, records_view(records@).take(i as int)),
                records_view(kept@) == records_view(records@).take(i as int),
        {
            let r = &records[i];
            self.apply_record(r);
            kept.push(PaxRecord { key: r.key.clone(), value: r.value.clone() });
            proof {
                let rv = records_view(records@);
                assert(rv.take(i + 1).drop_last() =~= rv.take(i as int));
                assert(rv.take(i + 1).last() == r@);
                assert(records_view(kept@) =~= rv.take(i + 1));
            }
        }
        proof {
            assert(records_view(records@).take(records@.len() as int) =~= records_view(records@));
        }
        self.pax_records = kept;
        if records.len() > 0 {
            self.format = TarFormat::Pax;
        }
        proof {
            assert(self@ =~= spec_apply_pax(start, records_view(records@)));
        }
    }
}


// ---------------------------------------------------------------------------
// Permissions
// ---------------------------------------------------------------------------

/// The file type character of `permissions`.
pub open spec fn perm_type_char(t: EntryType) -> char {
    match t {
        EntryType::Regular => '-',
        EntryType::Directory => 'd',
        EntryType::Symlink => 'l',
        EntryType::HardLink => 'h',
        EntryType::CharDevice => 'c',
        EntryType::BlockDevice => 'b',
        EntryType::Fifo => 'p',
        _ => '?',
    }
}

/// `c` where the bit is set, else `-`.
pub open spec fn flag_char(set: bool, c: char) -> char {
    if set {
        c
    } else {
        '-'
    }
}

/// The execute position: `x` or the lower-case special letter when the special bit
/// is also set, the upper-case letter for the special bit alone, else `-`.
pub open spec fn exec_char(x: bool, special: bool, lower: char, upper: char) -> char {
    if x {
        if special {
            lower
        } else {
            'x'
        }
    } else if special {
        upper
    } else {
        '-'
    }
}

/// The `ls`-style permission string of a mode and entry type, such as `-rw-r--r--`.
pub open spec fn spec_permissions(mode: u32, t: EntryType) -> Seq<char> {
    let m = mode & 0o7777;
    seq![
        perm_type_char(t),
        flag_char(m & 0o400 != 0, 'r'),
        flag_char(m & 0o200 != 0, 'w'),
        exec_char(m & 0o100 != 0, m & 0o4000 != 0, 's', 'S'),
        flag_char(m & 0o040 != 0, 'r'),
        flag_char(m & 0o020 != 0, 'w'),
        exec_char(m & 0o010 != 0, m & 0o2000 != 0, 's', 'S'),
        flag_char(m & 0o004 != 0, 'r'),
        flag_char(m & 0o002 != 0, 'w'),
        exec_char(m & 0o001 != 0, m & 0o1000 != 0, 't', 'T'),
    ]
}

fn flag_ch(set: bool, c: char) -> (r: char)
    ensures
        r == flag_char(set, c),
{
    if set {
        c
    } else {
        '-'
    }
}

fn exec_ch(x: bool, special: bool, lower: char, upper: char) -> (r: char)
    ensures
        r == exec_char(x, special, lower, upper),
{
    if x {
        if special {
            lower
        } else {
            'x'
        }
    } else if special {
        upper
    } else {
        '-'
    }
}

impl TarHeader {
    /// Get the permission bits as a string (e.g., "-rwxr-xr-x").
    pub fn permissions(&self) -> (p: String)
        ensures
            p@ == spec_permissions(self.mode, self.entry_type),
    {
        let mode = self.mode & 0o7777;
        let t = match self.entry_type {
            EntryType::Regular => '-',
            EntryType::Directory => 'd',
            EntryType::Symlink => 'l',
            EntryType::HardLink => 'h',
            EntryType::CharDevice => 'c',
            EntryType::BlockDevice => 'b',
            EntryType::Fifo => 'p',
            _ => '?',
        };
        let v: Vec<char> = vec![
            t,
            flag_ch(mode & 0o400 != 0, 'r'),
            flag_ch(mode & 0o200 != 0, 'w'),
            exec_ch(mode & 0o100 != 0, mode & 0o4000 != 0, 's', 'S'),
            flag_ch(mode & 0o040 != 0, 'r'),
            flag_ch(mode & 0o020 != 0, 'w'),
            exec_ch(mode & 0o010 != 0, mode & 0o2000 != 0, 's', 'S'),
            flag_ch(mode & 0o004 != 0, 'r'),
            flag_ch(mode & 0o002 != 0, 'w'),
            exec_ch(mode & 0o001 != 0, mode & 0o1000 != 0, 't', 'T'),
        ];
        assert(v@ =~= spec_permissions(self.mode, self.entry_type));
        let mut b = TextBuf::new();
        b.push_ascii_chars(v.as_slice());
        assert(b@ =~= spec_permissions(self.mode, self.entry_type));
        b.into_string()
    }
}

/// Every permission string has ten characters.
pub proof fn lemma_permissions_len(mode: u32, t: EntryType)
    ensures
        spec_permissions(mode, t).len() == 10,
{
}


/// The text of `mtime_string`: the UTC date and time of the timestamp.
pub open spec fn spec_mtime_string(mtime: u64) -> Seq<char> {
    if mtime == 0 {
        "1970-01-01 00:00:00 UTC"@
    } else {
        let date = civil_from_days((mtime / 86400) as int);
        let secs = mtime % 86400;
        signed_dec_padded(date.0, 4) + seq!['-'] + pad_left(dec(date.1 as nat), 2, '0') + seq!['-']
            + pad_left(dec(date.2 as nat), 2, '0') + seq![' '] + pad_left(dec((secs / 3600) as nat), 2, '0')
            + seq![':'] + pad_left(dec(((secs % 3600) / 60) as nat), 2, '0') + seq![':'] + pad_left(
            dec((secs % 60) as nat),
            2,
            '0',
        ) + " UTC"@
    }
}

/// The text of `size_string`: bytes below 1024, else K, M or G with one decimal.
pub open spec fn spec_size_string(size: u64) -> Seq<char> {
    if size < 1024 {
        dec(size as nat) + seq!['B']
    } else if size < 1024 * 1024 {
        fixed_point(nearest_f64(size as nat), 1024, 1) + seq!['K']
    } else if size < 1024 * 1024 * 1024 {
        fixed_point(nearest_f64(size as nat), 1024 * 1024, 1) + seq!['M']
    } else {
        fixed_point(nearest_f64(size as nat), 1024 * 1024 * 1024, 1) + seq!['G']
    }
}

impl TarHeader {
    /// Format the modification time as a human-readable string.
    pub fn mtime_string(&self) -> (s: String)
        ensures
            s@ == spec_mtime_string(self.mtime),
    {
        if self.mtime == 0 {
            return "1970-01-01 00:00:00 UTC".to_owned();
        }
        let days_since_epoch = self.mtime / 86400;
        let secs_in_day = self.mtime % 86400;
        let hour = secs_in_day / 3600;
        let min = (secs_in_day % 3600) / 60;
        let sec = secs_in_day % 60;
        let (year, month, day) = days_to_ymd(days_since_epoch as i64);
        let mut b = TextBuf::new();
        b.push_signed_padded(year, 4);
        b.push_char('-');
        b.push_padded(month as u64, 10, 2);
        b.push_char('-');
        b.push_padded(day as u64, 10, 2);
        b.push_char(' ');
        b.push_padded(hour, 10, 2);
        b.push_char(':');
        b.push_padded(min, 10, 2);
        b.push_char(':');
        b.push_padded(sec, 10, 2);
        b.push_str(" UTC");
        assert(b@ =~= spec_mtime_string(self.mtime));
        b.into_string()
    }

    /// Format the size as a human-readable string.
    pub fn size_string(&self) -> (s: String)
        ensures
            s@ == spec_size_string(self.size),
    {
        let size = self.size;
        let mut b = TextBuf::new();
        if size < 1024 {
            b.push_dec(size);
            b.push_char('B');
        } else if size < 1024 * 1024 {
            b.push_fixed(nearest_f64_exec(size), 1024, 1);
            b.push_char('K');
        } else if size < 1024 * 1024 * 1024 {
            b.push_fixed(nearest_f64_exec(size), 1024 * 1024, 1);
            b.push_char('M');
        } else {
            b.push_fixed(nearest_f64_exec(size), 1024 * 1024 * 1024, 1);
            b.push_char('G');
        }
        assert(b@ =~= spec_size_string(size));
        b.into_string()
    }
}


// ---------------------------------------------------------------------------
// PAX records
// ---------------------------------------------------------------------------

/// The index of the first `b` at or after `i` in `s`, if any.
pub open spec fn find_byte_from(s: Seq<u8>, b: u8, i: nat) -> Option<nat>
    decreases s.len() - i,
{
    if i >= s.len() {
        None
    } else if s[i as int] == b {
        Some(i)
    } else {
        find_byte_from(s, b, i + 1)
    }
}

proof fn lemma_find_byte_from(s: Seq<u8>, b: u8, i: nat)
    ensures
        find_byte_from(s, b, i) matches Some(j) ==> i <= j < s.len() && s[j as int] == b,
    decreases s.len() - i,
{
    if i < s.len() && s[i as int] != b {
        lemma_find_byte_from(s, b, i + 1);
    }
}

fn find_byte(s: &[u8], b: u8, from: usize) -> (r: Option<usize>)
    requires
        from <= s@.len(),
    ensures
        r matches Some(j) ==> find_byte_from(s@, b, from as nat) == Some(j as nat),
        r is None ==> find_byte_from(s@, b, from as nat) is None,
{
    let mut i = from;
    while i < s.len()
        invariant
            from <= i <= s@.len(),
            find_byte_from(s@, b, from as nat) == find_byte_from(s@, b, i as nat),
        decreases s.len() - i,
    {
        if s[i] == b {
            return Some(i);
        }
        i = i + 1;
    }
    None
}

/// What reading PAX records gives: the records, an error, or a stop of the program
/// (a length field so large that a position overflows, or so small that the record
/// would end before its key begins).
pub enum PaxOutcome {
    Records(Seq<(Seq<char>, Seq<char>)>),
    Fault(HeaderFault),
    Abort,
}

pub open spec fn pax_fault_utf8(field: Seq<char>) -> PaxOutcome {
    PaxOutcome::Fault(HeaderFault::InvalidUtf8 { field })
}

/// Reading PAX records `"%d %s=%s\n"` from position `pos` on: reading stops at the
/// end of the data, at a NUL or newline byte, or at a record that would reach past
/// the end; the length counts the whole record.
pub open spec fn pax_from(data: Seq<u8>, pos: nat) -> PaxOutcome
    decreases data.len() - pos,
{
    if pos >= data.len() || data[pos as int] == 0 || data[pos as int] == 0x0a {
        PaxOutcome::Records(seq![])
    } else {
        let rest = data.subrange(pos as int, data.len() as int);
        match find_byte_from(rest, 0x20, 0) {
            None => pax_fault_utf8("pax length"@),
            Some(sp) => {
                let lb = rest.take(sp as int);
                if !valid_utf8(lb) {
                    pax_fault_utf8("pax length"@)
                } else {
                    let ls = decode_utf8(lb);
                    match spec_from_str_radix(ls, 10, usize::MAX as nat) {
                        None => PaxOutcome::Fault(
                            HeaderFault::InvalidOctal { field: "pax length"@, value: ls },
                        ),
                        Some(total) => if pos + total > usize::MAX {
                            PaxOutcome::Abort
                        } else if pos + total > data.len() {
                            PaxOutcome::Records(seq![])
                        } else if total < sp + 1 {
                            PaxOutcome::Abort
                        } else {
                            let rec = data.subrange((pos + sp + 1) as int, (pos + total) as int);
                            match find_byte_from(rec, 0x3d, 0) {
                                None => pax_fault_utf8("pax key"@),
                                Some(eq) => {
                                    let kb = rec.take(eq as int);
                                    let vend: int = if rec.len() > 0 && rec.last() == 0x0a {
                                        rec.len() - 1
                                    } else {
                                        rec.len() as int
                                    };
                                    let vb = rec.subrange((eq + 1) as int, vend);
                                    if !valid_utf8(kb) {
                                        pax_fault_utf8("pax key"@)
                                    } else if !valid_utf8(vb) {
                                        pax_fault_utf8("pax value"@)
                                    } else {
                                        match pax_from(data, pos + total) {
                                            PaxOutcome::Records(r) => PaxOutcome::Records(
                                                seq![(decode_utf8(kb), decode_utf8(vb))] + r,
                                            ),
                                            other => other,
                                        }
                                    }
                                },
                            }
                        },
                    }
                }
            },
        }
    }
}

/// The outcome of reading all PAX records of `data`.
pub open spec fn pax_outcome(data: Seq<u8>) -> PaxOutcome {
    pax_from(data, 0)
}

/// `outer` once the records `done` have been read before `inner`.
pub open spec fn pax_after(done: Seq<(Seq<char>, Seq<char>)>, inner: PaxOutcome) -> PaxOutcome {
    match inner {
        PaxOutcome::Records(r) => PaxOutcome::Records(done + r),
        other => other,
    }
}

/// Parse PAX records, or `None` where the data would stop the program.
pub fn parse_pax_records_checked(data: &[u8]) -> (r: Option<Result<Vec<PaxRecord>, HeaderError>>)
    ensures
        r is None <==> pax_outcome(data@) is Abort,
        r matches Some(Ok(v)) ==> pax_outcome(data@) == PaxOutcome::Records(records_view(v@)),
        r matches Some(Err(e)) ==> pax_outcome(data@) == PaxOutcome::Fault(e@),
{
    let mut records: Vec<PaxRecord> = Vec::new();
    let mut pos: usize = 0;
    while pos < data.len()
        invariant
            pos <= data@.len(),
            pax_outcome(data@) == pax_after(records_view(records@), pax_from(data@, pos as nat)),
        ensures
            pax_from(data@, pos as nat) == PaxOutcome::Records(seq![]),
            pax_outcome(data@) == pax_after(records_view(records@), pax_from(data@, pos as nat)),
        decreases data.len() - pos,
    {
        if data[pos] == 0 || data[pos] == 0x0a {
            break ;
        }
        let ghost rest = data@.subrange(pos as int, data@.len() as int);
        let space_pos = match find_byte(data, 0x20, pos) {
            Some(j) => j,
            None => {
                proof {
                    lemma_find_shift(data@, 0x20, pos as nat);
                }
                return Some(Err(HeaderError::InvalidUtf8 { field: "pax length" }));
            },
        };
        proof {
            lemma_find_shift(data@, 0x20, pos as nat);
            lemma_find_byte_from(data@, 0x20, pos as nat);
        }
        let sp = space_pos - pos;
        let lb = &data[pos..space_pos];
        assert(lb@ =~= rest.take(sp as int));
        let length_str = match decode_utf8_string(lb) {
            Some(s) => s,
            None => {
                return Some(Err(HeaderError::InvalidUtf8 { field: "pax length" }));
            },
        };
        let total = match parse_decimal(length_str.as_str(), usize::MAX as u64) {
            Some(t) => t as usize,
            None => {
                return Some(Err(HeaderError::InvalidOctal { field: "pax length", value: length_str }));
            },
        };
        if total > usize::MAX - pos {
            return None;
        }
        if pos + total > data.len() {
            break ;
        }
        if total < sp + 1 {
            return None;
        }
        let record_data = &data[space_pos + 1..pos + total];
        let ghost rec = data@.subrange((pos + sp + 1) as int, (pos + total) as int);
        assert(record_data@ =~= rec);
        let eq_pos = match find_byte(record_data, 0x3d, 0) {
            Some(j) => j,
            None => {
                return Some(Err(HeaderError::InvalidUtf8 { field: "pax key" }));
            },
        };
        proof {
            lemma_find_byte_from(rec, 0x3d, 0);
        }
        let key_bytes = &record_data[0..eq_pos];
        assert(key_bytes@ =~= rec.take(eq_pos as int));
        let key = match decode_utf8_string(key_bytes) {
            Some(k) => k,
            None => {
                return Some(Err(HeaderError::InvalidUtf8 { field: "pax key" }));
            },
        };
        let value_end = if record_data.len() > 0 && record_data[record_data.len() - 1] == 0x0a {
            record_data.len() - 1
        } else {
            record_data.len()
        };
        let value_bytes = &record_data[eq_pos + 1..value_end];
        let value = match decode_utf8_string(value_bytes) {
            Some(v) => v,
            None => {
                return Some(Err(HeaderError::InvalidUtf8 { field: "pax value" }));
            },
        };
        let ghost before = records_view(records@);
        records.push(PaxRecord { key, value });
        proof {
            assert(records_view(records@) =~= before + seq![(key@, value@)]);
            let inner = pax_from(data@, (pos + total) as nat);
            assert(pax_from(data@, pos as nat) == pax_after(seq![(key@, value@)], inner));
            assert(pax_after(before, pax_after(seq![(key@, value@)], inner)) == pax_after(
                before + seq![(key@, value@)],
                inner,
            )) by {
                if inner is Records {
                    assert(before + (seq![(key@, value@)] + inner->Records_0) =~= before + seq![
                        (key@, value@),
                    ] + inner->Records_0);
                }
            }
        }
        pos = pos + total;
    }
    proof {
        assert(pax_from(data@, pos as nat) == PaxOutcome::Records(seq![]));
        assert(records_view(records@) + seq![] =~= records_view(records@));
    }
    Some(Ok(records))
}

proof fn lemma_find_shift(s: Seq<u8>, b: u8, pos: nat)
    requires
        pos <= s.len(),
    ensures
        match find_byte_from(s.subrange(pos as int, s.len() as int), b, 0) {
            Some(j) => find_byte_from(s, b, pos) == Some(pos + j),
            None => find_byte_from(s, b, pos) is None,
        },
{
    lemma_find_shift_from(s, b, pos, 0);
}

proof fn lemma_find_shift_from(s: Seq<u8>, b: u8, pos: nat, j: nat)
    requires
        pos + j <= s.len(),
    ensures
        match find_byte_from(s.subrange(pos as int, s.len() as int), b, j) {
            Some(k) => find_byte_from(s, b, pos + j) == Some(pos + k),
            None => find_byte_from(s, b, pos + j) is None,
        },
    decreases s.len() - (pos + j),
{
    if pos + j < s.len() {
        lemma_find_shift_from(s, b, pos, j + 1);
    }
}

/// Parse PAX extended header records from a data block.
///
/// PAX records are in the format: "%d %s=%s\n" where %d is the length
/// of the entire record (including the length field itself).
pub fn parse_pax_records(data: &[u8]) -> (r: Result<Vec<PaxRecord>, HeaderError>)
    requires
        !(pax_outcome(data@) is Abort),
    ensures
        r matches Ok(v) ==> pax_outcome(data@) == PaxOutcome::Records(records_view(v@)),
        r matches Err(e) ==> pax_outcome(data@) == PaxOutcome::Fault(e@),
{
    match parse_pax_records_checked(data) {
        Some(r) => r,
        None => Ok(Vec::new()),
    }
}


// ---------------------------------------------------------------------------
// Writing PAX records and reading them back
// ---------------------------------------------------------------------------

/// The bytes of one PAX record whose length field says `len`: the length, a space,
/// the key, `=`, the value and a newline.
pub open spec fn pax_record_bytes(len: nat, k: Seq<char>, v: Seq<char>) -> Seq<u8> {
    encode_utf8(dec(len)) + seq![0x20u8] + encode_utf8(k) + seq![0x3du8] + encode_utf8(v) + seq![
        0x0au8,
    ]
}

/// Records written one after another, each with its length field from `lens`.
pub open spec fn pax_records_bytes(rs: Seq<(Seq<char>, Seq<char>)>, lens: Seq<nat>) -> Seq<u8>
    decreases rs.len(),
{
    if rs.len() == 0 {
        seq![]
    } else {
        pax_record_bytes(lens[0], rs[0].0, rs[0].1) + pax_records_bytes(
            rs.drop_first(),
            lens.drop_first(),
        )
    }
}

/// Whether every length field counts its whole record and no key holds `=`.
pub open spec fn pax_well_formed(rs: Seq<(Seq<char>, Seq<char>)>, lens: Seq<nat>) -> bool {
    &&& lens.len() == rs.len()
    &&& forall|i: int|
        0 <= i < rs.len() ==> #[trigger] pax_record_bytes(lens[i], rs[i].0, rs[i].1).len() == lens[i]
    &&& forall|i: int, j: int| 0 <= i < rs.len() && 0 <= j < rs[i].0.len() ==> rs[i].0[j] != '='
}

proof fn lemma_digit_char(d: nat)
    requires
        d < 10,
    ensures
        digit_char(d) as u32 == d + 48,
        is_radix_digit(digit_char(d), 10),
        digit_value(digit_char(d)) == d,
{
    assert(digit_char(d) == (d + 48) as char);
}

proof fn lemma_digit_not_separator(c: char)
    requires
        is_radix_digit(c, 10),
    ensures
        c as u32 != 0x20u8 as u32,
        c as u32 != 0u8 as u32,
        c as u32 != 0x0au8 as u32,
{
}

proof fn lemma_not_equals_sign(c: char)
    requires
        c != '=',
    ensures
        c as u32 != 0x3du8 as u32,
{
    assert(c as u32 == 0x3d ==> c == '=');
}

proof fn lemma_dec_digits(n: nat)
    ensures
        dec(n).len() >= 1,
        forall|i: int| 0 <= i < dec(n).len() ==> is_radix_digit(#[trigger] dec(n)[i], 10),
        digits_value(dec(n), 10) == Some(n),
    decreases n,
{
    lemma_digit_char(n % 10);
    if n >= 10 {
        lemma_dec_digits(n / 10);
        let d = dec(n);
        assert(d.drop_last() =~= dec(n / 10));
        assert(d.last() == digit_char(n % 10));
        assert forall|i: int| 0 <= i < d.len() implies is_radix_digit(#[trigger] d[i], 10) by {
            if i < d.len() - 1 {
                assert(d[i] == dec(n / 10)[i]);
            }
        }
        assert(n == (n / 10) * 10 + n % 10);
    } else {
        assert(n % 10 == n);
        assert(dec(n).drop_last() =~= Seq::<char>::empty());
        assert(digits_value(Seq::<char>::empty(), 10) == Some(0nat));
    }
}

/// Each byte of the encoding of a scalar is the scalar itself where it is ASCII, and
/// at least `0x80` otherwise.
proof fn lemma_scalar_bytes(c: u32)
    ensures
        c <= 0x7F ==> leading_byte_width_1(c) as u32 == c,
        leading_byte_width_2(c) >= 0x80,
        leading_byte_width_3(c) >= 0x80,
        leading_byte_width_4(c) >= 0x80,
        last_continuation_byte(c) >= 0x80,
        second_last_continuation_byte(c) >= 0x80,
        third_last_continuation_byte(c) >= 0x80,
{
    assert(c <= 0x7F ==> (c & 0x7F) as u8 as u32 == c) by (bit_vector);
    assert(0xC0 | ((c >> 6) & 0x1F) as u8 >= 0x80) by (bit_vector);
    assert(0xE0 | ((c >> 12) & 0x0F) as u8 >= 0x80) by (bit_vector);
    assert(0xF0 | ((c >> 18) & 0x7) as u8 >= 0x80) by (bit_vector);
    assert(0x80 | (c & 0x3F) as u8 >= 0x80) by (bit_vector);
    assert(0x80 | ((c >> 6) & 0x3F) as u8 >= 0x80) by (bit_vector);
    assert(0x80 | ((c >> 12) & 0x3F) as u8 >= 0x80) by (bit_vector);
}

proof fn lemma_encode_avoids(s: Seq<char>, b: u8)
    requires
        b < 0x80,
        forall|i: int| 0 <= i < s.len() ==> (#[trigger] s[i]) as u32 != b as u32,
    ensures
        forall|m: int| 0 <= m < encode_utf8(s).len() ==> #[trigger] encode_utf8(s)[m] != b,
    decreases s.len(),
{
    if s.len() > 0 {
        let t = s.drop_first();
        assert forall|i: int| 0 <= i < t.len() implies (#[trigger] t[i]) as u32 != b as u32 by {
            assert(t[i] == s[i + 1]);
        }
        lemma_encode_avoids(t, b);
        let c = s[0] as u32;
        let head = encode_scalar(c);
        assert(encode_utf8(s) == head + encode_utf8(t));
        lemma_scalar_bytes(c);
        assert forall|m: int| 0 <= m < head.len() implies #[trigger] head[m] != b by {
            if c <= 0x7F {
                assert(head[m] as u32 == c);
            } else {
                assert(head[m] >= 0x80);
            }
        }
        assert forall|m: int| 0 <= m < encode_utf8(s).len() implies #[trigger] encode_utf8(s)[m]
            != b by {
            if m < head.len() {
                assert(encode_utf8(s)[m] == head[m]);
            } else {
                assert(encode_utf8(s)[m] == encode_utf8(t)[m - head.len()]);
            }
        }
    }
}

proof fn lemma_find_first(s: Seq<u8>, b: u8, i: nat, j: nat)
    requires
        i <= j < s.len(),
        s[j as int] == b,
        forall|m: int| i <= m < j ==> s[m] != b,
    ensures
        find_byte_from(s, b, i) == Some(j),
    decreases j - i,
{
    if i < j {
        lemma_find_first(s, b, i + 1, j);
    }
}

#[verifier::spinoff_prover]
#[verifier::rlimit(50)]
proof fn lemma_pax_read_one(
    data: Seq<u8>,
    pos: nat,
    len: nat,
    k: Seq<char>,
    v: Seq<char>,
    rest: Seq<u8>,
)
    requires
        pos <= data.len(),
        data == data.take(pos as int) + pax_record_bytes(len, k, v) + rest,
        pax_record_bytes(len, k, v).len() == len,
        forall|j: int| 0 <= j < k.len() ==> k[j] != '=',
        data.len() <= usize::MAX,
    ensures
        pax_from(data, pos) == match pax_from(data, pos + len) {
            PaxOutcome::Records(r) => PaxOutcome::Records(seq![(k, v)] + r),
            other => other,
        },
{
    let d = encode_utf8(dec(len));
    let ke = encode_utf8(k);
    let ve = encode_utf8(v);
    let rec = pax_record_bytes(len, k, v);
    lemma_dec_digits(len);
    assert forall|i: int| 0 <= i < dec(len).len() implies (#[trigger] dec(len)[i]) as u32 != 0x20u8 as u32 && dec(len)[i] as u32 != 0u8 as u32 && dec(len)[i] as u32 != 0x0au8 as u32 by {
        lemma_digit_not_separator(dec(len)[i]);
    }
    lemma_encode_avoids(dec(len), 0x20);
    lemma_encode_avoids(dec(len), 0);
    lemma_encode_avoids(dec(len), 0x0a);
    assert forall|j: int| 0 <= j < k.len() implies (#[trigger] k[j]) as u32 != 0x3du8 as u32 by {
        lemma_not_equals_sign(k[j]);
    }
    lemma_encode_avoids(k, 0x3d);
    assert(d.len() >= 1) by {
        assert(dec(len) =~= seq![dec(len)[0]] + dec(len).drop_first());
        assert(encode_utf8(dec(len)).len() >= encode_scalar(dec(len)[0] as u32).len());
    }
    let pos_i = pos as int;
    assert(data.len() == pos + len + rest.len());
    assert(data[pos_i] == d[0]);
    let r = data.subrange(pos_i, data.len() as int);
    assert(r =~= rec + rest);
    assert(forall|m: int| 0 <= m < d.len() ==> r[m] == d[m]);
    assert(r[d.len() as int] == 0x20u8);
    lemma_find_first(r, 0x20, 0, d.len());
    assert(r.take(d.len() as int) =~= d);
    encode_utf8_decode_utf8(dec(len));
    encode_utf8_decode_utf8(k);
    encode_utf8_decode_utf8(v);
    encode_utf8_valid_utf8(dec(len));
    encode_utf8_valid_utf8(k);
    encode_utf8_valid_utf8(v);
    assert(spec_from_str_radix(dec(len), 10, usize::MAX as nat) == Some(len)) by {
        assert(dec(len)[0] != '+');
    }
    let sp = d.len();
    let body = data.subrange((pos + sp + 1) as int, (pos + len) as int);
    assert(body =~= ke + seq![0x3du8] + ve + seq![0x0au8]);
    assert forall|m: int| 0 <= m < ke.len() implies body[m] != 0x3du8 by {
        assert(body[m] == ke[m]);
    }
    lemma_find_first(body, 0x3d, 0, ke.len());
    assert(body.take(ke.len() as int) =~= ke);
    assert(body.last() == 0x0au8);
    assert(body.subrange((ke.len() + 1) as int, body.len() - 1) =~= ve);
    assert(decode_utf8(ke) == k);
    assert(decode_utf8(ve) == v);
    assert(data[pos_i] != 0 && data[pos_i] != 0x0a);
    assert(find_byte_from(r, 0x20, 0) == Some(sp));
    assert(r.take(sp as int) == d);
    assert(len <= usize::MAX);
    assert(pos + len <= data.len());
    assert(len >= sp + 1);
    assert(find_byte_from(body, 0x3d, 0) == Some(ke.len()));
}

proof fn lemma_pax_read_all(
    data: Seq<u8>,
    pos: nat,
    rs: Seq<(Seq<char>, Seq<char>)>,
    lens: Seq<nat>,
    pad: nat,
)
    requires
        pax_well_formed(rs, lens),
        pos <= data.len(),
        data == data.take(pos as int) + pax_records_bytes(rs, lens) + Seq::new(pad, |i: int| 0u8),
        data.len() <= usize::MAX,
    ensures
        pax_from(data, pos) == PaxOutcome::Records(rs),
    decreases rs.len(),
{
    let zeros = Seq::new(pad, |i: int| 0u8);
    if rs.len() == 0 {
        assert(pax_records_bytes(rs, lens) =~= Seq::<u8>::empty());
        if pos < data.len() {
            assert(data[pos as int] == zeros[0]);
        }
        assert(rs =~= seq![]);
    } else {
        let rec = pax_record_bytes(lens[0], rs[0].0, rs[0].1);
        let more = pax_records_bytes(rs.drop_first(), lens.drop_first());
        assert(pax_record_bytes(lens[0], rs[0].0, rs[0].1).len() == lens[0]);
        assert(data =~= data.take(pos as int) + rec + (more + zeros));
        lemma_pax_read_one(data, pos, lens[0], rs[0].0, rs[0].1, more + zeros);
        let npos = pos + lens[0];
        assert(data.take(npos as int) =~= data.take(pos as int) + rec);
        assert(data =~= data.take(npos as int) + more + zeros);
        assert(pax_well_formed(rs.drop_first(), lens.drop_first())) by {
            assert forall|i: int| 0 <= i < rs.drop_first().len() implies #[trigger] pax_record_bytes(
                lens.drop_first()[i],
                rs.drop_first()[i].0,
                rs.drop_first()[i].1,
            ).len() == lens.drop_first()[i] by {
                assert(pax_record_bytes(lens[i + 1], rs[i + 1].0, rs[i + 1].1).len() == lens[i + 1]);
            }
            assert forall|i: int, j: int|
                0 <= i < rs.drop_first().len() && 0 <= j < rs.drop_first()[i].0.len() implies rs.drop_first()[i].0[j]
                != '=' by {
                assert(rs.drop_first()[i] == rs[i + 1]);
            }
        }
        lemma_pax_read_all(data, npos, rs.drop_first(), lens.drop_first(), pad);
        assert(seq![(rs[0].0, rs[0].1)] + rs.drop_first() =~= rs);
    }
}

/// PAX records written with length fields that count their whole record, and keys
/// without `=`, read back as exactly those records, whatever NUL bytes follow.
pub proof fn lemma_pax_round_trip(rs: Seq<(Seq<char>, Seq<char>)>, lens: Seq<nat>, pad: nat)
    requires
        pax_well_formed(rs, lens),
        pax_records_bytes(rs, lens).len() + pad <= usize::MAX,
    ensures
        pax_outcome(pax_records_bytes(rs, lens) + Seq::new(pad, |i: int| 0u8))
            == PaxOutcome::Records(rs),
{
    let data = pax_records_bytes(rs, lens) + Seq::new(pad, |i: int| 0u8);
    assert(data.take(0) =~= Seq::<u8>::empty());
    assert(data =~= data.take(0) + pax_records_bytes(rs, lens) + Seq::new(pad, |i: int| 0u8));
    lemma_pax_read_all(data, 0, rs, lens, pad);
}

/// The message of a header error, as its `Display` text reads.
pub open spec fn header_error_message(e: HeaderFault) -> Seq<char> {
    match e {
        HeaderFault::EndOfArchive => "end of archive"@,
        HeaderFault::InvalidOctal { field, value } => "invalid octal in "@ + field + ": "@
            + debug_str(value),
        HeaderFault::InvalidUtf8 { field } => "invalid UTF-8 in "@ + field,
    }
}

impl HeaderError {
    /// The human-readable message of the error.
    pub fn message(&self) -> (m: String)
        ensures
            m@ == header_error_message(self@),
    {
        let mut b = TextBuf::new();
        match self {
            HeaderError::EndOfArchive => b.push_str("end of archive"),
            HeaderError::InvalidOctal { field, value } => {
                b.push_str("invalid octal in ");
                b.push_str(field);
                b.push_str(": ");
                let q = debug_quoted(value.as_str());
                b.push_str(q.as_str());
            },
            HeaderError::InvalidUtf8 { field } => {
                b.push_str("invalid UTF-8 in ");
                b.push_str(field);
            },
        }
        b.into_string()
    }
}

} // verus!
