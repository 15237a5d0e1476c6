//! Header inspection: a field-by-field breakdown of a raw header block and a hex
//! dump of its bytes.

use vstd::prelude::*;
use vstd::utf8::*;
use vstd::string::*;
use crate::header::{
    checksum_sum, compute_checksum, header_error_message, spec_mtime_string, spec_parse_header,
    spec_permissions, spec_size_string, HeaderView, TarHeader, BLOCK_SIZE,
};
use crate::reader::RawBlock;
use crate::text::{
    debug_quoted, debug_str, decode_lossy, dec, hex, lemma_encode_concat, oct, pad_left,
    utf8_lossy, TextBuf,
};

verus! {

broadcast use {vstd::string::group_string_axioms, vstd::utf8::encode_utf8_decode_utf8};

// ---------------------------------------------------------------------------
// Truncation
// ---------------------------------------------------------------------------

/// Whether `truncate` can cut `s` to `max` bytes: it fits, or the cut at `max - 3`
/// bytes falls between two characters.
pub open spec fn truncatable(s: Seq<char>, max: nat) -> bool {
    encode_utf8(s).len() <= max || (max >= 3 && is_char_boundary(encode_utf8(s), max - 3))
}

/// `s` where its UTF-8 encoding fits in `max` bytes, else the characters of its
/// first `max - 3` bytes followed by `...`.
pub open spec fn spec_truncate(s: Seq<char>, max: nat) -> Seq<char> {
    if encode_utf8(s).len() <= max {
        s
    } else {
        decode_utf8(encode_utf8(s).subrange(0, max - 3)) + "..."@
    }
}

/// Cut `s` to at most `max` bytes, marking a cut with `...`.
pub fn truncate(s: &str, max: usize) -> (r: String)
    requires
        truncatable(s@, max as nat),
    ensures
        r@ == spec_truncate(s@, max as nat),
{
    if s.as_bytes().len() <= max {
        s.to_owned()
    } else {
        let (head, _) = s.split_at(max - 3);
        let mut b = TextBuf::of(head);
        b.push_str("...");
        proof {
            assert(decode_utf8(head.spec_bytes()) == head@);
        }
        b.into_string()
    }
}

/// A cut text fits in `max` bytes, and where it is cut it keeps the characters of
/// the start of the text, followed by `...`.
pub proof fn lemma_truncate_fits(s: Seq<char>, max: nat)
    requires
        truncatable(s, max),
    ensures
        encode_utf8(spec_truncate(s, max)).len() <= max,
        encode_utf8(s).len() > max ==> exists|k: int|
            0 <= k <= s.len() && spec_truncate(s, max) == s.take(k) + "..."@,
{
    broadcast use vstd::utf8::decode_utf8_encode_utf8, vstd::utf8::encode_utf8_valid_utf8;

    let b = encode_utf8(s);
    if b.len() > max {
        let cut = (max - 3) as int;
        let p = b.subrange(0, cut);
        vstd::utf8::valid_utf8_split(b, cut);
        vstd::utf8::decode_utf8_split(b, cut);
        let d = decode_utf8(p);
        let rest = decode_utf8(b.subrange(cut, b.len() as int));
        assert(s == d + rest);
        assert(s.take(d.len() as int) =~= d);
        reveal_strlit("...");
        let dots = seq!['.', '.', '.'];
        assert("..."@ =~= dots);
        assert(is_ascii_chars(dots));
        vstd::utf8::is_ascii_chars_encode_utf8(dots);
        lemma_encode_concat(d, dots);
        assert(encode_utf8(d) == p);
    }
}

/// Whether `truncate` can cut `s` to `max` bytes.
pub fn is_truncatable(s: &str, max: usize) -> (r: bool)
    ensures
        r == truncatable(s@, max as nat),
{
    s.as_bytes().len() <= max || (max >= 3 && s.is_char_boundary(max - 3))
}

// ---------------------------------------------------------------------------
// Errors
// ---------------------------------------------------------------------------

/// Errors during inspection.
#[derive(Debug)]
pub enum InspectError {
    EntryNotFound { index: usize, total: usize },
    HeaderParse(String),
}

/// The message of an inspection error.
pub open spec fn inspect_error_message(e: InspectError) -> Seq<char> {
    match e {
        InspectError::EntryNotFound { index, total } => "entry index "@ + dec(index as nat)
            + " not found (archive has "@ + dec(total as nat) + " entries)"@,
        InspectError::HeaderParse(msg) => "header parse error: "@ + msg@,
    }
}

impl InspectError {
    /// The human-readable message of the error.
    pub fn message(&self) -> (m: String)
        ensures
            m@ == inspect_error_message(*self),
    {
        match self {
            InspectError::EntryNotFound { index, total } => {
                let mut b = TextBuf::of("entry index ");
                b.push_dec(*index as u64);
                b.push_str(" not found (archive has ");
                b.push_dec(*total as u64);
                b.push_str(" entries)");
                b.into_string()
            },
            InspectError::HeaderParse(msg) => {
                let mut b = TextBuf::of("header parse error: ");
                b.push_str(msg.as_str());
                b.into_string()
            },
        }
    }
}

// ---------------------------------------------------------------------------
// Field breakdown
// ---------------------------------------------------------------------------

/// A text field as the breakdown shows it: `(none)` where it is empty.
pub open spec fn or_none(s: Seq<char>) -> Seq<char> {
    if s.len() == 0 {
        "(none)"@
    } else {
        s
    }
}

/// The heading of the breakdown of the header at `offset`.
pub open spec fn details_head(offset: u64) -> Seq<char> {
    "=== Header Inspection (entry at offset "@ + dec(offset as nat) + ") ==="@ + seq!['\n']
        + seq!['\n'] + "Field Breakdown:"@ + seq!['\n'] + "  Offset  | Field      | Bytes | Value"@
        + seq!['\n'] + "  ------- | ---------- | ----- | -----"@ + seq!['\n']
}

/// The rows of the name, mode, uid and gid fields.
pub open spec fn id_rows(h: HeaderView) -> Seq<char> {
    "        0 | name       |   100 | "@ + spec_truncate(h.name, 60) + seq!['\n']
        + "      100 | mode       |     8 | "@ + pad_left(oct(h.mode as nat), 6, '0') + seq!['\n']
        + "      108 | uid        |     8 | "@ + dec(h.uid as nat) + seq!['\n']
        + "      116 | gid        |     8 | "@ + dec(h.gid as nat) + seq!['\n']
}

/// The rows of the size, mtime, checksum and type flag fields.
pub open spec fn value_rows(h: HeaderView) -> Seq<char> {
    "      124 | size       |    12 | "@ + dec(h.size as nat) + " ("@ + spec_size_string(h.size)
        + " bytes)"@ + seq!['\n'] + "      136 | mtime      |    12 | "@ + dec(h.mtime as nat)
        + " ("@ + spec_mtime_string(h.mtime) + ")"@ + seq!['\n']
        + "      148 | checksum   |     8 | "@ + dec(h.checksum as nat) + " ("@ + (if h.checksum_valid {
        "VALID"@
    } else {
        "INVALID"@
    }) + ")"@ + seq!['\n'] + "      156 | typeflag   |     1 | '"@ + seq![
        h.entry_type.spec_flag() as char,
    ] + "' ("@ + h.entry_type.spec_description() + ")"@ + seq!['\n']
}

/// The rows of the link name, magic, version, owner, device and prefix fields;
/// `magic` and `version` are the quoted texts of those fields.
pub open spec fn name_rows(h: HeaderView, magic: Seq<char>, version: Seq<char>) -> Seq<char> {
    "      157 | linkname   |   100 | "@ + or_none(h.linkname) + seq!['\n']
        + "      257 | magic      |     6 | "@ + magic + seq!['\n']
        + "      263 | version    |     2 | "@ + version + seq!['\n']
        + "      265 | uname      |    32 | "@ + or_none(h.uname) + seq!['\n']
        + "      297 | gname      |    32 | "@ + or_none(h.gname) + seq!['\n']
        + "      329 | devmajor   |     8 | "@ + dec(h.devmajor as nat) + seq!['\n']
        + "      337 | devminor   |     8 | "@ + dec(h.devminor as nat) + seq!['\n']
        + "      345 | prefix     |   155 | "@ + or_none(h.prefix) + seq!['\n']
}

/// The computed checksum, the format and the permissions.
pub open spec fn computed_rows(h: HeaderView, block: Seq<u8>) -> Seq<char> {
    seq!['\n'] + "Computed Values:"@ + seq!['\n'] + "  Computed checksum: "@ + dec(
        checksum_sum(block, 512),
    ) + seq!['\n'] + "  Stored checksum:   "@ + dec(h.checksum as nat) + seq!['\n']
        + "  Match: "@ + (if h.checksum_valid {
        "YES"@
    } else {
        "NO"@
    }) + seq!['\n'] + seq!['\n'] + "Format: "@ + h.format.spec_name() + seq!['\n']
        + "Permissions: "@ + spec_permissions(h.mode, h.entry_type) + seq!['\n']
}

/// Whether `x` occurs in `t` as a contiguous part.
pub open spec fn contains_text(t: Seq<char>, x: Seq<char>) -> bool {
    exists|i: int| 0 <= i && i + x.len() <= t.len() && #[trigger] t.subrange(i, i + x.len()) == x
}

proof fn lemma_contains_middle(a: Seq<char>, x: Seq<char>, b: Seq<char>)
    ensures
        contains_text(a + x + b, x),
{
    let t = a + x + b;
    assert(t.subrange(a.len() as int, (a.len() + x.len()) as int) =~= x);
}

proof fn lemma_contains_within(a: Seq<char>, y: Seq<char>, b: Seq<char>, x: Seq<char>)
    requires
        contains_text(y, x),
    ensures
        contains_text(a + y + b, x),
{
    let i = choose|i: int|
        0 <= i && i + x.len() <= y.len() && #[trigger] y.subrange(i, i + x.len()) == x;
    let t = a + y + b;
    assert(t.subrange(a.len() + i, a.len() + i + x.len()) =~= y.subrange(i, i + x.len()));
}

/// One line per PAX record, its value cut to 60 bytes.
pub open spec fn pax_lines(rs: Seq<(Seq<char>, Seq<char>)>) -> Seq<char>
    decreases rs.len(),
{
    if rs.len() == 0 {
        Seq::empty()
    } else {
        pax_lines(rs.drop_last()) + "  "@ + rs.last().0 + " = "@ + spec_truncate(rs.last().1, 60)
            + seq!['\n']
    }
}

/// The PAX records of a header, where it has any.
pub open spec fn pax_rows(h: HeaderView) -> Seq<char> {
    if h.pax_records.len() == 0 {
        Seq::empty()
    } else {
        seq!['\n'] + "PAX Extended Records:"@ + seq!['\n'] + pax_lines(h.pax_records)
    }
}

/// The whole breakdown of a header read from `block` at `offset`.
pub open spec fn details_text(
    h: HeaderView,
    block: Seq<u8>,
    offset: u64,
    magic: Seq<char>,
    version: Seq<char>,
) -> Seq<char> {
    details_head(offset) + id_rows(h) + value_rows(h) + name_rows(h, magic, version)
        + computed_rows(h, block) + pax_rows(h)
}

/// Whether the breakdown can cut the name and the PAX values of a header to 60
/// bytes.
pub open spec fn details_writable(h: HeaderView) -> bool {
    &&& truncatable(h.name, 60)
    &&& forall|i: int|
        0 <= i < h.pax_records.len() ==> truncatable(#[trigger] h.pax_records[i].1, 60)
}

fn details_head_text(offset: u64) -> (r: String)
    ensures
        r@ == details_head(offset),
{
    let mut b = TextBuf::of("=== Header Inspection (entry at offset ");
    b.push_dec(offset);
    b.push_str(") ===");
    b.push_char('\n');
    b.push_char('\n');
    b.push_str("Field Breakdown:");
    b.push_char('\n');
    b.push_str("  Offset  | Field      | Bytes | Value");
    b.push_char('\n');
    b.push_str("  ------- | ---------- | ----- | -----");
    b.push_char('\n');
    b.into_string()
}

fn id_rows_text(h: &TarHeader) -> (r: String)
    requires
        truncatable(h.name@, 60),
    ensures
        r@ == id_rows(h@),
{
    let mut b = TextBuf::of("        0 | name       |   100 | ");
    let n = truncate(h.name.as_str(), 60);
    b.push_str(n.as_str());
    b.push_char('\n');
    b.push_str("      100 | mode       |     8 | ");
    b.push_padded(h.mode as u64, 8, 6);
    b.push_char('\n');
    b.push_str("      108 | uid        |     8 | ");
    b.push_dec(h.uid as u64);
    b.push_char('\n');
    b.push_str("      116 | gid        |     8 | ");
    b.push_dec(h.gid as u64);
    b.push_char('\n');
    b.into_string()
}

fn value_rows_text(h: &TarHeader) -> (r: String)
    ensures
        r@ == value_rows(h@),
{
    let mut b = TextBuf::of("      124 | size       |    12 | ");
    b.push_dec(h.size);
    b.push_str(" (");
    let ss = h.size_string();
    b.push_str(ss.as_str());
    b.push_str(" bytes)");
    b.push_char('\n');
    b.push_str("      136 | mtime      |    12 | ");
    b.push_dec(h.mtime);
    b.push_str(" (");
    let ms = h.mtime_string();
    b.push_str(ms.as_str());
    b.push_str(")");
    b.push_char('\n');
    b.push_str("      148 | checksum   |     8 | ");
    b.push_dec(h.checksum as u64);
    b.push_str(" (");
    b.push_str(
        if h.checksum_valid {
            "VALID"
        } else {
            "INVALID"
        },
    );
    b.push_str(")");
    b.push_char('\n');
    b.push_str("      156 | typeflag   |     1 | '");
    b.push_byte_char(h.entry_type.as_flag());
    b.push_str("' (");
    b.push_str(h.entry_type.description());
    b.push_str(")");
    b.push_char('\n');
    b.into_string()
}

fn push_or_none(b: &mut TextBuf, s: &String)
    requires
        old(b).inv(),
    ensures
        final(b).inv(),
        final(b)@ == old(b)@ + or_none(s@),
{
    if s.as_str().is_empty() {
        b.push_str("(none)");
    } else {
        b.push_str(s.as_str());
    }
}

fn name_rows_text(h: &TarHeader, magic: &str, version: &str) -> (r: String)
    ensures
        r@ == name_rows(h@, magic@, version@),
{
    let mut b = TextBuf::of("      157 | linkname   |   100 | ");
    push_or_none(&mut b, &h.linkname);
    b.push_char('\n');
    b.push_str("      257 | magic      |     6 | ");
    b.push_str(magic);
    b.push_char('\n');
    b.push_str("      263 | version    |     2 | ");
    b.push_str(version);
    b.push_char('\n');
    b.push_str("      265 | uname      |    32 | ");
    push_or_none(&mut b, &h.uname);
    b.push_char('\n');
    b.push_str("      297 | gname      |    32 | ");
    push_or_none(&mut b, &h.gname);
    b.push_char('\n');
    b.push_str("      329 | devmajor   |     8 | ");
    b.push_dec(h.devmajor as u64);
    b.push_char('\n');
    b.push_str("      337 | devminor   |     8 | ");
    b.push_dec(h.devminor as u64);
    b.push_char('\n');
    b.push_str("      345 | prefix     |   155 | ");
    push_or_none(&mut b, &h.prefix);
    b.push_char('\n');
    b.into_string()
}

fn computed_rows_text(h: &TarHeader, block: &[u8; BLOCK_SIZE]) -> (r: String)
    ensures
        r@ == computed_rows(h@, block@),
{
    let mut b = TextBuf::of("\n");
    proof {
        reveal_strlit("\n");
        assert("\n"@ =~= seq!['\n']);
    }
    b.push_str("Computed Values:");
    b.push_char('\n');
    b.push_str("  Computed checksum: ");
    let computed = compute_checksum(block);
    b.push_dec(computed as u64);
    b.push_char('\n');
    b.push_str("  Stored checksum:   ");
    b.push_dec(h.checksum as u64);
    b.push_char('\n');
    b.push_str("  Match: ");
    b.push_str(
        if h.checksum_valid {
            "YES"
        } else {
            "NO"
        },
    );
    b.push_char('\n');
    b.push_char('\n');
    b.push_str("Format: ");
    b.push_str(h.format.name());
    b.push_char('\n');
    b.push_str("Permissions: ");
    let p = h.permissions();
    b.push_str(p.as_str());
    b.push_char('\n');
    b.into_string()
}

fn pax_rows_text(h: &TarHeader) -> (r: String)
    requires
        details_writable(h@),
    ensures
        r@ == pax_rows(h@),
{
    let ghost rs = h@.pax_records;
    let n = h.pax_records.len();
    if n == 0 {
        return String::new();
    }
    let mut b = TextBuf::of("\n");
    proof {
        reveal_strlit("\n");
        assert("\n"@ =~= seq!['\n']);
    }
    b.push_str("PAX Extended Records:");
    b.push_char('\n');
    let ghost head = b@;
    for i in 0..n
        invariant
            n == h.pax_records@.len(),
            rs == h@.pax_records,
            details_writable(h@),
            b.inv(),
            b@ == head + pax_lines(rs.take(i as int)),
    {
        assert(rs.take(i + 1).drop_last() =~= rs.take(i as int));
        assert(rs[i as int] == h.pax_records@[i as int]@);
        assert(truncatable(rs[i as int].1, 60));
        let rec = &h.pax_records[i];
        b.push_str("  ");
        b.push_str(rec.key.as_str());
        b.push_str(" = ");
        let v = truncate(rec.value.as_str(), 60);
        b.push_str(v.as_str());
        b.push_char('\n');
        assert(b@ =~= head + pax_lines(rs.take(i + 1)));
    }
    assert(rs.take(n as int) =~= rs);
    b.into_string()
}

/// The field-by-field breakdown of `header`, read from `block` at `offset`, with
/// `magic` and `version` as the quoted texts of those two fields.
pub fn header_details(
    header: &TarHeader,
    block: &[u8; BLOCK_SIZE],
    offset: u64,
    magic: &str,
    version: &str,
) -> (r: String)
    requires
        details_writable(header@),
    ensures
        r@ == details_text(header@, block@, offset, magic@, version@),
{
    let a = details_head_text(offset);
    let mut b = TextBuf::of(a.as_str());
    let x = id_rows_text(header);
    b.push_str(x.as_str());
    let x = value_rows_text(header);
    b.push_str(x.as_str());
    let x = name_rows_text(header, magic, version);
    b.push_str(x.as_str());
    let x = computed_rows_text(header, block);
    b.push_str(x.as_str());
    let x = pax_rows_text(header);
    b.push_str(x.as_str());
    b.into_string()
}

// ---------------------------------------------------------------------------
// Hex dump
// ---------------------------------------------------------------------------

/// A byte as two lowercase hex digits and a space.
pub open spec fn hex_byte(b: u8) -> Seq<char> {
    pad_left(hex(b as nat), 2, '0') + seq![' ']
}

/// The hex of the bytes of `block` from `from` up to `to`.
pub open spec fn hex_bytes(block: Seq<u8>, from: int, to: int) -> Seq<char>
    decreases to - from,
{
    if to <= from {
        Seq::empty()
    } else {
        hex_bytes(block, from, to - 1) + hex_byte(block[to - 1])
    }
}

/// A byte as the dump shows it: printable ASCII as itself, anything else as a dot.
pub open spec fn shown_char(b: u8) -> char {
    if 32 <= b <= 126 {
        b as char
    } else {
        '.'
    }
}

/// The shown characters of the bytes of `block` from `from` up to `to`.
pub open spec fn shown_chars(block: Seq<u8>, from: int, to: int) -> Seq<char>
    decreases to - from,
{
    if to <= from {
        Seq::empty()
    } else {
        shown_chars(block, from, to - 1) + seq![shown_char(block[to - 1])]
    }
}

/// Row `i` of the dump: the offset, sixteen bytes in hex in two groups of eight,
/// and the same bytes as characters.
pub open spec fn hex_row(block: Seq<u8>, i: int) -> Seq<char> {
    "  "@ + pad_left(hex((16 * i) as nat), 4, '0') + "  "@ + hex_bytes(block, 16 * i, 16 * i + 8)
        + seq![' '] + hex_bytes(block, 16 * i + 8, 16 * i + 16) + " |"@ + shown_chars(
        block,
        16 * i,
        16 * i + 16,
    ) + seq!['|', '\n']
}

/// The first `n` rows of the dump.
pub open spec fn hex_rows(block: Seq<u8>, n: int) -> Seq<char>
    decreases n,
{
    if n <= 0 {
        Seq::empty()
    } else {
        hex_rows(block, n - 1) + hex_row(block, n - 1)
    }
}

/// The hex dump of a 512-byte block.
pub open spec fn hex_dump(block: Seq<u8>) -> Seq<char> {
    "Hex Dump (512 bytes):"@ + seq!['\n', '\n'] + hex_rows(block, 32)
}

fn push_hex_bytes(b: &mut TextBuf, block: &[u8; BLOCK_SIZE], from: usize, to: usize)
    requires
        old(b).inv(),
        from <= to <= 512,
    ensures
        final(b).inv(),
        final(b)@ == old(b)@ + hex_bytes(block@, from as int, to as int),
{
    let ghost t = b@;
    let mut k = from;
    assert(hex_bytes(block@, from as int, from as int) =~= Seq::<char>::empty());
    while k < to
        invariant
            from <= k <= to <= 512,
            block@.len() == 512,
            b.inv(),
            b@ == t + hex_bytes(block@, from as int, k as int),
        decreases to - k,
    {
        b.push_padded(block[k] as u64, 16, 2);
        b.push_char(' ');
        assert(b@ =~= t + hex_bytes(block@, from as int, k + 1));
        k = k + 1;
    }
}

fn push_shown_chars(b: &mut TextBuf, block: &[u8; BLOCK_SIZE], from: usize, to: usize)
    requires
        old(b).inv(),
        from <= to <= 512,
    ensures
        final(b).inv(),
        final(b)@ == old(b)@ + shown_chars(block@, from as int, to as int),
{
    let ghost t = b@;
    let mut k = from;
    assert(shown_chars(block@, from as int, from as int) =~= Seq::<char>::empty());
    while k < to
        invariant
            from <= k <= to <= 512,
            block@.len() == 512,
            b.inv(),
            b@ == t + shown_chars(block@, from as int, k as int),
        decreases to - k,
    {
        let byte = block[k];
        if 32 <= byte && byte <= 126 {
            b.push_char(byte as char);
        } else {
            b.push_char('.');
        }
        assert(b@ =~= t + shown_chars(block@, from as int, k + 1));
        k = k + 1;
    }
}

fn hex_row_text(block: &[u8; BLOCK_SIZE], i: usize) -> (r: String)
    requires
        i < 32,
    ensures
        r@ == hex_row(block@, i as int),
{
    let mut b = TextBuf::of("  ");
    b.push_padded((16 * i) as u64, 16, 4);
    b.push_str("  ");
    push_hex_bytes(&mut b, block, 16 * i, 16 * i + 8);
    b.push_char(' ');
    push_hex_bytes(&mut b, block, 16 * i + 8, 16 * i + 16);
    b.push_str(" |");
    push_shown_chars(&mut b, block, 16 * i, 16 * i + 16);
    b.push_char('|');
    b.push_char('\n');
    proof {
        assert(seq!['|'] + seq!['\n'] =~= seq!['|', '\n']);
    }
    let ghost pre = "  "@ + pad_left(hex((16 * i) as nat), 4, '0') + "  "@ + hex_bytes(
        block@,
        16 * i,
        16 * i + 8,
    ) + seq![' '] + hex_bytes(block@, 16 * i + 8, 16 * i + 16) + " |"@ + shown_chars(
        block@,
        16 * i,
        16 * i + 16,
    );
    assert(b@ =~= pre + seq!['|', '\n']);
    b.into_string()
}

/// The hex dump of a block: 32 rows of 16 bytes.
fn hex_dump_text(block: &[u8; BLOCK_SIZE]) -> (r: String)
    ensures
        r@ == hex_dump(block@),
{
    let mut b = TextBuf::of("Hex Dump (512 bytes):");
    b.push_char('\n');
    b.push_char('\n');
    let ghost head = b@;
    for i in 0..32
        invariant
            b.inv(),
            b@ == head + hex_rows(block@, i as int),
    {
        let row = hex_row_text(block, i);
        b.push_str(row.as_str());
        assert(b@ =~= head + hex_rows(block@, i + 1));
    }
    assert(head =~= "Hex Dump (512 bytes):"@ + seq!['\n', '\n']);
    assert(b@ =~= hex_dump(block@));
    b.into_string()
}

// ---------------------------------------------------------------------------
// Inspection
// ---------------------------------------------------------------------------

/// The magic field of a block as the breakdown shows it: its bytes decoded, bad
/// sequences replaced, and quoted as `Debug` quotes a string.
pub open spec fn magic_text(block: Seq<u8>) -> Seq<char> {
    debug_str(utf8_lossy(block.subrange(257, 263)))
}

/// The version field of a block as the breakdown shows it.
pub open spec fn version_text(block: Seq<u8>) -> Seq<char> {
    debug_str(utf8_lossy(block.subrange(263, 265)))
}

/// The text of an inspection of the header `h` read from `block` at `offset`: the
/// breakdown, then the hex dump where asked for.
pub open spec fn inspect_text(h: HeaderView, block: Seq<u8>, offset: u64, show_hex: bool) -> Seq<
    char,
> {
    details_text(h, block, offset, magic_text(block), version_text(block)) + if show_hex {
        seq!['\n'] + hex_dump(block)
    } else {
        Seq::<char>::empty()
    }
}

/// Whether the inspection of entry `index` can be written: where its header reads,
/// its name and PAX values can be cut to 60 bytes.
pub open spec fn inspectable(blocks: Seq<RawBlock>, index: int) -> bool {
    0 <= index < blocks.len() ==> match spec_parse_header(blocks[index].block@) {
        Ok(h) => details_writable(h),
        Err(_) => true,
    }
}

/// What inspecting entry `index` of `blocks` gives: the entry is missing, its header
/// does not read, or the text of its inspection.
pub open spec fn inspect_outcome(
    blocks: Seq<RawBlock>,
    index: usize,
    show_hex: bool,
    r: Result<String, InspectError>,
) -> bool {
    if index >= blocks.len() {
        r == Err::<String, InspectError>(
            InspectError::EntryNotFound { index, total: blocks.len() as usize },
        )
    } else {
        let block = blocks[index as int].block@;
        match spec_parse_header(block) {
            Err(f) => r matches Err(InspectError::HeaderParse(m)) && m@ == header_error_message(f),
            Ok(h) => r matches Ok(t) && t@ == inspect_text(
                h,
                block,
                blocks[index as int].offset,
                show_hex,
            ),
        }
    }
}

fn block_bytes(block: &[u8; BLOCK_SIZE], from: usize, to: usize) -> (v: Vec<u8>)
    requires
        from <= to <= 512,
    ensures
        v@ == block@.subrange(from as int, to as int),
{
    let mut v: Vec<u8> = Vec::new();
    let mut k = from;
    while k < to
        invariant
            from <= k <= to <= 512,
            block@.len() == 512,
            v@ == block@.subrange(from as int, k as int),
        decreases to - k,
    {
        v.push(block[k]);
        assert(v@ =~= block@.subrange(from as int, k + 1));
        k = k + 1;
    }
    v
}

/// Inspect a specific entry's raw header block: the breakdown of its fields and,
/// where asked, a hex dump of the block.
pub fn inspect_entry(blocks: &[RawBlock], entry_index: usize, show_hex: bool) -> (r: Result<
    String,
    InspectError,
>)
    requires
        inspectable(blocks@, entry_index as int),
    ensures
        inspect_outcome(blocks@, entry_index, show_hex, r),
{
    if entry_index >= blocks.len() {
        return Err(InspectError::EntryNotFound { index: entry_index, total: blocks.len() });
    }
    let block = &blocks[entry_index];
    let parsed = match TarHeader::parse(&block.block) {
        Ok(h) => h,
        Err(e) => {
            return Err(InspectError::HeaderParse(e.message()));
        },
    };
    let magic_bytes = block_bytes(&block.block, 257, 263);
    let magic_str = decode_lossy(magic_bytes.as_slice());
    let magic = debug_quoted(magic_str.as_str());
    let version_bytes = block_bytes(&block.block, 263, 265);
    let version_str = decode_lossy(version_bytes.as_slice());
    let version = debug_quoted(version_str.as_str());
    let details = header_details(
        &parsed,
        &block.block,
        block.offset,
        magic.as_str(),
        version.as_str(),
    );
    let tail = hex_part(&block.block, show_hex);
    let mut b = TextBuf::of(details.as_str());
    b.push_str(tail.as_str());
    Ok(b.into_string())
}

/// The hex dump after a blank line where asked for, else nothing.
fn hex_part(block: &[u8; BLOCK_SIZE], show_hex: bool) -> (r: String)
    ensures
        r@ == (if show_hex {
            seq!['\n'] + hex_dump(block@)
        } else {
            Seq::<char>::empty()
        }),
{
    if show_hex {
        let mut b = TextBuf::new();
        b.push_char('\n');
        let dump = hex_dump_text(block);
        b.push_str(dump.as_str());
        assert(b@ =~= seq!['\n'] + hex_dump(block@));
        b.into_string()
    } else {
        String::new()
    }
}

fn writable_exec(h: &TarHeader) -> (r: bool)
    ensures
        r == details_writable(h@),
{
    if !is_truncatable(h.name.as_str(), 60) {
        return false;
    }
    let n = h.pax_records.len();
    for i in 0..n
        invariant
            n == h@.pax_records.len(),
            forall|j: int| 0 <= j < i ==> truncatable(#[trigger] h@.pax_records[j].1, 60),
    {
        assert(h@.pax_records[i as int] == h.pax_records@[i as int]@);
        if !is_truncatable(h.pax_records[i].value.as_str(), 60) {
            assert(!truncatable(h@.pax_records[i as int].1, 60));
            return false;
        }
    }
    true
}

/// Inspect an entry as `inspect_entry` does, answering `None` where the breakdown
/// would cut a name or a PAX value inside a character.
pub fn inspect_entry_checked(blocks: &[RawBlock], entry_index: usize, show_hex: bool) -> (r: Option<
    Result<String, InspectError>,
>)
    ensures
        r is None <==> !inspectable(blocks@, entry_index as int),
        r matches Some(x) ==> inspect_outcome(blocks@, entry_index, show_hex, x),
{
    if entry_index < blocks.len() {
        if let Ok(h) = TarHeader::parse(&blocks[entry_index].block) {
            if !writable_exec(&h) {
                return None;
            }
        }
    }
    Some(inspect_entry(blocks, entry_index, show_hex))
}

/// The computed checksum line of a breakdown.
pub open spec fn computed_line(block: Seq<u8>) -> Seq<char> {
    "  Computed checksum: "@ + dec(checksum_sum(block, 512)) + seq!['\n']
}

/// The stored checksum line of a breakdown: it shows the header's checksum field.
pub open spec fn stored_line(h: HeaderView) -> Seq<char> {
    "  Stored checksum:   "@ + dec(h.checksum as nat) + seq!['\n']
}

/// The match line of a breakdown.
pub open spec fn match_line(h: HeaderView) -> Seq<char> {
    "  Match: "@ + (if h.checksum_valid {
        "YES"@
    } else {
        "NO"@
    }) + seq!['\n']
}

/// The permissions line of a breakdown.
pub open spec fn permissions_line(h: HeaderView) -> Seq<char> {
    "Permissions: "@ + spec_permissions(h.mode, h.entry_type) + seq!['\n']
}

/// The heading line of a breakdown.
pub open spec fn heading_line(offset: u64) -> Seq<char> {
    "=== Header Inspection (entry at offset "@ + dec(offset as nat) + ") ==="@ + seq!['\n']
}

#[verifier::spinoff_prover]
proof fn lemma_computed_rows_lines(h: HeaderView, block: Seq<u8>)
    ensures
        contains_text(computed_rows(h, block), computed_line(block)),
        contains_text(computed_rows(h, block), stored_line(h)),
        contains_text(computed_rows(h, block), match_line(h)),
        contains_text(computed_rows(h, block), permissions_line(h)),
{
    let head = seq!['\n'] + "Computed Values:"@ + seq!['\n'];
    let fmt = seq!['\n'] + "Format: "@ + h.format.spec_name() + seq!['\n'];
    let c = computed_line(block);
    let st = stored_line(h);
    let m = match_line(h);
    let p = permissions_line(h);
    assert(computed_rows(h, block) =~= head + c + st + m + fmt + p);
    lemma_contains_middle(head, c, st + m + fmt + p);
    assert(head + c + (st + m + fmt + p) =~= head + c + st + m + fmt + p);
    lemma_contains_middle(head + c, st, m + fmt + p);
    assert(head + c + st + (m + fmt + p) =~= head + c + st + m + fmt + p);
    lemma_contains_middle(head + c + st, m, fmt + p);
    assert(head + c + st + m + (fmt + p) =~= head + c + st + m + fmt + p);
    lemma_contains_middle(head + c + st + m + fmt, p, seq![]);
    assert(head + c + st + m + fmt + p + seq![] =~= head + c + st + m + fmt + p);
}

/// A breakdown begins with its heading line, and holds the lines of the computed
/// checksum, of the header's checksum field, of whether they match and of the
/// permissions.
pub proof fn lemma_details_lines(
    h: HeaderView,
    block: Seq<u8>,
    offset: u64,
    magic: Seq<char>,
    version: Seq<char>,
)
    ensures
        heading_line(offset).is_prefix_of(details_text(h, block, offset, magic, version)),
        contains_text(details_text(h, block, offset, magic, version), computed_line(block)),
        contains_text(details_text(h, block, offset, magic, version), stored_line(h)),
        contains_text(details_text(h, block, offset, magic, version), match_line(h)),
        contains_text(details_text(h, block, offset, magic, version), permissions_line(h)),
{
    let t = details_text(h, block, offset, magic, version);
    let pre = details_head(offset) + id_rows(h) + value_rows(h) + name_rows(h, magic, version);
    let cr = computed_rows(h, block);
    let post = pax_rows(h);
    assert(t == pre + cr + post);
    lemma_computed_rows_lines(h, block);
    lemma_contains_within(pre, cr, post, computed_line(block));
    lemma_contains_within(pre, cr, post, stored_line(h));
    lemma_contains_within(pre, cr, post, match_line(h));
    lemma_contains_within(pre, cr, post, permissions_line(h));
    let hl = heading_line(offset);
    let rest = seq!['\n'] + "Field Breakdown:"@ + seq!['\n'] + "  Offset  | Field      | Bytes | Value"@
        + seq!['\n'] + "  ------- | ---------- | ----- | -----"@ + seq!['\n'];
    assert(details_head(offset) =~= hl + rest);
    assert(t =~= hl + (rest + id_rows(h) + value_rows(h) + name_rows(h, magic, version) + cr
        + post));
    assert(t.subrange(0, hl.len() as int) =~= hl);
}

} // verus!
