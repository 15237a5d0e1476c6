//! Output formatting: the text and JSON reports of every command, as UTF-8 bytes.

use vstd::prelude::*;
use vstd::utf8::*;
use crate::text::{
    chars_of, dec, oct, pad_left, signed_dec_padded, TextBuf,
};
use crate::header::{EntryType, HeaderView, TarFormat, TarHeader};
use crate::reader::{entries_view, EntryView, TarEntry};
use crate::stats::{
    average_text, contains_format, counts_view, format_size, kind_count, metadata_count,
    opt_pair_view, pairs_view, spec_average_text, spec_format_size, ArchiveStats,
};
use crate::diff::{changes_view, Change, ChangeView, DiffResult};
use crate::verify::{issues_view, IssueSeverity, IssueView, VerifyIssue, VerifyReport, VerifyStatus};
use crate::calendar::{
    civil_from_days, days_before_month, days_from_civil, is_leap_year,
    lemma_civil_from_days, month_length, year_length, year_start,
};

verus! {

/// The length of month `m` (1 to 12) in a year that is or is not a leap year.
fn month_days(m: u32, leap: bool) -> (n: i64)
    requires
        1 <= m <= 12,
    ensures
        forall|y: int| is_leap_year(y) == leap ==> n == month_length(y, m as int),
{
    if m == 2 {
        28 + if leap {
            1
        } else {
            0
        }
    } else if m == 4 || m == 6 || m == 9 || m == 11 {
        30
    } else {
        31
    }
}

/// Convert days since epoch to (year, month, day), counting whole years and then
/// whole months from 1970-01-01. Before the epoch it answers January 1970 with the
/// day number that the negative count wraps to.
pub fn days_to_date(days: i64) -> (r: (i64, u32, u32))
    requires
        days >= 0 || (days as u32) < u32::MAX,
    ensures
        days >= 0 ==> (r.0 as int, r.1 as int, r.2 as int) == civil_from_days(days as int),
        days < 0 ==> r == (1970i64, 1u32, ((days as u32) + 1) as u32),
{
    let mut year: i64 = 1970;
    let mut remaining_days = days;
    loop
        invariant
            1970 <= year,
            days >= 0 ==> remaining_days >= 0 && year_start(year as int) == days - remaining_days,
            days < 0 ==> year == 1970 && remaining_days == days,
            year_start(year as int) >= 365 * (year - 1970),
        ensures
            1970 <= year,
            days >= 0 ==> 0 <= remaining_days < year_length(year as int) && year_start(year as int)
                == days - remaining_days,
            days < 0 ==> year == 1970 && remaining_days == days,
        decreases remaining_days,
    {
        let is_leap = (year % 4 == 0 && year % 100 != 0) || year % 400 == 0;
        let year_days: i64 = if is_leap {
            366
        } else {
            365
        };
        assert(year_days == year_length(year as int));
        if remaining_days < year_days {
            break ;
        }
        proof {
            crate::calendar::lemma_year_start_step(year as int);
        }
        remaining_days = remaining_days - year_days;
        year = year + 1;
    }
    let is_leap = (year % 4 == 0 && year % 100 != 0) || year % 400 == 0;
    assert(is_leap == is_leap_year(year as int));
    let mut month: u32 = 1;
    while month < 12 && remaining_days >= month_days(month, is_leap)
        invariant
            1 <= month <= 12,
            is_leap == is_leap_year(year as int),
            days >= 0 ==> 0 <= remaining_days < year_length(year as int) - days_before_month(
                year as int,
                month as int,
            ) && days_from_civil(year as int, month as int, 1) == days - remaining_days,
            days < 0 ==> year == 1970 && remaining_days == days && month == 1,
        decreases 12 - month,
    {
        remaining_days = remaining_days - month_days(month, is_leap);
        month = month + 1;
    }
    assert(days >= 0 ==> remaining_days < 31);
    let day = remaining_days as u32 + 1;
    proof {
        if days >= 0 {
            assert(remaining_days < month_length(year as int, month as int));
            lemma_civil_from_days(days as int, year as int, month as int, day as int);
        }
    }
    (year, month, day)
}


// ---------------------------------------------------------------------------
// Helpers
// ---------------------------------------------------------------------------

/// What `json_escape` writes for one character.
pub open spec fn json_escape_char(c: char) -> Seq<char> {
    if c == '\\' {
        seq!['\\', '\\']
    } else if c == '"' {
        seq!['\\', '"']
    } else if c == '\n' {
        seq!['\\', 'n']
    } else if c == '\r' {
        seq!['\\', 'r']
    } else if c == '\t' {
        seq!['\\', 't']
    } else {
        seq![c]
    }
}

/// `s` with backslash, double quote, newline, carriage return and tab escaped.
pub open spec fn spec_json_escape(s: Seq<char>) -> Seq<char>
    decreases s.len(),
{
    if s.len() == 0 {
        seq![]
    } else {
        spec_json_escape(s.drop_last()) + json_escape_char(s.last())
    }
}

/// What a JSON reader makes of an escaped character: `n`, `r` and `t` stand for
/// newline, carriage return and tab; any other character stands for itself.
pub open spec fn unescape_char(c: char) -> char {
    if c == 'n' {
        '\n'
    } else if c == 'r' {
        '\r'
    } else if c == 't' {
        '\t'
    } else {
        c
    }
}

/// Reading escaped text back: a backslash and the character after it stand for
/// one character.
pub open spec fn json_unescape(t: Seq<char>) -> Seq<char>
    decreases t.len(),
{
    if t.len() == 0 {
        Seq::empty()
    } else if t[0] == '\\' && t.len() >= 2 {
        seq![unescape_char(t[1])] + json_unescape(t.subrange(2, t.len() as int))
    } else {
        seq![t[0]] + json_unescape(t.subrange(1, t.len() as int))
    }
}

proof fn lemma_json_escape_concat(a: Seq<char>, b: Seq<char>)
    ensures
        spec_json_escape(a + b) == spec_json_escape(a) + spec_json_escape(b),
    decreases b.len(),
{
    if b.len() == 0 {
        assert(a + b =~= a);
        assert(spec_json_escape(a) + spec_json_escape(b) =~= spec_json_escape(a));
    } else {
        lemma_json_escape_concat(a, b.drop_last());
        assert((a + b).drop_last() =~= a + b.drop_last());
        assert((a + b).last() == b.last());
    }
}

proof fn lemma_json_unescape_char(c: char, t: Seq<char>)
    ensures
        json_unescape(json_escape_char(c) + t) == seq![c] + json_unescape(t),
{
    let e = json_escape_char(c) + t;
    if c == '\\' || c == '"' || c == '\n' || c == '\r' || c == '\t' {
        assert(e[0] == '\\');
        assert(e.subrange(2, e.len() as int) =~= t);
    } else {
        assert(e[0] == c);
        assert(e.subrange(1, e.len() as int) =~= t);
    }
}

/// Reading escaped text back gives the text that was escaped.
pub proof fn lemma_json_escape_reversible(s: Seq<char>)
    ensures
        json_unescape(spec_json_escape(s)) == s,
    decreases s.len(),
{
    if s.len() > 0 {
        let c = s[0];
        let rest = s.drop_first();
        lemma_json_escape_reversible(rest);
        assert(s =~= seq![c] + rest);
        lemma_json_escape_concat(seq![c], rest);
        let one = seq![c];
        assert(one.drop_last() =~= Seq::<char>::empty());
        assert(spec_json_escape(one.drop_last()) =~= Seq::<char>::empty());
        assert(one.last() == c);
        assert(spec_json_escape(one) =~= json_escape_char(c));
        lemma_json_unescape_char(c, spec_json_escape(rest));
    }
}

/// Escape a string for JSON output.
pub fn json_escape(s: &str) -> (r: String)
    ensures
        r@ == spec_json_escape(s@),
{
    let c = chars_of(s);
    let mut b = TextBuf::new();
    for i in 0..c.len()
        invariant
            c@ == s@,
            b.inv(),
            b@ == spec_json_escape(s@.take(i as int)),
    {
        let ch = c[i];
        if ch == '\\' {
            b.push_char('\\');
            b.push_char('\\');
        } else if ch == '"' {
            b.push_char('\\');
            b.push_char('"');
        } else if ch == '\n' {
            b.push_char('\\');
            b.push_char('n');
        } else if ch == '\r' {
            b.push_char('\\');
            b.push_char('r');
        } else if ch == '\t' {
            b.push_char('\\');
            b.push_char('t');
        } else {
            b.push_str(s.substring_char(i, i + 1));
        }
        proof {
            assert(s@.take(i + 1).drop_last() =~= s@.take(i as int));
            assert(s@.take(i + 1).last() == ch);
            assert(s@.subrange(i as int, i + 1) =~= seq![ch]);
            assert(b@ =~= spec_json_escape(s@.take(i + 1)));
        }
    }
    assert(s@.take(c@.len() as int) =~= s@);
    b.into_string()
}

/// The file type character of `format_mode`, from the `S_IFMT` bits of a mode.
pub open spec fn mode_type_char(mode: u32) -> char {
    let t = mode & 0o170000;
    if t == 0o040000 {
        'd'
    } else if t == 0o120000 {
        'l'
    } else if t == 0o020000 {
        'c'
    } else if t == 0o060000 {
        'b'
    } else if t == 0o010000 {
        'p'
    } else if t == 0o140000 {
        's'
    } else {
        '-'
    }
}

/// `c` where the bit is set, else `-`.
pub open spec fn bit_char(set: bool, c: char) -> char {
    if set {
        c
    } else {
        '-'
    }
}

/// The `ls`-style text of a mode, such as `-rw-r--r--`.
pub open spec fn spec_format_mode(mode: u32) -> Seq<char> {
    let p = mode & 0o777;
    seq![
        mode_type_char(mode),
        bit_char(p & 0o400 != 0, 'r'),
        bit_char(p & 0o200 != 0, 'w'),
        bit_char(p & 0o100 != 0, 'x'),
        bit_char(p & 0o040 != 0, 'r'),
        bit_char(p & 0o020 != 0, 'w'),
        bit_char(p & 0o010 != 0, 'x'),
        bit_char(p & 0o004 != 0, 'r'),
        bit_char(p & 0o002 != 0, 'w'),
        bit_char(p & 0o001 != 0, 'x'),
    ]
}

/// The letter a permission position shows when its bit is set: `r`, `w` and `x`
/// for the owner (positions 1 to 3), the group (4 to 6) and others (7 to 9).
pub open spec fn permission_letter(k: int) -> char {
    if k % 3 == 1 {
        'r'
    } else if k % 3 == 2 {
        'w'
    } else {
        'x'
    }
}

/// Each of the nine permission positions of a mode's text shows its own bit of the
/// mode and no other: position `k` (1 to 9) stands for bit `9 - k`, and shows its
/// letter exactly where that bit is set, `-` where it is clear.
pub proof fn lemma_format_mode_bits(mode: u32, k: int)
    requires
        1 <= k <= 9,
    ensures
        spec_format_mode(mode).len() == 10,
        spec_format_mode(mode)[k] == if (mode >> ((9 - k) as u32)) & 1 == 1 {
            permission_letter(k)
        } else {
            '-'
        },
{
    let p = mode & 0o777;
    assert((p & 0o400 != 0) == ((mode >> 8u32) & 1 == 1)) by (bit_vector)
        requires p == mode & 0o777;
    assert((p & 0o200 != 0) == ((mode >> 7u32) & 1 == 1)) by (bit_vector)
        requires p == mode & 0o777;
    assert((p & 0o100 != 0) == ((mode >> 6u32) & 1 == 1)) by (bit_vector)
        requires p == mode & 0o777;
    assert((p & 0o040 != 0) == ((mode >> 5u32) & 1 == 1)) by (bit_vector)
        requires p == mode & 0o777;
    assert((p & 0o020 != 0) == ((mode >> 4u32) & 1 == 1)) by (bit_vector)
        requires p == mode & 0o777;
    assert((p & 0o010 != 0) == ((mode >> 3u32) & 1 == 1)) by (bit_vector)
        requires p == mode & 0o777;
    assert((p & 0o004 != 0) == ((mode >> 2u32) & 1 == 1)) by (bit_vector)
        requires p == mode & 0o777;
    assert((p & 0o002 != 0) == ((mode >> 1u32) & 1 == 1)) by (bit_vector)
        requires p == mode & 0o777;
    assert((p & 0o001 != 0) == ((mode >> 0u32) & 1 == 1)) by (bit_vector)
        requires p == mode & 0o777;
}

fn bit_ch(set: bool, c: char) -> (r: char)
    ensures
        r == bit_char(set, c),
{
    if set {
        c
    } else {
        '-'
    }
}

/// Format a mode/permissions string (e.g., "-rwxr-xr-x").
pub fn format_mode(mode: u32) -> (r: String)
    ensures
        r@ == spec_format_mode(mode),
{
    let t = mode & 0o170000;
    let tc = if t == 0o040000 {
        'd'
    } else if t == 0o120000 {
        'l'
    } else if t == 0o020000 {
        'c'
    } else if t == 0o060000 {
        'b'
    } else if t == 0o010000 {
        'p'
    } else if t == 0o140000 {
        's'
    } else {
        '-'
    };
    let p = mode & 0o777;
    let v: Vec<char> = vec![
        tc,
        bit_ch(p & 0o400 != 0, 'r'),
        bit_ch(p & 0o200 != 0, 'w'),
        bit_ch(p & 0o100 != 0, 'x'),
        bit_ch(p & 0o040 != 0, 'r'),
        bit_ch(p & 0o020 != 0, 'w'),
        bit_ch(p & 0o010 != 0, 'x'),
        bit_ch(p & 0o004 != 0, 'r'),
        bit_ch(p & 0o002 != 0, 'w'),
        bit_ch(p & 0o001 != 0, 'x'),
    ];
    assert(v@ =~= spec_format_mode(mode));
    let mut b = TextBuf::new();
    b.push_ascii_chars(v.as_slice());
    b.into_string()
}

/// Truncating division, as Rust's `/` on signed integers.
pub open spec fn tdiv(a: int, b: int) -> int {
    if a >= 0 {
        a / b
    } else {
        -((-a) / b)
    }
}

/// The remainder of truncating division, as Rust's `%` on signed integers.
pub open spec fn trem(a: int, b: int) -> int {
    a - b * tdiv(a, b)
}

/// The day count of a timestamp, as `format_mtime` reads it: the timestamp taken as
/// a signed 64-bit number, divided by 86400 toward zero.
pub open spec fn mtime_days(mtime: u64) -> int {
    tdiv((mtime as i64) as int, 86400)
}

/// The timestamps that `format_mtime` can write: all but those whose day count is
/// negative and wraps to the largest `u32`, where the day number overflows.
pub open spec fn mtime_formattable(mtime: u64) -> bool {
    mtime == 0 || mtime_days(mtime) >= 0 || (mtime_days(mtime) as i64 as u32) < u32::MAX
}

/// The date that `format_mtime` writes for a day count: the calendar date from
/// 1970 on, January 1970 with the wrapped day number before it.
pub open spec fn mtime_date(days: int) -> (int, int, int) {
    if days >= 0 {
        civil_from_days(days)
    } else {
        (1970, 1, ((days as i64 as u32) + 1) as int)
    }
}

/// The text of `format_mtime`: `epoch` for 0, else `YYYY-MM-DD HH:MM:SS`.
pub open spec fn spec_format_mtime(mtime: u64) -> Seq<char> {
    if mtime == 0 {
        "epoch"@
    } else {
        let secs = (mtime as i64) as int;
        let days = tdiv(secs, 86400);
        let rem = trem(secs, 86400);
        let date = mtime_date(days);
        signed_dec_padded(date.0, 4) + seq!['-'] + pad_left(dec(date.1 as nat), 2, '0') + seq!['-']
            + pad_left(dec(date.2 as nat), 2, '0') + seq![' '] + signed_dec_padded(tdiv(rem, 3600), 2)
            + seq![':'] + signed_dec_padded(tdiv(trem(rem, 3600), 60), 2) + seq![':']
            + signed_dec_padded(trem(rem, 60), 2)
    }
}

fn tdiv_exec(a: i128, b: i128) -> (q: i128)
    requires
        b > 0,
        -0x1_0000_0000_0000_0000 <= a <= 0x1_0000_0000_0000_0000,
    ensures
        q == tdiv(a as int, b as int),
{
    if a >= 0 {
        a / b
    } else {
        -((-a) / b)
    }
}

/// Whether `format_mtime` can write a timestamp.
pub fn mtime_is_formattable(mtime: u64) -> (r: bool)
    ensures
        r == mtime_formattable(mtime),
{
    if mtime == 0 {
        return true;
    }
    let secs: i64 = mtime as i64;
    let days = tdiv_exec(secs as i128, 86400);
    days >= 0 || ((days as i64) as u32) < u32::MAX
}

/// Format a Unix timestamp as a human-readable date.
pub fn format_mtime(mtime: u64) -> (r: String)
    requires
        mtime_formattable(mtime),
    ensures
        r@ == spec_format_mtime(mtime),
{
    if mtime == 0 {
        return "epoch".to_owned();
    }
    let secs: i64 = mtime as i64;
    let days = tdiv_exec(secs as i128, 86400);
    let remainder = secs as i128 - 86400 * days;
    let hours = tdiv_exec(remainder, 3600);
    let r2 = remainder - 3600 * hours;
    let minutes = tdiv_exec(r2, 60);
    let seconds = remainder - 60 * tdiv_exec(remainder, 60);
    let (year, month, day) = days_to_date(days as i64);
    let mut b = TextBuf::new();
    b.push_signed_padded(year, 4);
    b.push_char('-');
    b.push_padded(month as u64, 10, 2);
    b.push_char('-');
    b.push_padded(day as u64, 10, 2);
    b.push_char(' ');
    b.push_signed_padded(hours as i64, 2);
    b.push_char(':');
    b.push_signed_padded(minutes as i64, 2);
    b.push_char(':');
    b.push_signed_padded(seconds as i64, 2);
    assert(b@ =~= spec_format_mtime(mtime));
    b.into_string()
}


// ---------------------------------------------------------------------------
// Listing
// ---------------------------------------------------------------------------

/// The owner shown in a long listing: the name, or the numeric id where the name
/// is empty.
pub open spec fn owner_text(name: Seq<char>, id: u32) -> Seq<char> {
    if name.len() > 0 {
        name
    } else {
        dec(id as nat)
    }
}

/// The line `print_list` writes for a header: its name, or in the long form mode,
/// size right-aligned to 8, owner, group, mtime and name.
pub open spec fn list_line(h: HeaderView, long: bool) -> Seq<char> {
    (if long {
        long_fields(h)
    } else {
        Seq::<char>::empty()
    }) + h.name + seq!['\n']
}

/// The fields a long listing writes before the name, each followed by a space.
pub open spec fn long_fields(h: HeaderView) -> Seq<char> {
    spec_format_mode(h.mode) + seq![' '] + pad_left(spec_format_size(h.size), 8, ' ') + seq![' ']
        + owner_text(h.uname, h.uid) + seq![' '] + owner_text(h.gname, h.gid) + seq![' ']
        + spec_format_mtime(h.mtime) + seq![' ']
}

/// The text of `print_list`: one line for each entry that is not metadata.
pub open spec fn list_text(es: Seq<EntryView>, long: bool) -> Seq<char>
    decreases es.len(),
{
    if es.len() == 0 {
        Seq::empty()
    } else {
        list_text(es.drop_last(), long) + if es.last().header.entry_type.spec_is_metadata() {
            Seq::<char>::empty()
        } else {
            list_line(es.last().header, long)
        }
    }
}

/// Whether every entry that a long listing shows has a timestamp it can write.
pub open spec fn listable(es: Seq<EntryView>, long: bool) -> bool {
    long ==> forall|i: int|
        0 <= i < es.len() && !es[i].header.entry_type.spec_is_metadata() ==> mtime_formattable(
            #[trigger] es[i].header.mtime,
        )
}

fn push_owner(b: &mut TextBuf, name: &String, id: u32)
    requires
        old(b).inv(),
    ensures
        final(b).inv(),
        final(b)@ == old(b)@ + owner_text(name@, id),
{
    if name.as_str().is_empty() {
        b.push_dec(id as u64);
    } else {
        b.push_str(name.as_str());
    }
}

fn long_fields_text(h: &TarHeader) -> (r: String)
    requires
        mtime_formattable(h.mtime),
    ensures
        r@ == long_fields(h@),
{
    let mode = format_mode(h.mode);
    let mut b = TextBuf::of(mode.as_str());
    b.push_char(' ');
    let size = format_size(h.size);
    b.push_str_right(size.as_str(), 8);
    b.push_char(' ');
    push_owner(&mut b, &h.uname, h.uid);
    b.push_char(' ');
    push_owner(&mut b, &h.gname, h.gid);
    b.push_char(' ');
    let mtime = format_mtime(h.mtime);
    b.push_str(mtime.as_str());
    b.push_char(' ');
    b.into_string()
}

fn push_list_line(b: &mut TextBuf, e: &TarEntry, long: bool)
    requires
        old(b).inv(),
        long ==> mtime_formattable(e.header.mtime),
    ensures
        final(b).inv(),
        final(b)@ == old(b)@ + list_line(e@.header, long),
{
    let ghost t = b@;
    if long {
        let f = long_fields_text(&e.header);
        b.push_str(f.as_str());
    }
    b.push_str(e.header.name.as_str());
    b.push_char('\n');
    assert(b@ =~= t + list_line(e@.header, long));
}

/// Write a list of entries in text format: one line per entry that is not
/// metadata, its name alone or, in the long form, with mode, size, owner, group and
/// modification time.
pub fn print_list(w: &mut Vec<u8>, entries: &[TarEntry], long: bool)
    requires
        listable(entries_view(entries@), long),
    ensures
        final(w)@ == old(w)@ + encode_utf8(list_text(entries_view(entries@), long)),
{
    let ghost ev = entries_view(entries@);
    let mut b = TextBuf::new();
    for i in 0..entries.len()
        invariant
            ev == entries_view(entries@),
            listable(ev, long),
            b.inv(),
            b@ == list_text(ev.take(i as int), long),
    {
        assert(ev.take(i + 1).drop_last() =~= ev.take(i as int));
        assert(ev[i as int] == entries@[i as int]@);
        if !entries[i].header.entry_type.is_metadata() {
            assert(long ==> mtime_formattable(ev[i as int].header.mtime));
            push_list_line(&mut b, &entries[i], long);
        }
    }
    assert(ev.take(entries@.len() as int) =~= ev);
    b.write_to(w);
}


// ---------------------------------------------------------------------------
// Verification report
// ---------------------------------------------------------------------------

/// The label of an issue's severity in the text report.
pub open spec fn severity_label(sev: IssueSeverity) -> Seq<char> {
    match sev {
        IssueSeverity::Error => "ERROR"@,
        IssueSeverity::Warning => "WARN"@,
        IssueSeverity::Info => "INFO"@,
    }
}

/// The label of the overall status in the text report.
pub open spec fn status_label(st: VerifyStatus) -> Seq<char> {
    match st {
        VerifyStatus::Pass => "PASS"@,
        VerifyStatus::Fail => "FAIL"@,
        VerifyStatus::Warning => "WARNING"@,
    }
}

/// The lines of the issues in the text report, one each.
pub open spec fn issue_lines(is: Seq<IssueView>) -> Seq<char>
    decreases is.len(),
{
    if is.len() == 0 {
        Seq::empty()
    } else {
        let i = is.last();
        issue_lines(is.drop_last()) + "  ["@ + severity_label(i.0) + "] "@ + i.1 + ": "@ + i.2
            + seq!['\n']
    }
}

/// The text of `print_verify`.
pub open spec fn verify_text(r: VerifyReport) -> Seq<char> {
    let is = issues_view(r.issues@);
    "Archive Verification Report"@ + seq!['\n'] + "============================"@ + seq!['\n']
        + "Total entries:     "@ + dec(r.total_entries as nat) + seq!['\n']
        + "Valid checksums:   "@ + dec(r.valid_checksums as nat) + seq!['\n']
        + "Invalid checksums: "@ + dec(r.invalid_checksums as nat) + seq!['\n']
        + "Issues found:      "@ + dec(is.len()) + seq!['\n'] + seq!['\n'] + "Status: "@
        + status_label(r.overall_status) + seq!['\n'] + seq!['\n'] + if is.len() == 0 {
        Seq::<char>::empty()
    } else {
        "Issues:"@ + seq!['\n'] + issue_lines(is)
    }
}

fn severity_text(sev: IssueSeverity) -> (r: &'static str)
    ensures
        r@ == severity_label(sev),
{
    match sev {
        IssueSeverity::Error => "ERROR",
        IssueSeverity::Warning => "WARN",
        IssueSeverity::Info => "INFO",
    }
}

fn status_text(st: VerifyStatus) -> (r: &'static str)
    ensures
        r@ == status_label(st),
{
    match st {
        VerifyStatus::Pass => "PASS",
        VerifyStatus::Fail => "FAIL",
        VerifyStatus::Warning => "WARNING",
    }
}

fn push_count_line(b: &mut TextBuf, label: &str, n: usize)
    requires
        old(b).inv(),
    ensures
        final(b).inv(),
        final(b)@ == old(b)@ + label@ + dec(n as nat) + seq!['\n'],
{
    let ghost t = b@;
    b.push_str(label);
    b.push_dec(n as u64);
    b.push_char('\n');
    assert(b@ =~= t + label@ + dec(n as nat) + seq!['\n']);
}

fn push_issue_lines(b: &mut TextBuf, issues: &Vec<VerifyIssue>)
    requires
        old(b).inv(),
    ensures
        final(b).inv(),
        final(b)@ == old(b)@ + issue_lines(issues_view(issues@)),
{
    let ghost t = b@;
    let ghost iv = issues_view(issues@);
    for k in 0..issues.len()
        invariant
            iv == issues_view(issues@),
            b.inv(),
            b@ == t + issue_lines(iv.take(k as int)),
    {
        let ghost before = b@;
        assert(iv.take(k + 1).drop_last() =~= iv.take(k as int));
        assert(iv[k as int] == issues@[k as int]@);
        let issue = &issues[k];
        b.push_str("  [");
        b.push_str(severity_text(issue.severity));
        b.push_str("] ");
        b.push_str(issue.entry_name.as_str());
        b.push_str(": ");
        b.push_str(issue.message.as_str());
        b.push_char('\n');
        assert(b@ =~= t + issue_lines(iv.take(k + 1)));
    }
    assert(iv.take(issues@.len() as int) =~= iv);
}

/// Write a verification report in text format: the counts, the status and one line
/// per issue.
pub fn print_verify(w: &mut Vec<u8>, report: &VerifyReport)
    ensures
        final(w)@ == old(w)@ + encode_utf8(verify_text(*report)),
{
    let mut b = TextBuf::new();
    b.push_str("Archive Verification Report");
    b.push_char('\n');
    b.push_str("============================");
    b.push_char('\n');
    push_count_line(&mut b, "Total entries:     ", report.total_entries);
    push_count_line(&mut b, "Valid checksums:   ", report.valid_checksums);
    push_count_line(&mut b, "Invalid checksums: ", report.invalid_checksums);
    push_count_line(&mut b, "Issues found:      ", report.issues.len());
    b.push_char('\n');
    b.push_str("Status: ");
    b.push_str(status_text(report.overall_status));
    b.push_char('\n');
    b.push_char('\n');
    let ghost mid = b@;
    if report.issues.len() > 0 {
        b.push_str("Issues:");
        b.push_char('\n');
        push_issue_lines(&mut b, &report.issues);
    }
    assert(b@ =~= verify_text(*report));
    b.write_to(w);
}


// ---------------------------------------------------------------------------
// JSON
// ---------------------------------------------------------------------------

/// The items of a JSON array, separated by commas.
pub open spec fn json_join(items: Seq<Seq<char>>) -> Seq<char>
    decreases items.len(),
{
    if items.len() == 0 {
        Seq::empty()
    } else if items.len() == 1 {
        items[0]
    } else {
        json_join(items.drop_last()) + seq![','] + items.last()
    }
}

/// The severity of an issue in the JSON report.
pub open spec fn severity_json(sev: IssueSeverity) -> Seq<char> {
    match sev {
        IssueSeverity::Error => "error"@,
        IssueSeverity::Warning => "warning"@,
        IssueSeverity::Info => "info"@,
    }
}

/// The status in the JSON report.
pub open spec fn status_json(st: VerifyStatus) -> Seq<char> {
    match st {
        VerifyStatus::Pass => "pass"@,
        VerifyStatus::Fail => "fail"@,
        VerifyStatus::Warning => "warning"@,
    }
}

/// The JSON object of an issue.
pub open spec fn issue_json(i: IssueView) -> Seq<char> {
    "{\"severity\":\""@ + severity_json(i.0) + "\",\"entry\":\""@ + spec_json_escape(i.1)
        + "\",\"message\":\""@ + spec_json_escape(i.2) + "\"}"@
}

/// The text of `print_verify_json`.
pub open spec fn verify_json(r: VerifyReport) -> Seq<char> {
    "{\"total_entries\":"@ + dec(r.total_entries as nat) + ",\"valid_checksums\":"@ + dec(
        r.valid_checksums as nat,
    ) + ",\"invalid_checksums\":"@ + dec(r.invalid_checksums as nat) + ",\"status\":\""@
        + status_json(r.overall_status) + "\",\"issues\":["@ + json_join(
        issues_view(r.issues@).map_values(|i: IssueView| issue_json(i)),
    ) + "]}"@ + seq!['\n']
}

fn severity_json_text(sev: IssueSeverity) -> (r: &'static str)
    ensures
        r@ == severity_json(sev),
{
    match sev {
        IssueSeverity::Error => "error",
        IssueSeverity::Warning => "warning",
        IssueSeverity::Info => "info",
    }
}

fn status_json_text(st: VerifyStatus) -> (r: &'static str)
    ensures
        r@ == status_json(st),
{
    match st {
        VerifyStatus::Pass => "pass",
        VerifyStatus::Fail => "fail",
        VerifyStatus::Warning => "warning",
    }
}

/// Appending one more item to a JSON array.
proof fn lemma_json_join_push(items: Seq<Seq<char>>, x: Seq<char>)
    ensures
        json_join(items.push(x)) == json_join(items) + (if items.len() == 0 {
            Seq::<char>::empty()
        } else {
            seq![',']
        }) + x,
{
    assert(items.push(x).drop_last() =~= items);
    if items.len() == 0 {
        assert(json_join(items.push(x)) == x);
        assert(json_join(items) + Seq::<char>::empty() + x =~= x);
    }
}

fn push_issue_json(b: &mut TextBuf, issue: &VerifyIssue)
    requires
        old(b).inv(),
    ensures
        final(b).inv(),
        final(b)@ == old(b)@ + issue_json(issue@),
{
    let mut c = TextBuf::of("{\"severity\":\"");
    c.push_str(severity_json_text(issue.severity));
    c.push_str("\",\"entry\":\"");
    let e = json_escape(issue.entry_name.as_str());
    c.push_str(e.as_str());
    c.push_str("\",\"message\":\"");
    let m = json_escape(issue.message.as_str());
    c.push_str(m.as_str());
    c.push_str("\"}");
    let text = c.into_string();
    b.push_str(text.as_str());
}

/// Write a verification report in JSON format.
pub fn print_verify_json(w: &mut Vec<u8>, report: &VerifyReport)
    ensures
        final(w)@ == old(w)@ + encode_utf8(verify_json(*report)),
{
    let ghost iv = issues_view(report.issues@);
    let ghost items = iv.map_values(|i: IssueView| issue_json(i));
    let mut b = TextBuf::new();
    b.push_str("{\"total_entries\":");
    b.push_dec(report.total_entries as u64);
    b.push_str(",\"valid_checksums\":");
    b.push_dec(report.valid_checksums as u64);
    b.push_str(",\"invalid_checksums\":");
    b.push_dec(report.invalid_checksums as u64);
    b.push_str(",\"status\":\"");
    b.push_str(status_json_text(report.overall_status));
    b.push_str("\",\"issues\":[");
    let ghost head = b@;
    for k in 0..report.issues.len()
        invariant
            iv == issues_view(report.issues@),
            items == iv.map_values(|i: IssueView| issue_json(i)),
            b.inv(),
            b@ == head + json_join(items.take(k as int)),
    {
        let ghost before = b@;
        proof {
            lemma_json_join_push(items.take(k as int), items[k as int]);
            assert(items.take(k as int).push(items[k as int]) =~= items.take(k + 1));
            assert(iv[k as int] == report.issues@[k as int]@);
        }
        if k > 0 {
            b.push_char(',');
        }
        push_issue_json(&mut b, &report.issues[k]);
        assert(b@ =~= head + json_join(items.take(k + 1)));
    }
    assert(items.take(report.issues@.len() as int) =~= items);
    b.push_str("]}");
    b.push_char('\n');
    assert(b@ =~= verify_json(*report));
    b.write_to(w);
}

/// The JSON object of an entry in a listing.
pub open spec fn entry_json(h: HeaderView) -> Seq<char> {
    "{\"name\":\""@ + spec_json_escape(h.name) + "\",\"type\":\""@
        + h.entry_type.spec_description() + "\",\"size\":"@ + dec(h.size as nat) + ",\"mode\":\""@
        + pad_left(oct(h.mode as nat), 6, '0') + "\",\"uid\":"@ + dec(h.uid as nat) + ",\"gid\":"@
        + dec(h.gid as nat) + ",\"mtime\":"@ + dec(h.mtime as nat) + "}"@
}

/// The JSON objects of the entries that are not metadata.
pub open spec fn entry_objects(es: Seq<EntryView>) -> Seq<Seq<char>>
    decreases es.len(),
{
    if es.len() == 0 {
        Seq::empty()
    } else if es.last().header.entry_type.spec_is_metadata() {
        entry_objects(es.drop_last())
    } else {
        entry_objects(es.drop_last()).push(entry_json(es.last().header))
    }
}

/// The text of `print_list_json`.
pub open spec fn list_json(es: Seq<EntryView>) -> Seq<char> {
    seq!['['] + json_join(entry_objects(es)) + seq![']', '\n']
}

fn push_entry_json(b: &mut TextBuf, h: &TarHeader)
    requires
        old(b).inv(),
    ensures
        final(b).inv(),
        final(b)@ == old(b)@ + entry_json(h@),
{
    let mut c = TextBuf::of("{\"name\":\"");
    let n = json_escape(h.name.as_str());
    c.push_str(n.as_str());
    c.push_str("\",\"type\":\"");
    c.push_str(h.entry_type.description());
    c.push_str("\",\"size\":");
    c.push_dec(h.size);
    c.push_str(",\"mode\":\"");
    c.push_padded(h.mode as u64, 8, 6);
    c.push_str("\",\"uid\":");
    c.push_dec(h.uid as u64);
    c.push_str(",\"gid\":");
    c.push_dec(h.gid as u64);
    c.push_str(",\"mtime\":");
    c.push_dec(h.mtime);
    c.push_str("}");
    let text = c.into_string();
    b.push_str(text.as_str());
}

/// Write a list of entries in JSON format: an array with one object per entry that
/// is not metadata.
pub fn print_list_json(w: &mut Vec<u8>, entries: &[TarEntry])
    ensures
        final(w)@ == old(w)@ + encode_utf8(list_json(entries_view(entries@))),
{
    let ghost ev = entries_view(entries@);
    let mut b = TextBuf::new();
    b.push_char('[');
    let ghost head = b@;
    let mut first = true;
    for i in 0..entries.len()
        invariant
            ev == entries_view(entries@),
            b.inv(),
            b@ == head + json_join(entry_objects(ev.take(i as int))),
            first == (entry_objects(ev.take(i as int)).len() == 0),
    {
        assert(ev.take(i + 1).drop_last() =~= ev.take(i as int));
        assert(ev[i as int] == entries@[i as int]@);
        if !entries[i].header.entry_type.is_metadata() {
            proof {
                lemma_json_join_push(
                    entry_objects(ev.take(i as int)),
                    entry_json(ev[i as int].header),
                );
            }
            if !first {
                b.push_char(',');
            }
            first = false;
            push_entry_json(&mut b, &entries[i].header);
            assert(b@ =~= head + json_join(entry_objects(ev.take(i + 1))));
        }
    }
    assert(ev.take(entries@.len() as int) =~= ev);
    b.push_char(']');
    b.push_char('\n');
    assert(b@ =~= list_json(ev));
    b.write_to(w);
}

// ---------------------------------------------------------------------------
// Diff
// ---------------------------------------------------------------------------

/// The line `print_diff` writes for an added (`+`) or removed (`-`) entry.
pub open spec fn entry_change_line(sign: char, name: Seq<char>, t: EntryType, size: u64) -> Seq<
    char,
> {
    seq![' ', ' ', sign, ' '] + name + "  ("@ + t.spec_description() + ", "@ + spec_format_size(size)
        + seq![')', '\n']
}

/// The lines `print_diff` writes for a modified entry: its name, then the size and
/// the mtime where they changed, and a note where the content changed.
pub open spec fn modified_lines(
    name: Seq<char>,
    old_size: u64,
    new_size: u64,
    old_mtime: u64,
    new_mtime: u64,
    content_changed: bool,
) -> Seq<char> {
    "  M "@ + name + seq!['\n'] + (if old_size != new_size {
        "      size: "@ + spec_format_size(old_size) + " -> "@ + spec_format_size(new_size) + seq![
            '\n',
        ]
    } else {
        Seq::<char>::empty()
    }) + (if old_mtime != new_mtime {
        "      mtime: "@ + spec_format_mtime(old_mtime) + " -> "@ + spec_format_mtime(new_mtime)
            + seq!['\n']
    } else {
        Seq::<char>::empty()
    }) + (if content_changed {
        "      content changed"@ + seq!['\n']
    } else {
        Seq::<char>::empty()
    })
}

/// The lines `print_diff` writes for one change.
pub open spec fn change_lines(c: ChangeView) -> Seq<char> {
    match c {
        ChangeView::Added { name, entry_type, size } => entry_change_line(
            '+',
            name,
            entry_type,
            size,
        ),
        ChangeView::Removed { name, entry_type, size } => entry_change_line(
            '-',
            name,
            entry_type,
            size,
        ),
        ChangeView::Modified {
            name,
            old_size,
            new_size,
            old_mtime,
            new_mtime,
            content_changed,
            ..
        } => modified_lines(name, old_size, new_size, old_mtime, new_mtime, content_changed),
        ChangeView::TypeChanged { name, old_type, new_type } => "  T "@ + name + ": "@
            + old_type.spec_description() + " -> "@ + new_type.spec_description() + seq!['\n'],
    }
}

/// The lines of all changes.
pub open spec fn changes_lines(cs: Seq<ChangeView>) -> Seq<char>
    decreases cs.len(),
{
    if cs.len() == 0 {
        Seq::empty()
    } else {
        changes_lines(cs.drop_last()) + change_lines(cs.last())
    }
}

/// Whether `print_diff` can write the timestamps of a change.
pub open spec fn change_printable(c: ChangeView) -> bool {
    c matches ChangeView::Modified { old_mtime, new_mtime, .. } ==> (old_mtime != new_mtime
        ==> mtime_formattable(old_mtime) && mtime_formattable(new_mtime))
}

/// The text of `print_diff`.
pub open spec fn diff_text(d: DiffResult, path1: Seq<char>, path2: Seq<char>) -> Seq<char> {
    let cs = changes_view(d.changes@);
    "Archive Diff: "@ + path1 + " vs "@ + path2 + seq!['\n']
        + "=========================================="@ + seq!['\n'] + "Added entries:      "@
        + dec(d.added_count as nat) + seq!['\n'] + "Removed entries:    "@ + dec(
        d.removed_count as nat,
    ) + seq!['\n'] + "Modified entries:   "@ + dec(d.modified_count as nat) + seq!['\n']
        + "Type changes:       "@ + dec(d.type_changed_count as nat) + seq!['\n']
        + "Unchanged entries:  "@ + dec(d.unchanged_count as nat) + seq!['\n'] + seq!['\n']
        + if cs.len() == 0 {
        Seq::<char>::empty()
    } else {
        "Changes:"@ + seq!['\n'] + changes_lines(cs)
    }
}

fn push_entry_change_line(b: &mut TextBuf, sign: char, name: &String, t: EntryType, size: u64)
    requires
        old(b).inv(),
        sign == '+' || sign == '-',
    ensures
        final(b).inv(),
        final(b)@ == old(b)@ + entry_change_line(sign, name@, t, size),
{
    let mut c = TextBuf::new();
    c.push_char(' ');
    c.push_char(' ');
    c.push_char(sign);
    c.push_char(' ');
    assert(c@ =~= seq![' ', ' ', sign, ' ']);
    c.push_str(name.as_str());
    c.push_str("  (");
    c.push_str(t.description());
    c.push_str(", ");
    let fs = format_size(size);
    c.push_str(fs.as_str());
    c.push_char(')');
    c.push_char('\n');
    assert(c@ =~= entry_change_line(sign, name@, t, size));
    let text = c.into_string();
    b.push_str(text.as_str());
}

fn size_change_text(old_size: u64, new_size: u64) -> (r: String)
    ensures
        r@ == "      size: "@ + spec_format_size(old_size) + " -> "@ + spec_format_size(new_size)
            + seq!['\n'],
{
    let mut b = TextBuf::of("      size: ");
    let a = format_size(old_size);
    b.push_str(a.as_str());
    b.push_str(" -> ");
    let z = format_size(new_size);
    b.push_str(z.as_str());
    b.push_char('\n');
    b.into_string()
}

fn mtime_change_text(old_mtime: u64, new_mtime: u64) -> (r: String)
    requires
        mtime_formattable(old_mtime),
        mtime_formattable(new_mtime),
    ensures
        r@ == "      mtime: "@ + spec_format_mtime(old_mtime) + " -> "@ + spec_format_mtime(new_mtime)
            + seq!['\n'],
{
    let mut b = TextBuf::of("      mtime: ");
    let a = format_mtime(old_mtime);
    b.push_str(a.as_str());
    b.push_str(" -> ");
    let z = format_mtime(new_mtime);
    b.push_str(z.as_str());
    b.push_char('\n');
    b.into_string()
}

fn push_modified_lines(
    b: &mut TextBuf,
    name: &String,
    old_size: u64,
    new_size: u64,
    old_mtime: u64,
    new_mtime: u64,
    content_changed: bool,
)
    requires
        old(b).inv(),
        old_mtime != new_mtime ==> mtime_formattable(old_mtime) && mtime_formattable(new_mtime),
    ensures
        final(b).inv(),
        final(b)@ == old(b)@ + modified_lines(
            name@,
            old_size,
            new_size,
            old_mtime,
            new_mtime,
            content_changed,
        ),
{
    let ghost t = b@;
    let mut m = TextBuf::of("  M ");
    m.push_str(name.as_str());
    m.push_char('\n');
    let sz = if old_size != new_size {
        size_change_text(old_size, new_size)
    } else {
        String::new()
    };
    m.push_str(sz.as_str());
    let mt = if old_mtime != new_mtime {
        mtime_change_text(old_mtime, new_mtime)
    } else {
        String::new()
    };
    m.push_str(mt.as_str());
    let cc = if content_changed {
        let mut c = TextBuf::of("      content changed");
        c.push_char('\n');
        c.into_string()
    } else {
        String::new()
    };
    m.push_str(cc.as_str());
    assert(m@ == modified_lines(name@, old_size, new_size, old_mtime, new_mtime, content_changed));
    let s = m.into_string();
    b.push_str(s.as_str());
}

fn push_change_lines(b: &mut TextBuf, c: &Change)
    requires
        old(b).inv(),
        change_printable(c@),
    ensures
        final(b).inv(),
        final(b)@ == old(b)@ + change_lines(c@),
{
    let ghost t = b@;
    match c {
        Change::Added { name, entry_type, size } => {
            push_entry_change_line(b, '+', name, *entry_type, *size);
        },
        Change::Removed { name, entry_type, size } => {
            push_entry_change_line(b, '-', name, *entry_type, *size);
        },
        Change::Modified { name, old_size, new_size, old_mtime, new_mtime, content_changed, .. } => {
            push_modified_lines(
                b,
                name,
                *old_size,
                *new_size,
                *old_mtime,
                *new_mtime,
                *content_changed,
            );
        },
        Change::TypeChanged { name, old_type, new_type } => {
            b.push_str("  T ");
            b.push_str(name.as_str());
            b.push_str(": ");
            b.push_str(old_type.description());
            b.push_str(" -> ");
            b.push_str(new_type.description());
            b.push_char('\n');
            assert(b@ =~= t + change_lines(c@));
        },
    }
}

/// Write the result of a diff in text format: the two archives' names, the counts
/// and the lines of each change.
pub fn print_diff(w: &mut Vec<u8>, diff: &DiffResult, path1: &str, path2: &str)
    requires
        forall|k: int|
            0 <= k < diff.changes@.len() ==> change_printable(#[trigger] diff.changes@[k]@),
    ensures
        final(w)@ == old(w)@ + encode_utf8(diff_text(*diff, path1@, path2@)),
{
    let ghost cs = changes_view(diff.changes@);
    let mut b = TextBuf::new();
    b.push_str("Archive Diff: ");
    b.push_str(path1);
    b.push_str(" vs ");
    b.push_str(path2);
    b.push_char('\n');
    b.push_str("==========================================");
    b.push_char('\n');
    push_count_line(&mut b, "Added entries:      ", diff.added_count);
    push_count_line(&mut b, "Removed entries:    ", diff.removed_count);
    push_count_line(&mut b, "Modified entries:   ", diff.modified_count);
    push_count_line(&mut b, "Type changes:       ", diff.type_changed_count);
    push_count_line(&mut b, "Unchanged entries:  ", diff.unchanged_count);
    b.push_char('\n');
    let ghost head = b@;
    if diff.changes.len() > 0 {
        b.push_str("Changes:");
        b.push_char('\n');
        let ghost head2 = b@;
        for k in 0..diff.changes.len()
            invariant
                cs == changes_view(diff.changes@),
                forall|k: int|
                    0 <= k < diff.changes@.len() ==> change_printable(
                        #[trigger] diff.changes@[k]@,
                    ),
                b.inv(),
                b@ == head2 + changes_lines(cs.take(k as int)),
        {
            assert(cs.take(k + 1).drop_last() =~= cs.take(k as int));
            assert(change_printable(diff.changes@[k as int]@));
            push_change_lines(&mut b, &diff.changes[k]);
            assert(b@ =~= head2 + changes_lines(cs.take(k + 1)));
        }
        assert(cs.take(diff.changes@.len() as int) =~= cs);
    }
    assert(b@ =~= diff_text(*diff, path1@, path2@));
    b.write_to(w);
}

/// `true` or `false`.
pub open spec fn bool_text(b: bool) -> Seq<char> {
    if b {
        "true"@
    } else {
        "false"@
    }
}

/// The JSON object of a change.
pub open spec fn change_json(c: ChangeView) -> Seq<char> {
    match c {
        ChangeView::Added { name, entry_type, size } => "{\"type\":\"added\",\"name\":\""@
            + spec_json_escape(name) + "\",\"entry_type\":\""@ + entry_type.spec_description()
            + "\",\"size\":"@ + dec(size as nat) + "}"@,
        ChangeView::Removed { name, entry_type, size } => "{\"type\":\"removed\",\"name\":\""@
            + spec_json_escape(name) + "\",\"entry_type\":\""@ + entry_type.spec_description()
            + "\",\"size\":"@ + dec(size as nat) + "}"@,
        ChangeView::Modified {
            name,
            old_size,
            new_size,
            old_mtime,
            new_mtime,
            content_changed,
            ..
        } => "{\"type\":\"modified\",\"name\":\""@ + spec_json_escape(name) + "\",\"old_size\":"@
            + dec(old_size as nat) + ",\"new_size\":"@ + dec(new_size as nat) + ",\"old_mtime\":"@
            + dec(old_mtime as nat) + ",\"new_mtime\":"@ + dec(new_mtime as nat)
            + ",\"content_changed\":"@ + bool_text(content_changed) + "}"@,
        ChangeView::TypeChanged { name, old_type, new_type } => "{\"type\":\"type_changed\",\"name\":\""@
            + spec_json_escape(name) + "\",\"old_type\":\""@ + old_type.spec_description()
            + "\",\"new_type\":\""@ + new_type.spec_description() + "\"}"@,
    }
}

/// The text of `print_diff_json`.
pub open spec fn diff_json(d: DiffResult) -> Seq<char> {
    "{\"added_count\":"@ + dec(d.added_count as nat) + ",\"removed_count\":"@ + dec(
        d.removed_count as nat,
    ) + ",\"modified_count\":"@ + dec(d.modified_count as nat) + ",\"type_changed_count\":"@ + dec(
        d.type_changed_count as nat,
    ) + ",\"unchanged_count\":"@ + dec(d.unchanged_count as nat) + ",\"changes\":["@ + json_join(
        changes_view(d.changes@).map_values(|c: ChangeView| change_json(c)),
    ) + "]}"@ + seq!['\n']
}

fn entry_change_json(kind: &str, name: &String, t: EntryType, size: u64) -> (r: String)
    ensures
        r@ == "{\"type\":\""@ + kind@ + "\",\"name\":\""@ + spec_json_escape(name@)
            + "\",\"entry_type\":\""@ + t.spec_description() + "\",\"size\":"@ + dec(size as nat)
            + "}"@,
{
    let mut b = TextBuf::of("{\"type\":\"");
    b.push_str(kind);
    b.push_str("\",\"name\":\"");
    let n = json_escape(name.as_str());
    b.push_str(n.as_str());
    b.push_str("\",\"entry_type\":\"");
    b.push_str(t.description());
    b.push_str("\",\"size\":");
    b.push_dec(size);
    b.push_str("}");
    b.into_string()
}

fn change_json_text(c: &Change) -> (r: String)
    ensures
        r@ == change_json(c@),
{
    match c {
        Change::Added { name, entry_type, size } => {
            let r = entry_change_json("added", name, *entry_type, *size);
            proof {
                reveal_strlit("added");
                reveal_strlit("{\"type\":\"");
                reveal_strlit("{\"type\":\"added\",\"name\":\"");
                reveal_strlit("\",\"name\":\"");
                assert("{\"type\":\""@ + "added"@ + "\",\"name\":\""@
                    =~= "{\"type\":\"added\",\"name\":\""@);
            }
            r
        },
        Change::Removed { name, entry_type, size } => {
            let r = entry_change_json("removed", name, *entry_type, *size);
            proof {
                reveal_strlit("removed");
                reveal_strlit("{\"type\":\"");
                reveal_strlit("{\"type\":\"removed\",\"name\":\"");
                reveal_strlit("\",\"name\":\"");
                assert("{\"type\":\""@ + "removed"@ + "\",\"name\":\""@
                    =~= "{\"type\":\"removed\",\"name\":\""@);
            }
            r
        },
        Change::Modified { name, old_size, new_size, old_mtime, new_mtime, content_changed, .. } => {
            let mut b = TextBuf::of("{\"type\":\"modified\",\"name\":\"");
            let n = json_escape(name.as_str());
            b.push_str(n.as_str());
            b.push_str("\",\"old_size\":");
            b.push_dec(*old_size);
            b.push_str(",\"new_size\":");
            b.push_dec(*new_size);
            b.push_str(",\"old_mtime\":");
            b.push_dec(*old_mtime);
            b.push_str(",\"new_mtime\":");
            b.push_dec(*new_mtime);
            b.push_str(",\"content_changed\":");
            b.push_str(
                if *content_changed {
                    "true"
                } else {
                    "false"
                },
            );
            b.push_str("}");
            b.into_string()
        },
        Change::TypeChanged { name, old_type, new_type } => {
            let mut b = TextBuf::of("{\"type\":\"type_changed\",\"name\":\"");
            let n = json_escape(name.as_str());
            b.push_str(n.as_str());
            b.push_str("\",\"old_type\":\"");
            b.push_str(old_type.description());
            b.push_str("\",\"new_type\":\"");
            b.push_str(new_type.description());
            b.push_str("\"}");
            b.into_string()
        },
    }
}

/// Write the result of a diff in JSON format.
pub fn print_diff_json(w: &mut Vec<u8>, diff: &DiffResult)
    ensures
        final(w)@ == old(w)@ + encode_utf8(diff_json(*diff)),
{
    let ghost cv = changes_view(diff.changes@);
    let ghost items = cv.map_values(|c: ChangeView| change_json(c));
    let mut b = TextBuf::of("{\"added_count\":");
    b.push_dec(diff.added_count as u64);
    b.push_str(",\"removed_count\":");
    b.push_dec(diff.removed_count as u64);
    b.push_str(",\"modified_count\":");
    b.push_dec(diff.modified_count as u64);
    b.push_str(",\"type_changed_count\":");
    b.push_dec(diff.type_changed_count as u64);
    b.push_str(",\"unchanged_count\":");
    b.push_dec(diff.unchanged_count as u64);
    b.push_str(",\"changes\":[");
    let ghost head = b@;
    for k in 0..diff.changes.len()
        invariant
            cv == changes_view(diff.changes@),
            items == cv.map_values(|c: ChangeView| change_json(c)),
            b.inv(),
            b@ == head + json_join(items.take(k as int)),
    {
        proof {
            lemma_json_join_push(items.take(k as int), items[k as int]);
            assert(items.take(k as int).push(items[k as int]) =~= items.take(k + 1));
            assert(cv[k as int] == diff.changes@[k as int]@);
        }
        if k > 0 {
            b.push_char(',');
        }
        let o = change_json_text(&diff.changes[k]);
        b.push_str(o.as_str());
        assert(b@ =~= head + json_join(items.take(k + 1)));
    }
    assert(items.take(diff.changes@.len() as int) =~= items);
    b.push_str("]}");
    b.push_char('\n');
    assert(b@ =~= diff_json(*diff));
    b.write_to(w);
}

// ---------------------------------------------------------------------------
// Archive info
// ---------------------------------------------------------------------------

/// The formats of the entries, each once, in the order they first occur.
pub open spec fn formats_seen(es: Seq<EntryView>) -> Seq<TarFormat>
    decreases es.len(),
{
    if es.len() == 0 {
        Seq::empty()
    } else {
        let p = formats_seen(es.drop_last());
        if p.contains(es.last().header.format) {
            p
        } else {
            p.push(es.last().header.format)
        }
    }
}

/// One line per format, as `  - NAME`.
pub open spec fn format_lines(fs: Seq<TarFormat>) -> Seq<char>
    decreases fs.len(),
{
    if fs.len() == 0 {
        Seq::empty()
    } else {
        format_lines(fs.drop_last()) + "  - "@ + fs.last().spec_name() + seq!['\n']
    }
}

/// What `print_info` says of the formats.
pub open spec fn formats_text(fs: Seq<TarFormat>) -> Seq<char> {
    if fs.len() == 1 {
        "Format: "@ + fs[0].spec_name() + seq!['\n']
    } else if fs.len() == 0 {
        "Format: (empty archive)"@ + seq!['\n']
    } else {
        "Formats detected:"@ + seq!['\n'] + format_lines(fs)
    }
}

/// The text of `print_info`.
pub open spec fn info_text(es: Seq<EntryView>, path: Seq<char>) -> Seq<char> {
    let meta = metadata_count(es);
    "Archive: "@ + path + seq!['\n'] + "================"@ + seq!['\n'] + "Total blocks:       "@
        + dec(es.len()) + seq!['\n'] + "Data entries:       "@ + dec((es.len() - meta) as nat)
        + seq!['\n'] + "Metadata entries:   "@ + dec(meta) + seq!['\n'] + seq!['\n']
        + formats_text(formats_seen(es)) + seq!['\n'] + "Entry summary:"@ + seq!['\n']
        + "  Files:       "@ + dec(kind_count(es, 0)) + seq!['\n'] + "  Directories: "@ + dec(
        kind_count(es, 1),
    ) + seq!['\n'] + "  Links:       "@ + dec(kind_count(es, 2)) + seq!['\n'] + "  Other:       "@
        + dec(kind_count(es, 3)) + seq!['\n']
}

fn push_format_lines(b: &mut TextBuf, fs: &Vec<TarFormat>)
    requires
        old(b).inv(),
    ensures
        final(b).inv(),
        final(b)@ == old(b)@ + format_lines(fs@),
{
    let ghost t = b@;
    for i in 0..fs.len()
        invariant
            b.inv(),
            b@ == t + format_lines(fs@.take(i as int)),
    {
        assert(fs@.take(i + 1).drop_last() =~= fs@.take(i as int));
        b.push_str("  - ");
        b.push_str(fs[i].name());
        b.push_char('\n');
        assert(b@ =~= t + format_lines(fs@.take(i + 1)));
    }
    assert(fs@.take(fs@.len() as int) =~= fs@);
}

/// Write a summary of an archive: its name, the number of blocks, data and metadata
/// entries, the formats found and the number of files, directories, links and others.
pub fn print_info(w: &mut Vec<u8>, entries: &[TarEntry], path: &str)
    ensures
        final(w)@ == old(w)@ + encode_utf8(info_text(entries_view(entries@), path@)),
{
    let ghost ev = entries_view(entries@);
    let mut formats: Vec<TarFormat> = Vec::new();
    let mut metadata: usize = 0;
    let mut file_count: usize = 0;
    let mut dir_count: usize = 0;
    let mut link_count: usize = 0;
    let mut other_count: usize = 0;
    for i in 0..entries.len()
        invariant
            ev == entries_view(entries@),
            formats@ == formats_seen(ev.take(i as int)),
            metadata == metadata_count(ev.take(i as int)),
            file_count == kind_count(ev.take(i as int), 0),
            dir_count == kind_count(ev.take(i as int), 1),
            link_count == kind_count(ev.take(i as int), 2),
            other_count == kind_count(ev.take(i as int), 3),
            metadata + file_count + dir_count + link_count + other_count == i,
    {
        assert(ev.take(i + 1).drop_last() =~= ev.take(i as int));
        assert(ev[i as int] == entries@[i as int]@);
        let h = &entries[i].header;
        if !contains_format(&formats, h.format) {
            formats.push(h.format);
        }
        let et = &h.entry_type;
        if et.is_metadata() {
            metadata = metadata + 1;
        } else if et.is_regular() {
            file_count = file_count + 1;
        } else if et.is_directory() {
            dir_count = dir_count + 1;
        } else if et.is_link() {
            link_count = link_count + 1;
        } else {
            other_count = other_count + 1;
        }
    }
    assert(ev.take(entries@.len() as int) =~= ev);
    let total = entries.len();
    let mut b = TextBuf::of("Archive: ");
    b.push_str(path);
    b.push_char('\n');
    b.push_str("================");
    b.push_char('\n');
    push_count_line(&mut b, "Total blocks:       ", total);
    push_count_line(&mut b, "Data entries:       ", total - metadata);
    push_count_line(&mut b, "Metadata entries:   ", metadata);
    b.push_char('\n');
    let ghost mid = b@;
    if formats.len() == 1 {
        b.push_str("Format: ");
        b.push_str(formats[0].name());
        b.push_char('\n');
    } else if formats.len() == 0 {
        b.push_str("Format: (empty archive)");
        b.push_char('\n');
    } else {
        b.push_str("Formats detected:");
        b.push_char('\n');
        push_format_lines(&mut b, &formats);
    }
    assert(b@ =~= mid + formats_text(formats@));
    b.push_char('\n');
    b.push_str("Entry summary:");
    b.push_char('\n');
    push_count_line(&mut b, "  Files:       ", file_count);
    push_count_line(&mut b, "  Directories: ", dir_count);
    push_count_line(&mut b, "  Links:       ", link_count);
    push_count_line(&mut b, "  Other:       ", other_count);
    assert(b@ =~= info_text(ev, path@));
    b.write_to(w);
}

// ---------------------------------------------------------------------------
// Statistics
// ---------------------------------------------------------------------------

/// `x` put into `s` after every element whose count is at least as large: how a
/// stable sort by decreasing count places it.
pub open spec fn insert_count_desc(s: Seq<(Seq<char>, nat)>, x: (Seq<char>, nat)) -> Seq<
    (Seq<char>, nat),
>
    decreases s.len(),
{
    if s.len() == 0 {
        seq![x]
    } else if s[0].1 < x.1 {
        seq![x] + s
    } else {
        seq![s[0]] + insert_count_desc(s.drop_first(), x)
    }
}

/// The type counts sorted by decreasing count, equal counts kept in order.
pub open spec fn sorted_by_count(cs: Seq<(Seq<char>, nat)>) -> Seq<(Seq<char>, nat)>
    decreases cs.len(),
{
    if cs.len() == 0 {
        Seq::empty()
    } else {
        insert_count_desc(sorted_by_count(cs.drop_last()), cs.last())
    }
}

/// The lines of the entry type breakdown.
pub open spec fn type_lines(cs: Seq<(Seq<char>, nat)>) -> Seq<char>
    decreases cs.len(),
{
    if cs.len() == 0 {
        Seq::empty()
    } else {
        type_lines(cs.drop_last()) + "  "@ + cs.last().0 + ": "@ + dec(cs.last().1) + seq!['\n']
    }
}

/// The lines of the largest files.
pub open spec fn top_lines(fs: Seq<(Seq<char>, u64)>) -> Seq<char>
    decreases fs.len(),
{
    if fs.len() == 0 {
        Seq::empty()
    } else {
        top_lines(fs.drop_last()) + "  "@ + fs.last().0 + ": "@ + spec_format_size(fs.last().1)
            + seq!['\n']
    }
}

/// The names of formats joined by commas.
pub open spec fn format_list(fs: Seq<TarFormat>) -> Seq<char>
    decreases fs.len(),
{
    if fs.len() == 0 {
        Seq::empty()
    } else if fs.len() == 1 {
        fs[0].spec_name()
    } else {
        format_list(fs.drop_last()) + ", "@ + fs.last().spec_name()
    }
}

/// A line naming a file and its size, where there is such a file.
pub open spec fn file_line(label: Seq<char>, p: Option<(Seq<char>, u64)>) -> Seq<char> {
    match p {
        Some(f) => label + f.0 + " ("@ + spec_format_size(f.1) + seq![')', '\n'],
        None => Seq::empty(),
    }
}

/// The counts and sizes of `print_stats`, up to the average.
pub open spec fn stats_counts_text(st: ArchiveStats) -> Seq<char> {
    "Archive Statistics"@ + seq!['\n'] + "=================="@ + seq!['\n']
        + "Total entries:      "@ + dec(st.total_entries as nat) + seq!['\n']
        + "Files:              "@ + dec(st.file_count as nat) + seq!['\n']
        + "Directories:        "@ + dec(st.directory_count as nat) + seq!['\n']
        + "Links:              "@ + dec(st.link_count as nat) + seq!['\n']
        + "Other:              "@ + dec(st.other_count as nat) + seq!['\n']
        + "Metadata entries:   "@ + dec(st.metadata_count as nat) + seq!['\n'] + seq!['\n']
        + "Total uncompressed:  "@ + spec_format_size(st.total_uncompressed_size) + seq!['\n']
        + file_line("Largest file:        "@, opt_pair_view(st.largest_file)) + file_line(
        "Smallest file:       "@,
        opt_pair_view(st.smallest_file),
    )
}

/// The formats, the type breakdown and the largest files of `print_stats`.
pub open spec fn stats_lists_text(st: ArchiveStats) -> Seq<char> {
    (match st.format {
        Some(f) => "Detected format:     "@ + f.spec_name() + seq!['\n'],
        None => Seq::<char>::empty(),
    }) + (if st.formats_detected@.len() > 1 {
        "All formats:         "@ + format_list(st.formats_detected@) + seq!['\n']
    } else {
        Seq::<char>::empty()
    }) + seq!['\n'] + (if st.entry_types@.len() > 0 {
        "Entry type breakdown:"@ + seq!['\n'] + type_lines(
            sorted_by_count(counts_view(st.entry_types@)),
        )
    } else {
        Seq::<char>::empty()
    }) + seq!['\n'] + (if st.top_largest_files@.len() > 0 {
        "Top largest files:"@ + seq!['\n'] + top_lines(pairs_view(st.top_largest_files@))
    } else {
        Seq::<char>::empty()
    })
}

/// The text of `print_stats`.
pub open spec fn stats_text(st: ArchiveStats) -> Seq<char> {
    stats_counts_text(st) + "Average file size:   "@ + spec_average_text(
        st.total_uncompressed_size,
        st.file_count as nat,
    ) + " bytes"@ + seq!['\n'] + seq![
        '\n',
    ] + stats_lists_text(st)
}

fn file_line_text(label: &str, p: &Option<(String, u64)>) -> (r: String)
    ensures
        r@ == file_line(label@, opt_pair_view(*p)),
{
    match p {
        Some(f) => {
            let mut b = TextBuf::of(label);
            b.push_str(f.0.as_str());
            b.push_str(" (");
            let s = format_size(f.1);
            b.push_str(s.as_str());
            b.push_char(')');
            b.push_char('\n');
            assert(b@ =~= file_line(label@, opt_pair_view(*p)));
            b.into_string()
        },
        None => String::new(),
    }
}

fn stats_counts_string(st: &ArchiveStats) -> (r: String)
    ensures
        r@ == stats_counts_text(*st),
{
    let mut b = TextBuf::of("Archive Statistics");
    b.push_char('\n');
    b.push_str("==================");
    b.push_char('\n');
    b.push_str("Total entries:      ");
    b.push_dec(st.total_entries as u64);
    b.push_char('\n');
    b.push_str("Files:              ");
    b.push_dec(st.file_count as u64);
    b.push_char('\n');
    b.push_str("Directories:        ");
    b.push_dec(st.directory_count as u64);
    b.push_char('\n');
    b.push_str("Links:              ");
    b.push_dec(st.link_count as u64);
    b.push_char('\n');
    b.push_str("Other:              ");
    b.push_dec(st.other_count as u64);
    b.push_char('\n');
    b.push_str("Metadata entries:   ");
    b.push_dec(st.metadata_count as u64);
    b.push_char('\n');
    b.push_char('\n');
    b.push_str("Total uncompressed:  ");
    let t = format_size(st.total_uncompressed_size);
    b.push_str(t.as_str());
    b.push_char('\n');
    let l = file_line_text("Largest file:        ", &st.largest_file);
    b.push_str(l.as_str());
    let m = file_line_text("Smallest file:       ", &st.smallest_file);
    b.push_str(m.as_str());
    b.into_string()
}

fn format_list_text(fs: &Vec<TarFormat>) -> (r: String)
    ensures
        r@ == format_list(fs@),
{
    let mut b = TextBuf::new();
    for i in 0..fs.len()
        invariant
            b.inv(),
            b@ == format_list(fs@.take(i as int)),
    {
        assert(fs@.take(i + 1).drop_last() =~= fs@.take(i as int));
        if i > 0 {
            b.push_str(", ");
        }
        b.push_str(fs[i].name());
        proof {
            if i == 0 {
                assert(b@ =~= format_list(fs@.take(1)));
            }
        }
        assert(b@ =~= format_list(fs@.take(i + 1)));
    }
    assert(fs@.take(fs@.len() as int) =~= fs@);
    b.into_string()
}

proof fn lemma_insert_count_desc_at(s: Seq<(Seq<char>, nat)>, x: (Seq<char>, nat), p: int)
    requires
        0 <= p <= s.len(),
        forall|i: int| 0 <= i < p ==> s[i].1 >= x.1,
        p < s.len() ==> s[p].1 < x.1,
    ensures
        insert_count_desc(s, x) == s.insert(p, x),
    decreases s.len(),
{
    if s.len() == 0 {
        assert(s.insert(p, x) =~= seq![x]);
    } else if p == 0 {
        assert(s.insert(p, x) =~= seq![x] + s);
    } else {
        let t = s.drop_first();
        lemma_insert_count_desc_at(t, x, p - 1);
        assert(s.insert(p, x) =~= seq![s[0]] + t.insert(p - 1, x));
    }
}

fn sort_by_count(v: &Vec<(String, usize)>) -> (r: Vec<(String, usize)>)
    ensures
        counts_view(r@) == sorted_by_count(counts_view(v@)),
{
    let ghost cv = counts_view(v@);
    let mut r: Vec<(String, usize)> = Vec::new();
    assert(counts_view(r@) =~= Seq::<(Seq<char>, nat)>::empty());
    for i in 0..v.len()
        invariant
            cv == counts_view(v@),
            counts_view(r@) == sorted_by_count(cv.take(i as int)),
    {
        assert(cv.take(i + 1).drop_last() =~= cv.take(i as int));
        let ghost rv = counts_view(r@);
        let x = (v[i].0.clone(), v[i].1);
        assert(cv[i as int] == (x.0@, x.1 as nat));
        let mut p: usize = 0;
        while p < r.len() && r[p].1 >= x.1
            invariant
                p <= r@.len(),
                rv == counts_view(r@),
                forall|k: int| 0 <= k < p ==> rv[k].1 >= x.1,
            decreases r@.len() - p,
        {
            p = p + 1;
        }
        proof {
            lemma_insert_count_desc_at(rv, (x.0@, x.1 as nat), p as int);
        }
        r.insert(p, x);
        assert(counts_view(r@) =~= rv.insert(p as int, (x.0@, x.1 as nat)));
    }
    assert(cv.take(v@.len() as int) =~= cv);
    r
}

fn type_lines_text(cs: &Vec<(String, usize)>) -> (r: String)
    ensures
        r@ == type_lines(counts_view(cs@)),
{
    let ghost cv = counts_view(cs@);
    let mut b = TextBuf::new();
    for i in 0..cs.len()
        invariant
            cv == counts_view(cs@),
            b.inv(),
            b@ == type_lines(cv.take(i as int)),
    {
        assert(cv.take(i + 1).drop_last() =~= cv.take(i as int));
        b.push_str("  ");
        b.push_str(cs[i].0.as_str());
        b.push_str(": ");
        b.push_dec(cs[i].1 as u64);
        b.push_char('\n');
        assert(b@ =~= type_lines(cv.take(i + 1)));
    }
    assert(cv.take(cs@.len() as int) =~= cv);
    b.into_string()
}

fn top_lines_text(fs: &Vec<(String, u64)>) -> (r: String)
    ensures
        r@ == top_lines(pairs_view(fs@)),
{
    let ghost pv = pairs_view(fs@);
    let mut b = TextBuf::new();
    for i in 0..fs.len()
        invariant
            pv == pairs_view(fs@),
            b.inv(),
            b@ == top_lines(pv.take(i as int)),
    {
        assert(pv.take(i + 1).drop_last() =~= pv.take(i as int));
        b.push_str("  ");
        b.push_str(fs[i].0.as_str());
        b.push_str(": ");
        let s = format_size(fs[i].1);
        b.push_str(s.as_str());
        b.push_char('\n');
        assert(b@ =~= top_lines(pv.take(i + 1)));
    }
    assert(pv.take(fs@.len() as int) =~= pv);
    b.into_string()
}

fn stats_lists_string(st: &ArchiveStats) -> (r: String)
    ensures
        r@ == stats_lists_text(*st),
{
    let a = match st.format {
        Some(f) => {
            let mut b = TextBuf::of("Detected format:     ");
            b.push_str(f.name());
            b.push_char('\n');
            b.into_string()
        },
        None => String::new(),
    };
    let mut b = TextBuf::of(a.as_str());
    let c = if st.formats_detected.len() > 1 {
        let mut c = TextBuf::of("All formats:         ");
        let l = format_list_text(&st.formats_detected);
        c.push_str(l.as_str());
        c.push_char('\n');
        c.into_string()
    } else {
        String::new()
    };
    b.push_str(c.as_str());
    b.push_char('\n');
    let d = if st.entry_types.len() > 0 {
        let mut d = TextBuf::of("Entry type breakdown:");
        d.push_char('\n');
        let sorted = sort_by_count(&st.entry_types);
        let l = type_lines_text(&sorted);
        d.push_str(l.as_str());
        d.into_string()
    } else {
        String::new()
    };
    b.push_str(d.as_str());
    b.push_char('\n');
    let e = if st.top_largest_files.len() > 0 {
        let mut e = TextBuf::of("Top largest files:");
        e.push_char('\n');
        let l = top_lines_text(&st.top_largest_files);
        e.push_str(l.as_str());
        e.into_string()
    } else {
        String::new()
    };
    b.push_str(e.as_str());
    b.into_string()
}

/// Write statistics in text format.
pub fn print_stats(w: &mut Vec<u8>, stats: &ArchiveStats)
    ensures
        final(w)@ == old(w)@ + encode_utf8(stats_text(*stats)),
{
    let a = stats_counts_string(stats);
    let mut b = TextBuf::of(a.as_str());
    b.push_str("Average file size:   ");
    let average = average_text(stats.total_uncompressed_size, stats.file_count);
    b.push_str(average.as_str());
    b.push_str(" bytes");
    b.push_char('\n');
    b.push_char('\n');
    let l = stats_lists_string(stats);
    b.push_str(l.as_str());
    b.write_to(w);
}

/// A file as a JSON object, or `null`.
pub open spec fn file_json(p: Option<(Seq<char>, u64)>) -> Seq<char> {
    match p {
        Some(f) => "{\"name\":\""@ + spec_json_escape(f.0) + "\",\"size\":"@ + dec(f.1 as nat) + "}"@,
        None => "null"@,
    }
}

/// The text of `print_stats_json`.
pub open spec fn stats_json(st: ArchiveStats) -> Seq<char> {
    "{\"total_entries\":"@ + dec(st.total_entries as nat) + ",\"file_count\":"@ + dec(
        st.file_count as nat,
    ) + ",\"directory_count\":"@ + dec(st.directory_count as nat) + ",\"link_count\":"@ + dec(
        st.link_count as nat,
    ) + ",\"other_count\":"@ + dec(st.other_count as nat) + ",\"total_uncompressed_size\":"@ + dec(
        st.total_uncompressed_size as nat,
    ) + ",\"largest_file\":"@ + file_json(opt_pair_view(st.largest_file)) + ",\"smallest_file\":"@
        + file_json(opt_pair_view(st.smallest_file)) + ",\"average_file_size\":"@
        + spec_average_text(st.total_uncompressed_size, st.file_count as nat)
        + ",\"format\":"@ + (match st.format {
        Some(f) => seq!['"'] + f.spec_name() + seq!['"'],
        None => "null"@,
    }) + "}"@ + seq!['\n']
}

fn file_json_text(p: &Option<(String, u64)>) -> (r: String)
    ensures
        r@ == file_json(opt_pair_view(*p)),
{
    match p {
        Some(f) => {
            let mut b = TextBuf::of("{\"name\":\"");
            let n = json_escape(f.0.as_str());
            b.push_str(n.as_str());
            b.push_str("\",\"size\":");
            b.push_dec(f.1);
            b.push_str("}");
            b.into_string()
        },
        None => "null".to_owned(),
    }
}

/// Write statistics in JSON format.
pub fn print_stats_json(w: &mut Vec<u8>, stats: &ArchiveStats)
    ensures
        final(w)@ == old(w)@ + encode_utf8(stats_json(*stats)),
{
    let mut b = TextBuf::of("{\"total_entries\":");
    b.push_dec(stats.total_entries as u64);
    b.push_str(",\"file_count\":");
    b.push_dec(stats.file_count as u64);
    b.push_str(",\"directory_count\":");
    b.push_dec(stats.directory_count as u64);
    b.push_str(",\"link_count\":");
    b.push_dec(stats.link_count as u64);
    b.push_str(",\"other_count\":");
    b.push_dec(stats.other_count as u64);
    b.push_str(",\"total_uncompressed_size\":");
    b.push_dec(stats.total_uncompressed_size);
    b.push_str(",\"largest_file\":");
    let l = file_json_text(&stats.largest_file);
    b.push_str(l.as_str());
    b.push_str(",\"smallest_file\":");
    let m = file_json_text(&stats.smallest_file);
    b.push_str(m.as_str());
    b.push_str(",\"average_file_size\":");
    let average = average_text(stats.total_uncompressed_size, stats.file_count);
    b.push_str(average.as_str());
    b.push_str(",\"format\":");
    let f = match stats.format {
        Some(f) => {
            let mut c = TextBuf::new();
            c.push_char('"');
            c.push_str(f.name());
            c.push_char('"');
            assert(c@ =~= seq!['"'] + f.spec_name() + seq!['"']);
            c.into_string()
        },
        None => "null".to_owned(),
    };
    b.push_str(f.as_str());
    b.push_str("}");
    b.push_char('\n');
    b.write_to(w);
}

// ---------------------------------------------------------------------------
// Conditions of the reports
// ---------------------------------------------------------------------------

/// Whether `print_list` can write every line of `entries`.
pub fn is_listable(entries: &[TarEntry], long: bool) -> (r: bool)
    ensures
        r == listable(entries_view(entries@), long),
{
    let ghost ev = entries_view(entries@);
    if !long {
        return true;
    }
    for i in 0..entries.len()
        invariant
            ev == entries_view(entries@),
            long,
            forall|k: int|
                0 <= k < i && !ev[k].header.entry_type.spec_is_metadata() ==> mtime_formattable(
                    #[trigger] ev[k].header.mtime,
                ),
    {
        assert(ev[i as int] == entries@[i as int]@);
        if !entries[i].header.entry_type.is_metadata() && !mtime_is_formattable(
            entries[i].header.mtime,
        ) {
            assert(!mtime_formattable(ev[i as int].header.mtime));
            return false;
        }
    }
    true
}

/// Whether `print_diff` can write every change of `diff`.
pub fn is_diff_printable(diff: &DiffResult) -> (r: bool)
    ensures
        r == forall|k: int|
            0 <= k < diff.changes@.len() ==> change_printable(#[trigger] diff.changes@[k]@),
{
    for i in 0..diff.changes.len()
        invariant
            forall|k: int| 0 <= k < i ==> change_printable(#[trigger] diff.changes@[k]@),
    {
        let ok = match &diff.changes[i] {
            Change::Modified { old_mtime, new_mtime, .. } => *old_mtime == *new_mtime || (
            mtime_is_formattable(*old_mtime) && mtime_is_formattable(*new_mtime)),
            _ => true,
        };
        if !ok {
            assert(!change_printable(diff.changes@[i as int]@));
            return false;
        }
    }
    true
}

} // verus!
