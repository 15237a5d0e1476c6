//! Text building blocks: UTF-8 decoding, Unicode whitespace trimming, decimal,
//! octal and hexadecimal digits, and byte buffers that hold UTF-8 encoded text.

use vstd::prelude::*;
use vstd::utf8::*;
use vstd::string::*;

verus! {

broadcast use {vstd::string::group_string_axioms, vstd::utf8::encode_utf8_decode_utf8, vstd::utf8::encode_utf8_valid_utf8};

// ---------------------------------------------------------------------------
// UTF-8
// ---------------------------------------------------------------------------

/// Encoding a concatenation is the concatenation of the encodings.
pub proof fn lemma_encode_concat(a: Seq<char>, b: Seq<char>)
    ensures
        encode_utf8(a + b) == encode_utf8(a) + encode_utf8(b),
    decreases a.len(),
{
    if a.len() == 0 {
        assert(a + b =~= b);
        assert(encode_utf8(a) =~= Seq::<u8>::empty());
        assert(encode_utf8(a) + encode_utf8(b) =~= encode_utf8(b));
    } else {
        lemma_encode_concat(a.drop_first(), b);
        assert((a + b).drop_first() =~= a.drop_first() + b);
        assert((a + b)[0] == a[0]);
        assert(encode_utf8(a + b) =~= encode_scalar(a[0] as u32) + encode_utf8(a.drop_first() + b));
        assert(encode_utf8(a) + encode_utf8(b) =~= encode_scalar(a[0] as u32) + (encode_utf8(
            a.drop_first(),
        ) + encode_utf8(b)));
    }
}

/// The encoding of an ASCII character is its code as one byte.
pub proof fn lemma_encode_ascii(c: char)
    requires
        (c as u32) < 128,
    ensures
        encode_utf8(seq![c]) == seq![c as u8],
{
    let s = seq![c];
    assert(is_ascii_chars(s));
    is_ascii_chars_encode_utf8(s);
    assert(encode_utf8(s) =~= seq![c as u8]);
}

/// Calls `std::str::from_utf8`, which accepts a byte slice exactly when it is
/// well-formed UTF-8 and then views those very bytes as a `str`.
#[verifier::external_body]
fn utf8_str(bytes: &[u8]) -> (res: Option<&str>)
    ensures
        res is Some <==> valid_utf8(bytes@),
        res matches Some(s) ==> s.spec_bytes() == bytes@,
{
    std::str::from_utf8(bytes).ok()
}

/// Decodes `bytes` as UTF-8 into an owned string, or `None` where they are not UTF-8.
pub fn decode_utf8_string(bytes: &[u8]) -> (res: Option<String>)
    ensures
        res is Some <==> valid_utf8(bytes@),
        res matches Some(s) ==> s@ == decode_utf8(bytes@),
{
    match utf8_str(bytes) {
        Some(s) => {
            proof {
                assert(decode_utf8(encode_utf8(s@)) == s@);
            }
            Some(s.to_owned())
        },
        None => None,
    }
}

/// The string whose UTF-8 encoding is held in `bytes`.
pub fn string_from_encoded(bytes: &Vec<u8>, Ghost(text): Ghost<Seq<char>>) -> (res: String)
    requires
        bytes@ == encode_utf8(text),
    ensures
        res@ == text,
{
    let r = decode_utf8_string(bytes.as_slice());
    match r {
        Some(s) => s,
        None => {
            proof {
                assert(valid_utf8(encode_utf8(text)));
            }
            String::new()
        },
    }
}

/// The characters of `s`, one by one.
pub fn chars_of(s: &str) -> (v: Vec<char>)
    ensures
        v@ == s@,
{
    let n = s.unicode_len();
    let mut v: Vec<char> = Vec::new();
    for i in 0..n
        invariant
            n == s@.len(),
            v@ == s@.take(i as int),
    {
        v.push(s.get_char(i));
        assert(s@.take(i + 1) =~= s@.take(i as int).push(s@[i as int]));
    }
    assert(s@.take(n as int) =~= s@);
    v
}

/// Equality of two strings, character by character.
pub fn str_eq(a: &str, b: &str) -> (r: bool)
    ensures
        r == (a@ == b@),
{
    let ca = chars_of(a);
    let cb = chars_of(b);
    if ca.len() != cb.len() {
        return false;
    }
    let mut i: usize = 0;
    while i < ca.len()
        invariant
            ca@ == a@,
            cb@ == b@,
            ca.len() == cb.len(),
            i <= ca.len(),
            forall|j: int| 0 <= j < i ==> ca@[j] == cb@[j],
        decreases ca.len() - i,
    {
        if ca[i] != cb[i] {
            return false;
        }
        i = i + 1;
    }
    assert(a@ =~= b@);
    true
}

// ---------------------------------------------------------------------------
// Unicode whitespace
// ---------------------------------------------------------------------------

/// The Unicode `White_Space` property (PropList.txt), which `char::is_whitespace`
/// and the `trim` family of `str` test.
pub open spec fn is_white_space(c: char) -> bool {
    let u = c as u32;
    ||| 9 <= u <= 13
    ||| u == 0x20
    ||| u == 0x85
    ||| u == 0xa0
    ||| u == 0x1680
    ||| 0x2000 <= u <= 0x200a
    ||| u == 0x2028
    ||| u == 0x2029
    ||| u == 0x202f
    ||| u == 0x205f
    ||| u == 0x3000
}

pub fn white_space(c: char) -> (r: bool)
    ensures
        r == is_white_space(c),
{
    let u = c as u32;
    (9 <= u && u <= 13) || u == 0x20 || u == 0x85 || u == 0xa0 || u == 0x1680 || (0x2000 <= u
        && u <= 0x200a) || u == 0x2028 || u == 0x2029 || u == 0x202f || u == 0x205f || u == 0x3000
}

/// `s` without its trailing whitespace.
pub open spec fn trim_end_chars(s: Seq<char>) -> Seq<char>
    decreases s.len(),
{
    if s.len() > 0 && is_white_space(s.last()) {
        trim_end_chars(s.drop_last())
    } else {
        s
    }
}

/// `s` without its leading whitespace.
pub open spec fn trim_start_chars(s: Seq<char>) -> Seq<char>
    decreases s.len(),
{
    if s.len() > 0 && is_white_space(s[0]) {
        trim_start_chars(s.drop_first())
    } else {
        s
    }
}

/// `s` without leading and trailing whitespace.
pub open spec fn trim_chars(s: Seq<char>) -> Seq<char> {
    trim_start_chars(trim_end_chars(s))
}

/// The length of `s` once its trailing whitespace is gone.
fn trimmed_end_len(c: &Vec<char>) -> (k: usize)
    ensures
        k <= c@.len(),
        trim_end_chars(c@) == c@.take(k as int),
{
    let mut k = c.len();
    assert(c@.take(k as int) =~= c@);
    while k > 0 && white_space(c[k - 1])
        invariant
            k <= c@.len(),
            trim_end_chars(c@) == trim_end_chars(c@.take(k as int)),
        decreases k,
    {
        assert(c@.take(k as int).drop_last() =~= c@.take(k - 1));
        k = k - 1;
    }
    k
}

/// The index of the first character that is not whitespace, at or after `from`.
fn trimmed_start_index(c: &Vec<char>, from: usize, to: usize) -> (k: usize)
    requires
        from <= to <= c@.len(),
    ensures
        from <= k <= to,
        trim_start_chars(c@.subrange(from as int, to as int)) == c@.subrange(k as int, to as int),
{
    let mut k = from;
    while k < to && white_space(c[k])
        invariant
            from <= k <= to <= c@.len(),
            trim_start_chars(c@.subrange(from as int, to as int)) == trim_start_chars(
                c@.subrange(k as int, to as int),
            ),
        decreases to - k,
    {
        assert(c@.subrange(k as int, to as int).drop_first() =~= c@.subrange(k + 1, to as int));
        k = k + 1;
    }
    k
}

/// `str::trim_end`, on an owned result.
pub fn trim_end_string(s: &str) -> (r: String)
    ensures
        r@ == trim_end_chars(s@),
{
    let c = chars_of(s);
    let k = trimmed_end_len(&c);
    s.substring_char(0, k).to_owned()
}

/// `str::trim`, on an owned result.
pub fn trim_string(s: &str) -> (r: String)
    ensures
        r@ == trim_chars(s@),
{
    let c = chars_of(s);
    let k = trimmed_end_len(&c);
    assert(c@.subrange(0, k as int) =~= c@.take(k as int));
    let j = trimmed_start_index(&c, 0, k);
    s.substring_char(j, k).to_owned()
}

// ---------------------------------------------------------------------------
// Digits
// ---------------------------------------------------------------------------

/// The character of a digit value below 16, lower case beyond 9.
pub open spec fn digit_char(d: nat) -> char {
    if d < 10 {
        (d + 48) as char
    } else {
        (d + 87) as char
    }
}

/// Decimal digits of `n`, without leading zeros.
pub open spec fn dec(n: nat) -> Seq<char>
    decreases n,
{
    if n < 10 {
        seq![digit_char(n)]
    } else {
        dec(n / 10) + seq![digit_char(n % 10)]
    }
}

/// Octal digits of `n`, without leading zeros.
pub open spec fn oct(n: nat) -> Seq<char>
    decreases n,
{
    if n < 8 {
        seq![digit_char(n)]
    } else {
        oct(n / 8) + seq![digit_char(n % 8)]
    }
}

/// Lower-case hexadecimal digits of `n`, without leading zeros.
pub open spec fn hex(n: nat) -> Seq<char>
    decreases n,
{
    if n < 16 {
        seq![digit_char(n)]
    } else {
        hex(n / 16) + seq![digit_char(n % 16)]
    }
}

/// `n` copies of `c`.
pub open spec fn repeat_char(c: char, n: nat) -> Seq<char> {
    Seq::new(n, |i: int| c)
}

/// `s` padded on the left with `c` to at least `w` characters.
pub open spec fn pad_left(s: Seq<char>, w: nat, c: char) -> Seq<char> {
    if s.len() < w {
        repeat_char(c, (w - s.len()) as nat) + s
    } else {
        s
    }
}

/// Decimal text of a signed number, zero padded to width `w` after the sign, as
/// `format!("{:0w$}")` writes it.
pub open spec fn signed_dec_padded(n: int, w: nat) -> Seq<char> {
    if n < 0 {
        seq!['-'] + pad_left(dec((-n) as nat), if w >= 1 { (w - 1) as nat } else { 0 }, '0')
    } else {
        pad_left(dec(n as nat), w, '0')
    }
}

// ---------------------------------------------------------------------------
// Byte buffers holding UTF-8 text
// ---------------------------------------------------------------------------

/// Appends the UTF-8 encoding of `s`.
pub fn push_str(out: &mut Vec<u8>, s: &str)
    ensures
        final(out)@ == old(out)@ + encode_utf8(s@),
{
    let b = s.as_bytes();
    let ghost start = out@;
    for i in 0..b.len()
        invariant
            b@ == encode_utf8(s@),
            out@ == start + b@.take(i as int),
    {
        out.push(b[i]);
        assert(b@.take(i + 1) =~= b@.take(i as int).push(b@[i as int]));
    }
    assert(b@.take(b@.len() as int) =~= b@);
}

/// Appends one ASCII character.
pub fn push_ascii(out: &mut Vec<u8>, c: char)
    requires
        (c as u32) < 128,
    ensures
        final(out)@ == old(out)@ + encode_utf8(seq![c]),
{
    proof {
        lemma_encode_ascii(c);
    }
    out.push(c as u8);
    assert(out@ =~= old(out)@ + seq![c as u8]);
}

/// Appends `n` copies of the ASCII character `c`.
pub fn push_repeat(out: &mut Vec<u8>, c: char, n: usize)
    requires
        (c as u32) < 128,
    ensures
        final(out)@ == old(out)@ + encode_utf8(repeat_char(c, n as nat)),
{
    let ghost start = out@;
    for i in 0..n
        invariant
            (c as u32) < 128,
            out@ == start + encode_utf8(repeat_char(c, i as nat)),
    {
        push_ascii(out, c);
        proof {
            lemma_encode_concat(repeat_char(c, i as nat), seq![c]);
            assert(repeat_char(c, i as nat) + seq![c] =~= repeat_char(c, (i + 1) as nat));
        }
    }
}

/// Appends the digits of `n` in radix `r` (8, 10 or 16).
fn push_radix(out: &mut Vec<u8>, n: u64, r: u64)
    requires
        r == 8 || r == 10 || r == 16,
    ensures
        final(out)@ == old(out)@ + encode_utf8(
            if r == 8 {
                oct(n as nat)
            } else if r == 10 {
                dec(n as nat)
            } else {
                hex(n as nat)
            },
        ),
    decreases n,
{
    let d = n % r;
    let digit: char = if d < 10 {
        ((d + 48) as u8) as char
    } else {
        ((d + 87) as u8) as char
    };
    assert(digit == digit_char(d as nat));
    if n >= r {
        push_radix(out, n / r, r);
        let ghost mid = out@;
        push_ascii(out, digit);
        proof {
            let t = if r == 8 {
                oct((n / r) as nat)
            } else if r == 10 {
                dec((n / r) as nat)
            } else {
                hex((n / r) as nat)
            };
            lemma_encode_concat(t, seq![digit]);
            assert(out@ =~= old(out)@ + encode_utf8(t + seq![digit]));
        }
    } else {
        push_ascii(out, digit);
    }
}

/// Appends the decimal digits of `n`.
pub fn push_dec(out: &mut Vec<u8>, n: u64)
    ensures
        final(out)@ == old(out)@ + encode_utf8(dec(n as nat)),
{
    push_radix(out, n, 10);
}

/// The digits of `n` in radix `r` (8, 10 or 16).
pub open spec fn radix_digits(n: nat, r: nat) -> Seq<char> {
    if r == 8 {
        oct(n)
    } else if r == 10 {
        dec(n)
    } else {
        hex(n)
    }
}

/// Digits are ASCII characters.
pub proof fn lemma_radix_digits_ascii(n: nat, r: nat)
    requires
        r == 8 || r == 10 || r == 16,
    ensures
        is_ascii_chars(radix_digits(n, r)),
        radix_digits(n, r).len() >= 1,
    decreases n,
{
    if n >= r {
        lemma_radix_digits_ascii(n / r, r);
        let a = radix_digits(n / r, r);
        let d = seq![digit_char(n % r)];
        assert(radix_digits(n, r) == a + d);
        assert(is_ascii_chars(d));
        vstd::utf8::is_ascii_chars_concat(a + d, a, d);
    } else {
        assert(is_ascii_chars(seq![digit_char(n)]));
    }
}

/// The number of digits of `n` in radix `r`.
fn radix_len(n: u64, r: u64) -> (l: usize)
    requires
        r == 8 || r == 10 || r == 16,
    ensures
        l == radix_digits(n as nat, r as nat).len(),
{
    let mut tmp: Vec<u8> = Vec::new();
    push_radix(&mut tmp, n, r);
    proof {
        lemma_radix_digits_ascii(n as nat, r as nat);
        is_ascii_chars_encode_utf8(radix_digits(n as nat, r as nat));
        assert(tmp@ =~= encode_utf8(radix_digits(n as nat, r as nat)));
    }
    tmp.len()
}

/// Appends the digits of `n` in radix `r`, left padded with zeros to `w` characters.
pub fn push_radix_padded(out: &mut Vec<u8>, n: u64, r: u64, w: usize)
    requires
        r == 8 || r == 10 || r == 16,
    ensures
        final(out)@ == old(out)@ + encode_utf8(pad_left(radix_digits(n as nat, r as nat), w as nat, '0')),
{
    let ghost t = if r == 8 {
        oct(n as nat)
    } else if r == 10 {
        dec(n as nat)
    } else {
        hex(n as nat)
    };
    let l = radix_len(n, r);
    let ghost start = out@;
    if l < w {
        push_repeat(out, '0', w - l);
        push_radix(out, n, r);
        proof {
            lemma_encode_concat(repeat_char('0', (w - l) as nat), t);
        }
    } else {
        push_radix(out, n, r);
    }
}

// ---------------------------------------------------------------------------
// Reading numbers
// ---------------------------------------------------------------------------

/// Whether `c` is a digit of radix `r` (at most 10).
pub open spec fn is_radix_digit(c: char, r: nat) -> bool {
    48 <= (c as u32) < 48 + r
}

/// The value of the digit `c`.
pub open spec fn digit_value(c: char) -> nat {
    ((c as u32) - 48) as nat
}

/// The value of a string of digits in radix `r`, or `None` if a character is not such a digit.
pub open spec fn digits_value(d: Seq<char>, r: nat) -> Option<nat>
    decreases d.len(),
{
    if d.len() == 0 {
        Some(0)
    } else {
        match digits_value(d.drop_last(), r) {
            Some(v) => if is_radix_digit(d.last(), r) {
                Some(v * r + digit_value(d.last()))
            } else {
                None
            },
            None => None,
        }
    }
}

/// What `from_str_radix` reads for an unsigned type that holds values up to `max`:
/// an optional `+` and then one or more digits, with a value that fits.
pub open spec fn spec_from_str_radix(s: Seq<char>, r: nat, max: nat) -> Option<nat> {
    let d = if s.len() > 0 && s[0] == '+' {
        s.drop_first()
    } else {
        s
    };
    if d.len() == 0 {
        None
    } else {
        match digits_value(d, r) {
            Some(v) => if v <= max {
                Some(v)
            } else {
                None
            },
            None => None,
        }
    }
}

proof fn lemma_digits_value_prefix(d: Seq<char>, r: nat, k: int)
    requires
        r >= 1,
        0 <= k <= d.len(),
        digits_value(d, r) is Some,
    ensures
        digits_value(d.take(k), r) is Some,
        digits_value(d.take(k), r).unwrap() <= digits_value(d, r).unwrap(),
    decreases d.len(),
{
    if k == d.len() {
        assert(d.take(k) =~= d);
    } else {
        let p = d.drop_last();
        lemma_digits_value_prefix(p, r, k);
        assert(p.take(k) =~= d.take(k));
        let v = digits_value(p, r).unwrap();
        assert(v * r >= v) by (nonlinear_arith)
            requires
                r >= 1,
        ;
    }
}

/// Reads the characters `c` as `from_str_radix` does, for radix `r` (8 or 10) and
/// values up to `max`.
pub fn parse_radix(c: &Vec<char>, r: u64, max: u64) -> (res: Option<u64>)
    requires
        r == 8 || r == 10,
    ensures
        res matches Some(v) ==> spec_from_str_radix(c@, r as nat, max as nat) == Some(v as nat),
        res is None ==> spec_from_str_radix(c@, r as nat, max as nat) is None,
{
    let start: usize = if c.len() > 0 && c[0] == '+' {
        1
    } else {
        0
    };
    let ghost d = if c@.len() > 0 && c@[0] == '+' {
        c@.drop_first()
    } else {
        c@
    };
    assert(d =~= c@.subrange(start as int, c@.len() as int));
    if start >= c.len() {
        return None;
    }
    let mut acc: u64 = 0;
    let mut i: usize = start;
    while i < c.len()
        invariant
            r == 8 || r == 10,
            start <= i <= c@.len(),
            d =~= c@.subrange(start as int, c@.len() as int),
            d == (if c@.len() > 0 && c@[0] == '+' {
                c@.drop_first()
            } else {
                c@
            }),
            d.len() > 0,
            digits_value(d.take(i - start), r as nat) == Some(acc as nat),
            acc <= max,
        decreases c.len() - i,
    {
        let ch = c[i];
        let u = ch as u32;
        assert(is_radix_digit(ch, r as nat) <==> (48 <= u && (u as u64) < 48 + r));
        assert(d.take(i - start + 1).drop_last() =~= d.take(i - start));
        assert(d.take(i - start + 1).last() == ch);
        if !(48 <= u && (u as u64) < 48 + r) {
            proof {
                if digits_value(d, r as nat) is Some {
                    lemma_digits_value_prefix(d, r as nat, i - start + 1);
                }
            }
            return None;
        }
        let dv = (u - 48) as u64;
        let next = acc.checked_mul(r);
        let next = match next {
            Some(m) => m.checked_add(dv),
            None => None,
        };
        match next {
            Some(n) if n <= max => {
                acc = n;
            },
            _ => {
                proof {
                    if digits_value(d, r as nat) is Some {
                        lemma_digits_value_prefix(d, r as nat, i - start + 1);
                    }
                }
                return None;
            },
        }
        i = i + 1;
    }
    assert(d.take(i - start) =~= d);
    Some(acc)
}

// ---------------------------------------------------------------------------
// Text buffers
// ---------------------------------------------------------------------------

/// A growing text, held as its UTF-8 encoding.
pub struct TextBuf {
    bytes: Vec<u8>,
    text: Ghost<Seq<char>>,
}

impl View for TextBuf {
    type V = Seq<char>;

    closed spec fn view(&self) -> Seq<char> {
        self.text@
    }
}

impl TextBuf {
    /// The bytes are the encoding of the text.
    pub closed spec fn inv(&self) -> bool {
        self.bytes@ == encode_utf8(self.text@)
    }

    pub fn new() -> (b: TextBuf)
        ensures
            b.inv(),
            b@ == Seq::<char>::empty(),
    {
        let b = TextBuf { bytes: Vec::new(), text: Ghost(Seq::empty()) };
        assert(encode_utf8(Seq::<char>::empty()) =~= Seq::<u8>::empty());
        b
    }

    /// A text that starts as `s`.
    pub fn of(s: &str) -> (b: TextBuf)
        ensures
            b.inv(),
            b@ == s@,
    {
        let mut b = TextBuf::new();
        b.push_str(s);
        assert(b@ =~= s@);
        b
    }

    pub fn push_str(&mut self, s: &str)
        requires
            old(self).inv(),
        ensures
            final(self).inv(),
            final(self)@ == old(self)@ + s@,
    {
        let ghost t = self.text@;
        push_str(&mut self.bytes, s);
        proof {
            lemma_encode_concat(t, s@);
        }
        self.text = Ghost(t + s@);
    }

    pub fn push_char(&mut self, c: char)
        requires
            old(self).inv(),
            (c as u32) < 128,
        ensures
            final(self).inv(),
            final(self)@ == old(self)@ + seq![c],
    {
        let ghost t = self.text@;
        push_ascii(&mut self.bytes, c);
        proof {
            lemma_encode_concat(t, seq![c]);
        }
        self.text = Ghost(t + seq![c]);
    }

    /// Appends the character whose code is the byte `c` (U+0000 to U+00FF).
    pub fn push_byte_char(&mut self, c: u8)
        requires
            old(self).inv(),
        ensures
            final(self).inv(),
            final(self)@ == old(self)@ + seq![c as char],
    {
        if c < 128 {
            self.push_char(c as char);
        } else {
            let ghost t = self.text@;
            let ch = c as char;
            let b1: u8 = 0xC0 | (c >> 6u8);
            let b2: u8 = 0x80 | (c & 0x3Fu8);
            self.bytes.push(b1);
            self.bytes.push(b2);
            proof {
                let v = c as u32;
                assert(ch as u32 == v);
                assert(b1 == 0xC0 | ((v >> 6) & 0x1F) as u8) by (bit_vector)
                    requires
                        v == c as u32,
                        b1 == 0xC0 | (c >> 6u8),
                ;
                assert(b2 == 0x80 | (v & 0x3F) as u8) by (bit_vector)
                    requires
                        v == c as u32,
                        b2 == 0x80 | (c & 0x3Fu8),
                ;
                let one = seq![ch];
                assert(one.drop_first() =~= Seq::<char>::empty());
                assert(encode_utf8(Seq::<char>::empty()) =~= Seq::<u8>::empty());
                assert(encode_utf8(one) =~= seq![b1, b2]);
                lemma_encode_concat(t, one);
                assert(self.bytes@ =~= encode_utf8(t) + seq![b1, b2]);
            }
            self.text = Ghost(t + seq![ch]);
        }
    }

    pub fn push_ascii_chars(&mut self, v: &[char])
        requires
            old(self).inv(),
            forall|i: int| 0 <= i < v@.len() ==> (v@[i] as u32) < 128,
        ensures
            final(self).inv(),
            final(self)@ == old(self)@ + v@,
    {
        let ghost t = self@;
        for i in 0..v.len()
            invariant
                self.inv(),
                forall|i: int| 0 <= i < v@.len() ==> (v@[i] as u32) < 128,
                self@ == t + v@.take(i as int),
        {
            self.push_char(v[i]);
            assert(v@.take(i + 1) =~= v@.take(i as int).push(v@[i as int]));
            assert(t + v@.take(i + 1) =~= t + v@.take(i as int) + seq![v@[i as int]]);
        }
        assert(v@.take(v@.len() as int) =~= v@);
    }

    pub fn push_repeat(&mut self, c: char, n: usize)
        requires
            old(self).inv(),
            (c as u32) < 128,
        ensures
            final(self).inv(),
            final(self)@ == old(self)@ + repeat_char(c, n as nat),
    {
        let ghost t = self.text@;
        push_repeat(&mut self.bytes, c, n);
        proof {
            lemma_encode_concat(t, repeat_char(c, n as nat));
        }
        self.text = Ghost(t + repeat_char(c, n as nat));
    }

    pub fn push_dec(&mut self, n: u64)
        requires
            old(self).inv(),
        ensures
            final(self).inv(),
            final(self)@ == old(self)@ + dec(n as nat),
    {
        let ghost t = self.text@;
        push_dec(&mut self.bytes, n);
        proof {
            lemma_encode_concat(t, dec(n as nat));
        }
        self.text = Ghost(t + dec(n as nat));
    }

    /// Appends the digits of `n` in radix `r` (8, 10 or 16), zero padded to `w` characters.
    pub fn push_padded(&mut self, n: u64, r: u64, w: usize)
        requires
            old(self).inv(),
            r == 8 || r == 10 || r == 16,
        ensures
            final(self).inv(),
            final(self)@ == old(self)@ + pad_left(radix_digits(n as nat, r as nat), w as nat, '0'),
    {
        let ghost t = self.text@;
        push_radix_padded(&mut self.bytes, n, r, w);
        proof {
            lemma_encode_concat(t, pad_left(radix_digits(n as nat, r as nat), w as nat, '0'));
        }
        self.text = Ghost(t + pad_left(radix_digits(n as nat, r as nat), w as nat, '0'));
    }

    /// Appends a signed number in decimal, zero padded after the sign to `w` characters.
    pub fn push_signed_padded(&mut self, n: i64, w: usize)
        requires
            old(self).inv(),
        ensures
            final(self).inv(),
            final(self)@ == old(self)@ + signed_dec_padded(n as int, w as nat),
    {
        let ghost t = self.text@;
        if n < 0 {
            self.push_char('-');
            let m: u64 = if n == i64::MIN {
                0x8000_0000_0000_0000
            } else {
                (-n) as u64
            };
            let w1 = if w >= 1 {
                w - 1
            } else {
                0
            };
            self.push_padded(m, 10, w1);
            assert(self@ =~= t + signed_dec_padded(n as int, w as nat));
        } else {
            self.push_padded(n as u64, 10, w);
        }
    }

    /// Appends the UTF-8 encoding of the text to `out`.
    pub fn write_to(self, out: &mut Vec<u8>)
        requires
            self.inv(),
        ensures
            final(out)@ == old(out)@ + encode_utf8(self@),
    {
        let mut bytes = self.bytes;
        out.append(&mut bytes);
    }

    /// Appends `s` padded on the left with spaces to `w` characters.
    pub fn push_str_right(&mut self, s: &str, w: usize)
        requires
            old(self).inv(),
        ensures
            final(self).inv(),
            final(self)@ == old(self)@ + pad_left(s@, w as nat, ' '),
    {
        let ghost t = self@;
        let n = s.unicode_len();
        if n < w {
            self.push_repeat(' ', w - n);
        }
        self.push_str(s);
        assert(self@ =~= t + pad_left(s@, w as nat, ' '));
    }

    pub fn into_string(self) -> (s: String)
        requires
            self.inv(),
        ensures
            s@ == self@,
    {
        string_from_encoded(&self.bytes, self.text)
    }
}

// ---------------------------------------------------------------------------
// Fixed-point decimal text of binary fractions
// ---------------------------------------------------------------------------

/// `2` to the power `n`.
pub open spec fn two_pow(n: nat) -> nat
    decreases n,
{
    if n == 0 {
        1
    } else {
        2 * two_pow((n - 1) as nat)
    }
}

/// The number of bits of `n`.
pub open spec fn bit_len(n: nat) -> nat
    decreases n,
{
    if n == 0 {
        0
    } else {
        1 + bit_len(n / 2)
    }
}

/// `n / d` rounded to the nearest integer, halves to the even one.
pub open spec fn round_div(n: nat, d: nat) -> nat {
    let q = n / d;
    let r = n % d;
    if 2 * r > d || (2 * r == d && q % 2 == 1) {
        q + 1
    } else {
        q
    }
}

/// The value of `n as f64`: `n` rounded to 53 significant bits, halves to even.
pub open spec fn nearest_f64(n: nat) -> nat {
    if bit_len(n) <= 53 {
        n
    } else {
        let p = two_pow((bit_len(n) - 53) as nat);
        round_div(n, p) * p
    }
}

/// The number `n / d` written with `p` (1 or 2) decimals, rounded half to even,
/// as `format!("{:.p$}")` writes an `f64` that holds `n / d` exactly.
pub open spec fn fixed_point(n: nat, d: nat, p: nat) -> Seq<char> {
    let scale: nat = if p == 1 {
        10
    } else {
        100
    };
    let q = round_div(n * scale, d);
    dec(q / scale) + seq!['.'] + pad_left(dec(q % scale), p, '0')
}

pub(crate) proof fn lemma_bit_len_bound(n: nat, k: nat)
    requires
        n < two_pow(k),
    ensures
        bit_len(n) <= k,
    decreases k,
{
    if n > 0 {
        if k == 0 {
        } else {
            lemma_bit_len_bound(n / 2, (k - 1) as nat);
        }
    }
}

pub(crate) proof fn lemma_two_pow_64()
    ensures
        two_pow(64) == 0x1_0000_0000_0000_0000,
        two_pow(53) == 0x20_0000_0000_0000,
{
    reveal_with_fuel(two_pow, 65);
}

proof fn lemma_two_pow_add(a: nat, b: nat)
    ensures
        two_pow(a + b) == two_pow(a) * two_pow(b),
    decreases a,
{
    if a > 0 {
        lemma_two_pow_add((a - 1) as nat, b);
        assert(two_pow(a + b) == 2 * two_pow((a - 1 + b) as nat));
        assert(2 * (two_pow((a - 1) as nat) * two_pow(b)) == (2 * two_pow((a - 1) as nat)) * two_pow(b))
            by (nonlinear_arith);
    } else {
        assert(a + b == b);
        assert(two_pow(a) == 1);
    }
}

proof fn lemma_two_pow_bound(a: nat, b: nat)
    requires
        a <= b,
    ensures
        two_pow(a) <= two_pow(b),
        two_pow(a) >= 1,
    decreases b,
{
    if a < b {
        lemma_two_pow_bound(a, (b - 1) as nat);
    } else if a > 0 {
        lemma_two_pow_bound((a - 1) as nat, (a - 1) as nat);
    }
}

fn round_div_exec(n: u128, d: u128) -> (r: u128)
    requires
        d > 0,
        d < 0x8000_0000_0000_0000_0000_0000_0000_0000,
        n < 0xffff_ffff_ffff_ffff_ffff_ffff_ffff_ffff,
    ensures
        r == round_div(n as nat, d as nat),
{
    let q = n / d;
    let rem = n % d;
    if 2 * rem > d || (2 * rem == d && q % 2 == 1) {
        q + 1
    } else {
        q
    }
}

/// The number of bits of `n`.
fn bit_length(n: u64) -> (len: u64)
    ensures
        len == bit_len(n as nat),
        len <= 64,
        (n as nat) < two_pow(len as nat),
{
    let mut x: u64 = n;
    let mut len: u64 = 0;
    assert(two_pow(0) == 1);
    while x > 0
        invariant
            bit_len(n as nat) == len + bit_len(x as nat),
            len <= 64,
            x as nat * two_pow(len as nat) <= n as nat,
            (n as nat) < (x as nat + 1) * two_pow(len as nat),
        decreases x,
    {
        assert((n as nat) < (x as nat / 2 + 1) * two_pow((len + 1) as nat)) by (nonlinear_arith)
            requires
                two_pow((len + 1) as nat) == 2 * two_pow(len as nat),
                (n as nat) < (x as nat + 1) * two_pow(len as nat),
        ;
        assert(x as nat * two_pow(len as nat) == (x as nat / 2) * two_pow((len + 1) as nat)
            + (x as nat % 2) * two_pow(len as nat)) by (nonlinear_arith)
            requires
                two_pow((len + 1) as nat) == 2 * two_pow(len as nat),
        ;
        proof {
            if len == 64 {
                lemma_two_pow_64();
                assert(x as nat * two_pow(len as nat) >= two_pow(64)) by (nonlinear_arith)
                    requires x > 0, len == 64;
            }
        }
        x = x / 2;
        len = len + 1;
    }
    assert((n as nat) < two_pow(len as nat)) by (nonlinear_arith)
        requires (n as nat) < (x as nat + 1) * two_pow(len as nat), x == 0;
    len
}

/// `2` to the power `k`.
fn two_pow_exec(k: u64) -> (p: u128)
    requires
        k <= 64,
    ensures
        p == two_pow(k as nat),
{
    let mut p: u128 = 1;
    let mut i: u64 = 0;
    proof {
        lemma_two_pow_bound(k as nat, 64);
        lemma_two_pow_64();
    }
    while i < k
        invariant
            i <= k <= 64,
            p == two_pow(i as nat),
            two_pow(k as nat) <= 0x1_0000_0000_0000_0000,
        decreases k - i,
    {
        proof {
            lemma_two_pow_bound((i + 1) as nat, k as nat);
        }
        p = p * 2;
        i = i + 1;
    }
    p
}

/// `n as f64`, as the exact integer it holds.
pub fn nearest_f64_exec(n: u64) -> (r: u128)
    ensures
        r == nearest_f64(n as nat),
        r <= 0x1_0000_0000_0000_0000,
{
    let len = bit_length(n);
    if len <= 53 {
        return n as u128;
    }
    let p = two_pow_exec(len - 53);
    proof {
        lemma_two_pow_bound(0, (len - 53) as nat);
        lemma_two_pow_bound((len - 53) as nat, 64);
        lemma_two_pow_64();
    }
    let q = round_div_exec(n as u128, p);
    let ghost nn = n as int;
    let ghost pp = p as int;
    let ghost tt = two_pow(53) as int;
    proof {
        lemma_two_pow_bound(0, (len - 53) as nat);
        lemma_two_pow_add(53, (len - 53) as nat);
        assert(53 + (len - 53) == len);
        lemma_two_pow_bound(len as nat, 64);
        lemma_two_pow_64();
        assert(nn < tt * pp);
        assert(nn / pp < tt) by (nonlinear_arith)
            requires nn < tt * pp, pp > 0, nn >= 0;
        assert(q <= tt);
        assert(q * pp <= tt * pp) by (nonlinear_arith)
            requires q <= tt, pp > 0;
    }
    q * p
}

/// A positive integer stays positive as a double.
pub proof fn lemma_nearest_f64_positive(n: nat)
    requires
        n >= 1,
    ensures
        nearest_f64(n) >= 1,
{
    if bit_len(n) > 53 {
        lemma_bit_len_bounds(n);
        let k = (bit_len(n) - 53) as nat;
        let p = two_pow(k);
        lemma_two_pow_pos(k);
        lemma_two_pow_add(52, k);
        assert((bit_len(n) - 1) as nat == 52 + k);
        lemma_two_pow_pos(52);
        assert(n / p >= two_pow(52)) by (nonlinear_arith)
            requires
                n >= two_pow(52) * p,
                p >= 1,
        ;
        assert(round_div(n, p) >= n / p);
        assert(round_div(n, p) * p >= 1) by (nonlinear_arith)
            requires
                round_div(n, p) >= 1,
                p >= 1,
        ;
    }
}

/// A whole quotient that fits in 53 bits is what the double division gives.
pub proof fn lemma_quotient_exact(k: nat, c: nat)
    requires
        1 <= k < two_pow(53),
        c >= 1,
        k * c >= 1,
    ensures
        quotient_f64(k * c, c).0 == k * quotient_f64(k * c, c).1,
        quotient_f64(k * c, c).1 >= 1,
{
    let a = k * c;
    lemma_bit_len_bounds(k);
    let l = bit_len(k);
    lemma_bit_len_bound(k, 53);
    let m = (53 - l) as nat;
    let e: int = l - 53;
    lemma_two_pow_add(52, m);
    lemma_two_pow_add(53, m);
    lemma_two_pow_add((l - 1) as nat, m);
    lemma_two_pow_add(l, m);
    assert((l - 1) as nat + m == 52);
    assert(l + m == 53);
    lemma_two_pow_pos(m);
    let pm = two_pow(m);
    assert(two_pow(52) <= k * pm < two_pow(53)) by (nonlinear_arith)
        requires
            two_pow((l - 1) as nat) <= k < two_pow(l),
            two_pow(52) == two_pow((l - 1) as nat) * pm,
            two_pow(53) == two_pow(l) * pm,
            pm >= 1,
    ;
    assert(two_pow(52) * c <= a * pm < two_pow(53) * c) by (nonlinear_arith)
        requires
            two_pow(52) <= k * pm < two_pow(53),
            a == k * c,
            c >= 1,
    ;
    if m == 0 {
        assert(two_pow(0) == 1);
        assert(in_binade(a, c, 0)) by {
            assert(two_pow(52) * c * two_pow(0) <= a < two_pow(53) * c * two_pow(0)) by (
            nonlinear_arith)
                requires
                    two_pow(0) == 1,
                    two_pow(52) * c <= a * 1 < two_pow(53) * c,
            ;
        }
        lemma_binade_unique(a, c, binade_of(a, c), 0);
        assert(c * two_pow(0) == c);
        assert(round_div(a, c) == k) by {
            lemma_round_div_scale(k, 1, c);
            assert(round_div(k, 1) == k);
            assert(k * c == a && 1 * c == c);
        }
        assert(k * two_pow(0) == k);
    } else {
        assert(in_binade(a, c, e)) by {
            assert((-e) as nat == m);
        }
        lemma_binade_unique(a, c, binade_of(a, c), e);
        assert(round_div(a * pm, c) == k * pm) by {
            lemma_round_div_scale(k * pm, 1, c);
            assert(round_div(k * pm, 1) == k * pm);
            assert(k * pm * c == a * pm) by (nonlinear_arith)
                requires
                    a == k * c,
            ;
        }
    }
}

impl TextBuf {
    /// Appends the decimal digits of `n`.
    pub fn push_dec_wide(&mut self, n: u128)
        requires
            old(self).inv(),
        ensures
            final(self).inv(),
            final(self)@ == old(self)@ + dec(n as nat),
        decreases n,
    {
        let ghost t = self@;
        if n >= 10 {
            self.push_dec_wide(n / 10);
        }
        let digit = (n % 10) as u8;
        let c = (digit + 48) as char;
        assert(c == digit_char((n % 10) as nat));
        self.push_char(c);
        assert(self@ =~= t + dec(n as nat));
    }

    /// Appends `n / d` with two decimals, rounded half to even.
    pub fn push_fixed2(&mut self, n: u128, d: u128)
        requires
            old(self).inv(),
            1 <= d < 0x8000_0000_0000_0000_0000_0000_0000_0000,
            n <= 0x2_0000_0000_0000_0000,
        ensures
            final(self).inv(),
            final(self)@ == old(self)@ + fixed_point(n as nat, d as nat, 2),
    {
        let q = round_div_exec(n * 100, d);
        let whole = q / 100;
        let frac = q % 100;
        self.push_dec_wide(whole);
        self.push_char('.');
        self.push_padded(frac as u64, 10, 2);
    }

    /// Appends `n / d` with `p` (1 or 2) decimals, rounded half to even.
    pub fn push_fixed(&mut self, n: u128, d: u128, p: u32)
        requires
            old(self).inv(),
            p == 1 || p == 2,
            1024 <= d <= 0x4000_0000,
            n <= 0x1_0000_0000_0000_0000,
        ensures
            final(self).inv(),
            final(self)@ == old(self)@ + fixed_point(n as nat, d as nat, p as nat),
    {
        let scale: u128 = if p == 1 {
            10
        } else {
            100
        };
        let q = round_div_exec(n * scale, d);
        assert(q <= (n * scale) as nat / d as nat + 1);
        assert((n * scale) as nat / d as nat <= (n * scale) as nat / 1024) by (nonlinear_arith)
            requires d >= 1024;
        let whole = q / scale;
        let frac = q % scale;
        self.push_dec(whole as u64);
        self.push_char('.');
        self.push_padded(frac as u64, 10, p as usize);
    }
}

// ---------------------------------------------------------------------------
// Quotients of doubles
// ---------------------------------------------------------------------------

/// Whether `a / b` lies in the binade of exponent `e`: `2^(52+e) <= a/b < 2^(53+e)`,
/// where a double of exponent `e` holds an integer of 53 bits times `2^e`.
pub open spec fn in_binade(a: nat, b: nat, e: int) -> bool {
    if e >= 0 {
        two_pow(52) * b * two_pow(e as nat) <= a < two_pow(53) * b * two_pow(e as nat)
    } else {
        two_pow(52) * b <= a * two_pow((-e) as nat) < two_pow(53) * b
    }
}

/// The exponent of the binade of `a / b`.
pub open spec fn binade_of(a: nat, b: nat) -> int {
    choose|e: int| in_binade(a, b, e)
}

/// `a / b` for two doubles `a > 0`, `b > 0` that hold integers, as a double
/// computes it: the quotient rounded to 53 significant bits, halves to even. The
/// result is the fraction `(numerator, denominator)`; 0 where `a` is 0.
pub open spec fn quotient_f64(a: nat, b: nat) -> (nat, nat) {
    if a == 0 {
        (0, 1)
    } else {
        let e = binade_of(a, b);
        if e >= 0 {
            (round_div(a, b * two_pow(e as nat)) * two_pow(e as nat), 1)
        } else {
            (round_div(a * two_pow((-e) as nat), b), two_pow((-e) as nat))
        }
    }
}

/// Scaling both sides of a division does not change how it rounds.
pub(crate) proof fn lemma_round_div_scale(n: nat, d: nat, k: nat)
    requires
        d > 0,
        k > 0,
    ensures
        round_div(n * k, d * k) == round_div(n, d),
{
    let q = n / d;
    let r = n % d;
    assert(n == q * d + r && 0 <= r < d) by {
        vstd::arithmetic::div_mod::lemma_fundamental_div_mod(n as int, d as int);
    }
    assert(n * k == q * (d * k) + r * k) by (nonlinear_arith)
        requires
            n == q * d + r,
    ;
    assert(0 <= r * k < d * k) by (nonlinear_arith)
        requires
            0 <= r < d,
            k > 0,
    ;
    vstd::arithmetic::div_mod::lemma_fundamental_div_mod_converse(
        (n * k) as int,
        (d * k) as int,
        q as int,
        (r * k) as int,
    );
    assert(2 * (r * k) > d * k <==> 2 * r > d) by (nonlinear_arith)
        requires
            k > 0,
    ;
    assert(2 * (r * k) == d * k <==> 2 * r == d) by (nonlinear_arith)
        requires
            k > 0,
    ;
}

proof fn lemma_two_pow_pos(n: nat)
    ensures
        two_pow(n) >= 1,
{
    lemma_two_pow_bound(0, n);
}

/// A quotient lies in one binade only.
#[verifier::spinoff_prover]
proof fn lemma_binade_unique(a: nat, b: nat, e1: int, e2: int)
    requires
        b > 0,
        in_binade(a, b, e1),
        in_binade(a, b, e2),
    ensures
        e1 == e2,
{
    if e1 != e2 {
        let (lo, hi) = if e1 < e2 {
            (e1, e2)
        } else {
            (e2, e1)
        };
        // 2^(52+hi) <= a/b < 2^(53+lo) <= 2^(52+hi): scale everything by 2^k with
        // k making all exponents natural.
        let k: nat = if lo < 0 {
            (-lo) as nat
        } else {
            0
        };
        let pl = two_pow((lo + k) as nat);
        let ph = two_pow((hi + k) as nat);
        let pk = two_pow(k);
        lemma_two_pow_pos(k);
        lemma_two_pow_pos((lo + k) as nat);
        assert(two_pow(53) * pl <= two_pow(52) * ph) by {
            lemma_two_pow_add(53, (lo + k) as nat);
            lemma_two_pow_add(52, (hi + k) as nat);
            lemma_two_pow_bound((53 + lo + k) as nat, (52 + hi + k) as nat);
        }
        // a * 2^k against the two bounds
        assert(two_pow(52) * b * ph <= a * pk) by {
            if hi >= 0 {
                lemma_two_pow_add(hi as nat, k);
                assert(two_pow(52) * b * two_pow(hi as nat) <= a);
                assert(two_pow(52) * b * two_pow(hi as nat) * pk <= a * pk) by (nonlinear_arith)
                    requires
                        two_pow(52) * b * two_pow(hi as nat) <= a,
                ;
                assert(two_pow(52) * b * ph == two_pow(52) * b * two_pow(hi as nat) * pk)
                    by (nonlinear_arith)
                    requires
                        ph == two_pow(hi as nat) * pk,
                ;
            } else {
                lemma_two_pow_add((hi + k) as nat, (-hi) as nat);
                assert(two_pow(52) * b <= a * two_pow((-hi) as nat));
                assert(two_pow(52) * b * ph <= a * two_pow((-hi) as nat) * ph) by (nonlinear_arith)
                    requires
                        two_pow(52) * b <= a * two_pow((-hi) as nat),
                ;
                assert(a * two_pow((-hi) as nat) * ph == a * pk) by (nonlinear_arith)
                    requires
                        pk == ph * two_pow((-hi) as nat),
                ;
            }
        }
        assert(in_binade(a, b, lo));
        assert(a * pk < two_pow(53) * b * pl) by {
            assert(two_pow(0) == 1);
            if lo >= 0 {
                assert(k == 0);
                assert(pk == 1);
                assert((lo + k) as nat == lo as nat);
                assert(pl == two_pow(lo as nat));
                assert(a < two_pow(53) * b * two_pow(lo as nat));
                assert(a * pk < two_pow(53) * b * pl) by (nonlinear_arith)
                    requires
                        pk == 1,
                        pl == two_pow(lo as nat),
                        a < two_pow(53) * b * two_pow(lo as nat),
                ;
            } else {
                assert(k == (-lo) as nat);
                assert((lo + k) as nat == 0);
                assert(pl == 1);
                assert(pk == two_pow((-lo) as nat));
                assert(a * two_pow((-lo) as nat) < two_pow(53) * b);
                assert(a * pk < two_pow(53) * b * pl) by (nonlinear_arith)
                    requires
                        pl == 1,
                        pk == two_pow((-lo) as nat),
                        a * two_pow((-lo) as nat) < two_pow(53) * b,
                ;
            }
        }
        assert(two_pow(52) * b * ph <= two_pow(53) * b * pl - 1);
        assert(two_pow(53) * b * pl <= two_pow(52) * b * ph) by (nonlinear_arith)
            requires
                two_pow(53) * pl <= two_pow(52) * ph,
                b > 0,
        ;
    }
}

proof fn lemma_bit_len_bounds(n: nat)
    requires
        n > 0,
    ensures
        bit_len(n) >= 1,
        two_pow((bit_len(n) - 1) as nat) <= n < two_pow(bit_len(n)),
    decreases n,
{
    if n / 2 == 0 {
        assert(n == 1);
        assert(bit_len(0) == 0);
        assert(bit_len(1) == 1);
        assert(two_pow(1) == 2) by {
            reveal_with_fuel(two_pow, 2);
        }
    } else {
        lemma_bit_len_bounds(n / 2);
        let l = bit_len(n / 2);
        assert(bit_len(n) == 1 + l);
        assert(two_pow(l) == two_pow((bit_len(n) - 1) as nat));
        assert(two_pow((l + 1) as nat) == 2 * two_pow(l));
        assert(two_pow((l - 1) as nat) * 2 == two_pow(l));
    }
}

/// `2` to the power `k`, for `k` up to 126.
fn two_pow_wide(k: u64) -> (p: u128)
    requires
        k <= 126,
    ensures
        p == two_pow(k as nat),
        p <= 0x4000_0000_0000_0000_0000_0000_0000_0000,
{
    let mut p: u128 = 1;
    let mut i: u64 = 0;
    proof {
        lemma_two_pow_64();
        lemma_two_pow_add(64, 62);
        assert(two_pow(62) == 0x4000_0000_0000_0000) by {
            reveal_with_fuel(two_pow, 63);
        }
        lemma_two_pow_bound(k as nat, 126);
    }
    while i < k
        invariant
            i <= k <= 126,
            p == two_pow(i as nat),
            two_pow(k as nat) <= 0x4000_0000_0000_0000_0000_0000_0000_0000,
        decreases k - i,
    {
        proof {
            lemma_two_pow_bound((i + 1) as nat, k as nat);
        }
        p = p * 2;
        i = i + 1;
    }
    p
}

/// The number of bits of `n`, for `n` up to `2^64`.
fn bit_length_wide(n: u128) -> (len: u64)
    requires
        n <= 0x1_0000_0000_0000_0000,
    ensures
        len == bit_len(n as nat),
        len <= 65,
{
    proof {
        lemma_two_pow_64();
        assert(two_pow(65) == 2 * two_pow(64));
        lemma_bit_len_bound(n as nat, 65);
    }
    let mut x: u128 = n;
    let mut len: u64 = 0;
    while x > 0
        invariant
            bit_len(n as nat) == len + bit_len(x as nat),
            bit_len(n as nat) <= 65,
        decreases x,
    {
        x = x / 2;
        len = len + 1;
    }
    len
}

/// `x * 2^i` against `y * 2^j` when `x < 2^k` and so on: the products of powers.
proof fn lemma_pow_mul_lt(x: nat, k: nat, i: nat)
    requires
        x < two_pow(k),
    ensures
        x * two_pow(i) < two_pow(k + i),
{
    lemma_two_pow_add(k, i);
    lemma_two_pow_pos(i);
    assert(x * two_pow(i) < two_pow(k) * two_pow(i)) by (nonlinear_arith)
        requires
            x < two_pow(k),
            two_pow(i) >= 1,
    ;
}

proof fn lemma_pow_mul_ge(x: nat, k: nat, i: nat)
    requires
        x >= two_pow(k),
    ensures
        x * two_pow(i) >= two_pow(k + i),
{
    lemma_two_pow_add(k, i);
    lemma_two_pow_pos(i);
    assert(x * two_pow(i) >= two_pow(k) * two_pow(i)) by (nonlinear_arith)
        requires
            x >= two_pow(k),
            two_pow(i) >= 1,
    ;
}

/// Scaled by `2^up` and `2^down` so that their exponents meet, `a / b` lies between
/// `2^53` and `2^55`.
#[verifier::spinoff_prover]
proof fn lemma_scaled_range(a: nat, b: nat, up: nat, down: nat)
    requires
        a >= 1,
        b >= 1,
        up + bit_len(a) == down + bit_len(b) + 54,
    ensures
        two_pow(53) * (b * two_pow(down)) <= a * two_pow(up),
        a * two_pow(up) < two_pow(55) * (b * two_pow(down)),
{
    lemma_bit_len_bounds(a);
    lemma_bit_len_bounds(b);
    let la = bit_len(a);
    let lb = bit_len(b);
    // lower: 2^53 * b * 2^down < 2^(53 + lb + down) == 2^(la - 1 + up) <= a * 2^up
    lemma_pow_mul_lt(b, lb, down);
    lemma_pow_mul_ge(a, (la - 1) as nat, up);
    lemma_two_pow_add(53, lb + down);
    lemma_two_pow_pos(53);
    assert(two_pow(53) * (b * two_pow(down)) < two_pow(53) * two_pow(lb + down)) by (nonlinear_arith)
        requires
            b * two_pow(down) < two_pow(lb + down),
            two_pow(53) >= 1,
    ;
    assert((53 + (lb + down)) as nat == ((la - 1) as nat + up) as nat);
    // upper: a * 2^up < 2^(la + up) == 2^55 * 2^(lb - 1 + down) <= 2^55 * b * 2^down
    lemma_pow_mul_lt(a, la, up);
    lemma_pow_mul_ge(b, (lb - 1) as nat, down);
    lemma_two_pow_add(55, ((lb - 1) as nat + down) as nat);
    assert((la + up) as nat == (55 + ((lb - 1) as nat + down)) as nat);
    lemma_two_pow_pos(55);
    assert(two_pow(55) * two_pow(((lb - 1) as nat + down) as nat) <= two_pow(55) * (b * two_pow(
        down,
    ))) by (nonlinear_arith)
        requires
            two_pow(((lb - 1) as nat + down) as nat) <= b * two_pow(down),
    ;
    lemma_two_pow_pos(53);
}

/// Where `a * 2^up / (b * 2^down)` lies in `[2^(52+t), 2^(53+t))`, the binade of
/// `a / b` has exponent `t + down - up`, and rounding there is rounding the scaled
/// quotient at `2^t`.
#[verifier::spinoff_prover]
proof fn lemma_binade_from_scaled(a: nat, b: nat, up: nat, down: nat, t: nat)
    requires
        b >= 1,
        up == 0 || down == 0,
        two_pow(52 + t) * (b * two_pow(down)) <= a * two_pow(up),
        a * two_pow(up) < two_pow(53 + t) * (b * two_pow(down)),
    ensures
        in_binade(a, b, t + down - up),
        t + down - up >= 0 ==> round_div(a * two_pow(up), b * two_pow(down) * two_pow(t))
            == round_div(a, b * two_pow((t + down - up) as nat)),
        t + down - up < 0 ==> round_div(a * two_pow(up), b * two_pow(down) * two_pow(t))
            == round_div(a * two_pow((up - t - down) as nat), b),
{
    let e: int = t + down - up;
    lemma_two_pow_add(52, t);
    lemma_two_pow_add(53, t);
    lemma_two_pow_pos(t);
    lemma_two_pow_pos(up);
    lemma_two_pow_pos(down);
    lemma_two_pow_pos(52);
    if down > 0 {
        assert(up == 0);
        assert(two_pow(0) == 1);
        assert(two_pow(up) == 1);
        assert(a * two_pow(up) == a) by (nonlinear_arith)
            requires
                two_pow(up) == 1,
        ;
        let ee = (t + down) as nat;
        lemma_two_pow_add(t, down);
        assert(e == ee);
        assert(two_pow(52 + t) * (b * two_pow(down)) == two_pow(52) * b * two_pow(ee))
            by (nonlinear_arith)
            requires
                two_pow(52 + t) == two_pow(52) * two_pow(t),
                two_pow(ee) == two_pow(t) * two_pow(down),
        ;
        assert(two_pow(53 + t) * (b * two_pow(down)) == two_pow(53) * b * two_pow(ee))
            by (nonlinear_arith)
            requires
                two_pow(53 + t) == two_pow(53) * two_pow(t),
                two_pow(ee) == two_pow(t) * two_pow(down),
        ;
        assert(b * two_pow(down) * two_pow(t) == b * two_pow(ee)) by (nonlinear_arith)
            requires
                two_pow(ee) == two_pow(t) * two_pow(down),
        ;
    } else if up <= t {
        assert(two_pow(0) == 1);
        assert(b * two_pow(down) == b * 1);
        let ee = (t - up) as nat;
        lemma_two_pow_pos(ee);
        lemma_two_pow_add(ee, up);
        assert(ee + up == t);
        let pu = two_pow(up);
        let pe = two_pow(ee);
        assert(two_pow(52) * b * pe * pu <= a * pu) by (nonlinear_arith)
            requires
                two_pow(52 + t) == two_pow(52) * two_pow(t),
                two_pow(t) == pe * pu,
                two_pow(52 + t) * (b * 1) <= a * pu,
        ;
        assert(two_pow(52) * b * pe <= a) by (nonlinear_arith)
            requires
                two_pow(52) * b * pe * pu <= a * pu,
                pu >= 1,
        ;
        assert(a * pu < two_pow(53) * b * pe * pu) by (nonlinear_arith)
            requires
                two_pow(53 + t) == two_pow(53) * two_pow(t),
                two_pow(t) == pe * pu,
                a * pu < two_pow(53 + t) * (b * 1),
        ;
        assert(a < two_pow(53) * b * pe) by (nonlinear_arith)
            requires
                a * pu < two_pow(53) * b * pe * pu,
                pu >= 1,
        ;
        assert(b * two_pow(down) * two_pow(t) == (b * pe) * pu) by (nonlinear_arith)
            requires
                two_pow(down) == 1,
                two_pow(t) == pe * pu,
        ;
        assert(b * pe >= 1) by (nonlinear_arith)
            requires
                b >= 1,
                pe >= 1,
        ;
        lemma_round_div_scale(a, b * pe, pu);
        assert(e == ee);
    } else {
        assert(two_pow(0) == 1);
        assert(b * two_pow(down) == b * 1);
        let ee = (up - t) as nat;
        lemma_two_pow_add(ee, t);
        assert(ee + t == up);
        let pt = two_pow(t);
        let pe = two_pow(ee);
        assert(two_pow(52) * b * pt <= a * pe * pt) by (nonlinear_arith)
            requires
                two_pow(52 + t) == two_pow(52) * pt,
                two_pow(up) == pe * pt,
                two_pow(52 + t) * (b * 1) <= a * two_pow(up),
        ;
        assert(two_pow(52) * b <= a * pe) by (nonlinear_arith)
            requires
                two_pow(52) * b * pt <= a * pe * pt,
                pt >= 1,
        ;
        assert(a * pe * pt < two_pow(53) * b * pt) by (nonlinear_arith)
            requires
                two_pow(53 + t) == two_pow(53) * pt,
                two_pow(up) == pe * pt,
                a * two_pow(up) < two_pow(53 + t) * (b * 1),
        ;
        assert(a * pe < two_pow(53) * b) by (nonlinear_arith)
            requires
                a * pe * pt < two_pow(53) * b * pt,
                pt >= 1,
        ;
        assert((-e) as nat == ee);
        assert(a * two_pow(up) == (a * pe) * pt) by (nonlinear_arith)
            requires
                two_pow(up) == pe * pt,
        ;
        assert(b * two_pow(down) * two_pow(t) == b * pt) by (nonlinear_arith)
            requires
                two_pow(down) == 1,
                pt == two_pow(t),
        ;
        lemma_round_div_scale(a * pe, b, pt);
        assert((up - t - down) as nat == ee);
    }
}

proof fn lemma_two_pow_values()
    ensures
        two_pow(52) == 0x10_0000_0000_0000,
        two_pow(53) == 0x20_0000_0000_0000,
        two_pow(54) == 0x40_0000_0000_0000,
        two_pow(55) == 0x80_0000_0000_0000,
        two_pow(64) == 0x1_0000_0000_0000_0000,
        two_pow(126) == 0x4000_0000_0000_0000_0000_0000_0000_0000,
{
    lemma_two_pow_64();
    assert(two_pow(54) == 2 * two_pow(53));
    assert(two_pow(55) == 2 * two_pow(54));
    assert(two_pow(53) == 2 * two_pow(52));
    lemma_two_pow_add(53, 9);
    assert(two_pow(9) == 512) by {
        reveal_with_fuel(two_pow, 10);
    }
    lemma_two_pow_add(64, 62);
}

/// `a as f64 / b as f64` for doubles that hold the integers `a` and `b` (from 1 up
/// to `2^64`), as the fraction it holds.
#[verifier::spinoff_prover]
pub fn quotient_f64_exec(a: u128, b: u128) -> (r: (u128, u128))
    requires
        1 <= a <= 0x1_0000_0000_0000_0000,
        1 <= b <= 0x1_0000_0000_0000_0000,
    ensures
        (r.0 as nat, r.1 as nat) == quotient_f64(a as nat, b as nat),
        r.0 <= 0x2_0000_0000_0000_0000,
        1 <= r.1 <= 0x4000_0000_0000_0000_0000_0000_0000_0000,
{
    let la = bit_length_wide(a);
    let lb = bit_length_wide(b);
    proof {
        lemma_bit_len_bounds(a as nat);
        lemma_bit_len_bounds(b as nat);
        lemma_two_pow_values();
    }
    let up: u64 = if lb + 54 >= la {
        lb + 54 - la
    } else {
        0
    };
    let down: u64 = if lb + 54 >= la {
        0
    } else {
        la - lb - 54
    };
    let pu = two_pow_wide(up);
    let pd = two_pow_wide(down);
    proof {
        lemma_pow_mul_lt(a as nat, la as nat, up as nat);
        lemma_two_pow_bound((la + up) as nat, 126);
        lemma_pow_mul_lt(b as nat, lb as nat, down as nat);
        if down > 0 {
            lemma_two_pow_bound((lb + down) as nat, 64);
        } else {
            assert(pd == 1);
        }
        lemma_two_pow_pos(down as nat);
        assert(b * pd >= 1) by (nonlinear_arith)
            requires
                b >= 1,
                pd >= 1,
        ;
        lemma_scaled_range(a as nat, b as nat, up as nat, down as nat);
    }
    let n = a * pu;
    let d = b * pd;
    proof {
        if down == 0 {
            assert(d == b) by (nonlinear_arith)
                requires
                    d == b * pd,
                    pd == 1,
            ;
        }
        assert(d <= 0x1_0000_0000_0000_0000);
    }
    let q = n / d;
    let t: u64 = if q >= 0x40_0000_0000_0000 {
        2
    } else {
        1
    };
    proof {
        let nn = n as nat;
        let dd = d as nat;
        let qq = q as nat;
        assert(qq * dd <= nn < (qq + 1) * dd) by (nonlinear_arith)
            requires
                dd > 0,
                qq == nn / dd,
        ;
        if t == 2 {
            assert(two_pow(54) * dd <= qq * dd) by (nonlinear_arith)
                requires
                    two_pow(54) <= qq,
            ;
        } else {
            assert((qq + 1) * dd <= two_pow(54) * dd) by (nonlinear_arith)
                requires
                    qq + 1 <= two_pow(54),
            ;
        }
        assert(52 + t == 54 || 52 + t == 53);
        lemma_binade_from_scaled(a as nat, b as nat, up as nat, down as nat, t as nat);
    }
    let pt = two_pow_wide(t);
    proof {
        assert(t == 1 ==> pt == 2);
        assert(t == 2 ==> pt == 4) by {
            reveal_with_fuel(two_pow, 3);
        }
        assert(d * pt <= 0x4_0000_0000_0000_0000) by (nonlinear_arith)
            requires
                d <= 0x1_0000_0000_0000_0000,
                pt <= 4,
        ;
        assert(d * pt >= 1) by (nonlinear_arith)
            requires
                d >= 1,
                pt >= 1,
        ;
    }
    let m = round_div_exec(n, d * pt);
    proof {
        let nn = n as nat;
        let dt = (d * pt) as nat;
        lemma_two_pow_add(53, t as nat);
        assert(nn < two_pow(53 + t as nat) * (b * two_pow(down as nat)));
        assert(two_pow(53 + t as nat) * (b * two_pow(down as nat)) == two_pow(53) * dt)
            by (nonlinear_arith)
            requires
                two_pow(53 + t as nat) == two_pow(53) * two_pow(t as nat),
                pt == two_pow(t as nat),
                d == b * two_pow(down as nat),
                dt == d * pt,
        ;
        assert(nn / dt < two_pow(53)) by (nonlinear_arith)
            requires
                nn < two_pow(53) * dt,
                dt > 0,
        ;
        assert(m <= two_pow(53));
    }
    let ghost e: int = t + down - up;
    proof {
        assert(in_binade(a as nat, b as nat, e));
        let ch = binade_of(a as nat, b as nat);
        assert(in_binade(a as nat, b as nat, ch));
        lemma_binade_unique(a as nat, b as nat, ch, e);
    }
    if t + down >= up {
        let k = t + down - up;
        let pe = two_pow_wide(k);
        proof {
            lemma_two_pow_bound(k as nat, 12);
            assert(two_pow(12) == 4096) by {
                reveal_with_fuel(two_pow, 13);
            }
            assert(m * pe <= 0x20_0000_0000_0000 * 4096) by (nonlinear_arith)
                requires
                    m <= 0x20_0000_0000_0000,
                    pe <= 4096,
            ;
        }
        (m * pe, 1)
    } else {
        let k = up - t - down;
        let pe = two_pow_wide(k);
        proof {
            lemma_two_pow_pos(k as nat);
        }
        (m, pe)
    }
}

// ---------------------------------------------------------------------------
// Text of std formatting
// ---------------------------------------------------------------------------

/// The `Debug` text of a string: the string in double quotes, with quotes,
/// backslashes and unprintable characters escaped.
pub uninterp spec fn debug_str(s: Seq<char>) -> Seq<char>;

/// Calls `format!("{:?}", s)` on a `str`, whose text depends on `s` alone.
#[verifier::external_body]
pub(crate) fn debug_quoted(s: &str) -> (r: String)
    ensures
        r@ == debug_str(s@),
{
    format!("{:?}", s)
}

/// The text that `String::from_utf8_lossy` makes of bytes: their decoding, with each
/// ill-formed part replaced by U+FFFD.
pub uninterp spec fn utf8_lossy(b: Seq<u8>) -> Seq<char>;

/// Calls `String::from_utf8_lossy`, which gives back the decoded text unchanged
/// where the bytes are well-formed UTF-8.
#[verifier::external_body]
pub(crate) fn decode_lossy(b: &[u8]) -> (r: String)
    ensures
        r@ == utf8_lossy(b@),
        valid_utf8(b@) ==> r@ == decode_utf8(b@),
{
    String::from_utf8_lossy(b).into_owned()
}

} // verus!
