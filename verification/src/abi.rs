//! ABI words of an `eth_call` reply: the reply is a hex string whose body is
//! cut into 64-character words; a word holds a `u64` in its low 16 hex digits.

use vstd::prelude::*;
use vstd::slice::slice_subrange;
use vstd::string::StrSliceExecFns;
use vstd::string::StringSliceAdditionalSpecFns;
use vstd::string::StringExecFns;
use vstd::utf8::{encode_utf8, is_ascii_chars, is_ascii_chars_encode_utf8, valid_utf8};

verus! {

/// Why a base-16 integer could not be read (the kinds `u64::from_str_radix` reports).
#[derive(Debug, Clone, Copy, PartialEq, Eq, Structural)]
pub enum IntErrorKind {
    /// The text was empty.
    Empty,
    /// A character that is no hex digit (or a lone sign).
    InvalidDigit,
    /// The value does not fit in a `u64`.
    PosOverflow,
}

/// Value of one hex digit, upper or lower case.
pub open spec fn hex_digit_value(c: u8) -> Option<u64> {
    if 48 <= c <= 57 {
        Some((c - 48) as u64)
    } else if 97 <= c <= 102 {
        Some((c - 87) as u64)
    } else if 65 <= c <= 70 {
        Some((c - 55) as u64)
    } else {
        None
    }
}

/// Reads the digits left to right, as `from_str_radix` does: the first bad
/// digit or the first overflow decides the error.
pub open spec fn fold_hex_digits(d: Seq<u8>) -> Result<u64, IntErrorKind>
    decreases d.len(),
{
    if d.len() == 0 {
        Ok(0)
    } else {
        match fold_hex_digits(d.drop_last()) {
            Err(e) => Err(e),
            Ok(v) => match hex_digit_value(d.last()) {
                None => Err(IntErrorKind::InvalidDigit),
                Some(x) => if v * 16 + x > u64::MAX {
                    Err(IntErrorKind::PosOverflow)
                } else {
                    Ok((v * 16 + x) as u64)
                },
            },
        }
    }
}

/// `u64::from_str_radix(s, 16)` on the bytes `s`: an optional leading `+`,
/// then at least one hex digit.
pub open spec fn parse_u64_hex(s: Seq<u8>) -> Result<u64, IntErrorKind> {
    if s.len() == 0 {
        Err(IntErrorKind::Empty)
    } else if s.len() == 1 && (s[0] == 43 || s[0] == 45) {
        Err(IntErrorKind::InvalidDigit)
    } else if s[0] == 43 {
        fold_hex_digits(s.skip(1))
    } else {
        fold_hex_digits(s)
    }
}

fn hex_digit(c: u8) -> (r: Option<u64>)
    ensures
        r == hex_digit_value(c),
{
    if 48 <= c && c <= 57 {
        Some((c - 48) as u64)
    } else if 97 <= c && c <= 102 {
        Some((c - 87) as u64)
    } else if 65 <= c && c <= 70 {
        Some((c - 55) as u64)
    } else {
        None
    }
}

fn fold_digits(d: &[u8], start: usize) -> (r: Result<u64, IntErrorKind>)
    requires
        start <= d@.len(),
    ensures
        r == fold_hex_digits(d@.skip(start as int)),
{
    let ghost s = d@.skip(start as int);
    let mut acc: u64 = 0;
    let mut i: usize = start;
    assert(s.take(0) =~= Seq::<u8>::empty());
    while i < d.len()
        invariant
            start <= i <= d@.len(),
            s == d@.skip(start as int),
            fold_hex_digits(s.take(i - start)) == Ok::<u64, IntErrorKind>(acc),
        decreases d.len() - i,
    {
        assert(s.take(i + 1 - start).drop_last() =~= s.take(i - start));
        assert(s.take(i + 1 - start).last() == d@[i as int]);
        let x = match hex_digit(d[i]) {
            Some(x) => x,
            None => {
                proof { lemma_fold_error_extends(s, (i + 1 - start) as int); }
                return Err(IntErrorKind::InvalidDigit);
            },
        };
        let m = match acc.checked_mul(16) {
            Some(m) => m,
            None => {
                proof { lemma_fold_error_extends(s, (i + 1 - start) as int); }
                return Err(IntErrorKind::PosOverflow);
            },
        };
        acc = match m.checked_add(x) {
            Some(v) => v,
            None => {
                proof { lemma_fold_error_extends(s, (i + 1 - start) as int); }
                return Err(IntErrorKind::PosOverflow);
            },
        };
        i = i + 1;
    }
    assert(s.take(i - start) =~= s);
    Ok(acc)
}

/// Once a prefix of the digits fails, the whole run fails the same way.
proof fn lemma_fold_error_extends(s: Seq<u8>, k: int)
    requires
        0 <= k <= s.len(),
        fold_hex_digits(s.take(k)) is Err,
    ensures
        fold_hex_digits(s) == fold_hex_digits(s.take(k)),
    decreases s.len() - k,
{
    if k < s.len() {
        assert(s.take(k + 1).drop_last() =~= s.take(k));
        lemma_fold_error_extends(s, k + 1);
    } else {
        assert(s.take(k) =~= s);
    }
}

/// Reads the bytes `s` as a base-16 `u64`, with the rules of `u64::from_str_radix`.
pub fn parse_hex_u64(s: &[u8]) -> (r: Result<u64, IntErrorKind>)
    ensures
        r == parse_u64_hex(s@),
{
    if s.len() == 0 {
        Err(IntErrorKind::Empty)
    } else if s.len() == 1 && (s[0] == 43 || s[0] == 45) {
        Err(IntErrorKind::InvalidDigit)
    } else if s[0] == 43 {
        fold_digits(s, 1)
    } else {
        assert(s@.skip(0) =~= s@);
        fold_digits(s, 0)
    }
}

/// `str::is_char_boundary` on the bytes `b`: the start, the end, or a byte
/// that does not continue a multi-byte character.
pub open spec fn char_boundary(b: Seq<u8>, i: int) -> bool {
    i == 0 || i == b.len() || (0 <= i < b.len() && !(128 <= b[i] < 192))
}

/// The bytes `w` hold a word that can be read: `&w[48..64]` is in range and
/// on character boundaries.
pub open spec fn word_readable(w: Seq<u8>) -> bool {
    w.len() >= 64 && char_boundary(w, 48) && char_boundary(w, 64)
}

/// The value of a word: its low 16 hex digits, or 0 where they do not parse.
pub open spec fn word_value(w: Seq<u8>) -> u64 {
    match parse_u64_hex(w.subrange(48, 64)) {
        Ok(v) => v,
        Err(_) => 0,
    }
}

/// Word `i` of a list of words, 0 past the end.
pub open spec fn word_at(ws: Seq<Seq<u8>>, i: int) -> u64 {
    if 0 <= i < ws.len() {
        word_value(ws[i])
    } else {
        0
    }
}

/// Word `i` can be read (or lies past the end, where nothing is read).
pub open spec fn word_at_readable(ws: Seq<Seq<u8>>, i: int) -> bool {
    0 <= i < ws.len() ==> word_readable(ws[i])
}

/// The reply text without one leading `0x`.
pub open spec fn strip_0x(s: Seq<char>) -> Seq<char> {
    if s.len() >= 2 && s[0] == '0' && s[1] == 'x' {
        s.skip(2)
    } else {
        s
    }
}

/// The words of a reply body: the body's bytes cut into chunks of 64 (the
/// last one shorter), keeping the chunks that are valid UTF-8.
pub open spec fn utf8_words(b: Seq<u8>) -> Seq<Seq<u8>>
    decreases b.len(),
{
    if b.len() == 0 {
        Seq::empty()
    } else {
        let n: int = if b.len() < 64 { b.len() as int } else { 64 };
        let rest = utf8_words(b.skip(n));
        if valid_utf8(b.take(n)) {
            seq![b.take(n)] + rest
        } else {
            rest
        }
    }
}

/// The bytes of each string.
pub open spec fn strs_bytes(ws: Seq<&str>) -> Seq<Seq<u8>> {
    ws.map_values(|w: &str| w.spec_bytes())
}

/// Word `i` of a body read straight from its bytes (the 64 bytes from `64 * i`),
/// 0 where that range is out of bounds or not on character boundaries.
pub open spec fn body_word(b: Seq<u8>, i: int) -> u64 {
    let st = 64 * i;
    if st + 64 <= b.len() && char_boundary(b, st) && char_boundary(b, st + 64) {
        word_value(b.subrange(st, st + 64))
    } else {
        0
    }
}

/// Reading word `i` straight from the body does not hit a split character at
/// its digit 48.
pub open spec fn body_word_readable(b: Seq<u8>, i: int) -> bool {
    let st = 64 * i;
    (st + 64 <= b.len() && char_boundary(b, st) && char_boundary(b, st + 64)) ==> char_boundary(b, st + 48)
}

/// `std::str::from_utf8(b).ok()`. Claimed of it: the result is `Some` exactly
/// when `b` is valid UTF-8 (as `vstd::utf8::valid_utf8` defines it), and the
/// string then has exactly the bytes `b`.
#[verifier::external_body]
fn str_from_utf8<'a>(b: &'a [u8]) -> (r: Option<&'a str>)
    ensures
        r is Some <==> valid_utf8(b@),
        r matches Some(s) ==> s.spec_bytes() == b@,
{
    std::str::from_utf8(b).ok()
}

/// The reply body after one leading `0x`, if there is one.
pub fn strip(h: &str) -> (r: &str)
    ensures
        r@ == strip_0x(h@),
{
    let n = h.unicode_len();
    if n >= 2 && h.get_char(0) == '0' && h.get_char(1) == 'x' {
        h.substring_char(2, n)
    } else {
        h
    }
}

/// The value held by a 64-character word: its digits 48 to 64 read as hex,
/// or 0 where they are no number.
pub fn word_u64_str(w: &str) -> (r: u64)
    requires
        word_readable(w.spec_bytes()),
    ensures
        r == word_value(w.spec_bytes()),
{
    let b = w.as_bytes();
    let digits = slice_subrange(b, 48, 64);
    match parse_hex_u64(digits) {
        Ok(v) => v,
        Err(_) => 0,
    }
}

/// Word `i` of the list, 0 past its end.
pub fn word(words: &[&str], i: usize) -> (r: u64)
    requires
        word_at_readable(strs_bytes(words@), i as int),
    ensures
        r == word_at(strs_bytes(words@), i as int),
{
    if i < words.len() {
        word_u64_str(words[i])
    } else {
        0
    }
}

/// Word `i` read straight from the body: the 64 bytes from `64 * i`.
pub fn word_u64(body: &str, i: usize) -> (r: u64)
    requires
        i <= (usize::MAX - 64) / 64,
        body_word_readable(body.spec_bytes(), i as int),
    ensures
        r == body_word(body.spec_bytes(), i as int),
{
    let b = body.as_bytes();
    let start = i * 64;
    let end = start + 64;
    if end <= b.len() && is_boundary(b, start) && is_boundary(b, end) {
        let w = slice_subrange(b, start, end);
        assert(w@ == b@.subrange(start as int, end as int));
        let digits = slice_subrange(w, 48, 64);
        assert(digits@ =~= w@.subrange(48, 64));
        match parse_hex_u64(digits) {
            Ok(v) => v,
            Err(_) => 0,
        }
    } else {
        0
    }
}

pub(crate) fn is_boundary(b: &[u8], i: usize) -> (r: bool)
    requires
        i <= b@.len(),
    ensures
        r == char_boundary(b@, i as int),
{
    i == 0 || i == b.len() || !(128 <= b[i] && b[i] < 192)
}

/// The reply body cut into 64-byte words, keeping the words that are valid UTF-8.
pub fn words_of<'a>(body: &'a str) -> (r: Vec<&'a str>)
    ensures
        strs_bytes(r@) == utf8_words(body.spec_bytes()),
{
    let b = body.as_bytes();
    let mut words: Vec<&'a str> = Vec::new();
    let mut pos: usize = 0;
    assert(b@.skip(0) =~= b@);
    while pos < b.len()
        invariant
            pos <= b@.len(),
            b@ == body.spec_bytes(),
            utf8_words(b@) =~= strs_bytes(words@) + utf8_words(b@.skip(pos as int)),
        decreases b.len() - pos,
    {
        let ghost rest = b@.skip(pos as int);
        let end = if b.len() - pos < 64 { b.len() } else { pos + 64 };
        let chunk = slice_subrange(b, pos, end);
        assert(chunk@ =~= rest.take(end - pos));
        assert(b@.skip(end as int) =~= rest.skip(end - pos));
        match str_from_utf8(chunk) {
            Some(w) => {
                words.push(w);
            },
            None => {},
        }
        pos = end;
    }
    words
}

/// Hex digit `k` (counting from the least significant) of `v`; 0 above digit 15.
pub open spec fn nibble(v: u64, k: int) -> u64 {
    if 0 <= k < 16 {
        (v >> ((4 * k) as u64)) & 15
    } else {
        0
    }
}

/// The lower-case hex digit for `d < 16`, as a byte.
pub open spec fn lower_hex_byte(d: u64) -> u8 {
    if d < 10 {
        (48 + d) as u8
    } else {
        (87 + d) as u8
    }
}

/// `format!("{v:064x}")`: `v` as 64 lower-case hex digits, zero-padded.
pub open spec fn hex_word_bytes(v: u64) -> Seq<u8> {
    Seq::new(64, |i: int| lower_hex_byte(nibble(v, 63 - i)))
}

/// The same 64 digits as characters.
pub open spec fn hex_word_chars(v: u64) -> Seq<char> {
    hex_word_bytes(v).map_values(|b: u8| b as char)
}

fn hex_digit_str(d: u64) -> (r: &'static str)
    requires
        d < 16,
    ensures
        r@ == seq![lower_hex_byte(d) as char],
{
    if d == 0 {
        proof { reveal_strlit("0"); }
        "0"
    } else if d == 1 {
        proof { reveal_strlit("1"); }
        "1"
    } else if d == 2 {
        proof { reveal_strlit("2"); }
        "2"
    } else if d == 3 {
        proof { reveal_strlit("3"); }
        "3"
    } else if d == 4 {
        proof { reveal_strlit("4"); }
        "4"
    } else if d == 5 {
        proof { reveal_strlit("5"); }
        "5"
    } else if d == 6 {
        proof { reveal_strlit("6"); }
        "6"
    } else if d == 7 {
        proof { reveal_strlit("7"); }
        "7"
    } else if d == 8 {
        proof { reveal_strlit("8"); }
        "8"
    } else if d == 9 {
        proof { reveal_strlit("9"); }
        "9"
    } else if d == 10 {
        proof { reveal_strlit("a"); }
        "a"
    } else if d == 11 {
        proof { reveal_strlit("b"); }
        "b"
    } else if d == 12 {
        proof { reveal_strlit("c"); }
        "c"
    } else if d == 13 {
        proof { reveal_strlit("d"); }
        "d"
    } else if d == 14 {
        proof { reveal_strlit("e"); }
        "e"
    } else {
        proof { reveal_strlit("f"); }
        "f"
    }
}

/// Calldata for a call that takes one word: the selector, then the argument
/// as 64 hex digits (`format!("{selector}{v:064x}")`).
pub fn calldata(selector: &str, v: u64) -> (r: String)
    ensures
        r@ == selector@ + hex_word_chars(v),
{
    let mut s = <String as StringExecFns>::from_str(selector);
    let mut i: usize = 0;
    while i < 64
        invariant
            i <= 64,
            s@ == selector@ + hex_word_chars(v).take(i as int),
        decreases 64 - i,
    {
        let k: usize = 63 - i;
        let d: u64 = if k < 16 {
            let sh: u64 = (4 * k) as u64;
            let x = (v >> sh) & 15;
            assert((v >> sh) & 15 < 16) by (bit_vector);
            x
        } else {
            0
        };
        assert(d == nibble(v, 63 - i));
        let piece = hex_digit_str(d);
        s.append(piece);
        assert(hex_word_chars(v).take(i + 1) =~= hex_word_chars(v).take(i as int) + seq![lower_hex_byte(d) as char]);
        i = i + 1;
    }
    assert(hex_word_chars(v).take(64) =~= hex_word_chars(v));
    s
}

proof fn lemma_nibble_step(v: u64, s: u64)
    requires
        s <= 60,
    ensures
        (v >> (s + 4)) as int * 16 + ((v >> s) & 15) as int == (v >> s) as int,
{
    assert((v >> (s + 4)) * 16 + ((v >> s) & 15) == (v >> s)) by (bit_vector)
        requires s <= 60;
}

proof fn lemma_fold_hex_word(v: u64, n: int)
    requires
        0 <= n <= 16,
    ensures
        fold_hex_digits(hex_word_bytes(v).subrange(48, 48 + n)) == Ok::<u64, IntErrorKind>(
            if n == 0 { 0 } else { v >> ((4 * (16 - n)) as u64) },
        ),
    decreases n,
{
    let d = hex_word_bytes(v).subrange(48, 48 + n);
    if n > 0 {
        lemma_fold_hex_word(v, n - 1);
        assert(d.drop_last() =~= hex_word_bytes(v).subrange(48, 48 + n - 1));
        let x = nibble(v, 16 - n);
        assert(x < 16) by {
            let sh = (4 * (16 - n)) as u64;
            assert((v >> sh) & 15 < 16) by (bit_vector);
        }
        assert(d.last() == lower_hex_byte(x));
        assert(hex_digit_value(lower_hex_byte(x)) == Some(x));
        let s = (4 * (16 - n)) as u64;
        if n == 1 {
            assert(v >> 60 <= 15) by (bit_vector);
            assert((v >> 60) & 15 == v >> 60) by (bit_vector);
        } else {
            lemma_nibble_step(v, s);
            assert((s + 4) as u64 == (4 * (16 - (n - 1))) as u64);
        }
    }
}

/// A word written by `calldata` reads back as the value it was written from:
/// the 64 digits that `calldata` appends are, as text, the bytes
/// `hex_word_bytes(v)`; they can be read as a word, and its value is `v`.
pub proof fn lemma_hex_word_roundtrip(v: u64)
    ensures
        encode_utf8(hex_word_chars(v)) == hex_word_bytes(v),
        word_readable(hex_word_bytes(v)),
        word_value(hex_word_bytes(v)) == v,
{
    let w = hex_word_bytes(v);
    let cs = hex_word_chars(v);
    assert forall|i: int| 0 <= i < 64 implies '\0' <= #[trigger] cs[i] <= '\u{7f}' by {
        if 0 <= 63 - i < 16 {
            let sh = (4 * (63 - i)) as u64;
            assert((v >> sh) & 15 < 16) by (bit_vector);
        }
        assert(cs[i] == w[i] as char);
    }
    assert(is_ascii_chars(cs));
    is_ascii_chars_encode_utf8(cs);
    assert(encode_utf8(cs) =~= w);
    lemma_fold_hex_word(v, 16);
    let x = nibble(v, 15);
    assert(x < 16) by {
        assert((v >> 60) & 15 < 16) by (bit_vector);
    }
    assert(w[48] == lower_hex_byte(x));
    assert(w.subrange(48, 64)[0] == w[48]);
    assert(v >> 0u64 == v) by (bit_vector);
    assert(w.subrange(48, 64) =~= w.subrange(48, 48 + 16int));
}

/// `trim_start_matches("0x")`: every leading `0x` removed.
pub open spec fn trim_0x_all(s: Seq<char>) -> Seq<char>
    decreases s.len(),
{
    if s.len() >= 2 && s[0] == '0' && s[1] == 'x' {
        trim_0x_all(s.skip(2))
    } else {
        s
    }
}

/// The text after all its leading `0x` pairs.
pub fn trim_0x(h: &str) -> (r: &str)
    ensures
        r@ == trim_0x_all(h@),
{
    let n = h.unicode_len();
    let mut i: usize = 0;
    assert(h@.skip(0) =~= h@);
    while n - i >= 2 && h.get_char(i) == '0' && h.get_char(i + 1) == 'x'
        invariant
            i <= n,
            n == h@.len(),
            trim_0x_all(h@) == trim_0x_all(h@.skip(i as int)),
        decreases n - i,
    {
        assert(h@.skip(i as int).skip(2) =~= h@.skip(i + 2));
        i = i + 2;
    }
    h.substring_char(i, n)
}

/// Whether word `i` of the list can be read (true past the end).
pub fn word_is_readable(words: &[&str], i: usize) -> (r: bool)
    ensures
        r == word_at_readable(strs_bytes(words@), i as int),
{
    if i < words.len() {
        let b = words[i].as_bytes();
        b.len() >= 64 && is_boundary(b, 48) && is_boundary(b, 64)
    } else {
        true
    }
}

} // verus!
