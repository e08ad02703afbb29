//! The address the crawler advertises in its own name record: an explicit
//! `--public-ip`, else the one an echo service reported.

use vstd::prelude::*;
use vstd::string::StrSliceExecFns;
use vstd::string::StringSliceAdditionalSpecFns;
use vstd::utf8::encode_utf8;

verus! {

/// `char::is_whitespace`: the characters with the Unicode `White_Space` property.
pub open spec fn is_ws(c: char) -> bool {
    ('\u{9}' <= c <= '\u{d}') || c == ' ' || c == '\u{85}' || c == '\u{a0}' || c == '\u{1680}'
        || ('\u{2000}' <= c <= '\u{200a}') || c == '\u{2028}' || c == '\u{2029}'
        || c == '\u{202f}' || c == '\u{205f}' || c == '\u{3000}'
}

/// The text without its leading white space.
pub open spec fn trim_start_ws(s: Seq<char>) -> Seq<char>
    decreases s.len(),
{
    if s.len() > 0 && is_ws(s[0]) {
        trim_start_ws(s.skip(1))
    } else {
        s
    }
}

/// The text without its trailing white space.
pub open spec fn trim_end_ws(s: Seq<char>) -> Seq<char>
    decreases s.len(),
{
    if s.len() > 0 && is_ws(s.last()) {
        trim_end_ws(s.drop_last())
    } else {
        s
    }
}

/// `str::trim`: the text without white space at either end.
pub open spec fn trim_ws(s: Seq<char>) -> Seq<char> {
    trim_end_ws(trim_start_ws(s))
}

fn char_is_ws(c: char) -> (r: bool)
    ensures
        r == is_ws(c),
{
    ('\u{9}' <= c && c <= '\u{d}') || c == ' ' || c == '\u{85}' || c == '\u{a0}' || c == '\u{1680}'
        || ('\u{2000}' <= c && c <= '\u{200a}') || c == '\u{2028}' || c == '\u{2029}'
        || c == '\u{202f}' || c == '\u{205f}' || c == '\u{3000}'
}

/// The text without white space at either end.
pub fn trim(s: &str) -> (r: &str)
    ensures
        r@ == trim_ws(s@),
{
    let n = s.unicode_len();
    let mut i: usize = 0;
    assert(s@.skip(0) =~= s@);
    while i < n && char_is_ws(s.get_char(i))
        invariant
            i <= n,
            n == s@.len(),
            trim_start_ws(s@) == trim_start_ws(s@.skip(i as int)),
        decreases n - i,
    {
        assert(s@.skip(i as int).skip(1) =~= s@.skip(i + 1));
        i = i + 1;
    }
    assert(trim_start_ws(s@.skip(i as int)) == s@.skip(i as int));
    let mut j: usize = n;
    assert(s@.subrange(i as int, n as int) =~= s@.skip(i as int));
    while j > i && char_is_ws(s.get_char(j - 1))
        invariant
            i <= j <= n,
            n == s@.len(),
            trim_ws(s@) == trim_end_ws(s@.subrange(i as int, j as int)),
        decreases j,
    {
        assert(s@.subrange(i as int, j as int).drop_last() =~= s@.subrange(i as int, j - 1));
        j = j - 1;
    }
    s.substring_char(i, j)
}

/// The text cut at each `.`: the parts between the dots, in order.
pub open spec fn dot_parts(b: Seq<u8>) -> Seq<Seq<u8>>
    decreases b.len(),
{
    if b.len() == 0 {
        seq![Seq::empty()]
    } else {
        let ps = dot_parts(b.drop_last());
        if b.last() == 46 {
            ps.push(Seq::empty())
        } else {
            ps.update(ps.len() - 1, ps.last().push(b.last()))
        }
    }
}

/// The value of a run of decimal digits.
pub open spec fn dec_value(s: Seq<u8>) -> int
    decreases s.len(),
{
    if s.len() == 0 {
        0
    } else {
        dec_value(s.drop_last()) * 10 + (s.last() - 48)
    }
}

/// An octet of dotted-quad text: one to three decimal digits, no leading zero
/// unless the digit stands alone, at most 255.
pub open spec fn octet_ok(s: Seq<u8>) -> bool {
    &&& 1 <= s.len() <= 3
    &&& forall|i: int| 0 <= i < s.len() ==> 48 <= #[trigger] s[i] <= 57
    &&& s.len() > 1 ==> s[0] != 48
    &&& dec_value(s) <= 255
}

/// `Ipv4Addr::from_str` on the bytes `b`: exactly four octets joined by dots.
pub open spec fn ipv4_spec(b: Seq<u8>) -> Option<Seq<u8>> {
    let ps = dot_parts(b);
    if ps.len() == 4 && forall|i: int| 0 <= i < 4 ==> #[trigger] octet_ok(ps[i]) {
        Some(Seq::new(4, |i: int| dec_value(ps[i]) as u8))
    } else {
        None
    }
}

proof fn lemma_dot_parts_nonempty(b: Seq<u8>)
    ensures
        dot_parts(b).len() >= 1,
    decreases b.len(),
{
    if b.len() > 0 {
        lemma_dot_parts_nonempty(b.drop_last());
    }
}

/// The decimal digit `d` as a byte.
pub open spec fn digit_byte(d: int) -> u8 {
    (48 + d) as u8
}

/// `x.to_string()`: the decimal text of a byte, without leading zeros.
pub open spec fn dec_text(x: u8) -> Seq<u8> {
    let v = x as int;
    if v >= 100 {
        seq![digit_byte(v / 100), digit_byte((v / 10) % 10), digit_byte(v % 10)]
    } else if v >= 10 {
        seq![digit_byte(v / 10), digit_byte(v % 10)]
    } else {
        seq![digit_byte(v)]
    }
}

/// `format!("{a}.{b}.{c}.{d}")` as bytes.
pub open spec fn quad_text(a: u8, b: u8, c: u8, d: u8) -> Seq<u8> {
    dec_text(a) + seq![46u8] + dec_text(b) + seq![46u8] + dec_text(c) + seq![46u8] + dec_text(d)
}

proof fn lemma_dot_parts_single(q: Seq<u8>)
    requires
        forall|k: int| 0 <= k < q.len() ==> #[trigger] q[k] != 46,
    ensures
        dot_parts(q) == seq![q],
    decreases q.len(),
{
    if q.len() == 0 {
        assert(q =~= Seq::<u8>::empty());
    } else {
        let init = q.drop_last();
        assert forall|k: int| 0 <= k < init.len() implies #[trigger] init[k] != 46 by {
            assert(init[k] == q[k]);
        }
        lemma_dot_parts_single(init);
        assert(q.last() == q[q.len() - 1]);
        assert(init.push(q.last()) =~= q);
        assert(seq![init].update(0, init.push(q.last())) =~= seq![q]);
    }
}

proof fn lemma_dot_parts_append(p: Seq<u8>, q: Seq<u8>)
    requires
        forall|k: int| 0 <= k < q.len() ==> #[trigger] q[k] != 46,
    ensures
        dot_parts(p + seq![46u8] + q) == dot_parts(p).push(q),
    decreases q.len(),
{
    let s = p + seq![46u8] + q;
    if q.len() == 0 {
        assert(s =~= p.push(46));
        assert(s.drop_last() =~= p);
        assert(q =~= Seq::<u8>::empty());
    } else {
        let init = q.drop_last();
        assert forall|k: int| 0 <= k < init.len() implies #[trigger] init[k] != 46 by {
            assert(init[k] == q[k]);
        }
        lemma_dot_parts_append(p, init);
        assert(s.drop_last() =~= p + seq![46u8] + init);
        assert(s.last() == q[q.len() - 1]);
        lemma_dot_parts_nonempty(p);
        assert(init.push(q.last()) =~= q);
        let ps = dot_parts(p).push(init);
        assert(ps.update(ps.len() - 1, ps.last().push(s.last())) =~= dot_parts(p).push(q));
    }
}

proof fn lemma_dec_text(x: u8)
    ensures
        octet_ok(dec_text(x)),
        dec_value(dec_text(x)) == x,
        forall|k: int| 0 <= k < dec_text(x).len() ==> #[trigger] dec_text(x)[k] != 46,
{
    let t = dec_text(x);
    reveal_with_fuel(dec_value, 4);
    if x >= 100 {
        assert(t.drop_last() =~= seq![t[0], t[1]]);
        assert(t.drop_last().drop_last() =~= seq![t[0]]);
        assert(seq![t[0]].drop_last() =~= Seq::<u8>::empty());
    } else if x >= 10 {
        assert(t.drop_last() =~= seq![t[0]]);
        assert(seq![t[0]].drop_last() =~= Seq::<u8>::empty());
    } else {
        assert(t.drop_last() =~= Seq::<u8>::empty());
    }
}

/// Every address prints and reads back: the dotted-quad text of any four
/// bytes `a.b.c.d` parses to exactly those four bytes.
pub proof fn lemma_ipv4_roundtrip(a: u8, b: u8, c: u8, d: u8)
    ensures
        ipv4_spec(quad_text(a, b, c, d)) == Some(seq![a, b, c, d]),
{
    lemma_dec_text(a);
    lemma_dec_text(b);
    lemma_dec_text(c);
    lemma_dec_text(d);
    let ta = dec_text(a);
    let tb = dec_text(b);
    let tc = dec_text(c);
    let td = dec_text(d);
    lemma_dot_parts_single(ta);
    lemma_dot_parts_append(ta, tb);
    lemma_dot_parts_append(ta + seq![46u8] + tb, tc);
    lemma_dot_parts_append(ta + seq![46u8] + tb + seq![46u8] + tc, td);
    let ps = dot_parts(quad_text(a, b, c, d));
    assert(ps =~= seq![ta, tb, tc, td]);
    assert(forall|i: int| 0 <= i < 4 ==> #[trigger] octet_ok(ps[i]));
    assert(Seq::new(4, |i: int| dec_value(ps[i]) as u8) =~= seq![a, b, c, d]);
}

fn octet_value(s: &Vec<u8>) -> (r: Option<u8>)
    ensures
        r is Some <==> octet_ok(s@),
        r matches Some(v) ==> v == dec_value(s@),
{
    if s.len() < 1 || s.len() > 3 {
        return None;
    }
    if s.len() > 1 && s[0] == 48 {
        return None;
    }
    let mut v: u32 = 0;
    let mut i: usize = 0;
    while i < s.len()
        invariant
            i <= s@.len() <= 3,
            v == dec_value(s@.take(i as int)),
            v < 1000,
            forall|k: int| 0 <= k < i ==> 48 <= #[trigger] s@[k] <= 57,
        decreases s.len() - i,
    {
        let c = s[i];
        if c < 48 || c > 57 {
            return None;
        }
        assert(s@.take(i + 1).drop_last() =~= s@.take(i as int));
        assert(v * 10 + (c - 48) < 10000) by (nonlinear_arith)
            requires v < 1000, c <= 57, c >= 48;
        v = v * 10 + (c - 48) as u32;
        assert(v < 1000) by {
            lemma_dec_bound(s@.take(i + 1));
        }
        i = i + 1;
    }
    assert(s@.take(i as int) =~= s@);
    if v > 255 {
        None
    } else {
        Some(v as u8)
    }
}

proof fn lemma_dec_bound(s: Seq<u8>)
    requires
        s.len() <= 3,
        forall|k: int| 0 <= k < s.len() ==> 48 <= #[trigger] s[k] <= 57,
    ensures
        0 <= dec_value(s) < 1000,
        s.len() <= 2 ==> dec_value(s) < 100,
        s.len() <= 1 ==> dec_value(s) < 10,
    decreases s.len(),
{
    if s.len() > 0 {
        let init = s.drop_last();
        assert forall|k: int| 0 <= k < init.len() implies 48 <= #[trigger] init[k] <= 57 by {
            assert(init[k] == s[k]);
        }
        lemma_dec_bound(init);
        assert(s.last() == s[s.len() - 1]);
    }
}

/// Reads dotted-quad IPv4 text, with the rules of `Ipv4Addr::from_str`.
pub fn parse_ipv4(b: &[u8]) -> (r: Option<[u8; 4]>)
    ensures
        r is Some <==> ipv4_spec(b@) is Some,
        r matches Some(a) ==> a@ == ipv4_spec(b@).unwrap(),
{
    let mut done: Vec<Vec<u8>> = Vec::new();
    let mut cur: Vec<u8> = Vec::new();
    let mut i: usize = 0;
    assert(b@.take(0) =~= Seq::<u8>::empty());
    while i < b.len()
        invariant
            i <= b@.len(),
            dot_parts(b@.take(i as int)) =~= done@.map_values(|v: Vec<u8>| v@).push(cur@),
        decreases b.len() - i,
    {
        assert(b@.take(i + 1).drop_last() =~= b@.take(i as int));
        assert(b@.take(i + 1).last() == b@[i as int]);
        if b[i] == 46 {
            let part = cur;
            done.push(part);
            cur = Vec::new();
        } else {
            cur.push(b[i]);
        }
        i = i + 1;
    }
    assert(b@.take(i as int) =~= b@);
    let ghost ps = dot_parts(b@);
    if done.len() != 3 {
        return None;
    }
    assert(ps[3] == cur@);
    assert(ps[0] == done@[0]@);
    assert(ps[1] == done@[1]@);
    assert(ps[2] == done@[2]@);
    let o0 = match octet_value(&done[0]) {
        Some(v) => v,
        None => return None,
    };
    let o1 = match octet_value(&done[1]) {
        Some(v) => v,
        None => return None,
    };
    let o2 = match octet_value(&done[2]) {
        Some(v) => v,
        None => return None,
    };
    let o3 = match octet_value(&cur) {
        Some(v) => v,
        None => return None,
    };
    let a = [o0, o1, o2, o3];
    assert(forall|k: int| 0 <= k < 4 ==> #[trigger] octet_ok(ps[k]));
    assert(a@ =~= ipv4_spec(b@).unwrap());
    Some(a)
}

/// The address that an echo service's reply names: the reply without white
/// space at either end, read as IPv4, or `None`.
pub fn parse_echoed_ip(reply: &str) -> (r: Option<[u8; 4]>)
    ensures
        r is Some <==> ipv4_spec(encode_utf8(trim_ws(reply@))) is Some,
        r matches Some(a) ==> a@ == ipv4_spec(encode_utf8(trim_ws(reply@))).unwrap(),
{
    let t = trim(reply);
    parse_ipv4(t.as_bytes())
}

/// The address to advertise: an explicit one wins and must be IPv4 text
/// (`Err(())` otherwise); without one, the detected address, if any.
pub fn advertised_ip(explicit: Option<&str>, detected: Option<[u8; 4]>) -> (r: Result<
    Option<[u8; 4]>,
    (),
>)
    ensures
        match explicit {
            Some(s) => match ipv4_spec(encode_utf8(s@)) {
                Some(o) => r matches Ok(Some(a)) && a@ == o,
                None => r is Err,
            },
            None => r == Ok::<Option<[u8; 4]>, ()>(detected),
        },
{
    match explicit {
        Some(s) => match parse_ipv4(s.as_bytes()) {
            Some(a) => Ok(Some(a)),
            None => Err(()),
        },
        None => Ok(detected),
    }
}

} // verus!
