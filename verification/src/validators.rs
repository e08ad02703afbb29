//! The active validator set read from a `validators.toml` snapshot: the
//! newest epoch among its sets, and the secp keys of its node ids.

use vstd::prelude::*;
use vstd::string::StringSliceAdditionalSpecFns;
use vstd::utf8::encode_utf8;
use crate::abi::{trim_0x, trim_0x_all};
use crate::hexcodec::{decode_pairs, hex_decode, hex_decode_spec, HexError};
use crate::abi::hex_digit_value;
use vstd::utf8::{is_ascii_chars, is_ascii_chars_encode_utf8};

verus! {

/// The largest of the epochs, 0 when there are none.
pub open spec fn max_epoch(epochs: Seq<u64>) -> u64
    decreases epochs.len(),
{
    if epochs.len() == 0 {
        0
    } else {
        let m = max_epoch(epochs.drop_last());
        if m >= epochs.last() {
            m
        } else {
            epochs.last()
        }
    }
}

/// The newest epoch among the snapshot's validator sets (0 for none).
pub fn newest_epoch(epochs: &[u64]) -> (r: u64)
    ensures
        r == max_epoch(epochs@),
{
    let mut newest: u64 = 0;
    let mut i: usize = 0;
    while i < epochs.len()
        invariant
            i <= epochs@.len(),
            newest == max_epoch(epochs@.take(i as int)),
        decreases epochs.len() - i,
    {
        assert(epochs@.take(i + 1).drop_last() =~= epochs@.take(i as int));
        if epochs[i] > newest {
            newest = epochs[i];
        }
        i = i + 1;
    }
    assert(epochs@.take(i as int) =~= epochs@);
    newest
}

/// The newest epoch is at least every epoch of the snapshot, and is one of
/// them when there are any.
pub proof fn lemma_newest_is_max(epochs: Seq<u64>)
    ensures
        forall|i: int| 0 <= i < epochs.len() ==> #[trigger] epochs[i] <= max_epoch(epochs),
        epochs.len() > 0 ==> exists|i: int| 0 <= i < epochs.len() && epochs[i] == max_epoch(epochs),
    decreases epochs.len(),
{
    if epochs.len() > 0 {
        let init = epochs.drop_last();
        lemma_newest_is_max(init);
        assert forall|i: int| 0 <= i < epochs.len() implies #[trigger] epochs[i] <= max_epoch(epochs) by {
            if i < init.len() {
                assert(init[i] == epochs[i]);
            }
        }
        if max_epoch(init) >= epochs.last() && init.len() > 0 {
            let i = choose|i: int| 0 <= i < init.len() && init[i] == max_epoch(init);
            assert(epochs[i] == init[i]);
        } else {
            assert(epochs[epochs.len() - 1] == epochs.last());
        }
    }
}

/// The bytes of a secp key given as hex text, after its leading `0x` pairs.
pub open spec fn secp_key_spec(secp_hex: Seq<char>) -> Result<Seq<u8>, HexError> {
    hex_decode_spec(encode_utf8(trim_0x_all(secp_hex)))
}

/// The key bytes of a node id written as hex (`hex::decode` of the text after
/// its leading `0x` pairs).
pub fn secp_key_bytes(secp_hex: &str) -> (r: Result<Vec<u8>, HexError>)
    ensures
        match r {
            Ok(v) => secp_key_spec(secp_hex@) == Ok::<Seq<u8>, HexError>(v@),
            Err(e) => secp_key_spec(secp_hex@) == Err::<Seq<u8>, HexError>(e),
        },
{
    let digits = trim_0x(secp_hex);
    hex_decode(digits.as_bytes())
}

/// The lower-case hex digit for `d < 16`, as a byte.
pub open spec fn hex_digit_byte(d: u8) -> u8 {
    if d < 10 {
        (48 + d) as u8
    } else {
        (87 + d) as u8
    }
}

/// `hex::encode(bs)` as bytes: two lower-case digits per byte, high first.
pub open spec fn hex_encode_bytes(bs: Seq<u8>) -> Seq<u8> {
    Seq::new(
        2 * bs.len(),
        |i: int| hex_digit_byte(if i % 2 == 0 { bs[i / 2] >> 4 } else { bs[i / 2] & 15 }),
    )
}

/// `hex::encode(bs)` as text.
pub open spec fn hex_encode_chars(bs: Seq<u8>) -> Seq<char> {
    hex_encode_bytes(bs).map_values(|b: u8| b as char)
}

proof fn lemma_decode_encoded(bs: Seq<u8>, t: Seq<u8>, base: nat)
    requires
        t == hex_encode_bytes(bs),
    ensures
        decode_pairs(t, base) == Ok::<Seq<u8>, HexError>(bs),
    decreases bs.len(),
{
    if bs.len() == 0 {
        assert(bs =~= Seq::<u8>::empty());
    } else {
        let b0 = bs[0];
        let hi = b0 >> 4;
        let lo = b0 & 15;
        assert(b0 >> 4 < 16 && b0 & 15 < 16) by (bit_vector);
        assert(t[0] == hex_digit_byte(hi));
        assert(t[1] == hex_digit_byte(lo));
        assert(hex_digit_value(hex_digit_byte(hi)) == Some(hi as u64));
        assert(hex_digit_value(hex_digit_byte(lo)) == Some(lo as u64));
        assert(((hi as u64) * 16 + (lo as u64)) == b0 as u64) by (bit_vector)
            requires hi == b0 >> 4, lo == b0 & 15;
        let rest = bs.skip(1);
        assert(t.skip(2) =~= hex_encode_bytes(rest));
        lemma_decode_encoded(rest, t.skip(2), base + 2);
        assert(seq![b0] + rest =~= bs);
    }
}

/// Node-id text reads back as its key: for any bytes, their lower-case hex
/// text, bare or after `0x`, decodes to exactly those bytes (as many bytes as
/// half the digits).
pub proof fn lemma_secp_key_roundtrip(bs: Seq<u8>)
    ensures
        secp_key_spec(hex_encode_chars(bs)) == Ok::<Seq<u8>, HexError>(bs),
        secp_key_spec(seq!['0', 'x'] + hex_encode_chars(bs)) == Ok::<Seq<u8>, HexError>(bs),
{
    let t = hex_encode_bytes(bs);
    let cs = hex_encode_chars(bs);
    assert forall|i: int| 0 <= i < cs.len() implies '\0' <= #[trigger] cs[i] <= '\u{7f}' && cs[i] != 'x' by {
        let d = if i % 2 == 0 { bs[i / 2] >> 4 } else { bs[i / 2] & 15 };
        let e = bs[i / 2];
        assert(e >> 4 < 16 && e & 15 < 16) by (bit_vector);
        assert(cs[i] == t[i] as char);
    }
    assert(is_ascii_chars(cs));
    is_ascii_chars_encode_utf8(cs);
    assert(encode_utf8(cs) =~= t);
    assert(trim_0x_all(cs) == cs) by {
        if cs.len() >= 2 {
            assert(cs[1] != 'x');
        }
    }
    let pre = seq!['0', 'x'] + cs;
    assert(pre.skip(2) =~= cs);
    assert(trim_0x_all(pre) == trim_0x_all(cs));
    assert(t.len() % 2 == 0);
    lemma_decode_encoded(bs, t, 0);
}

} // verus!
