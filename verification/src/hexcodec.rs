//! Hex text to bytes, through the `hex` crate.

use vstd::prelude::*;
use crate::abi::hex_digit_value;

verus! {

/// Why hex text could not be decoded (the variants of `hex::FromHexError`).
#[derive(Debug, Clone, Copy, PartialEq, Eq, Structural)]
pub enum HexError {
    /// The byte at `index` is no hex digit; `c` is that byte as a character.
    InvalidHexCharacter { c: char, index: usize },
    /// The text has an odd number of digits.
    OddLength,
    /// The text does not fit the fixed-size target.
    InvalidStringLength,
}

/// Decodes digit pairs left to right; `base` is the index of `s[0]` in the
/// whole text. The first byte that is no hex digit decides the error.
pub open spec fn decode_pairs(s: Seq<u8>, base: nat) -> Result<Seq<u8>, HexError>
    decreases s.len(),
{
    if s.len() < 2 {
        Ok(Seq::empty())
    } else {
        match (hex_digit_value(s[0]), hex_digit_value(s[1])) {
            (None, _) => Err(HexError::InvalidHexCharacter { c: s[0] as char, index: base as usize }),
            (Some(_), None) => Err(
                HexError::InvalidHexCharacter { c: s[1] as char, index: (base + 1) as usize },
            ),
            (Some(h), Some(l)) => match decode_pairs(s.skip(2), base + 2) {
                Err(e) => Err(e),
                Ok(rest) => Ok(seq![(h * 16 + l) as u8] + rest),
            },
        }
    }
}

/// What `hex::decode` gives for the bytes `s`.
pub open spec fn hex_decode_spec(s: Seq<u8>) -> Result<Seq<u8>, HexError> {
    if s.len() % 2 != 0 {
        Err(HexError::OddLength)
    } else {
        decode_pairs(s, 0)
    }
}

/// `hex::decode`, its error mapped variant for variant. Claimed of it: odd
/// length gives `OddLength`; otherwise each pair of hex digits (either case)
/// becomes one byte, high digit first, and the first byte that is no hex digit
/// is reported with its index and as a character (`hex_decode_spec`).
#[verifier::external_body]
pub(crate) fn hex_decode(data: &[u8]) -> (r: Result<Vec<u8>, HexError>)
    ensures
        match r {
            Ok(v) => hex_decode_spec(data@) == Ok::<Seq<u8>, HexError>(v@),
            Err(e) => hex_decode_spec(data@) == Err::<Seq<u8>, HexError>(e),
        },
{
    match hex::decode(data) {
        Ok(v) => Ok(v),
        Err(hex::FromHexError::InvalidHexCharacter { c, index }) => Err(
            HexError::InvalidHexCharacter { c, index },
        ),
        Err(hex::FromHexError::OddLength) => Err(HexError::OddLength),
        Err(hex::FromHexError::InvalidStringLength) => Err(HexError::InvalidStringLength),
    }
}

/// Decoding `2n` digits gives `n` bytes.
pub proof fn lemma_decode_pairs_len(s: Seq<u8>, base: nat)
    requires
        s.len() % 2 == 0,
    ensures
        decode_pairs(s, base) matches Ok(b) ==> b.len() * 2 == s.len(),
    decreases s.len(),
{
    if s.len() >= 2 {
        lemma_decode_pairs_len(s.skip(2), base + 2);
    }
}

} // verus!
