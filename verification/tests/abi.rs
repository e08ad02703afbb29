use monad_sonar::abi::{
    calldata, parse_hex_u64, strip, trim_0x, word, word_is_readable, word_u64, word_u64_str,
    words_of, IntErrorKind,
};

fn std_kind(s: &str) -> Result<u64, IntErrorKind> {
    match u64::from_str_radix(s, 16) {
        Ok(v) => Ok(v),
        Err(e) => Err(match e.kind() {
            std::num::IntErrorKind::Empty => IntErrorKind::Empty,
            std::num::IntErrorKind::PosOverflow => IntErrorKind::PosOverflow,
            _ => IntErrorKind::InvalidDigit,
        }),
    }
}

#[test]
fn hex_parse_matches_from_str_radix() {
    let cases = [
        "", "+", "-", "0", "f", "F", "ff", "+ff", "-ff", "1a2B", "g", "12g4", "00000000000000ff",
        "ffffffffffffffff", "FFFFFFFFFFFFFFFF", "10000000000000000", "0000000000000000000001",
        "+ffffffffffffffff", "++1", " 1", "1 ", "fffffffffffffffffg", "gfffffffffffffffff",
    ];
    for c in cases {
        assert_eq!(parse_hex_u64(c.as_bytes()), std_kind(c), "input {:?}", c);
    }
}

#[test]
fn hex_parse_error_kinds() {
    assert_eq!(parse_hex_u64(b""), Err(IntErrorKind::Empty));
    assert_eq!(parse_hex_u64(b"+"), Err(IntErrorKind::InvalidDigit));
    assert_eq!(parse_hex_u64(b"x1"), Err(IntErrorKind::InvalidDigit));
    assert_eq!(parse_hex_u64(b"10000000000000000"), Err(IntErrorKind::PosOverflow));
    assert_eq!(parse_hex_u64(b"+7fff"), Ok(0x7fff));
}

#[test]
fn strip_removes_one_prefix() {
    assert_eq!(strip("0xabc"), "abc");
    assert_eq!(strip("abc"), "abc");
    assert_eq!(strip("0x0xa"), "0xa");
    assert_eq!(strip("0x"), "");
    assert_eq!(strip("0"), "0");
}

#[test]
fn trim_removes_every_prefix() {
    assert_eq!(trim_0x("0x0x1a"), "1a");
    assert_eq!(trim_0x("1a"), "1a");
    assert_eq!(trim_0x("0x"), "");
    assert_eq!(trim_0x("0X1"), "0X1");
}

#[test]
fn word_reads_low_sixteen_digits() {
    let w = format!("{:064x}", 0x1234_5678_9abc_def0u64);
    assert_eq!(word_u64_str(&w), 0x1234_5678_9abc_def0);
    let high = format!("{}{}", "f".repeat(48), "0000000000000007");
    assert_eq!(word_u64_str(&high), 7);
    let bad = format!("{}{}", "0".repeat(48), "000000000000000z");
    assert_eq!(word_u64_str(&bad), 0);
}

#[test]
fn calldata_matches_format() {
    for v in [0u64, 1, 7, 255, 0xdead_beef, u64::MAX] {
        assert_eq!(calldata("0x2b6d639a", v), format!("0x2b6d639a{v:064x}"));
    }
}

#[test]
fn calldata_word_reads_back() {
    for v in [0u64, 5, 1 << 40, u64::MAX] {
        let data = calldata("", v);
        assert_eq!(word_u64_str(&data), v);
    }
}

#[test]
fn words_cut_at_64_bytes() {
    let body = format!("{:064x}{:064x}ab", 1u64, 2u64);
    let ws = words_of(&body);
    assert_eq!(ws.len(), 3);
    assert_eq!(ws[2], "ab");
    assert_eq!(word(&ws, 0), 1);
    assert_eq!(word(&ws, 1), 2);
    assert_eq!(word(&ws, 9), 0);
    assert!(word_is_readable(&ws, 1));
    assert!(!word_is_readable(&ws, 2));
    assert!(word_is_readable(&ws, 3));
}

#[test]
fn words_drop_chunks_that_split_a_character() {
    let body = format!("{}é{}{}", "a".repeat(63), "b".repeat(63), "c".repeat(64));
    let ws = words_of(&body);
    assert_eq!(ws.len(), 1);
    assert_eq!(ws[0], "c".repeat(64));
}

#[test]
fn word_u64_reads_straight_from_the_body() {
    let body = format!("{:064x}{:064x}", 42u64, 43u64);
    assert_eq!(word_u64(&body, 0), 42);
    assert_eq!(word_u64(&body, 1), 43);
    assert_eq!(word_u64(&body, 2), 0);
    assert_eq!(word_u64("abc", 0), 0);
}
