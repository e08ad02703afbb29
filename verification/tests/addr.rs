use monad_sonar::addr::{advertised_ip, parse_echoed_ip, parse_ipv4, trim};

#[test]
fn ipv4_accepts_dotted_quads() {
    assert_eq!(parse_ipv4(b"149.50.110.123"), Some([149, 50, 110, 123]));
    assert_eq!(parse_ipv4(b"0.0.0.0"), Some([0, 0, 0, 0]));
    assert_eq!(parse_ipv4(b"255.255.255.255"), Some([255, 255, 255, 255]));
}

#[test]
fn ipv4_rejects_malformed_text() {
    for s in [
        "", "1.2.3", "1.2.3.4.5", "256.1.1.1", "01.2.3.4", "1..2.3", "1.2.3.4 ", " 1.2.3.4",
        "1.2.3.a", "1234.1.1.1", "1.2.3.", ".1.2.3", "+1.2.3.4", "1.2.3.00",
    ] {
        assert_eq!(parse_ipv4(s.as_bytes()), None, "input {:?}", s);
    }
}

#[test]
fn trim_drops_unicode_white_space() {
    assert_eq!(trim("  1.2.3.4\n"), "1.2.3.4");
    assert_eq!(trim("\u{3000}x y\u{85}"), "x y");
    assert_eq!(trim(" \t "), "");
    assert_eq!(trim("a"), "a");
}

#[test]
fn echoed_ip_is_trimmed_then_parsed() {
    assert_eq!(parse_echoed_ip("203.0.113.7\n"), Some([203, 0, 113, 7]));
    assert_eq!(parse_echoed_ip("<html>"), None);
}

#[test]
fn explicit_ip_wins_and_must_parse() {
    assert_eq!(advertised_ip(Some("10.0.0.1"), Some([1, 1, 1, 1])), Ok(Some([10, 0, 0, 1])));
    assert_eq!(advertised_ip(Some("nope"), Some([1, 1, 1, 1])), Err(()));
    assert_eq!(advertised_ip(None, Some([1, 1, 1, 1])), Ok(Some([1, 1, 1, 1])));
    assert_eq!(advertised_ip(None, None), Ok(None));
}
