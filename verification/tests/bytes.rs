use nix_freedesktop_icons::bytes::{bytes_eq, find_byte, parse_i16, trim_ascii};

#[test]
fn parse_i16_values() {
    assert_eq!(parse_i16(b"48"), Some(48));
    assert_eq!(parse_i16(b"+12"), Some(12));
    assert_eq!(parse_i16(b"-7"), Some(-7));
    assert_eq!(parse_i16(b"-32768"), Some(-32768));
    assert_eq!(parse_i16(b"32767"), Some(32767));
    assert_eq!(parse_i16(b"32768"), None);
    assert_eq!(parse_i16(b""), None);
    assert_eq!(parse_i16(b"-"), None);
    assert_eq!(parse_i16(b"+"), None);
    assert_eq!(parse_i16(b" 1"), None);
    assert_eq!(parse_i16(b"1x"), None);
    assert_eq!(parse_i16(b"+-1"), None);
}

#[test]
fn trim_ascii_values() {
    assert_eq!(trim_ascii(b" \t a b \r\n"), b"a b");
    assert_eq!(trim_ascii(b"   "), b"");
    assert_eq!(trim_ascii(b"\x0bx\x0b"), b"\x0bx\x0b");
    assert_eq!(trim_ascii(b"\x0cx"), b"x");
}

#[test]
fn find_byte_values() {
    assert_eq!(find_byte(b'=', b"a=b=c"), Some(1));
    assert_eq!(find_byte(b'=', b"abc"), None);
    assert_eq!(find_byte(b'\n', b"\n"), Some(0));
}

#[test]
fn bytes_eq_values() {
    assert!(bytes_eq(b"Size", b"Size"));
    assert!(!bytes_eq(b"Size", b"size"));
    assert!(!bytes_eq(b"Size", b"Sizes"));
}
