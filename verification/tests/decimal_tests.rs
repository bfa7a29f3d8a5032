use bytes::BytesMut;
use peta::decimal::{parse_usize, push_decimal};

#[test]
fn parses_plain_numerals() {
    assert_eq!(parse_usize(b"0"), Some(0));
    assert_eq!(parse_usize(b"123"), Some(123));
    assert_eq!(parse_usize(b"007"), Some(7));
}

#[test]
fn parses_plus_sign() {
    assert_eq!(parse_usize(b"+42"), Some(42));
}

#[test]
fn refuses_non_numerals() {
    assert_eq!(parse_usize(b""), None);
    assert_eq!(parse_usize(b"+"), None);
    assert_eq!(parse_usize(b"-1"), None);
    assert_eq!(parse_usize(b"12a"), None);
    assert_eq!(parse_usize(b" 1"), None);
}

#[test]
fn refuses_overflow() {
    let max = usize::MAX.to_string();
    assert_eq!(parse_usize(max.as_bytes()), Some(usize::MAX));
    let over = format!("{}0", usize::MAX);
    assert_eq!(parse_usize(over.as_bytes()), None);
}

#[test]
fn agrees_with_std_parse() {
    for s in ["0", "9", "+9", "", "+", "++1", "1+", "99999", "4294967296", "abc"] {
        assert_eq!(parse_usize(s.as_bytes()), s.parse::<usize>().ok(), "{:?}", s);
    }
}

#[test]
fn writes_decimal() {
    let mut buf = BytesMut::new();
    push_decimal(&mut buf, 0);
    assert_eq!(&buf[..], b"0");
    let mut buf = BytesMut::from(&b"n="[..]);
    push_decimal(&mut buf, 1234567);
    assert_eq!(&buf[..], b"n=1234567");
}

#[test]
fn written_decimal_reads_back() {
    for n in [0usize, 1, 10, 99, 100, 65535, usize::MAX] {
        let mut buf = BytesMut::new();
        push_decimal(&mut buf, n);
        assert_eq!(parse_usize(&buf[..]), Some(n));
    }
}
