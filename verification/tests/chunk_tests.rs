use bytes::BytesMut;
use peta::chunk::{Chunk, ParseStatus};

fn parse(input: &[u8]) -> (ParseStatus, BytesMut) {
    let mut buf = BytesMut::from(input);
    assert!(Chunk::can_parse(&buf));
    let status = Chunk::parse(&mut buf).unwrap();
    (status, buf)
}

#[test]
fn chunk_then_more() {
    let (status, rest) = parse(b"5\r\nhello\r\nXYZ");
    match status {
        ParseStatus::Chunk(d) => assert_eq!(&d[..], b"hello"),
        _ => panic!("expected a chunk"),
    }
    assert_eq!(&rest[..], b"XYZ");
}

#[test]
fn hex_sizes_in_both_cases() {
    let (status, rest) = parse(b"a\r\n0123456789\r\n");
    match status {
        ParseStatus::Chunk(d) => assert_eq!(&d[..], b"0123456789"),
        _ => panic!("expected a chunk"),
    }
    assert!(rest.is_empty());
    let (status, _) = parse(b"B\r\n0123456789a\r\n");
    match status {
        ParseStatus::Chunk(d) => assert_eq!(&d[..], b"0123456789a"),
        _ => panic!("expected a chunk"),
    }
}

#[test]
fn multi_digit_size() {
    let data = vec![b'x'; 0x1f];
    let mut input = b"1F\r\n".to_vec();
    input.extend_from_slice(&data);
    input.extend_from_slice(b"\r\n");
    let (status, rest) = parse(&input);
    match status {
        ParseStatus::Chunk(d) => assert_eq!(&d[..], &data[..]),
        _ => panic!("expected a chunk"),
    }
    assert!(rest.is_empty());
}

#[test]
fn last_chunk_alone() {
    let (status, rest) = parse(b"0\r\n\r\n");
    assert!(matches!(status, ParseStatus::LastChunk(None)));
    assert!(rest.is_empty());
}

#[test]
fn chunk_followed_by_last_chunk() {
    let (status, rest) = parse(b"5\r\nhello\r\n0\r\n\r\n");
    match status {
        ParseStatus::LastChunk(Some(d)) => assert_eq!(&d[..], b"hello"),
        _ => panic!("expected the last chunk"),
    }
    assert!(rest.is_empty());
}

#[test]
fn data_not_complete() {
    let (status, rest) = parse(b"5\r\nhello");
    assert!(matches!(status, ParseStatus::NotEnoughData));
    assert_eq!(&rest[..], b"5\r\nhello");
}

fn not_enough(input: &[u8]) {
    let (status, rest) = parse(input);
    assert!(matches!(status, ParseStatus::NotEnoughData));
    assert_eq!(&rest[..], input);
}

#[test]
fn size_line_cut_short_waits() {
    not_enough(b"");
    not_enough(b"5");
    not_enough(b"5\r");
    not_enough(b"1F");
}

#[test]
fn data_shorter_than_size_waits() {
    not_enough(b"5\r\nhel");
    not_enough(b"5\r\nhello\r");
    not_enough(b"a\r\n0123");
}

#[test]
fn size_spelling_does_not_matter() {
    for line in [&b"a"[..], b"A", b"00a", b"0A"] {
        let mut input = line.to_vec();
        input.extend_from_slice(b"\r\n0123456789\r\nrest");
        let (status, rest) = parse(&input);
        match status {
            ParseStatus::Chunk(d) => assert_eq!(&d[..], b"0123456789"),
            _ => panic!("expected a chunk"),
        }
        assert_eq!(&rest[..], b"rest");
    }
}

#[test]
fn size_too_large_cannot_parse() {
    assert!(!Chunk::can_parse(&BytesMut::from(&b"fffffffffffffffff\r\n"[..])));
}

#[test]
fn other_byte_ends_size_line() {
    let (status, rest) = parse(b"3;x\r\nabc\r\n");
    match status {
        ParseStatus::Chunk(d) => assert_eq!(&d[..], b"\r\na"),
        _ => panic!("expected a chunk"),
    }
    assert_eq!(&rest[..], b"\r\n");
}
