use bytes::BytesMut;
use peta::date::Time;
use peta::response::{push, Response};
use peta::writer::{WriteAll, WriteError, WriteStep};

fn output(w: &WriteAll) -> Vec<u8> {
    w.buffer()[..].to_vec()
}

#[test]
fn response_with_body() {
    let mut cache = Time::new(0, 0);
    let w = Response::new().write(b"hi", &mut cache, 0, 5).0;
    assert_eq!(
        output(&w),
        b"HTTP/1.1 200 Ok\r\ndate: Thu, 01 Jan 1970 00:00:00 GMT\r\ncontent-length: 2\r\n\r\nhi".to_vec()
    );
}

#[test]
fn response_with_empty_body() {
    let mut cache = Time::new(0, 0);
    let w = Response::new().write(b"", &mut cache, 0, 0).0;
    assert_eq!(
        output(&w),
        b"HTTP/1.1 200 Ok\r\ndate: Thu, 01 Jan 1970 00:00:00 GMT\r\ncontent-length: 0\r\n\r\n".to_vec()
    );
}

#[test]
fn response_status_is_written() {
    let mut cache = Time::new(0, 0);
    let mut res = Response::new();
    res.status("404 Not Found");
    let w = res.write(b"gone!", &mut cache, 0, 0).0;
    assert_eq!(
        output(&w),
        b"HTTP/1.1 404 Not Found\r\ndate: Thu, 01 Jan 1970 00:00:00 GMT\r\ncontent-length: 5\r\n\r\ngone!".to_vec()
    );
}

#[test]
fn response_renews_stale_date() {
    let mut cache = Time::new(0, 0);
    let w = Response::new().write(b"x", &mut cache, 86399, 0).0;
    assert_eq!(
        output(&w),
        b"HTTP/1.1 200 Ok\r\ndate: Thu, 01 Jan 1970 23:59:59 GMT\r\ncontent-length: 1\r\n\r\nx".to_vec()
    );
    // the cache now holds the new line
    let w2 = Response::new().write(b"x", &mut cache, 86399, 1).0;
    assert_eq!(output(&w2), output(&w));
}

#[test]
fn body_length_of_several_digits() {
    let mut cache = Time::new(0, 0);
    let body = vec![b'a'; 1234];
    let w = Response::new().write(&body, &mut cache, 0, 0).0;
    let out = output(&w);
    let head = b"HTTP/1.1 200 Ok\r\ndate: Thu, 01 Jan 1970 00:00:00 GMT\r\ncontent-length: 1234\r\n\r\n";
    assert_eq!(&out[..head.len()], &head[..]);
    assert_eq!(&out[head.len()..], &body[..]);
}

#[test]
fn push_appends() {
    let mut buf = BytesMut::from(&b"ab"[..]);
    push(&mut buf, b"cd");
    push(&mut buf, b"");
    assert_eq!(&buf[..], b"abcd");
}

#[test]
fn writing_in_steps_then_finish() {
    let mut cache = Time::new(0, 0);
    let mut res = Response::new();
    res.status("201 Created");
    let mut w = res.write(b"", &mut cache, 0, 0).0;
    let total = w.buffer().len();
    assert!(matches!(w.next_step(), WriteStep::WriteFrom(0)));
    assert!(w.record_write(10).is_ok());
    assert!(matches!(w.next_step(), WriteStep::WriteFrom(10)));
    assert!(w.record_write(total - 10).is_ok());
    assert!(matches!(w.next_step(), WriteStep::Finished));
    let back = w.finish();
    // the response handed back keeps its status
    let again = back.write(b"", &mut cache, 0, 0).0;
    assert!(output(&again).starts_with(b"HTTP/1.1 201 Created\r\n"));
}

#[test]
fn zero_length_write_is_an_error() {
    let mut cache = Time::new(0, 0);
    let mut w = Response::new().write(b"", &mut cache, 0, 0).0;
    let err = w.record_write(0).unwrap_err();
    assert!(matches!(err, WriteError::WriteZero));
    assert_eq!(err.message(), "zero-length write");
    assert!(matches!(w.next_step(), WriteStep::WriteFrom(0)));
}

#[test]
fn status_defaults_and_changes() {
    let mut res = Response::new();
    assert_eq!(res.current_status(), "200 Ok");
    res.status("500 Internal Server Error");
    assert_eq!(res.current_status(), "500 Internal Server Error");
}

#[test]
fn write_reports_clock_going_back() {
    let mut cache = Time::new(100, 0);
    let (_, went_back) = Response::new().write(b"", &mut cache, 99, 999_999_999);
    assert!(went_back);
    let (_, went_back) = Response::new().write(b"", &mut cache, 100, 0);
    assert!(!went_back);
}
