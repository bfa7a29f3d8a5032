use peta::reader::{Fault, Reader, Step};
use peta::request::Request;
use peta::OnData;

fn step(reader: &mut Reader<u32>, req: &mut Request<u32>) -> Result<Step, Fault> {
    reader.step(req)
}

#[test]
fn request_new_is_empty() {
    let mut req: Request<u32> = Request::new();
    assert!(!req.is_last());
    assert!(req.data().is_empty());
}

#[test]
fn partial_head_asks_for_more() {
    let mut reader: Reader<u32> = Reader::new();
    let mut req: Request<u32> = Request::new();
    reader.receive(b"GET / HTT");
    assert!(matches!(step(&mut reader, &mut req), Ok(Step::ReadMore)));
    reader.receive(b"P/1.1\r\n\r\n");
    assert!(matches!(step(&mut reader, &mut req), Ok(Step::Route)));
}

#[test]
fn head_then_body_of_known_length() {
    let mut reader: Reader<u32> = Reader::new();
    let mut req: Request<u32> = Request::new();
    reader.receive(b"POST /a HTTP/1.1\r\nContent-Length: 3\r\n\r\nabcGET / HTTP/1.1\r\n\r\n");
    assert!(matches!(step(&mut reader, &mut req), Ok(Step::Route)));
    assert!(matches!(reader.req_func(), OnData::Empty));
    req.on_data(7);
    reader.resume(&mut req);
    assert!(matches!(reader.req_func(), OnData::Function(7)));
    assert!(matches!(step(&mut reader, &mut req), Ok(Step::CallData)));
    assert_eq!(&req.data()[..], b"abc");
    assert!(req.is_last());
    // the next request follows
    assert!(matches!(step(&mut reader, &mut req), Ok(Step::Route)));
    assert!(matches!(reader.req_func(), OnData::Empty));
    assert!(req.data().is_empty());
}

#[test]
fn body_without_data_function_is_dropped() {
    let mut reader: Reader<u32> = Reader::new();
    let mut req: Request<u32> = Request::new();
    reader.receive(b"POST /a HTTP/1.1\r\ncontent-length: 3\r\n\r\nabc");
    assert!(matches!(step(&mut reader, &mut req), Ok(Step::Route)));
    reader.resume(&mut req);
    assert!(matches!(step(&mut reader, &mut req), Ok(Step::ReadMore)));
    assert!(req.data().is_empty());
    // back to reading request heads: nothing left
    assert!(matches!(step(&mut reader, &mut req), Ok(Step::ReadMore)));
}

#[test]
fn body_waits_for_all_bytes() {
    let mut reader: Reader<u32> = Reader::new();
    let mut req: Request<u32> = Request::new();
    reader.receive(b"POST /a HTTP/1.1\r\nContent-Length: 5\r\n\r\nab");
    assert!(matches!(step(&mut reader, &mut req), Ok(Step::Route)));
    req.on_data(1);
    reader.resume(&mut req);
    assert!(matches!(step(&mut reader, &mut req), Ok(Step::ReadMore)));
    reader.receive(b"cde");
    assert!(matches!(step(&mut reader, &mut req), Ok(Step::CallData)));
    assert_eq!(&req.data()[..], b"abcde");
}

#[test]
fn chunked_body() {
    let mut reader: Reader<u32> = Reader::new();
    let mut req: Request<u32> = Request::new();
    reader.receive(b"POST /up HTTP/1.1\r\nTransfer-Encoding: chunked\r\n\r\n5\r\nhello\r\n3\r\nabc\r\n");
    assert!(matches!(step(&mut reader, &mut req), Ok(Step::Route)));
    req.on_data(2);
    reader.resume(&mut req);
    assert!(matches!(step(&mut reader, &mut req), Ok(Step::CallData)));
    assert_eq!(&req.data()[..], b"hello");
    assert!(matches!(step(&mut reader, &mut req), Ok(Step::CallData)));
    assert_eq!(&req.data()[..], b"helloabc");
    assert!(!req.is_last());
    assert!(matches!(step(&mut reader, &mut req), Ok(Step::ReadMore)));
    reader.receive(b"0\r\n\r\nGET / HTTP/1.1\r\n\r\n");
    // the last-chunk marker: one more call, marked as the last part
    assert!(matches!(step(&mut reader, &mut req), Ok(Step::CallData)));
    assert!(req.is_last());
    assert_eq!(&req.data()[..], b"helloabc");
    assert!(matches!(step(&mut reader, &mut req), Ok(Step::Route)));
    assert!(!req.is_last());
}

#[test]
fn transfer_encoding_wins_over_later_content_length() {
    let mut reader: Reader<u32> = Reader::new();
    let mut req: Request<u32> = Request::new();
    reader.receive(b"POST / HTTP/1.1\r\nTransfer-Encoding: chunked\r\nContent-Length: zz\r\n\r\n2\r\nok\r\n");
    assert!(matches!(step(&mut reader, &mut req), Ok(Step::Route)));
    req.on_data(3);
    reader.resume(&mut req);
    assert!(matches!(step(&mut reader, &mut req), Ok(Step::CallData)));
    assert_eq!(&req.data()[..], b"ok");
}

#[test]
fn invalid_head_is_a_bad_request() {
    let mut reader: Reader<u32> = Reader::new();
    let mut req: Request<u32> = Request::new();
    reader.receive(b"\x00\r\n\r\n");
    assert!(matches!(step(&mut reader, &mut req), Err(Fault::BadRequest)));
}

#[test]
fn bad_content_length() {
    let mut reader: Reader<u32> = Reader::new();
    let mut req: Request<u32> = Request::new();
    reader.receive(b"POST / HTTP/1.1\r\nContent-Length: -3\r\n\r\n");
    assert!(matches!(step(&mut reader, &mut req), Err(Fault::BadContentLength)));
}

#[test]
fn chunk_split_across_reads() {
    let mut reader: Reader<u32> = Reader::new();
    let mut req: Request<u32> = Request::new();
    reader.receive(b"POST / HTTP/1.1\r\ntransfer-encoding: chunked\r\n\r\n5");
    assert!(matches!(step(&mut reader, &mut req), Ok(Step::Route)));
    req.on_data(5);
    reader.resume(&mut req);
    assert!(matches!(step(&mut reader, &mut req), Ok(Step::ReadMore)));
    reader.receive(b"\r\nhel");
    assert!(matches!(step(&mut reader, &mut req), Ok(Step::ReadMore)));
    reader.receive(b"lo\r\n");
    assert!(matches!(step(&mut reader, &mut req), Ok(Step::CallData)));
    assert_eq!(&req.data()[..], b"hello");
}

#[test]
fn chunk_size_too_large() {
    let mut reader: Reader<u32> = Reader::new();
    let mut req: Request<u32> = Request::new();
    reader.receive(b"POST / HTTP/1.1\r\ntransfer-encoding: chunked\r\n\r\nfffffffffffffffffff\r\n");
    assert!(matches!(step(&mut reader, &mut req), Ok(Step::Route)));
    assert!(matches!(step(&mut reader, &mut req), Err(Fault::BadChunk)));
}

#[test]
fn resume_without_new_function_keeps_reader() {
    let mut reader: Reader<u32> = Reader::new();
    let mut req: Request<u32> = Request::new();
    req.on_data(9);
    reader.resume(&mut req);
    assert!(matches!(reader.req_func(), OnData::Function(9)));
    // the function was taken: a second resume changes nothing
    reader.resume(&mut req);
    assert!(matches!(reader.req_func(), OnData::Function(9)));
}

#[test]
fn final_chunk_with_marker_is_the_last_part() {
    let mut reader: Reader<u32> = Reader::new();
    let mut req: Request<u32> = Request::new();
    reader.receive(b"POST /up HTTP/1.1\r\nTransfer-Encoding: chunked\r\n\r\n");
    assert!(matches!(step(&mut reader, &mut req), Ok(Step::Route)));
    req.on_data(4);
    reader.resume(&mut req);
    reader.receive(b"3\r\nabc\r\n2\r\nde\r\n0\r\n\r\n");
    assert!(matches!(step(&mut reader, &mut req), Ok(Step::CallData)));
    assert_eq!(&req.data()[..], b"abc");
    assert!(!req.is_last());
    assert!(matches!(step(&mut reader, &mut req), Ok(Step::CallData)));
    assert_eq!(&req.data()[..], b"abcde");
    assert!(req.is_last());
    // back to request heads, nothing left
    assert!(matches!(step(&mut reader, &mut req), Ok(Step::ReadMore)));
    reader.receive(b"GET / HTTP/1.1\r\n\r\n");
    assert!(matches!(step(&mut reader, &mut req), Ok(Step::Route)));
}

#[test]
fn final_chunk_without_data_function_is_dropped() {
    let mut reader: Reader<u32> = Reader::new();
    let mut req: Request<u32> = Request::new();
    reader.receive(b"POST /up HTTP/1.1\r\nTransfer-Encoding: chunked\r\n\r\n2\r\nde\r\n0\r\n\r\n");
    assert!(matches!(step(&mut reader, &mut req), Ok(Step::Route)));
    reader.resume(&mut req);
    assert!(matches!(step(&mut reader, &mut req), Ok(Step::ReadMore)));
    assert!(req.data().is_empty());
    assert!(!req.is_last());
    reader.receive(b"GET / HTTP/1.1\r\n\r\n");
    assert!(matches!(step(&mut reader, &mut req), Ok(Step::Route)));
}
