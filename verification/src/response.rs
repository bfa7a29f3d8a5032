//! Serialisation of a response: status line, `date` header, `content-length`
//! header and body.

use crate::buffer::bytes_of;
use crate::date::{date_header_bytes, is_before, is_stale, set_date_header, Time, MAX_SECONDS};
use crate::decimal::{decimal, lemma_decimal_len, lemma_decimal_round_trip, parse_usize_spec, push_decimal};
use crate::writer::{write_all, WriteAll};
use bytes::BytesMut;
use vstd::prelude::*;
use vstd::string::StringSliceAdditionalSpecFns;

verus! {

pub struct Response {
    status: &'static str,
}

/// `HTTP/1.1 `
pub open spec fn status_line_prefix() -> Seq<u8> {
    seq![72u8, 84u8, 84u8, 80u8, 47u8, 49u8, 46u8, 49u8, 32u8]
}

/// CR LF
pub open spec fn crlf() -> Seq<u8> {
    seq![13u8, 10u8]
}

/// `content-length: `
pub open spec fn content_length_name() -> Seq<u8> {
    seq![
        99u8, 111u8, 110u8, 116u8, 101u8, 110u8, 116u8, 45u8, 108u8, 101u8, 110u8, 103u8, 116u8,
        104u8, 58u8, 32u8,
    ]
}

/// The bytes of a response with status text `status`, `date` header line
/// `date_line` and body `body`.
pub open spec fn response_bytes(status: Seq<u8>, date_line: Seq<u8>, body: Seq<u8>) -> Seq<u8> {
    status_line_prefix() + status + crlf() + date_line + content_length_name() + decimal(
        body.len(),
    ) + crlf() + crlf() + body
}

/// Appends `data` to `buf`.
pub fn push(buf: &mut BytesMut, data: &[u8])
    requires
        bytes_of(*old(buf)).len() + data@.len() <= isize::MAX,
    ensures
        bytes_of(*final(buf)) == bytes_of(*old(buf)) + data@,
{
    buf.extend_from_slice(data);
}

impl Response {
    /// The status text, such as `200 Ok`.
    pub closed spec fn status_text(self) -> &'static str {
        self.status
    }

    pub fn new() -> (r: Response)
        ensures
            r.status_text() == "200 Ok",
    {
        Response { status: "200 Ok" }
    }

    /// The status text.
    pub fn current_status(&self) -> (s: &'static str)
        ensures
            s == self.status_text(),
    {
        self.status
    }

    /// Sets the status text, such as `404 Not Found`.
    pub fn status(&mut self, status: &'static str)
        ensures
            final(self).status_text() == status,
    {
        self.status = status;
    }

    /// Serialises the response with body `body`, taking the `date` header from
    /// the cache `date` (renewed when stale at `now`), and starts writing it.
    /// Also returns whether `now` lies before the instant of the cache (the
    /// clock went back).
    pub fn write(self, body: &[u8], date: &mut Time, now_secs: u64, now_nanos: u32) -> (res: (
        WriteAll,
        bool,
    ))
        requires
            is_stale(old(date).seconds(), old(date).subsec_nanos(), now_secs as int, now_nanos as int)
                ==> now_secs < MAX_SECONDS,
            now_nanos < 1_000_000_000,
            self.status_text().spec_bytes().len() + body@.len() + 100 <= isize::MAX,
        ensures
            final(date).header() == date_header_bytes(final(date).seconds()),
            res.0.is_writing(),
            res.0.written() == 0,
            res.0.output() == response_bytes(
                self.status_text().spec_bytes(),
                final(date).header(),
                body@,
            ),
            res.0.response() == self,
            is_stale(old(date).seconds(), old(date).subsec_nanos(), now_secs as int, now_nanos as int)
                ==> final(date).seconds() == now_secs && final(date).subsec_nanos() == now_nanos,
            !is_stale(old(date).seconds(), old(date).subsec_nanos(), now_secs as int, now_nanos as int)
                ==> *final(date) == *old(date),
            res.1 == is_before(
                now_secs as int,
                now_nanos as int,
                old(date).seconds(),
                old(date).subsec_nanos(),
            ),
    {
        let mut buf = BytesMut::with_capacity(4096);
        let prefix: [u8; 9] = [72u8, 84u8, 84u8, 80u8, 47u8, 49u8, 46u8, 49u8, 32u8];
        let end_of_line: [u8; 2] = [13u8, 10u8];
        assert(prefix@ =~= status_line_prefix());
        assert(end_of_line@ =~= crlf());
        push(&mut buf, prefix.as_slice());
        push(&mut buf, self.status.as_bytes());
        push(&mut buf, end_of_line.as_slice());
        let went_back = set_date_header(date, now_secs, now_nanos, &mut buf);
        let ghost head = bytes_of(buf);
        let body_len = body.len();
        let name: [u8; 16] = [
            99u8, 111u8, 110u8, 116u8, 101u8, 110u8, 116u8, 45u8, 108u8, 101u8, 110u8, 103u8,
            116u8, 104u8, 58u8, 32u8,
        ];
        assert(name@ =~= content_length_name());
        proof {
            lemma_decimal_len(body_len as nat);
        }
        if body_len > 0 {
            push(&mut buf, name.as_slice());
            push_decimal(&mut buf, body_len);
            let blank: [u8; 4] = [13u8, 10u8, 13u8, 10u8];
            push(&mut buf, blank.as_slice());
            push(&mut buf, body);
            assert(blank@ =~= crlf() + crlf());
        } else {
            let empty_length: [u8; 21] = [
                99u8, 111u8, 110u8, 116u8, 101u8, 110u8, 116u8, 45u8, 108u8, 101u8, 110u8, 103u8,
                116u8, 104u8, 58u8, 32u8, 48u8, 13u8, 10u8, 13u8, 10u8,
            ];
            push(&mut buf, empty_length.as_slice());
            assert(decimal(0) =~= seq![48u8]);
            assert(empty_length@ =~= content_length_name() + decimal(0) + crlf() + crlf() + body@);
        }
        assert(bytes_of(buf) =~= response_bytes(
            self.status_text().spec_bytes(),
            date.header(),
            body@,
        ));
        (write_all(self, buf), went_back)
    }
}

/// A serialised response reads `HTTP/1.1 `, the status, CR LF, the `date`
/// line, `content-length: `, the body length in decimal (which reads back as
/// that length), CR LF CR LF, and then the whole body: nothing of the body is
/// left out and nothing follows it.
pub proof fn lemma_response_layout(status: Seq<u8>, date_line: Seq<u8>, body: Seq<u8>)
    requires
        body.len() <= usize::MAX,
    ensures
        ({
            let out = response_bytes(status, date_line, body);
            let n = decimal(body.len());
            let s = status.len() as int;
            let l = date_line.len() as int;
            let head = 9 + s + 2 + l + 16 + n.len() + 4;
            &&& out.len() == head + body.len()
            &&& out.subrange(head, out.len() as int) == body
            &&& out.subrange(0, 9) == seq![72u8, 84u8, 84u8, 80u8, 47u8, 49u8, 46u8, 49u8, 32u8]
            &&& out.subrange(9, 9 + s) == status
            &&& out.subrange(9 + s, 11 + s) == seq![13u8, 10u8]
            &&& out.subrange(11 + s, 11 + s + l) == date_line
            &&& out.subrange(11 + s + l, 27 + s + l) == seq![
                99u8, 111u8, 110u8, 116u8, 101u8, 110u8, 116u8, 45u8, 108u8, 101u8, 110u8, 103u8,
                116u8, 104u8, 58u8, 32u8,
            ]
            &&& parse_usize_spec(out.subrange(27 + s + l, 27 + s + l + n.len())) == Some(
                body.len() as usize,
            )
            &&& out.subrange(head - 4, head) == seq![13u8, 10u8, 13u8, 10u8]
        }),
{
    let out = response_bytes(status, date_line, body);
    let n = decimal(body.len());
    let s = status.len() as int;
    let l = date_line.len() as int;
    let head = 9 + s + 2 + l + 16 + n.len() + 4;
    lemma_decimal_round_trip(body.len() as usize);
    assert(out.subrange(head, out.len() as int) =~= body);
    assert(out.subrange(0, 9) =~= seq![72u8, 84u8, 84u8, 80u8, 47u8, 49u8, 46u8, 49u8, 32u8]);
    assert(out.subrange(9, 9 + s) =~= status);
    assert(out.subrange(9 + s, 11 + s) =~= seq![13u8, 10u8]);
    assert(out.subrange(11 + s, 11 + s + l) =~= date_line);
    assert(out.subrange(11 + s + l, 27 + s + l) =~= content_length_name());
    assert(out.subrange(27 + s + l, 27 + s + l + n.len()) =~= n);
    assert(out.subrange(head - 4, head) =~= seq![13u8, 10u8, 13u8, 10u8]);
}

} // verus!
