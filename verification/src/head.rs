//! The request head as `httparse` reads it from the front of the buffer.

use crate::buffer::bytes_of;
use bytes::BytesMut;
use vstd::prelude::*;

verus! {

/// A parsed request line and header block.
pub struct RequestHead {
    pub method: String,
    pub path: String,
    /// Minor version of HTTP/1.x.
    pub version: u8,
    /// Header names and values, in the order received.
    pub headers: Vec<(Vec<u8>, Vec<u8>)>,
    /// Length of the head in bytes (where the body starts).
    pub len: usize,
}

pub enum HeadParse {
    Complete(RequestHead),
    /// The head is not complete yet.
    Partial,
    /// The bytes are not an HTTP/1.x request head.
    Invalid,
}

/// A parse outcome as plain values.
pub enum HeadView {
    Complete {
        method: Seq<char>,
        path: Seq<char>,
        version: u8,
        headers: Seq<(Seq<u8>, Seq<u8>)>,
        len: nat,
    },
    Partial,
    Invalid,
}

impl View for HeadParse {
    type V = HeadView;

    open spec fn view(&self) -> HeadView {
        match self {
            HeadParse::Complete(h) => HeadView::Complete {
                method: h.method@,
                path: h.path@,
                version: h.version,
                headers: h.headers@.map_values(|p: (Vec<u8>, Vec<u8>)| (p.0@, p.1@)),
                len: h.len as nat,
            },
            HeadParse::Partial => HeadView::Partial,
            HeadParse::Invalid => HeadView::Invalid,
        }
    }
}

/// What `httparse::Request::parse` makes of the bytes `buf`, with room for
/// 50 headers.
pub uninterp spec fn parsed_head(buf: Seq<u8>) -> HeadView;

/// Parses the request head at the front of `buf` with
/// `httparse::Request::parse` (50 header slots).  Its outcome depends on the
/// bytes alone; a complete head is no longer than the bytes and has at most
/// as many headers as there are slots.
#[verifier::external_body]
pub(crate) fn parse_head(buf: &BytesMut) -> (r: HeadParse)
    ensures
        r@ == parsed_head(bytes_of(*buf)),
        r@ matches HeadView::Complete { headers, len, .. } ==> len <= bytes_of(*buf).len()
            && headers.len() <= 50,
{
    let mut slots = [httparse::EMPTY_HEADER; 50];
    let mut req = httparse::Request::new(&mut slots);
    match req.parse(buf) {
        Ok(httparse::Status::Complete(len)) => HeadParse::Complete(RequestHead {
            method: req.method.unwrap().to_string(),
            path: req.path.unwrap().to_string(),
            version: req.version.unwrap(),
            headers: req.headers.iter().map(|h| (h.name.as_bytes().to_vec(), h.value.to_vec())).collect(),
            len,
        }),
        Ok(httparse::Status::Partial) => HeadParse::Partial,
        Err(_) => HeadParse::Invalid,
    }
}

} // verus!
