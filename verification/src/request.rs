//! A request as the reader fills it: request line, headers, body data.

use crate::buffer::bytes_of;
use crate::maps::{
    clear_headers, header_capacity, header_entries, insert_header, new_header_table,
    reserve_headers, HeaderTable,
};
use crate::OnData;
use bytes::BytesMut;
use vstd::prelude::*;

verus! {

pub struct Request<F> {
    pub data: BytesMut,
    pub(crate) on_data: OnData<F>,
    pub(crate) is_last: bool,
    pub(crate) has_function: bool,
    /// The request target (path), such as `/about-us`.
    pub(crate) uri: String,
    pub(crate) method: String,
    pub(crate) version: u8,
    pub(crate) request_data: BytesMut,
    pub(crate) headers: HeaderTable,
}

/// A request as plain values.
pub struct RequestView<F> {
    /// The body data received.
    pub data: Seq<u8>,
    /// The function that receives body data.
    pub on_data: OnData<F>,
    pub is_last: bool,
    /// Whether `on_data` was set since the reader last took the function.
    pub has_function: bool,
    pub uri: Seq<char>,
    pub method: Seq<char>,
    /// Minor version of HTTP/1.x.
    pub version: u8,
    /// The bytes of the request head.
    pub request_data: Seq<u8>,
    /// The headers: lower-case name to value.
    pub headers: Map<Seq<u8>, Seq<u8>>,
}

impl<F> View for Request<F> {
    type V = RequestView<F>;

    closed spec fn view(&self) -> RequestView<F> {
        RequestView {
            data: bytes_of(self.data),
            on_data: self.on_data,
            is_last: self.is_last,
            has_function: self.has_function,
            uri: self.uri@,
            method: self.method@,
            version: self.version,
            request_data: bytes_of(self.request_data),
            headers: header_entries(self.headers),
        }
    }
}

impl<F> Request<F> {
    pub fn new() -> (r: Request<F>)
        ensures
            r@ == (RequestView::<F> {
                data: Seq::empty(),
                on_data: OnData::Empty,
                is_last: false,
                has_function: false,
                uri: seq!['/'],
                method: Seq::empty(),
                version: 0,
                request_data: Seq::empty(),
                headers: Map::empty(),
            }),
    {
        let uri = String::from_str("/");
        proof {
            reveal_strlit("/");
        }
        let r = Request {
            has_function: false,
            is_last: false,
            version: 0,
            uri,
            on_data: OnData::Empty,
            method: String::new(),
            headers: new_header_table(),
            request_data: BytesMut::new(),
            data: BytesMut::new(),
        };
        assert(r.uri@ =~= seq!['/']);
        r
    }

    /// Sets the function that receives the body data.
    pub fn on_data(&mut self, func: F)
        ensures
            final(self)@ == (RequestView {
                has_function: true,
                on_data: OnData::Function(func),
                ..old(self)@
            }),
    {
        self.has_function = true;
        self.on_data = OnData::Function(func);
    }

    /// The request target.
    pub(crate) fn target(&self) -> (t: &str)
        ensures
            t@ == self@.uri,
    {
        self.uri.as_str()
    }

    /// Takes the data function set since the last call, if any.
    pub(crate) fn take_data_function(&mut self) -> (f: Option<OnData<F>>)
        ensures
            old(self)@.has_function ==> f == Some(old(self)@.on_data) && final(self)@ == (
            RequestView { has_function: false, on_data: OnData::Empty, ..old(self)@ }),
            !old(self)@.has_function ==> f is None && final(self)@ == old(self)@,
    {
        if self.has_function {
            self.has_function = false;
            let mut taken = OnData::Empty;
            std::mem::swap(&mut taken, &mut self.on_data);
            Some(taken)
        } else {
            None
        }
    }

    /// Whether the data received is the last part of the body.
    pub fn is_last(&self) -> (b: bool)
        ensures
            b == self@.is_last,
    {
        self.is_last
    }

    /// Marks the data received as the last part of the body.
    pub(crate) fn set_last(&mut self)
        ensures
            final(self)@ == (RequestView { is_last: true, ..old(self)@ }),
    {
        self.is_last = true;
    }

    /// The body data received so far.
    pub fn data(&mut self) -> (d: &mut BytesMut)
        ensures
            bytes_of(*d) == old(self)@.data,
            final(self)@ == (RequestView { data: bytes_of(*final(d)), ..old(self)@ }),
    {
        &mut self.data
    }

    /// Starts a new request: its line and head bytes; the body data is emptied.
    pub(crate) fn init(&mut self, version: u8, method: String, uri: String, request_data: BytesMut)
        ensures
            final(self)@ == (RequestView {
                data: Seq::empty(),
                uri: uri@,
                method: method@,
                version,
                is_last: false,
                request_data: bytes_of(request_data),
                ..old(self)@
            }),
    {
        self.data.clear();
        self.uri = uri;
        self.method = method;
        self.version = version;
        self.is_last = false;
        self.request_data = request_data;
    }

    pub(crate) fn add_header(&mut self, name: Vec<u8>, value: Vec<u8>)
        ensures
            final(self)@ == (RequestView {
                headers: old(self)@.headers.insert(name@, value@),
                ..old(self)@
            }),
    {
        insert_header(&mut self.headers, name, value);
    }

    /// Drops every header, keeping room for `len` of them.
    pub(crate) fn reset_headers(&mut self, len: usize)
        requires
            len <= isize::MAX / 128,
        ensures
            final(self)@ == (RequestView { headers: Map::empty(), ..old(self)@ }),
    {
        clear_headers(&mut self.headers);
        if header_capacity(&self.headers) < len {
            assert(header_entries(self.headers).dom().len() == 0);
            reserve_headers(&mut self.headers, len);
        }
    }
}

} // verus!
