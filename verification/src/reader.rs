//! The decisions of the connection reader: what to do with the bytes
//! received so far, given what it is reading (a request head, a body of known
//! length, or a chunked body).  The program around it does the socket reads
//! and calls the functions that the decisions name.

use crate::buffer::bytes_of;
use crate::chunk::{chunk_parse_defined, parse_chunk_spec, Chunk, ChunkView, ParseStatus};
use crate::decimal::{parse_usize, parse_usize_spec};
use crate::head::{parse_head, parsed_head, HeadParse, HeadView, RequestHead};
use crate::request::{Request, RequestView};
use crate::OnData;
use bytes::BytesMut;
use vstd::prelude::*;

verus! {

#[derive(PartialEq, Eq, Structural, Clone, Copy)]
pub enum ReadState {
    Body,
    Chunk,
    Request,
}

/// What the program has to do next.
pub enum Step {
    /// Read more bytes from the socket.
    ReadMore,
    /// Call the reader's data function with the request.
    CallData,
    /// A request head was read: find the route for the request.
    Route,
}

/// Bytes the reader cannot go on with.
pub enum Fault {
    /// The bytes are not a request head ("Could not parse request").
    BadRequest,
    /// A `content-length` value is not a `usize` numeral.
    BadContentLength,
    /// A chunk size too large for a `usize`, or a chunk frame that the chunk
    /// parser cannot read (see `chunk_parse_defined`).
    BadChunk,
}

pub struct Reader<F> {
    buffer: BytesMut,
    req_func: OnData<F>,
    body_size: usize,
    read_state: ReadState,
}

/// A reader as plain values.
pub struct ReaderView<F> {
    /// Bytes received and not yet consumed.
    pub buffer: Seq<u8>,
    /// The function that receives body data of the current request.
    pub req_func: OnData<F>,
    /// Length of the body of known length being read.
    pub body_size: usize,
    pub read_state: ReadState,
}

impl<F> View for Reader<F> {
    type V = ReaderView<F>;

    closed spec fn view(&self) -> ReaderView<F> {
        ReaderView {
            buffer: bytes_of(self.buffer),
            req_func: self.req_func,
            body_size: self.body_size,
            read_state: self.read_state,
        }
    }
}

/// ASCII lower case of the bytes `s`.
pub open spec fn lower(s: Seq<u8>) -> Seq<u8> {
    s.map_values(|b: u8| if 65 <= b <= 90 { (b + 32) as u8 } else { b })
}

/// `transfer-encoding`
pub open spec fn transfer_encoding() -> Seq<u8> {
    seq![
        116u8, 114u8, 97u8, 110u8, 115u8, 102u8, 101u8, 114u8, 45u8, 101u8, 110u8, 99u8, 111u8,
        100u8, 105u8, 110u8, 103u8,
    ]
}

/// `content-length`
pub open spec fn content_length() -> Seq<u8> {
    seq![
        99u8, 111u8, 110u8, 116u8, 101u8, 110u8, 116u8, 45u8, 108u8, 101u8, 110u8, 103u8, 116u8,
        104u8,
    ]
}

/// Reading state and body length after the headers `hs`, starting from
/// `state` and `size`: until a `transfer-encoding` header switches to chunked
/// reading, each `content-length` header sets the body length.  `None` when a
/// `content-length` value counted this way is no `usize` numeral.
pub open spec fn headers_outcome(hs: Seq<(Seq<u8>, Seq<u8>)>, state: ReadState, size: usize) -> Option<(ReadState, usize)>
    decreases hs.len(),
{
    if hs.len() == 0 {
        Some((state, size))
    } else {
        match headers_outcome(hs.drop_last(), state, size) {
            None => None,
            Some((st, sz)) => {
                let name = lower(hs.last().0);
                if st != ReadState::Chunk && name == transfer_encoding() {
                    Some((ReadState::Chunk, sz))
                } else if st != ReadState::Chunk && name == content_length() {
                    match parse_usize_spec(hs.last().1) {
                        Some(n) => Some((st, n)),
                        None => None,
                    }
                } else {
                    Some((st, sz))
                }
            },
        }
    }
}

/// The header table the headers `hs` make: each lower-case name is entered
/// with an empty value (the values are not kept; the body length and
/// encoding are read from them beforehand).
pub open spec fn header_table(hs: Seq<(Seq<u8>, Seq<u8>)>) -> Map<Seq<u8>, Seq<u8>>
    decreases hs.len(),
{
    if hs.len() == 0 {
        Map::empty()
    } else {
        header_table(hs.drop_last()).insert(lower(hs.last().0), Seq::empty())
    }
}

/// ASCII lower case of `s`.
fn to_lower(s: &Vec<u8>) -> (r: Vec<u8>)
    ensures
        r@ == lower(s@),
{
    let mut r: Vec<u8> = Vec::new();
    let mut i: usize = 0;
    while i < s.len()
        invariant
            i <= s@.len(),
            r@ == lower(s@.take(i as int)),
        decreases s.len() - i,
    {
        let b = s[i];
        let c = if 65 <= b && b <= 90 {
            b + 32
        } else {
            b
        };
        r.push(c);
        i = i + 1;
        assert(r@ =~= lower(s@.take(i as int)));
    }
    assert(s@.take(i as int) =~= s@);
    r
}

fn bytes_eq(a: &Vec<u8>, b: &[u8]) -> (r: bool)
    ensures
        r == (a@ == b@),
{
    if a.len() != b.len() {
        return false;
    }
    let mut i: usize = 0;
    while i < a.len()
        invariant
            a@.len() == b@.len(),
            i <= a@.len(),
            forall|j: int| 0 <= j < i ==> a@[j] == b@[j],
        decreases a.len() - i,
    {
        if a[i] != b[i] {
            return false;
        }
        i = i + 1;
    }
    assert(a@ =~= b@);
    true
}

/// Reading state and body length after the headers of `hs`.
fn headers_state(hs: &Vec<(Vec<u8>, Vec<u8>)>, state: ReadState, size: usize) -> (r: Option<
    (ReadState, usize),
>)
    ensures
        r == headers_outcome(hs@.map_values(|p: (Vec<u8>, Vec<u8>)| (p.0@, p.1@)), state, size),
{
    let ghost view = hs@.map_values(|p: (Vec<u8>, Vec<u8>)| (p.0@, p.1@));
    let te: [u8; 17] = [
        116u8, 114u8, 97u8, 110u8, 115u8, 102u8, 101u8, 114u8, 45u8, 101u8, 110u8, 99u8, 111u8,
        100u8, 105u8, 110u8, 103u8,
    ];
    let cl: [u8; 14] = [
        99u8, 111u8, 110u8, 116u8, 101u8, 110u8, 116u8, 45u8, 108u8, 101u8, 110u8, 103u8, 116u8,
        104u8,
    ];
    assert(te@ =~= transfer_encoding());
    assert(cl@ =~= content_length());
    let mut st = state;
    let mut sz = size;
    let mut i: usize = 0;
    assert(view.take(0) =~= Seq::<(Seq<u8>, Seq<u8>)>::empty());
    while i < hs.len()
        invariant
            i <= hs@.len(),
            view == hs@.map_values(|p: (Vec<u8>, Vec<u8>)| (p.0@, p.1@)),
            headers_outcome(view.take(i as int), state, size) == Some((st, sz)),
            te@ == transfer_encoding(),
            cl@ == content_length(),
        decreases hs.len() - i,
    {
        assert(view.take(i + 1).drop_last() =~= view.take(i as int));
        assert(view.take(i + 1).last() == (hs@[i as int].0@, hs@[i as int].1@));
        let name = to_lower(&hs[i].0);
        if st != ReadState::Chunk {
            if bytes_eq(&name, te.as_slice()) {
                st = ReadState::Chunk;
            } else if bytes_eq(&name, cl.as_slice()) {
                match parse_usize(hs[i].1.as_slice()) {
                    Some(n) => {
                        sz = n;
                    },
                    None => {
                        proof {
                            lemma_outcome_fails(view, (i + 1) as int, state, size);
                        }
                        return None;
                    },
                }
            }
        }
        i = i + 1;
    }
    assert(view.take(i as int) =~= view);
    Some((st, sz))
}

/// Once a header makes the outcome fail, later headers do not mend it.
proof fn lemma_outcome_fails(hs: Seq<(Seq<u8>, Seq<u8>)>, k: int, state: ReadState, size: usize)
    requires
        0 <= k <= hs.len(),
        headers_outcome(hs.take(k), state, size) is None,
    ensures
        headers_outcome(hs, state, size) is None,
    decreases hs.len() - k,
{
    if k < hs.len() {
        assert(hs.take(k + 1).drop_last() =~= hs.take(k));
        lemma_outcome_fails(hs, k + 1, state, size);
    } else {
        assert(hs.take(k) =~= hs);
    }
}

/// What one step of the reader does: the outcome, the reader after it and
/// the request after it.
pub open spec fn step_spec<F>(rv: ReaderView<F>, qv: RequestView<F>) -> (
    Result<Step, Fault>,
    ReaderView<F>,
    RequestView<F>,
) {
    match rv.read_state {
        ReadState::Body => if rv.buffer.len() >= rv.body_size {
            let rv2 = ReaderView {
                buffer: rv.buffer.skip(rv.body_size as int),
                body_size: 0,
                read_state: ReadState::Request,
                ..rv
            };
            match rv.req_func {
                OnData::Function(_) => (
                    Ok(Step::CallData),
                    rv2,
                    RequestView { data: rv.buffer.take(rv.body_size as int), is_last: true, ..qv },
                ),
                OnData::Empty => (Ok(Step::ReadMore), rv2, qv),
            }
        } else {
            (Ok(Step::ReadMore), rv, qv)
        },
        ReadState::Chunk => if rv.buffer.len() == 0 {
            (Ok(Step::ReadMore), rv, qv)
        } else if !chunk_parse_defined(rv.buffer) {
            (Err(Fault::BadChunk), rv, qv)
        } else {
            let (v, consumed) = parse_chunk_spec(rv.buffer);
            let rv2 = ReaderView { buffer: rv.buffer.skip(consumed), ..rv };
            match v {
                ChunkView::Chunk(d) => match rv.req_func {
                    OnData::Function(_) => (
                        Ok(Step::CallData),
                        rv2,
                        RequestView { data: qv.data + d, ..qv },
                    ),
                    OnData::Empty => (Ok(Step::ReadMore), rv2, qv),
                },
                ChunkView::LastChunk(last) => {
                    let rv3 = ReaderView { read_state: ReadState::Request, ..rv2 };
                    match rv.req_func {
                        OnData::Function(_) => (
                            Ok(Step::CallData),
                            rv3,
                            RequestView {
                                data: match last {
                                    Some(d) => qv.data + d,
                                    None => qv.data,
                                },
                                is_last: true,
                                ..qv
                            },
                        ),
                        OnData::Empty => (Ok(Step::ReadMore), rv3, qv),
                    }
                },
                ChunkView::NotEnoughData => (Ok(Step::ReadMore), rv2, qv),
            }
        },
        ReadState::Request => match parsed_head(rv.buffer) {
            HeadView::Partial => (Ok(Step::ReadMore), rv, qv),
            HeadView::Invalid => (Err(Fault::BadRequest), rv, qv),
            HeadView::Complete { method, path, version, headers, len } => match headers_outcome(
                headers,
                ReadState::Body,
                rv.body_size,
            ) {
                None => (Err(Fault::BadContentLength), rv, qv),
                Some((st, sz)) => (
                    Ok(Step::Route),
                    ReaderView {
                        buffer: rv.buffer.skip(len as int),
                        req_func: OnData::Empty,
                        body_size: sz,
                        read_state: st,
                    },
                    RequestView {
                        data: Seq::empty(),
                        uri: path,
                        method,
                        version,
                        is_last: false,
                        request_data: rv.buffer.take(len as int),
                        headers: header_table(headers),
                        ..qv
                    },
                ),
            },
        },
    }
}

impl<F> Reader<F> {
    pub fn new() -> (r: Reader<F>)
        ensures
            r@ == (ReaderView::<F> {
                buffer: Seq::empty(),
                req_func: OnData::Empty,
                body_size: 0,
                read_state: ReadState::Request,
            }),
    {
        Reader {
            buffer: BytesMut::with_capacity(1024),
            req_func: OnData::Empty,
            body_size: 0,
            read_state: ReadState::Request,
        }
    }

    /// Appends bytes read from the socket.
    pub fn receive(&mut self, data: &[u8])
        requires
            old(self)@.buffer.len() + data@.len() <= isize::MAX,
        ensures
            final(self)@ == (ReaderView { buffer: old(self)@.buffer + data@, ..old(self)@ }),
    {
        self.buffer.extend_from_slice(data);
    }

    /// The function that receives the body data of the current request.
    pub fn req_func(&self) -> (f: &OnData<F>)
        ensures
            *f == self@.req_func,
    {
        &self.req_func
    }

    /// Decides what to do with the bytes received so far (one pass of the
    /// reading loop): consume a body of known length, a chunk, or a request
    /// head, or ask for more bytes.
    pub fn step(&mut self, req: &mut Request<F>) -> (r: Result<Step, Fault>)
        requires
            old(req)@.data.len() + old(self)@.buffer.len() <= isize::MAX,
        ensures
            (r, final(self)@, final(req)@) == step_spec(old(self)@, old(req)@),
    {
        match self.read_state {
            ReadState::Body => {
                if self.buffer.len() >= self.body_size {
                    let data = self.buffer.split_to(self.body_size);
                    self.body_size = 0;
                    self.read_state = ReadState::Request;
                    match &self.req_func {
                        OnData::Function(_) => {
                            *req.data() = data;
                            req.set_last();
                            return Ok(Step::CallData);
                        },
                        OnData::Empty => {},
                    }
                }
                Ok(Step::ReadMore)
            },
            ReadState::Chunk => {
                if self.buffer.len() > 0 {
                    if !Chunk::can_parse(&self.buffer) {
                        return Err(Fault::BadChunk);
                    }
                    let ghost before = bytes_of(self.buffer);
                    match Chunk::parse(&mut self.buffer) {
                        Ok(ParseStatus::Chunk(data)) => match &self.req_func {
                            OnData::Function(_) => {
                                proof {
                                    crate::chunk::lemma_chunk_within(before);
                                }
                                req.data().unsplit(data);
                                return Ok(Step::CallData);
                            },
                            OnData::Empty => {},
                        },
                        Ok(ParseStatus::LastChunk(last)) => {
                            self.read_state = ReadState::Request;
                            match &self.req_func {
                                OnData::Function(_) => {
                                    match last {
                                        Some(data) => {
                                            proof {
                                                crate::chunk::lemma_chunk_within(before);
                                            }
                                            req.data().unsplit(data);
                                        },
                                        None => {},
                                    }
                                    req.set_last();
                                    return Ok(Step::CallData);
                                },
                                OnData::Empty => {},
                            }
                        },
                        Ok(ParseStatus::NotEnoughData) => {},
                        Err(_) => {
                            assert(false);
                        },
                    }
                }
                Ok(Step::ReadMore)
            },
            ReadState::Request => {
                match parse_head(&self.buffer) {
                    HeadParse::Partial => Ok(Step::ReadMore),
                    HeadParse::Invalid => Err(Fault::BadRequest),
                    HeadParse::Complete(head) => {
                        match headers_state(&head.headers, ReadState::Body, self.body_size) {
                            None => Err(Fault::BadContentLength),
                            Some((st, sz)) => {
                                self.fill_headers(req, &head.headers);
                                self.read_state = st;
                                self.body_size = sz;
                                self.req_func = OnData::Empty;
                                let RequestHead { method, path, version, len, .. } = head;
                                let head_bytes = self.buffer.split_to(len);
                                req.init(version, method, path, head_bytes);
                                Ok(Step::Route)
                            },
                        }
                    },
                }
            },
        }
    }

    /// Replaces the headers of `req` by the lower-cased names of the headers
    /// `hs`, each with an empty value.
    fn fill_headers(&self, req: &mut Request<F>, hs: &Vec<(Vec<u8>, Vec<u8>)>)
        requires
            hs@.len() <= 50,
        ensures
            final(req)@ == (RequestView {
                headers: header_table(hs@.map_values(|p: (Vec<u8>, Vec<u8>)| (p.0@, p.1@))),
                ..old(req)@
            }),
    {
        let ghost view = hs@.map_values(|p: (Vec<u8>, Vec<u8>)| (p.0@, p.1@));
        req.reset_headers(hs.len());
        let mut i: usize = 0;
        assert(view.take(0) =~= Seq::<(Seq<u8>, Seq<u8>)>::empty());
        while i < hs.len()
            invariant
                i <= hs@.len(),
                view == hs@.map_values(|p: (Vec<u8>, Vec<u8>)| (p.0@, p.1@)),
                req@ == (RequestView { headers: header_table(view.take(i as int)), ..old(req)@ }),
            decreases hs.len() - i,
        {
            assert(view.take(i + 1).drop_last() =~= view.take(i as int));
            assert(view.take(i + 1).last() == (hs@[i as int].0@, hs@[i as int].1@));
            let name = to_lower(&hs[i].0);
            let value: Vec<u8> = Vec::with_capacity(hs[i].1.len());
            req.add_header(name, value);
            i = i + 1;
        }
        assert(view.take(i as int) =~= view);
    }

    /// After the request was handled: takes over the data function that the
    /// handler set on it, if it set one.
    pub fn resume(&mut self, req: &mut Request<F>)
        ensures
            old(req)@.has_function ==> final(self)@ == (ReaderView {
                req_func: old(req)@.on_data,
                ..old(self)@
            }) && final(req)@ == (RequestView {
                has_function: false,
                on_data: OnData::Empty,
                ..old(req)@
            }),
            !old(req)@.has_function ==> final(self)@ == old(self)@ && final(req)@ == old(req)@,
    {
        match req.take_data_function() {
            Some(f) => {
                self.req_func = f;
            },
            None => {},
        }
    }
}

/// After a request head that announces a body of `n` bytes, the bytes that
/// follow the head, exactly `n` of them, are what the data function is given
/// next, as the last part of the body; the bytes after them stay for the next
/// request.
pub proof fn lemma_head_then_body<F>(rv: ReaderView<F>, qv: RequestView<F>, f: F, n: usize)
    requires
        rv.read_state == ReadState::Request,
        parsed_head(rv.buffer) matches HeadView::Complete { headers, len, .. } && headers_outcome(
            headers,
            ReadState::Body,
            rv.body_size,
        ) == Some((ReadState::Body, n)) && len + n <= rv.buffer.len(),
    ensures
        ({
            let (r1, rv2, qv2) = step_spec(rv, qv);
            let len = parsed_head(rv.buffer)->len;
            let with_func = ReaderView { req_func: OnData::Function(f), ..rv2 };
            &&& r1 == Ok::<Step, Fault>(Step::Route)
            &&& step_spec(with_func, qv2) == (
                Ok::<Step, Fault>(Step::CallData),
                ReaderView {
                    buffer: rv.buffer.skip(len + n),
                    req_func: OnData::Function(f),
                    body_size: 0,
                    read_state: ReadState::Request,
                },
                RequestView { data: rv.buffer.subrange(len as int, len + n), is_last: true, ..qv2 },
            )
        }),
{
    let len = parsed_head(rv.buffer)->len;
    assert(rv.buffer.skip(len as int).take(n as int) =~= rv.buffer.subrange(len as int, len + n));
    assert(rv.buffer.skip(len as int).skip(n as int) =~= rv.buffer.skip(len + n));
}

/// While a chunked body is read, a framed chunk is appended to the request
/// data (with a data function) and its frame is consumed.
pub proof fn lemma_chunk_delivered<F>(rv: ReaderView<F>, qv: RequestView<F>, f: F, data: Seq<u8>, rest: Seq<u8>)
    requires
        rv.read_state == ReadState::Chunk,
        rv.req_func == OnData::Function(f),
        rv.buffer == crate::chunk::chunk_frame(data) + rest,
        data.len() > 0,
        rv.buffer.len() <= isize::MAX,
        !(rest.len() == 5 && rest[0] == 48),
    ensures
        step_spec(rv, qv) == (
            Ok::<Step, Fault>(Step::CallData),
            ReaderView { buffer: rest, ..rv },
            RequestView { data: qv.data + data, ..qv },
        ),
{
    crate::chunk::lemma_chunk_frame_round_trip(data, rest);
    assert(rv.buffer.skip(crate::chunk::chunk_frame(data).len() as int) =~= rest);
}

/// While a chunked body is read, the last-chunk marker ends the body: the
/// marker is consumed and the reader goes back to reading request heads; a
/// data function is called once more, with the request marked as the last
/// part.
pub proof fn lemma_last_chunk_ends_body<F>(rv: ReaderView<F>, qv: RequestView<F>, rest: Seq<u8>)
    requires
        rv.read_state == ReadState::Chunk,
        rv.buffer == crate::chunk::last_chunk_frame() + rest,
        rv.buffer.len() <= isize::MAX,
    ensures
        rv.req_func is Function ==> step_spec(rv, qv) == (
            Ok::<Step, Fault>(Step::CallData),
            ReaderView { buffer: rest, read_state: ReadState::Request, ..rv },
            RequestView { is_last: true, ..qv },
        ),
        rv.req_func is Empty ==> step_spec(rv, qv) == (
            Ok::<Step, Fault>(Step::ReadMore),
            ReaderView { buffer: rest, read_state: ReadState::Request, ..rv },
            qv,
        ),
{
    crate::chunk::lemma_last_chunk_frame(rest);
    assert(rv.buffer.skip(5) =~= rest);
}

/// A chunk that arrives together with the last-chunk marker is handed to the
/// data function as the last part of the body; the reader goes back to
/// reading request heads.
pub proof fn lemma_final_chunk_delivered<F>(rv: ReaderView<F>, qv: RequestView<F>, f: F, data: Seq<u8>)
    requires
        rv.read_state == ReadState::Chunk,
        rv.req_func == OnData::Function(f),
        rv.buffer == crate::chunk::chunk_frame(data) + crate::chunk::last_chunk_frame(),
        data.len() > 0,
        rv.buffer.len() <= isize::MAX,
    ensures
        step_spec(rv, qv) == (
            Ok::<Step, Fault>(Step::CallData),
            ReaderView { buffer: Seq::empty(), read_state: ReadState::Request, ..rv },
            RequestView { data: qv.data + data, is_last: true, ..qv },
        ),
{
    let last = crate::chunk::last_chunk_frame();
    crate::chunk::lemma_chunk_frame_round_trip(data, last);
    assert(rv.buffer.skip(crate::chunk::chunk_frame(data).len() + 5int) =~= Seq::<u8>::empty());
}

/// The chunks `ds` framed one after another.
pub open spec fn chunk_frames(ds: Seq<Seq<u8>>) -> Seq<u8>
    decreases ds.len(),
{
    if ds.len() == 0 {
        Seq::empty()
    } else {
        crate::chunk::chunk_frame(ds[0]) + chunk_frames(ds.drop_first())
    }
}

/// The pieces `ds` joined in order.
pub open spec fn joined(ds: Seq<Seq<u8>>) -> Seq<u8>
    decreases ds.len(),
{
    if ds.len() == 0 {
        Seq::empty()
    } else {
        joined(ds.drop_last()) + ds.last()
    }
}

/// `n` steps of the reader from `rv` and `qv`, the request handed back
/// unchanged after each call.
pub open spec fn steps<F>(rv: ReaderView<F>, qv: RequestView<F>, n: nat) -> (
    Result<Step, Fault>,
    ReaderView<F>,
    RequestView<F>,
)
    decreases n,
{
    if n == 0 {
        (Ok(Step::ReadMore), rv, qv)
    } else {
        let (_, rv1, qv1) = steps(rv, qv, (n - 1) as nat);
        step_spec(rv1, qv1)
    }
}

/// A chunked body of the non-empty chunks `ds` followed by the last-chunk
/// marker: the data function is called once per chunk; at the `i`-th call the
/// request data is the first `i` chunks joined, and the request is marked as
/// the last part exactly at the call for the last chunk, after which the
/// reader goes back to reading request heads.
pub proof fn lemma_chunked_body<F>(rv: ReaderView<F>, qv: RequestView<F>, f: F, ds: Seq<Seq<u8>>, i: nat)
    requires
        rv.read_state == ReadState::Chunk,
        rv.req_func == OnData::Function(f),
        rv.buffer == chunk_frames(ds) + crate::chunk::last_chunk_frame(),
        rv.buffer.len() <= isize::MAX,
        forall|j: int| 0 <= j < ds.len() ==> (#[trigger] ds[j]).len() > 0,
        !qv.is_last,
        1 <= i <= ds.len(),
    ensures
        steps(rv, qv, i) == (
            Ok::<Step, Fault>(Step::CallData),
            ReaderView {
                buffer: if i < ds.len() {
                    chunk_frames(ds.skip(i as int)) + crate::chunk::last_chunk_frame()
                } else {
                    Seq::empty()
                },
                read_state: if i < ds.len() {
                    ReadState::Chunk
                } else {
                    ReadState::Request
                },
                ..rv
            },
            RequestView { data: qv.data + joined(ds.take(i as int)), is_last: i == ds.len(), ..qv },
        ),
        chunk_frames(ds.skip(i as int)).len() <= chunk_frames(ds).len(),
    decreases i,
{
    let last = crate::chunk::last_chunk_frame();
    let k = i - 1;
    let d = ds[k];
    let frame = crate::chunk::chunk_frame(d);
    let tail = chunk_frames(ds.skip(i as int));
    let rest = tail + last;
    // the frames from chunk `k` on
    assert(ds.skip(k).drop_first() =~= ds.skip(i as int));
    assert(ds.skip(k)[0] == d);
    assert(chunk_frames(ds.skip(k)) == frame + tail);
    if k == 0 {
        assert(ds.skip(0) =~= ds);
    } else {
        lemma_chunked_body(rv, qv, f, ds, (i - 1) as nat);
    }
    let (_, rv1, qv1) = steps(rv, qv, (i - 1) as nat);
    assert(rv1.buffer == chunk_frames(ds.skip(k)) + last);
    assert(rv1.buffer =~= frame + rest);
    assert(rv1.read_state == ReadState::Chunk);
    assert(qv1.data == qv.data + joined(ds.take(k)));
    assert(!qv1.is_last);
    crate::chunk::lemma_chunk_frame_round_trip(d, rest);
    // the data joined so far
    assert(ds.take(i as int).drop_last() =~= ds.take(k));
    assert(joined(ds.take(i as int)) == joined(ds.take(k)) + d);
    assert(qv.data + joined(ds.take(i as int)) =~= qv1.data + d);
    if i < ds.len() {
        assert(ds.skip(i as int)[0] == ds[i as int]);
        assert(crate::chunk::hex_numeral(ds[i as int].len()).len() >= 1);
        assert(tail.len() >= 6);
        assert(rv1.buffer.skip(frame.len() as int) =~= rest);
    } else {
        assert(ds.skip(i as int) =~= Seq::<Seq<u8>>::empty());
        assert(rest =~= last);
        assert(rv1.buffer.skip(frame.len() + 5int) =~= Seq::<u8>::empty());
    }
}

/// A body of known length is consumed whole once it has arrived: the step
/// removes exactly `body_size` bytes from the front of the buffer and goes
/// back to reading request heads, with or without a data function; with one,
/// those bytes are the request data, marked as the last part.  Before the
/// body has arrived the step waits and changes nothing.
pub proof fn lemma_body_consumed<F>(rv: ReaderView<F>, qv: RequestView<F>)
    requires
        rv.read_state == ReadState::Body,
    ensures
        rv.buffer.len() >= rv.body_size ==> {
            let (r, rv2, qv2) = step_spec(rv, qv);
            &&& rv2.buffer == rv.buffer.subrange(rv.body_size as int, rv.buffer.len() as int)
            &&& rv2.read_state == ReadState::Request
            &&& rv2.body_size == 0
            &&& rv2.req_func == rv.req_func
            &&& (rv.req_func is Function ==> r == Ok::<Step, Fault>(Step::CallData) && qv2.data
                == rv.buffer.subrange(0, rv.body_size as int) && qv2.is_last)
            &&& (rv.req_func is Empty ==> r == Ok::<Step, Fault>(Step::ReadMore) && qv2 == qv)
        },
        rv.buffer.len() < rv.body_size ==> step_spec(rv, qv) == (Ok::<Step, Fault>(Step::ReadMore), rv, qv),
{
    if rv.buffer.len() >= rv.body_size {
        assert(rv.buffer.skip(rv.body_size as int) =~= rv.buffer.subrange(
            rv.body_size as int,
            rv.buffer.len() as int,
        ));
        assert(rv.buffer.take(rv.body_size as int) =~= rv.buffer.subrange(0, rv.body_size as int));
    }
}

/// The header names that the reader acts on are `transfer-encoding` and
/// `content-length`.
pub proof fn lemma_header_names()
    ensures
        transfer_encoding() == "transfer-encoding"@.map_values(|c: char| c as u8),
        content_length() == "content-length"@.map_values(|c: char| c as u8),
{
    reveal_strlit("transfer-encoding");
    reveal_strlit("content-length");
    assert(transfer_encoding() =~= "transfer-encoding"@.map_values(|c: char| c as u8));
    assert(content_length() =~= "content-length"@.map_values(|c: char| c as u8));
}

/// Header names are matched whatever the case of their ASCII letters: a
/// name that differs from a lower-case name `t` only in writing some of its
/// letters upper case lower-cases to `t`.
pub proof fn lemma_lower_ignores_case(s: Seq<u8>, t: Seq<u8>)
    requires
        s.len() == t.len(),
        forall|i: int| 0 <= i < t.len() ==> !(65 <= #[trigger] t[i] <= 90),
        forall|i: int|
            0 <= i < t.len() ==> s[i] == t[i] || (97 <= t[i] <= 122 && #[trigger] s[i] == t[i] - 32),
    ensures
        lower(s) == t,
{
    assert(lower(s) =~= t);
}

/// A head with one `content-length` header, its name in any case, announces
/// a body of the length it states; one with a `transfer-encoding` header
/// announces a chunked body.
pub proof fn lemma_length_headers(name: Seq<u8>, n: usize, size: usize)
    ensures
        lower(name) == content_length() ==> headers_outcome(
            seq![(name, crate::decimal::decimal(n as nat))],
            ReadState::Body,
            size,
        ) == Some((ReadState::Body, n)),
        lower(name) == transfer_encoding() ==> headers_outcome(
            seq![(name, Seq::<u8>::empty())],
            ReadState::Body,
            size,
        ) == Some((ReadState::Chunk, size)),
{
    crate::decimal::lemma_decimal_round_trip(n);
    let h1 = seq![(name, crate::decimal::decimal(n as nat))];
    let h2 = seq![(name, Seq::<u8>::empty())];
    assert(h1.drop_last() =~= Seq::<(Seq<u8>, Seq<u8>)>::empty());
    assert(h2.drop_last() =~= Seq::<(Seq<u8>, Seq<u8>)>::empty());
    assert(headers_outcome(h1.drop_last(), ReadState::Body, size) == Some((ReadState::Body, size)));
    assert(headers_outcome(h2.drop_last(), ReadState::Body, size) == Some((ReadState::Body, size)));
    assert(h1.last() == (name, crate::decimal::decimal(n as nat)));
    assert(h2.last() == (name, Seq::<u8>::empty()));
    assert(transfer_encoding() != content_length()) by {
        assert(transfer_encoding()[0] != content_length()[0]);
    }
}

proof fn lemma_header_table_names(hs: Seq<(Seq<u8>, Seq<u8>)>)
    ensures
        forall|k: Seq<u8>|
            #[trigger] header_table(hs).dom().contains(k) <==> exists|j: int|
                0 <= j < hs.len() && lower(#[trigger] hs[j].0) == k,
        forall|k: Seq<u8>| #[trigger] header_table(hs).dom().contains(k) ==> header_table(hs)[k]
            == Seq::<u8>::empty(),
    decreases hs.len(),
{
    if hs.len() > 0 {
        let hs2 = hs.drop_last();
        lemma_header_table_names(hs2);
        assert(header_table(hs) == header_table(hs2).insert(lower(hs.last().0), Seq::<u8>::empty()));
        assert forall|k: Seq<u8>| #[trigger] header_table(hs).dom().contains(k) <==> exists|j: int|
            0 <= j < hs.len() && lower(#[trigger] hs[j].0) == k by {
            if header_table(hs).dom().contains(k) {
                if k == lower(hs.last().0) {
                    assert(lower(hs[hs.len() - 1].0) == k);
                } else {
                    assert(header_table(hs2).dom().contains(k));
                    let j = choose|j: int| 0 <= j < hs2.len() && lower(#[trigger] hs2[j].0) == k;
                    assert(hs[j] == hs2[j]);
                    assert(lower(hs[j].0) == k);
                }
            }
            if exists|j: int| 0 <= j < hs.len() && lower(#[trigger] hs[j].0) == k {
                let j = choose|j: int| 0 <= j < hs.len() && lower(#[trigger] hs[j].0) == k;
                if j < hs.len() - 1 {
                    assert(hs2[j] == hs[j]);
                    assert(lower(hs2[j].0) == k);
                }
            }
        }
    }
}

/// What one step does with the bytes while a request head is awaited: an
/// incomplete head waits and changes nothing; bytes that are no request head
/// are a bad request, and a `content-length` value that is no number a bad
/// content length, with nothing changed; a complete head is consumed from
/// the front of the buffer and becomes the request (its method, target,
/// version, head bytes and header names, no data yet, not the last part), the
/// data function is dropped, and the request is to be routed.
pub proof fn lemma_head_read<F>(rv: ReaderView<F>, qv: RequestView<F>)
    requires
        rv.read_state == ReadState::Request,
    ensures
        parsed_head(rv.buffer) is Partial ==> step_spec(rv, qv) == (
            Ok::<Step, Fault>(Step::ReadMore),
            rv,
            qv,
        ),
        parsed_head(rv.buffer) is Invalid ==> step_spec(rv, qv) == (
            Err::<Step, Fault>(Fault::BadRequest),
            rv,
            qv,
        ),
        parsed_head(rv.buffer) matches HeadView::Complete { headers, .. } && headers_outcome(
            headers,
            ReadState::Body,
            rv.body_size,
        ) is None ==> step_spec(rv, qv) == (Err::<Step, Fault>(Fault::BadContentLength), rv, qv),
        ({
            let h = parsed_head(rv.buffer);
            let (r, rv2, qv2) = step_spec(rv, qv);
            h is Complete && h->len <= rv.buffer.len() && headers_outcome(
                h->headers,
                ReadState::Body,
                rv.body_size,
            ) is Some ==> {
                &&& r == Ok::<Step, Fault>(Step::Route)
                &&& rv2.buffer == rv.buffer.subrange(h->len as int, rv.buffer.len() as int)
                &&& rv2.req_func is Empty
                &&& qv2.method == h->method && qv2.uri == h->path && qv2.version == h->version
                &&& qv2.request_data == rv.buffer.subrange(0, h->len as int)
                &&& qv2.data == Seq::<u8>::empty() && !qv2.is_last
                &&& qv2.on_data == qv.on_data && qv2.has_function == qv.has_function
                &&& forall|k: Seq<u8>|
                    #[trigger] qv2.headers.dom().contains(k) <==> exists|j: int|
                        0 <= j < h->headers.len() && lower(#[trigger] h->headers[j].0) == k
            }
        }),
{
    if parsed_head(rv.buffer) is Complete {
        let len = parsed_head(rv.buffer)->len;
        lemma_header_table_names(parsed_head(rv.buffer)->headers);
        if len <= rv.buffer.len() {
            assert(rv.buffer.skip(len as int) =~= rv.buffer.subrange(len as int, rv.buffer.len() as int));
            assert(rv.buffer.take(len as int) =~= rv.buffer.subrange(0, len as int));
        }
    }
}

/// While a chunked body is read without a data function, a framed chunk is
/// consumed and its data dropped; and while only part of a frame has
/// arrived, the reader waits and changes nothing.
pub proof fn lemma_chunk_without_function<F>(rv: ReaderView<F>, qv: RequestView<F>, data: Seq<u8>, rest: Seq<u8>, n: int)
    requires
        rv.read_state == ReadState::Chunk,
        data.len() > 0,
        crate::chunk::chunk_frame(data).len() + rest.len() <= isize::MAX,
        !(rest.len() == 5 && rest[0] == 48),
        0 < n < crate::chunk::chunk_frame(data).len(),
    ensures
        rv.req_func is Empty && rv.buffer == crate::chunk::chunk_frame(data) + rest ==> step_spec(
            rv,
            qv,
        ) == (Ok::<Step, Fault>(Step::ReadMore), ReaderView { buffer: rest, ..rv }, qv),
        rv.buffer == crate::chunk::chunk_frame(data).take(n) ==> step_spec(rv, qv) == (
            Ok::<Step, Fault>(Step::ReadMore),
            rv,
            qv,
        ),
{
    crate::chunk::lemma_frame_consumed(data, rest);
    crate::chunk::lemma_chunk_frame_round_trip(data, rest);
    crate::chunk::lemma_partial_frame(data, n);
    assert(rv.buffer.skip(0) =~= rv.buffer);
}

} // verus!
