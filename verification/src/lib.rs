//! A small HTTP/1.1 server core: chunked-body framing, the `date` header,
//! response serialisation, request-head processing and path routing.
//! The socket work is done by the program around this library.

use vstd::prelude::*;

pub mod buffer;
pub mod calendar;
pub mod chunk;
pub mod date;
pub mod decimal;
pub mod head;
pub mod maps;
pub mod reader;
pub mod request;
pub mod response;
pub mod router;
pub mod writer;

verus! {

/// What to do with request body data as it arrives: nothing, or hand it to a
/// function.
pub enum OnData<F> {
    Empty,
    Function(F),
}

} // verus!
