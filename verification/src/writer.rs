//! Progress of writing a serialised response out: the bytes, and how many of
//! them the socket has taken so far.

use crate::buffer::bytes_of;
use crate::response::Response;
use bytes::BytesMut;
use vstd::prelude::*;

verus! {

/// A response being written; once every byte is out the response is handed
/// back and nothing is left to write.
pub struct WriteAll {
    response: Option<Response>,
    buf: BytesMut,
    pos: usize,
}

/// What the socket has to be asked for next.
pub enum WriteStep {
    /// Write the bytes from this index on.
    WriteFrom(usize),
    /// Every byte is written.
    Finished,
}

/// Starts writing `res` for the response `a`.
pub fn write_all(a: Response, res: BytesMut) -> (w: WriteAll)
    ensures
        w.is_writing(),
        w.written() == 0,
        w.output() == bytes_of(res),
        w.response() == a,
{
    WriteAll { response: Some(a), buf: res, pos: 0 }
}

/// Why writing a response out failed.
pub enum WriteError {
    /// The socket took no byte of what was left to write.
    WriteZero,
}

impl WriteError {
    /// The message of the error.
    pub fn message(&self) -> (m: &'static str)
        ensures
            m@ == "zero-length write"@,
    {
        match self {
            WriteError::WriteZero => "zero-length write",
        }
    }
}

impl WriteAll {
    #[verifier::type_invariant]
    spec fn inv(self) -> bool {
        self.pos <= bytes_of(self.buf).len()
    }

    /// Whether the response is still being written (not yet handed back).
    pub closed spec fn is_writing(self) -> bool {
        self.response is Some
    }

    /// The bytes to write.
    pub closed spec fn output(self) -> Seq<u8> {
        bytes_of(self.buf)
    }

    /// How many bytes the socket has taken.
    pub closed spec fn written(self) -> int {
        self.pos as int
    }

    /// The response being written.
    pub closed spec fn response(self) -> Response
        recommends
            self.is_writing(),
    {
        self.response->0
    }

    /// The buffer to write from.
    pub fn buffer(&self) -> (b: &BytesMut)
        ensures
            bytes_of(*b) == self.output(),
    {
        &self.buf
    }

    /// What to ask the socket for next.
    pub fn next_step(&self) -> (step: WriteStep)
        ensures
            self.written() < self.output().len() ==> step == WriteStep::WriteFrom(
                self.written() as usize,
            ),
            self.written() >= self.output().len() ==> step == WriteStep::Finished,
    {
        if self.pos < self.buf.len() {
            WriteStep::WriteFrom(self.pos)
        } else {
            WriteStep::Finished
        }
    }

    /// Records that the socket took `n` more bytes; taking none is an error
    /// (`WriteZero`).
    pub fn record_write(&mut self, n: usize) -> (r: Result<(), WriteError>)
        requires
            old(self).is_writing(),
            old(self).written() + n <= old(self).output().len(),
        ensures
            n > 0 ==> r is Ok,
            n == 0 ==> r == Err::<(), WriteError>(WriteError::WriteZero),
            final(self).is_writing(),
            final(self).output() == old(self).output(),
            final(self).response() == old(self).response(),
            final(self).written() == old(self).written() + n,
    {
        let total = self.buf.len();
        assert(self.pos + n <= total);
        self.pos = self.pos + n;
        if n == 0 {
            return Err(WriteError::WriteZero);
        }
        Ok(())
    }

    /// Hands back the response once every byte is written.
    pub fn finish(&mut self) -> (a: Response)
        requires
            old(self).is_writing(),
            old(self).written() == old(self).output().len(),
        ensures
            a == old(self).response(),
            !final(self).is_writing(),
            final(self).output() == old(self).output(),
            final(self).written() == old(self).written(),
    {
        let mut taken: Option<Response> = None;
        std::mem::swap(&mut taken, &mut self.response);
        match taken {
            Some(a) => a,
            None => {
                assert(false);
                Response::new()
            },
        }
    }
}

} // verus!
