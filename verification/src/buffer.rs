//! The byte buffer type of the `bytes` crate, as the rest of the library sees it:
//! a sequence of bytes, `bytes_of(b)`.

use bytes::BytesMut;
use vstd::prelude::*;

verus! {

#[verifier::external_type_specification]
#[verifier::external_body]
pub struct ExBytesMut(BytesMut);

/// The bytes that a `BytesMut` holds, in order.
pub uninterp spec fn bytes_of(b: BytesMut) -> Seq<u8>;

/// `BytesMut::new` makes an empty buffer.
pub assume_specification[ BytesMut::new ]() -> (b: BytesMut)
    ensures
        bytes_of(b) == Seq::<u8>::empty(),
;

/// `BytesMut::with_capacity` makes an empty buffer; it allocates up to
/// `capacity` bytes, which a `Vec` refuses past `isize::MAX`.
pub assume_specification[ BytesMut::with_capacity ](capacity: usize) -> (b: BytesMut)
    requires
        capacity <= isize::MAX,
    ensures
        bytes_of(b) == Seq::<u8>::empty(),
;

/// `BytesMut::len` is the number of bytes held, which live in one allocation
/// and so number at most `isize::MAX`.
pub assume_specification[ BytesMut::len ](b: &BytesMut) -> (n: usize)
    ensures
        n == bytes_of(*b).len(),
        n <= isize::MAX,
;

/// `BytesMut::advance` drops the first `cnt` bytes; it panics past the end.
pub assume_specification[ BytesMut::advance ](b: &mut BytesMut, cnt: usize)
    requires
        cnt <= bytes_of(*old(b)).len(),
    ensures
        bytes_of(*final(b)) == bytes_of(*old(b)).skip(cnt as int),
;

/// `BytesMut::split_to` hands out the first `at` bytes and keeps the rest;
/// it panics past the end.
pub assume_specification[ BytesMut::split_to ](b: &mut BytesMut, at: usize) -> (front: BytesMut)
    requires
        at <= bytes_of(*old(b)).len(),
    ensures
        bytes_of(front) == bytes_of(*old(b)).take(at as int),
        bytes_of(*final(b)) == bytes_of(*old(b)).skip(at as int),
;

/// `BytesMut::extend_from_slice` appends `extend`; the buffer grows through a
/// `Vec`, which refuses a size past `isize::MAX`.
pub assume_specification[ BytesMut::extend_from_slice ](b: &mut BytesMut, extend: &[u8])
    requires
        bytes_of(*old(b)).len() + extend@.len() <= isize::MAX,
    ensures
        bytes_of(*final(b)) == bytes_of(*old(b)) + extend@,
;

/// `BytesMut::unsplit` appends the bytes of `other` (joining the two views
/// when they are adjacent, copying otherwise).
pub assume_specification[ BytesMut::unsplit ](b: &mut BytesMut, other: BytesMut)
    requires
        bytes_of(*old(b)).len() + bytes_of(other).len() <= isize::MAX,
    ensures
        bytes_of(*final(b)) == bytes_of(*old(b)) + bytes_of(other),
;

/// `BytesMut::clear` drops every byte.
pub assume_specification[ BytesMut::clear ](b: &mut BytesMut)
    ensures
        bytes_of(*final(b)) == Seq::<u8>::empty(),
;

/// Reads the byte at index `i` through the buffer's slice view
/// (`Deref<Target = [u8]>`).
#[verifier::external_body]
pub(crate) fn byte_at(b: &BytesMut, i: usize) -> (x: u8)
    requires
        i < bytes_of(*b).len(),
    ensures
        x == bytes_of(*b)[i as int],
{
    b[i]
}

} // verus!
