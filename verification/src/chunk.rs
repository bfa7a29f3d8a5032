//! Framing of `Transfer-Encoding: chunked` bodies: a size line in hexadecimal
//! ended by CR LF, the data, then CR LF; a size of 0 ends the body.

use crate::buffer::{byte_at, bytes_of};
use bytes::BytesMut;
use vstd::prelude::*;

verus! {

#[verifier::external_type_specification]
#[verifier::external_body]
pub struct ExIoError(std::io::Error);

pub enum ParseStatus {
    Chunk(BytesMut),
    LastChunk(Option<BytesMut>),
    NotEnoughData,
}

pub struct Chunk {}

/// Value of an ASCII hexadecimal digit (either case).
pub open spec fn hex_value(b: u8) -> Option<int> {
    if 48 <= b <= 57 {
        Some(b - 48)
    } else if 97 <= b <= 102 {
        Some(b - 87)
    } else if 65 <= b <= 70 {
        Some(b - 55)
    } else {
        None
    }
}

/// Reading of a size line from index `i` on, `pos` and `size` being the
/// position count and the size read so far.  Hex digits add to the size; a CR
/// followed by LF ends the line; a CR followed by anything else is passed over
/// (counted once in `pos`); any other byte ends the line.  The result is
/// `(next, pos, size, crlf)`: the index after the line, the position count,
/// the size, and whether CR LF ended the line.  `None` when the bytes run out
/// first.
pub open spec fn scan_size_line(buf: Seq<u8>, i: int, pos: int, size: int) -> Option<(int, int, int, bool)>
    decreases buf.len() - i,
{
    if i < 0 || i >= buf.len() {
        None
    } else {
        let b = buf[i];
        match hex_value(b) {
            Some(v) => scan_size_line(buf, i + 1, pos + 1, size * 16 + v),
            None => if b == 13 {
                if i + 1 >= buf.len() {
                    None
                } else if buf[i + 1] == 10 {
                    Some((i + 2, pos + 1, size, true))
                } else {
                    scan_size_line(buf, i + 2, pos + 1, size)
                }
            } else {
                Some((i + 1, pos + 1, size, false))
            },
        }
    }
}

/// The size line at the start of `buf`.
pub open spec fn size_line(buf: Seq<u8>) -> Option<(int, int, int, bool)> {
    scan_size_line(buf, 0, 1, 0)
}

proof fn lemma_scan_grows(buf: Seq<u8>, i: int, pos: int, size: int)
    requires
        scan_size_line(buf, i, pos, size) is Some,
        size >= 0,
        0 <= i,
    ensures
        ({
            let (n, p, s, c) = scan_size_line(buf, i, pos, size)->0;
            &&& s >= size
            &&& p - pos <= n - i
            &&& p > pos
            &&& i < n <= buf.len()
        }),
    decreases buf.len() - i,
{
    let b = buf[i];
    match hex_value(b) {
        Some(v) => {
            lemma_scan_grows(buf, i + 1, pos + 1, size * 16 + v);
        },
        None => {
            if b == 13 && buf[i + 1] != 10 {
                lemma_scan_grows(buf, i + 2, pos + 1, size);
            }
        },
    }
}

fn hex_digit(b: u8) -> (v: Option<u8>)
    ensures
        match hex_value(b) {
            Some(x) => v == Some(x as u8),
            None => v is None,
        },
{
    if 48 <= b && b <= 57 {
        Some(b - 48)
    } else if 97 <= b && b <= 102 {
        Some(b - 87)
    } else if 65 <= b && b <= 70 {
        Some(b - 55)
    } else {
        None
    }
}

/// How the size line at the start of a buffer reads.
enum SizeLine {
    /// The line ends before the bytes do: `(next, pos, size, crlf)`.
    Line(usize, usize, usize, bool),
    /// The bytes run out first.
    Incomplete,
    /// The line ends, but its size does not fit in a `usize`.
    TooLarge,
}

/// Reads the size line at the start of `buffer`.
fn read_size_line(buffer: &BytesMut) -> (line: SizeLine)
    ensures
        match line {
            SizeLine::Line(next, pos, size, crlf) => {
                &&& size_line(bytes_of(*buffer)) == Some((next as int, pos as int, size as int, crlf))
                &&& pos <= next + 1
                &&& next <= bytes_of(*buffer).len()
            },
            SizeLine::Incomplete => size_line(bytes_of(*buffer)) is None,
            SizeLine::TooLarge => size_line(bytes_of(*buffer)) matches Some((_, _, s, _)) && s
                > usize::MAX,
        },
{
    let ghost buf = bytes_of(*buffer);
    let len = buffer.len();
    let mut i: usize = 0;
    let mut pos: usize = 1;
    let mut size: usize = 0;
    let mut too_large = false;
    let ghost mut true_size: int = 0;
    proof {
        if size_line(buf) is Some {
            lemma_scan_grows(buf, 0, 1, 0);
        }
    }
    loop
        invariant
            size_line(buf) is Some ==> {
                let (n, p, _, _) = size_line(buf)->0;
                p <= n + 1 && n <= len
            },
            len == buf.len(),
            len <= isize::MAX,
            buf == bytes_of(*buffer),
            scan_size_line(buf, i as int, pos as int, true_size) == size_line(buf),
            !too_large ==> true_size == size,
            too_large ==> true_size > usize::MAX,
            pos <= i + 1,
            i <= len,
        decreases len - i,
    {
        if i >= len {
            return SizeLine::Incomplete;
        }
        let byte = byte_at(buffer, i);
        match hex_digit(byte) {
            Some(v) => {
                if !too_large && size > (usize::MAX - v as usize) / 16 {
                    too_large = true;
                }
                if !too_large {
                    size = size * 16 + v as usize;
                }
                proof {
                    true_size = true_size * 16 + v;
                }
                i = i + 1;
                pos = pos + 1;
            },
            None => {
                if byte == 13 {
                    if i + 1 >= len {
                        return SizeLine::Incomplete;
                    }
                    let next = byte_at(buffer, i + 1);
                    if next == 10 {
                        assert(scan_size_line(buf, i as int, pos as int, true_size) == Some(
                            ((i + 2) as int, (pos + 1) as int, true_size, true),
                        ));
                        if too_large {
                            return SizeLine::TooLarge;
                        }
                        return SizeLine::Line(i + 2, pos + 1, size, true);
                    }
                    i = i + 2;
                    pos = pos + 1;
                } else {
                    if too_large {
                        return SizeLine::TooLarge;
                    }
                    return SizeLine::Line(i + 1, pos + 1, size, false);
                }
            },
        }
    }
}

/// Whether the last chunk (`0 CR LF CR LF`) is recognised after the size line
/// `(next, pos, size, crlf)`: the size is 0, or exactly seven bytes follow the
/// data and the third of them is `0`.
pub open spec fn chunk_is_last(buf: Seq<u8>, next: int, pos: int, size: int, crlf: bool) -> bool {
    crlf && (size == 0 || (buf.len() - pos - size == 7 && buf[next + size + 2] == 48))
}

/// The inputs on which `Chunk::parse` runs without a panic: when the size
/// line has ended, its size fits in a `usize` with room for the arithmetic on
/// it, and when exactly seven bytes follow the data, the byte looked at for
/// the last-chunk marker is there.
pub open spec fn chunk_parse_defined(buf: Seq<u8>) -> bool {
    match size_line(buf) {
        None => true,
        Some((next, pos, size, crlf)) => {
            &&& size + pos + 2 <= usize::MAX
            &&& crlf && size != 0 && buf.len() - pos - size == 7 ==> next + size + 2 < buf.len()
        },
    }
}

/// What `Chunk::parse` reads from a buffer.
pub enum ChunkView {
    Chunk(Seq<u8>),
    LastChunk(Option<Seq<u8>>),
    NotEnoughData,
}

impl View for ParseStatus {
    type V = ChunkView;

    open spec fn view(&self) -> ChunkView {
        match self {
            ParseStatus::Chunk(d) => ChunkView::Chunk(bytes_of(*d)),
            ParseStatus::LastChunk(None) => ChunkView::LastChunk(None),
            ParseStatus::LastChunk(Some(d)) => ChunkView::LastChunk(Some(bytes_of(*d))),
            ParseStatus::NotEnoughData => ChunkView::NotEnoughData,
        }
    }
}

/// The result of parsing `buf` and the number of bytes it consumes: nothing
/// is consumed until the size line, the data and the CR LF after it are all
/// there.
pub open spec fn parse_chunk_spec(buf: Seq<u8>) -> (ChunkView, int) {
    let (next, pos, size, crlf) = size_line(buf)->0;
    if size_line(buf) is None || buf.len() < size + pos + 2 {
        (ChunkView::NotEnoughData, 0)
    } else if chunk_is_last(buf, next, pos, size, crlf) {
        if size == 0 {
            (ChunkView::LastChunk(None), pos + 2)
        } else {
            (ChunkView::LastChunk(Some(buf.subrange(pos, pos + size))), pos + size + 7)
        }
    } else {
        (ChunkView::Chunk(buf.subrange(pos, pos + size)), pos + size + 2)
    }
}

impl Chunk {
    /// Whether `parse` is defined on the bytes of `buffer`.
    pub fn can_parse(buffer: &BytesMut) -> (ok: bool)
        ensures
            ok == chunk_parse_defined(bytes_of(*buffer)),
    {
        proof {
            if size_line(bytes_of(*buffer)) is Some {
                lemma_scan_grows(bytes_of(*buffer), 0, 1, 0);
            }
        }
        match read_size_line(buffer) {
            SizeLine::Incomplete => true,
            SizeLine::TooLarge => false,
            SizeLine::Line(next, pos, size, crlf) => {
                let len = buffer.len();
                if size > usize::MAX - 2 - pos {
                    return false;
                }
                if crlf && size != 0 && len >= pos + size {
                    if len - pos - size == 7 && len - next <= size + 2 {
                        return false;
                    }
                }
                true
            },
        }
    }

    /// Reads one chunk from the front of `buffer`: the size line, then the
    /// data and its CR LF (seven bytes `CR LF 0 CR LF CR LF` when the last
    /// chunk follows).  Nothing is consumed while the buffer is too short,
    /// the size line included.
    pub fn parse(buffer: &mut BytesMut) -> (res: Result<ParseStatus, std::io::Error>)
        requires
            chunk_parse_defined(bytes_of(*old(buffer))),
        ensures
            res matches Ok(status) && status@ == parse_chunk_spec(bytes_of(*old(buffer))).0,
            bytes_of(*final(buffer)) == bytes_of(*old(buffer)).skip(
                parse_chunk_spec(bytes_of(*old(buffer))).1,
            ),
    {
        let ghost buf = bytes_of(*buffer);
        proof {
            if size_line(buf) is Some {
                lemma_scan_grows(buf, 0, 1, 0);
            }
        }
        let line = read_size_line(buffer);
        let (next, pos, size, crlf) = match line {
            SizeLine::Line(next, pos, size, crlf) => (next, pos, size, crlf),
            SizeLine::Incomplete => {
                assert(buf.skip(0) =~= buf);
                return Ok(ParseStatus::NotEnoughData);
            },
            SizeLine::TooLarge => {
                assert(false);
                (0, 0, 0, false)
            },
        };
        let mut is_last = false;
        if crlf {
            if size == 0 || (buffer.len() >= pos + size && buffer.len() - pos - size == 7
                && byte_at(buffer, next + size + 2) == 48) {
                is_last = true;
            }
        }
        if buffer.len() < size + pos + 2 {
            assert(buf.skip(0) =~= buf);
            return Ok(ParseStatus::NotEnoughData);
        }
        buffer.advance(pos);
        if is_last {
            if size == 0 {
                buffer.advance(2);
                assert(buf.skip(pos as int).skip(2) =~= buf.skip(pos + 2));
                return Ok(ParseStatus::LastChunk(None));
            }
            let data = buffer.split_to(size);
            buffer.advance(7);
            assert(buf.skip(pos as int).take(size as int) =~= buf.subrange(
                pos as int,
                pos + size,
            ));
            assert(buf.skip(pos as int).skip(size as int).skip(7) =~= buf.skip(pos + size + 7));
            return Ok(ParseStatus::LastChunk(Some(data)));
        }
        let data = buffer.split_to(size);
        buffer.advance(2);
        assert(buf.skip(pos as int).take(size as int) =~= buf.subrange(pos as int, pos + size));
        assert(buf.skip(pos as int).skip(size as int).skip(2) =~= buf.skip(pos + size + 2));
        Ok(ParseStatus::Chunk(data))
    }
}

/// The data that `parse` hands out lies within the buffer.
pub proof fn lemma_chunk_within(buf: Seq<u8>)
    requires
        chunk_parse_defined(buf),
    ensures
        parse_chunk_spec(buf).0 matches ChunkView::Chunk(d) ==> d.len() <= buf.len(),
        parse_chunk_spec(buf).0 matches ChunkView::LastChunk(Some(d)) ==> d.len() <= buf.len(),
        0 <= parse_chunk_spec(buf).1 <= buf.len(),
{
    if size_line(buf) is Some {
        lemma_scan_grows(buf, 0, 1, 0);
    }
}

/// Lower-case hexadecimal digit for `d` (0 ..= 15).
pub open spec fn hex_digit_byte(d: int) -> u8 {
    if d < 10 {
        (48 + d) as u8
    } else {
        (87 + d) as u8
    }
}

/// The shortest lower-case hexadecimal numeral of `n`.
pub open spec fn hex_numeral(n: nat) -> Seq<u8>
    decreases n,
{
    if n < 16 {
        seq![hex_digit_byte(n as int)]
    } else {
        hex_numeral(n / 16).push(hex_digit_byte((n % 16) as int))
    }
}

/// Value of a run of hexadecimal digits.
pub open spec fn hex_run_value(s: Seq<u8>) -> int
    decreases s.len(),
{
    if s.len() == 0 {
        0
    } else {
        hex_run_value(s.drop_last()) * 16 + hex_value(s.last())->0
    }
}

pub open spec fn pow16(k: nat) -> int
    decreases k,
{
    if k == 0 {
        1
    } else {
        16 * pow16((k - 1) as nat)
    }
}

/// One chunk on the wire: size line, data, CR LF.
pub open spec fn chunk_frame(data: Seq<u8>) -> Seq<u8> {
    hex_numeral(data.len()) + seq![13u8, 10u8] + data + seq![13u8, 10u8]
}

/// The last chunk: `0 CR LF CR LF`.
pub open spec fn last_chunk_frame() -> Seq<u8> {
    seq![48u8, 13u8, 10u8, 13u8, 10u8]
}

proof fn lemma_hex_numeral(n: nat)
    ensures
        hex_numeral(n).len() >= 1,
        forall|i: int| 0 <= i < hex_numeral(n).len() ==> (#[trigger] hex_value(hex_numeral(n)[i])) is Some,
        hex_run_value(hex_numeral(n)) == n,
    decreases n,
{
    let s = hex_numeral(n);
    if n >= 16 {
        lemma_hex_numeral(n / 16);
        vstd::arithmetic::div_mod::lemma_fundamental_div_mod(n as int, 16);
        assert(s.drop_last() =~= hex_numeral(n / 16));
        assert(hex_value(s.last()) == Some((n % 16) as int));
        assert(hex_run_value(s) == hex_run_value(s.drop_last()) * 16 + hex_value(s.last())->0);
        assert forall|i: int| 0 <= i < s.len() implies (#[trigger] hex_value(s[i])) is Some by {
            if i < s.len() - 1 {
                assert(s[i] == hex_numeral(n / 16)[i]);
            }
        }
    } else {
        assert(s.drop_last() =~= Seq::<u8>::empty());
        assert(hex_run_value(s.drop_last()) == 0);
        assert(hex_value(s.last()) == Some(n as int));
    }
}

/// Reading a run of hex digits `s` that sits at index `i` of `buf`.
proof fn lemma_scan_run(buf: Seq<u8>, i: int, pos: int, size: int, s: Seq<u8>)
    requires
        0 <= i,
        i + s.len() <= buf.len(),
        buf.subrange(i, i + s.len()) == s,
        forall|j: int| 0 <= j < s.len() ==> (#[trigger] hex_value(s[j])) is Some,
    ensures
        scan_size_line(buf, i, pos, size) == scan_size_line(
            buf,
            i + s.len(),
            pos + s.len(),
            size * pow16(s.len()) + hex_run_value(s),
        ),
    decreases s.len(),
{
    if s.len() > 0 {
        let s2 = s.drop_last();
        assert(buf.subrange(i, i + s2.len()) =~= s2);
        assert forall|j: int| 0 <= j < s2.len() implies (#[trigger] hex_value(s2[j])) is Some by {
            assert(s2[j] == s[j]);
        }
        lemma_scan_run(buf, i, pos, size, s2);
        let k = i + s2.len();
        assert(buf[k] == s.last());
        let v = hex_value(s.last())->0;
        let p = pow16(s2.len());
        let acc = size * p + hex_run_value(s2);
        assert(acc * 16 + v == size * pow16(s.len()) + hex_run_value(s)) by (nonlinear_arith)
            requires
                acc == size * p + hex_run_value(s2),
                pow16(s.len()) == 16 * p,
                hex_run_value(s) == hex_run_value(s2) * 16 + v,
        ;
    } else {
        assert(pow16(0) == 1);
    }
}

/// A chunk framed with its size reads back as that chunk, consuming its
/// frame; when exactly the last-chunk marker follows, it reads back as the
/// last chunk and the marker is consumed too.
pub proof fn lemma_chunk_frame_round_trip(data: Seq<u8>, rest: Seq<u8>)
    requires
        data.len() > 0,
        chunk_frame(data).len() + rest.len() <= isize::MAX,
    ensures
        ({
            let buf = chunk_frame(data) + rest;
            &&& chunk_parse_defined(buf)
            &&& if rest.len() == 5 && rest[0] == 48 {
                parse_chunk_spec(buf) == (
                    ChunkView::LastChunk(Some(data)),
                    chunk_frame(data).len() + 5int,
                )
            } else {
                parse_chunk_spec(buf) == (ChunkView::Chunk(data), chunk_frame(data).len() as int)
            }
        }),
{
    let buf = chunk_frame(data) + rest;
    let s = hex_numeral(data.len());
    let k = s.len() as int;
    lemma_hex_numeral(data.len());
    assert(buf.subrange(0, k) =~= s);
    lemma_scan_run(buf, 0, 1, 0, s);
    assert(buf[k] == 13u8);
    assert(buf[k + 1] == 10u8);
    assert(size_line(buf) == Some((k + 2, k + 2, data.len() as int, true)));
    assert(buf.subrange(k + 2, k + 2 + data.len()) =~= data);
    if rest.len() == 5 {
        assert(buf[k + 2 + data.len() + 2] == rest[0]);
    }
}

/// The last-chunk marker reads back as the end of the body.
pub proof fn lemma_last_chunk_frame(rest: Seq<u8>)
    requires
        rest.len() + 5 <= isize::MAX,
    ensures
        chunk_parse_defined(last_chunk_frame() + rest),
        parse_chunk_spec(last_chunk_frame() + rest) == (ChunkView::LastChunk(None), 5int),
{
    let buf = last_chunk_frame() + rest;
    assert(buf[0] == 48u8 && buf[1] == 13u8 && buf[2] == 10u8);
    assert(hex_value(buf[0]) == Some(0int));
    assert(hex_value(buf[1]) is None);
    assert(scan_size_line(buf, 1, 2, 0) == Some((3int, 3int, 0int, true)));
    assert(size_line(buf) == Some((3int, 3int, 0int, true)));
}

/// The size of a chunk may be spelt in either letter case and with leading
/// zeros: two size lines of the same value, ended by CR LF, before the same
/// bytes, read the same chunk, and what is left once a chunk is read is the
/// same.
pub proof fn lemma_size_spelling(h1: Seq<u8>, h2: Seq<u8>, tail: Seq<u8>)
    requires
        h1.len() > 0,
        h2.len() > 0,
        forall|j: int| 0 <= j < h1.len() ==> (#[trigger] hex_value(h1[j])) is Some,
        forall|j: int| 0 <= j < h2.len() ==> (#[trigger] hex_value(h2[j])) is Some,
        hex_run_value(h1) == hex_run_value(h2),
    ensures
        ({
            let b1 = h1 + seq![13u8, 10u8] + tail;
            let b2 = h2 + seq![13u8, 10u8] + tail;
            let (v1, c1) = parse_chunk_spec(b1);
            let (v2, c2) = parse_chunk_spec(b2);
            &&& v1 == v2
            &&& v1 != ChunkView::NotEnoughData ==> b1.skip(c1) == b2.skip(c2)
        }),
{
    let b1 = h1 + seq![13u8, 10u8] + tail;
    let b2 = h2 + seq![13u8, 10u8] + tail;
    let v = hex_run_value(h1);
    lemma_hex_run_nonneg(h1);
    lemma_size_line_of(h1, tail);
    lemma_size_line_of(h2, tail);
    let k1 = h1.len() as int;
    let k2 = h2.len() as int;
    if tail.len() >= v + 2 {
        assert(b1.subrange(k1 + 2, k1 + 2 + v) =~= tail.subrange(0, v));
        assert(b2.subrange(k2 + 2, k2 + 2 + v) =~= tail.subrange(0, v));
        assert(b1.skip(k1 + 2 + v + 2) =~= tail.skip(v + 2));
        assert(b2.skip(k2 + 2 + v + 2) =~= tail.skip(v + 2));
        assert(b1.skip(k1 + 2) =~= tail);
        assert(b2.skip(k2 + 2) =~= tail);
        if tail.len() - v == 7 {
            assert(b1[k1 + 2 + v + 2] == tail[v + 2]);
            assert(b2[k2 + 2 + v + 2] == tail[v + 2]);
            assert(b1.skip(k1 + 2 + v + 7) =~= tail.skip(v + 7));
            assert(b2.skip(k2 + 2 + v + 7) =~= tail.skip(v + 7));
        }
    }
}

proof fn lemma_hex_run_nonneg(h: Seq<u8>)
    requires
        forall|j: int| 0 <= j < h.len() ==> (#[trigger] hex_value(h[j])) is Some,
    ensures
        hex_run_value(h) >= 0,
    decreases h.len(),
{
    if h.len() > 0 {
        let h2 = h.drop_last();
        assert forall|j: int| 0 <= j < h2.len() implies (#[trigger] hex_value(h2[j])) is Some by {
            assert(h2[j] == h[j]);
        }
        lemma_hex_run_nonneg(h2);
        assert(hex_value(h[h.len() - 1]) is Some);
    }
}

/// The size line of a run of hex digits `h` ended by CR LF.
proof fn lemma_size_line_of(h: Seq<u8>, tail: Seq<u8>)
    requires
        h.len() > 0,
        forall|j: int| 0 <= j < h.len() ==> (#[trigger] hex_value(h[j])) is Some,
    ensures
        ({
            let k = h.len() as int;
            size_line(h + seq![13u8, 10u8] + tail) == Some((k + 2, k + 2, hex_run_value(h), true))
        }),
{
    let buf = h + seq![13u8, 10u8] + tail;
    let k = h.len() as int;
    assert(buf.subrange(0, k) =~= h);
    lemma_scan_run(buf, 0, 1, 0, h);
    assert(buf[k] == 13u8);
    assert(buf[k + 1] == 10u8);
}

/// The hexadecimal digits: `0`..`9` stand for 0 to 9, `a`..`f` and `A`..`F`
/// both for 10 to 15, and no other byte is a digit.
pub proof fn lemma_hex_digits()
    ensures
        forall|k: int| 0 <= k < 10 ==> #[trigger] hex_value((48 + k) as u8) == Some(k),
        forall|k: int| 0 <= k < 6 ==> #[trigger] hex_value((97 + k) as u8) == Some(10 + k),
        forall|k: int| 0 <= k < 6 ==> #[trigger] hex_value((65 + k) as u8) == Some(10 + k),
        forall|b: u8| #[trigger] hex_value(b) is Some ==> 48 <= b <= 57 || 97 <= b <= 102 || 65
            <= b <= 70,
{
}

/// An upper-case hexadecimal digit for `d` (0 ..= 15).
pub open spec fn upper_hex_digit_byte(d: int) -> u8 {
    if d < 10 {
        (48 + d) as u8
    } else {
        (55 + d) as u8
    }
}

/// The shortest upper-case hexadecimal numeral of `n`.
pub open spec fn upper_hex_numeral(n: nat) -> Seq<u8>
    decreases n,
{
    if n < 16 {
        seq![upper_hex_digit_byte(n as int)]
    } else {
        upper_hex_numeral(n / 16).push(upper_hex_digit_byte((n % 16) as int))
    }
}

proof fn lemma_upper_hex_numeral(n: nat)
    ensures
        upper_hex_numeral(n).len() >= 1,
        forall|i: int|
            0 <= i < upper_hex_numeral(n).len() ==> (#[trigger] hex_value(upper_hex_numeral(n)[i])) is Some,
        hex_run_value(upper_hex_numeral(n)) == n,
    decreases n,
{
    let s = upper_hex_numeral(n);
    if n >= 16 {
        lemma_upper_hex_numeral(n / 16);
        vstd::arithmetic::div_mod::lemma_fundamental_div_mod(n as int, 16);
        assert(s.drop_last() =~= upper_hex_numeral(n / 16));
        assert(hex_value(s.last()) == Some((n % 16) as int));
        assert(hex_run_value(s) == hex_run_value(s.drop_last()) * 16 + hex_value(s.last())->0);
        assert forall|i: int| 0 <= i < s.len() implies (#[trigger] hex_value(s[i])) is Some by {
            if i < s.len() - 1 {
                assert(s[i] == upper_hex_numeral(n / 16)[i]);
            }
        }
    } else {
        assert(s.drop_last() =~= Seq::<u8>::empty());
        assert(hex_run_value(s.drop_last()) == 0);
        assert(hex_value(s.last()) == Some(n as int));
    }
}

/// A chunk whose size line is the upper-case hexadecimal numeral of its
/// length reads back as that chunk, the whole frame being consumed.
pub proof fn lemma_upper_case_frame(data: Seq<u8>, rest: Seq<u8>)
    requires
        data.len() > 0,
        !(rest.len() == 5 && rest[0] == 48),
        upper_hex_numeral(data.len()).len() + data.len() + 4 + rest.len() <= isize::MAX,
    ensures
        ({
            let frame = upper_hex_numeral(data.len()) + seq![13u8, 10u8] + data + seq![13u8, 10u8];
            let buf = frame + rest;
            &&& chunk_parse_defined(buf)
            &&& parse_chunk_spec(buf) == (ChunkView::Chunk(data), frame.len() as int)
            &&& buf.skip(frame.len() as int) == rest
        }),
{
    let h = upper_hex_numeral(data.len());
    let frame = h + seq![13u8, 10u8] + data + seq![13u8, 10u8];
    let buf = frame + rest;
    let k = h.len() as int;
    lemma_upper_hex_numeral(data.len());
    assert(buf =~= h + seq![13u8, 10u8] + (data + seq![13u8, 10u8] + rest));
    lemma_size_line_of(h, data + seq![13u8, 10u8] + rest);
    assert(buf.subrange(k + 2, k + 2 + data.len()) =~= data);
    if rest.len() == 5 {
        assert(buf[k + 2 + data.len() + 2] == rest[0]);
    }
    assert(buf.skip(frame.len() as int) =~= rest);
}

/// Part of a chunk frame is not read yet: while only a proper prefix of the
/// frame has arrived, nothing is consumed and more bytes are awaited.
pub proof fn lemma_partial_frame(data: Seq<u8>, n: int)
    requires
        0 <= n < chunk_frame(data).len(),
        chunk_frame(data).len() <= usize::MAX,
    ensures
        chunk_parse_defined(chunk_frame(data).take(n)),
        parse_chunk_spec(chunk_frame(data).take(n)) == (ChunkView::NotEnoughData, 0int),
{
    let frame = chunk_frame(data);
    let p = frame.take(n);
    let h = hex_numeral(data.len());
    let k = h.len() as int;
    lemma_hex_numeral(data.len());
    let m = if n < k {
        n
    } else {
        k
    };
    let run = h.take(m);
    assert(p.subrange(0, m) =~= run);
    assert forall|j: int| 0 <= j < run.len() implies (#[trigger] hex_value(run[j])) is Some by {
        assert(run[j] == h[j]);
    }
    lemma_scan_run(p, 0, 1, 0, run);
    if n <= k + 1 {
        if n == k + 1 {
            assert(p[k] == 13u8);
        }
        assert(size_line(p) is None);
    } else {
        assert(run =~= h);
        assert(p[k] == 13u8 && p[k + 1] == 10u8);
        assert(size_line(p) == Some((k + 2, k + 2, data.len() as int, true)));
    }
}

/// Without a data function a chunk is still consumed whole (its data being
/// dropped).
pub proof fn lemma_frame_consumed(data: Seq<u8>, rest: Seq<u8>)
    requires
        data.len() > 0,
        chunk_frame(data).len() + rest.len() <= isize::MAX,
        !(rest.len() == 5 && rest[0] == 48),
    ensures
        (chunk_frame(data) + rest).skip(parse_chunk_spec(chunk_frame(data) + rest).1) == rest,
{
    lemma_chunk_frame_round_trip(data, rest);
    assert((chunk_frame(data) + rest).skip(chunk_frame(data).len() as int) =~= rest);
}

} // verus!
