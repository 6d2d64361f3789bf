//! Length-prefixed framing of protocol messages: a 32-bit little-endian
//! payload length, then the payload.
use vstd::prelude::*;

verus! {

/// The largest payload a reader accepts: 16 MiB.
pub const MAX_FRAME_SIZE: usize = 16777216;

/// The four little-endian bytes of `n`.
pub open spec fn le32(n: nat) -> Seq<u8> {
    seq![(n % 256) as u8, ((n / 256) % 256) as u8, ((n / 65536) % 256) as u8, ((n / 16777216) % 256) as u8]
}

/// The value of four little-endian bytes.
pub open spec fn le32_value(b: Seq<u8>) -> nat {
    (b[0] as nat + 256 * b[1] as nat + 65536 * b[2] as nat + 16777216 * b[3] as nat) as nat
}

/// The frame of a payload: its length in four little-endian bytes, then the payload.
pub open spec fn frame_of(payload: Seq<u8>) -> Seq<u8> {
    le32(payload.len()) + payload
}

/// What a reader does after the four header bytes: an empty frame, a body
/// of that many bytes to read, or a refusal of an oversized frame.
#[derive(Clone, Copy, Debug, PartialEq, Eq, Structural)]
pub enum FrameHeader {
    Empty,
    Body(usize),
    TooLarge,
}

/// Frames a payload.
pub fn make_frame(payload: &[u8]) -> (r: Vec<u8>)
    requires
        payload@.len() <= u32::MAX,
    ensures
        r@ == frame_of(payload@),
{
    let n = payload.len() as u32;
    let mut v: Vec<u8> = Vec::new();
    v.push((n & 0xff) as u8);
    v.push(((n >> 8u32) & 0xff) as u8);
    v.push(((n >> 16u32) & 0xff) as u8);
    v.push(((n >> 24u32) & 0xff) as u8);
    assert((n & 0xff) as u8 == (n % 256) as u8 && ((n >> 8u32) & 0xff) as u8 == ((n / 256) % 256) as u8
        && ((n >> 16u32) & 0xff) as u8 == ((n / 65536) % 256) as u8 && ((n >> 24u32) & 0xff) as u8
        == ((n / 16777216) % 256) as u8) by (bit_vector);
    assert(v@ =~= le32(payload@.len()));
    let mut i: usize = 0;
    while i < payload.len()
        invariant
            i <= payload@.len(),
            v@ == le32(payload@.len()) + payload@.take(i as int),
        decreases payload.len() - i,
    {
        v.push(payload[i]);
        assert(payload@.take(i as int).push(payload@[i as int]) =~= payload@.take(i + 1));
        i += 1;
    }
    assert(payload@.take(payload@.len() as int) =~= payload@);
    v
}

/// What a reader does for the given header.
pub open spec fn header_action(hdr: Seq<u8>) -> FrameHeader {
    let len = le32_value(hdr);
    if len == 0 {
        FrameHeader::Empty
    } else if len > MAX_FRAME_SIZE {
        FrameHeader::TooLarge
    } else {
        FrameHeader::Body(len as usize)
    }
}

/// Decodes the four header bytes of a frame.
pub fn decode_frame_header(hdr: [u8; 4]) -> (r: FrameHeader)
    ensures
        r == header_action(hdr@),
{
    let b0 = hdr[0] as u32;
    let b1 = hdr[1] as u32;
    let b2 = hdr[2] as u32;
    let b3 = hdr[3] as u32;
    let len = b0 | (b1 << 8u32) | (b2 << 16u32) | (b3 << 24u32);
    assert(len == b0 + 256 * b1 + 65536 * b2 + 16777216 * b3) by (bit_vector)
        requires
            b0 < 256,
            b1 < 256,
            b2 < 256,
            b3 < 256,
            len == b0 | (b1 << 8u32) | (b2 << 16u32) | (b3 << 24u32),
    ;
    if len == 0 {
        FrameHeader::Empty
    } else if len as usize > MAX_FRAME_SIZE {
        FrameHeader::TooLarge
    } else {
        FrameHeader::Body(len as usize)
    }
}

/// Reading back the header that `make_frame` wrote gives the payload's
/// length: an empty payload reads as an empty frame, a payload of at most
/// `MAX_FRAME_SIZE` bytes as a body of its length, a longer one is refused.
pub proof fn frame_header_round_trip(payload: Seq<u8>)
    requires
        payload.len() <= u32::MAX,
    ensures
        header_action(frame_of(payload).take(4)) == (if payload.len() == 0 {
            FrameHeader::Empty
        } else if payload.len() > MAX_FRAME_SIZE {
            FrameHeader::TooLarge
        } else {
            FrameHeader::Body(payload.len() as usize)
        }),
        frame_of(payload).skip(4) == payload,
{
    let n = payload.len();
    let h = frame_of(payload).take(4);
    assert(h =~= le32(n));
    assert(le32_value(le32(n)) == n) by (nonlinear_arith)
        requires
            n <= u32::MAX,
    ;
    assert(frame_of(payload).skip(4) =~= payload);
}

/// The payload of a data-channel message that carries one frame: none when
/// the message is shorter than its four header bytes or than the length
/// they give; else the bytes of that length after the header (anything
/// after them is dropped).
pub open spec fn unframed(data: Seq<u8>) -> Option<Seq<u8>> {
    if data.len() < 4 {
        None
    } else if data.len() < 4 + le32_value(data) {
        None
    } else {
        Some(data.subrange(4, 4 + le32_value(data) as int))
    }
}

/// Takes the payload out of a framed message.
pub fn unframe(data: &[u8]) -> (r: Option<Vec<u8>>)
    ensures
        match r {
            Some(p) => unframed(data@) == Some(p@),
            None => unframed(data@) is None,
        },
{
    if data.len() < 4 {
        return None;
    }
    let len: u64 = data[0] as u64 + 256 * (data[1] as u64) + 65536 * (data[2] as u64) + 16777216 * (data[3] as u64);
    if (data.len() as u64) - 4 < len {
        return None;
    }
    let end = 4 + len as usize;
    let mut out: Vec<u8> = Vec::new();
    let mut i: usize = 4;
    while i < end
        invariant
            4 <= i <= end,
            end <= data@.len(),
            out@ == data@.subrange(4, i as int),
        decreases end - i,
    {
        out.push(data[i]);
        assert(data@.subrange(4, i + 1) =~= data@.subrange(4, i as int).push(data@[i as int]));
        i += 1;
    }
    Some(out)
}

/// What reading one frame from the front of a byte stream gives: the
/// payload and how many bytes the frame took (its four header bytes and
/// the payload); nothing when the stream ends inside the header or the
/// payload, or when the header gives more than `MAX_FRAME_SIZE` bytes.
pub open spec fn frame_read(b: Seq<u8>) -> Option<(Seq<u8>, int)> {
    if b.len() < 4 {
        None
    } else {
        let len = le32_value(b) as int;
        if len > MAX_FRAME_SIZE {
            None
        } else if b.len() < 4 + len {
            None
        } else {
            Some((b.subrange(4, 4 + len), 4 + len))
        }
    }
}

/// Reads one frame from the front of the bytes that have arrived.
pub fn read_frame(data: &[u8]) -> (r: Option<(Vec<u8>, usize)>)
    ensures
        match r {
            Some((p, n)) => frame_read(data@) == Some((p@, n as int)),
            None => frame_read(data@) is None,
        },
{
    if data.len() < 4 {
        return None;
    }
    let len: u64 = data[0] as u64 + 256 * (data[1] as u64) + 65536 * (data[2] as u64) + 16777216 * (data[3] as u64);
    if len > MAX_FRAME_SIZE as u64 {
        return None;
    }
    if (data.len() as u64) - 4 < len {
        return None;
    }
    let end = 4 + len as usize;
    let mut out: Vec<u8> = Vec::new();
    let mut i: usize = 4;
    while i < end
        invariant
            4 <= i <= end,
            end <= data@.len(),
            out@ == data@.subrange(4, i as int),
        decreases end - i,
    {
        out.push(data[i]);
        assert(data@.subrange(4, i + 1) =~= data@.subrange(4, i as int).push(data@[i as int]));
        i += 1;
    }
    Some((out, end))
}

/// A frame read back from a stream gives the payload that `make_frame`
/// framed, taking exactly its four header bytes and the payload, whatever
/// follows; a stream that ends before the frame does gives nothing.
pub proof fn frame_read_back(payload: Seq<u8>, rest: Seq<u8>, cut: int)
    requires
        payload.len() <= MAX_FRAME_SIZE,
        0 <= cut < 4 + payload.len(),
    ensures
        frame_read(frame_of(payload) + rest) == Some((payload, 4 + payload.len() as int)),
        frame_read(frame_of(payload).take(cut)) is None,
{
    let n = payload.len();
    let b = frame_of(payload) + rest;
    assert(le32_value(le32(n)) == n) by (nonlinear_arith)
        requires
            n <= u32::MAX,
    ;
    assert(b.subrange(0, 4) =~= le32(n));
    assert(le32_value(b) == le32_value(le32(n)));
    assert(b.subrange(4, 4 + n as int) =~= payload);
    let c = frame_of(payload).take(cut);
    if cut >= 4 {
        assert(c.subrange(0, 4) =~= le32(n));
        assert(le32_value(c) == le32_value(le32(n)));
    }
}

/// A header that gives more than `MAX_FRAME_SIZE` bytes reads as nothing,
/// whatever follows it.
pub proof fn oversize_frame_refused(hdr: Seq<u8>, rest: Seq<u8>)
    requires
        hdr.len() == 4,
        le32_value(hdr) > MAX_FRAME_SIZE,
    ensures
        frame_read(hdr + rest) is None,
{
    assert((hdr + rest).subrange(0, 4) =~= hdr);
    assert(le32_value(hdr + rest) == le32_value(hdr));
}

} // verus!
