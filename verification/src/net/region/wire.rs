//! Frames on the control channel.
//!
//! A frame is a one-byte kind, a `u32` length, then that many bytes of body.
//! Little-endian throughout.
//!
//! The length is bounded before anything is allocated. A handshake frame is
//! tens of bytes and the cap is [`MAX_FRAME_BYTES`], so a peer claiming more is
//! refused. The length is read from a peer that has not authorized yet, since
//! the credential is inside the frame being sized.
//!
//! This carries control messages only. State payloads are latest-only and
//! lossy, and a reliable ordered stream is the wrong shape for them.

use vstd::prelude::*;
use vstd::slice::slice_subrange;

use crate::le;
use crate::le::{push_u32, read_u32};
use crate::net::error::NetError;

verus! {

/// Most bytes a single control frame may carry.
///
/// Far above any message so the format has room, and far below anything that
/// would matter as an allocation.
pub const MAX_FRAME_BYTES: usize = 4096;

/// Kind, then a `u32` length.
pub const HEADER_BYTES: usize = 5;

/// A frame as bytes.
pub open spec fn frame_bytes(kind: u8, body: Seq<u8>) -> Seq<u8> {
    seq![kind] + le::le_bytes(body.len(), 4) + body
}

/// The bytes of several pieces, joined.
pub open spec fn joined(parts: Seq<&[u8]>) -> Seq<u8>
    decreases parts.len(),
{
    if parts.len() == 0 {
        Seq::empty()
    } else {
        joined(parts.drop_last()) + parts.last()@
    }
}

/// Appends one frame.
///
/// Nothing is written where the body is past the cap.
pub fn write_frame(out: &mut Vec<u8>, kind: u8, body: &[u8]) -> (r: Result<(), NetError>)
    ensures
        match r {
            Ok(_) => body@.len() <= MAX_FRAME_BYTES && final(out)@ == old(out)@ + frame_bytes(
                kind,
                body@,
            ),
            Err(e) => {
                &&& body@.len() > MAX_FRAME_BYTES
                &&& final(out)@ == old(out)@
                &&& e == (NetError::FrameTooLarge {
                    claimed: body@.len() as usize,
                    max: MAX_FRAME_BYTES,
                })
            },
        },
{
    let len: usize = body.len();
    if len > MAX_FRAME_BYTES {
        return Err(NetError::FrameTooLarge { claimed: len, max: MAX_FRAME_BYTES });
    }
    out.push(kind);
    push_u32(out, len as u32);
    out.extend_from_slice(body);
    assert(out@ =~= old(out)@ + frame_bytes(kind, body@));
    Ok(())
}

/// Appends one frame from several pieces, without joining them first.
///
/// The bulk path has an id and a payload that live in different places, and
/// copying them together to write them would be a copy per payload.
pub fn write_frame_parts(out: &mut Vec<u8>, kind: u8, parts: &[&[u8]]) -> (r: Result<
    (),
    NetError,
>)
    requires
        joined(parts@).len() <= usize::MAX,
    ensures
        match r {
            Ok(_) => joined(parts@).len() <= MAX_FRAME_BYTES && final(out)@ == old(out)@
                + frame_bytes(kind, joined(parts@)),
            Err(e) => {
                &&& joined(parts@).len() > MAX_FRAME_BYTES
                &&& final(out)@ == old(out)@
                &&& e == (NetError::FrameTooLarge {
                    claimed: joined(parts@).len() as usize,
                    max: MAX_FRAME_BYTES,
                })
            },
        },
{
    let mut len: usize = 0;
    let mut i: usize = 0;
    assert(parts@.take(0) =~= Seq::empty());
    while i < parts.len()
        invariant
            i <= parts@.len(),
            len == joined(parts@.take(i as int)).len(),
            joined(parts@).len() <= usize::MAX,
        decreases parts@.len() - i,
    {
        proof {
            assert(parts@.take(i + 1).drop_last() =~= parts@.take(i as int));
            lemma_joined_grows(parts@, i + 1);
        }
        len = len + parts[i].len();
        i = i + 1;
    }
    assert(parts@.take(i as int) =~= parts@);
    if len > MAX_FRAME_BYTES {
        return Err(NetError::FrameTooLarge { claimed: len, max: MAX_FRAME_BYTES });
    }
    out.push(kind);
    push_u32(out, len as u32);
    let ghost head = out@;
    let mut k: usize = 0;
    assert(parts@.take(0) =~= Seq::empty());
    assert(out@ =~= head + joined(parts@.take(0)));
    while k < parts.len()
        invariant
            k <= parts@.len(),
            out@ == head + joined(parts@.take(k as int)),
        decreases parts@.len() - k,
    {
        out.extend_from_slice(parts[k]);
        proof {
            assert(parts@.take(k + 1).drop_last() =~= parts@.take(k as int));
            assert(out@ =~= head + joined(parts@.take(k + 1)));
        }
        k = k + 1;
    }
    assert(parts@.take(k as int) =~= parts@);
    assert(out@ =~= old(out)@ + frame_bytes(kind, joined(parts@)));
    Ok(())
}

/// More pieces join to no fewer bytes.
proof fn lemma_joined_grows(parts: Seq<&[u8]>, n: int)
    requires
        0 <= n <= parts.len(),
    ensures
        joined(parts.take(n)).len() <= joined(parts).len(),
    decreases parts.len() - n,
{
    if n < parts.len() {
        assert(parts.take(n + 1).drop_last() =~= parts.take(n));
        lemma_joined_grows(parts, n + 1);
    } else {
        assert(parts.take(n) =~= parts);
    }
}

/// What the bytes of a stream say of its first frame: how long its body is, or
/// why there is none to be had.
pub open spec fn frame_fault(src: Seq<u8>) -> Option<NetError> {
    if src.len() < HEADER_BYTES {
        Some(NetError::Closed)
    } else {
        let len = le::from_le(src.subrange(1, 5));
        if len > MAX_FRAME_BYTES {
            Some(NetError::FrameTooLarge { claimed: len as usize, max: MAX_FRAME_BYTES })
        } else if src.len() < HEADER_BYTES + len {
            Some(NetError::Closed)
        } else {
            None
        }
    }
}

/// Reads the first frame of what a peer sent before it closed into `body`, and
/// returns its kind and how many bytes of `src` it took.
///
/// `body` is reused across calls, so a caller holding one buffer does not
/// allocate per frame. A peer that closes mid-frame is closed, not broken.
pub fn read_frame(src: &[u8], body: &mut Vec<u8>) -> (r: Result<(u8, usize), NetError>)
    ensures
        match r {
            Ok((kind, taken)) => {
                &&& frame_fault(src@) is None
                &&& taken <= src@.len()
                &&& frame_bytes(kind, final(body)@) == src@.take(taken as int)
                &&& final(body)@.len() <= MAX_FRAME_BYTES
            },
            Err(e) => frame_fault(src@) == Some(e) && final(body)@ == old(body)@,
        },
{
    let have: usize = src.len();
    if have < HEADER_BYTES {
        return Err(NetError::Closed);
    }
    let kind: u8 = src[0];
    let claimed: u32 = read_u32(src, 1);
    let len: usize = claimed as usize;
    if len > MAX_FRAME_BYTES {
        return Err(NetError::FrameTooLarge { claimed: len, max: MAX_FRAME_BYTES });
    }
    if have < HEADER_BYTES + len {
        return Err(NetError::Closed);
    }
    body.clear();
    body.extend_from_slice(slice_subrange(src, HEADER_BYTES, HEADER_BYTES + len));
    proof {
        le::lemma_le_of_from_le(src@.subrange(1, 5));
        assert(body@ =~= src@.subrange(5, 5 + len));
        assert(frame_bytes(kind, body@) =~= src@.take(5 + len));
    }
    Ok((kind, HEADER_BYTES + len))
}

/// A frame within the cap comes back off the wire as it went on, whatever
/// follows it.
pub proof fn law_a_frame_round_trips(
    kind: u8,
    body: Seq<u8>,
    rest: Seq<u8>,
    back_kind: u8,
    back: Seq<u8>,
    taken: int,
)
    requires
        body.len() <= MAX_FRAME_BYTES,
        back.len() <= MAX_FRAME_BYTES,
        0 <= taken <= (frame_bytes(kind, body) + rest).len(),
        frame_bytes(back_kind, back) == (frame_bytes(kind, body) + rest).take(taken),
    ensures
        frame_fault(frame_bytes(kind, body) + rest) is None,
        back_kind == kind,
        back == body,
        taken == HEADER_BYTES + body.len(),
{
    let wire = frame_bytes(kind, body) + rest;
    le::lemma_le_len(body.len(), 4);
    le::lemma_le_len(back.len(), 4);
    le::lemma_span();
    le::lemma_from_le_of_le(body.len(), 4);
    le::lemma_from_le_of_le(back.len(), 4);
    let f = frame_bytes(back_kind, back);
    assert(f.len() == 5 + back.len() && f.len() == taken);
    assert(f == wire.take(taken));
    assert(wire.subrange(1, 5) =~= le::le_bytes(body.len(), 4));
    assert(f.subrange(1, 5) =~= le::le_bytes(back.len(), 4));
    assert(f.subrange(1, 5) =~= wire.subrange(1, 5));
    assert(f[0] == wire[0]);
    assert(back =~= f.skip(5));
    assert(body =~= frame_bytes(kind, body).skip(5));
    assert(back =~= body);
}

/// A frame cut short anywhere reads as closed.
pub proof fn law_a_truncated_frame_reads_as_closed(kind: u8, body: Seq<u8>, cut: int)
    requires
        body.len() <= MAX_FRAME_BYTES,
        0 <= cut < frame_bytes(kind, body).len(),
    ensures
        frame_fault(frame_bytes(kind, body).take(cut)) == Some(NetError::Closed),
{
    le::lemma_le_len(body.len(), 4);
    le::lemma_span();
    le::lemma_from_le_of_le(body.len(), 4);
    let t = frame_bytes(kind, body).take(cut);
    if cut >= 5 {
        assert(t.subrange(1, 5) =~= le::le_bytes(body.len(), 4));
    }
}

} // verus!
