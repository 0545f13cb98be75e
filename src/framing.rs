use vstd::prelude::*;
use vstd::slice::slice_subrange;

use crate::error::ProtoErrorKind;
use crate::message::{be16, decode, parse_message, Message};

verus! {

/// Largest payload that a 2-byte length prefix can announce.
pub const MAX_FRAME_LEN: usize = 0xffff;

/// What the read side of a stream has after looking at its buffer.
pub enum StreamFrame {
    /// No complete frame yet: read more bytes.
    NeedMore,
    /// A complete frame: the message it held and how many bytes it took,
    /// prefix included.
    Frame(Message, usize),
}

/// The 2-byte big-endian prefix of a payload of `n` bytes.
pub open spec fn length_prefix(n: nat) -> Seq<u8> {
    seq![(n / 256) as u8, (n % 256) as u8]
}

/// Prefixes an encoded message with its length, for a stream transport. A
/// payload longer than a prefix can announce is `MessageFormat`.
pub fn frame_stream(payload: &Vec<u8>) -> (r: Result<Vec<u8>, ProtoErrorKind>)
    ensures
        payload@.len() <= MAX_FRAME_LEN ==> r is Ok && r->Ok_0@ == length_prefix(payload@.len())
            + payload@,
        payload@.len() > MAX_FRAME_LEN ==> r is Err && r->Err_0 == ProtoErrorKind::MessageFormat,
{
    let n = payload.len();
    if n > MAX_FRAME_LEN {
        return Err(ProtoErrorKind::MessageFormat);
    }
    let mut out: Vec<u8> = Vec::new();
    out.push((n / 256) as u8);
    out.push((n % 256) as u8);
    let mut i: usize = 0;
    while i < n
        invariant
            n == payload@.len(),
            i <= n,
            out@ == length_prefix(n as nat) + payload@.take(i as int),
        decreases n - i,
    {
        out.push(payload[i]);
        i = i + 1;
        assert(out@ =~= length_prefix(n as nat) + payload@.take(i as int));
    }
    assert(payload@.take(i as int) =~= payload@);
    Ok(out)
}

/// Looks for one length-prefixed frame at the front of `buf`. Fewer than two
/// bytes, or fewer than the prefix announces, is `NeedMore`. A prefix of zero
/// is `Truncated`. A complete frame whose payload does not decode is
/// `MessageFormat`, which is fatal to the stream since no later offset is a
/// safe place to resume.
pub fn deframe_stream(buf: &[u8]) -> (r: Result<StreamFrame, ProtoErrorKind>)
    ensures
        buf@.len() < 2 ==> r is Ok && r->Ok_0 is NeedMore,
        buf@.len() >= 2 && be16(buf@, 0) == 0 ==> r is Err && r->Err_0 == ProtoErrorKind::Truncated,
        buf@.len() >= 2 && be16(buf@, 0) > 0 && buf@.len() < 2 + be16(buf@, 0) ==> r is Ok
            && r->Ok_0 is NeedMore,
        buf@.len() >= 2 && be16(buf@, 0) > 0 && buf@.len() >= 2 + be16(buf@, 0) ==> match parse_message(
            buf@.subrange(2, 2 + be16(buf@, 0)),
        ) {
            Ok(v) => r is Ok && r->Ok_0 is Frame && r->Ok_0->Frame_0@ == v && r->Ok_0->Frame_1 == 2
                + be16(buf@, 0),
            Err(_) => r is Err && r->Err_0 == ProtoErrorKind::MessageFormat,
        },
{
    if buf.len() < 2 {
        return Ok(StreamFrame::NeedMore);
    }
    let n = (buf[0] as usize) * 256 + buf[1] as usize;
    if n == 0 {
        return Err(ProtoErrorKind::Truncated);
    }
    if buf.len() - 2 < n {
        return Ok(StreamFrame::NeedMore);
    }
    match decode(slice_subrange(buf, 2, 2 + n)) {
        Ok(m) => Ok(StreamFrame::Frame(m, 2 + n)),
        Err(_) => Err(ProtoErrorKind::MessageFormat),
    }
}

/// At the end of a stream: bytes left over that never made a whole frame
/// are `Truncated`.
pub fn finish_stream(buf: &[u8]) -> (r: Result<(), ProtoErrorKind>)
    ensures
        buf@.len() == 0 ==> r is Ok,
        buf@.len() > 0 ==> r is Err && r->Err_0 == ProtoErrorKind::Truncated,
{
    if buf.len() == 0 {
        Ok(())
    } else {
        Err(ProtoErrorKind::Truncated)
    }
}

/// One datagram is one message: one that decodes is kept, one that does not
/// is dropped (`None`) and the connection goes on.
pub fn accept_datagram(bytes: &[u8]) -> (r: Option<Message>)
    ensures
        match parse_message(bytes@) {
            Ok(v) => r is Some && r->0@ == v,
            Err(_) => r is None,
        },
{
    match decode(bytes) {
        Ok(m) => Some(m),
        Err(_) => None,
    }
}

} // verus!
