//! Frames of the legacy protocol: a big-endian length that covers the body
//! only, and an opaque payload whatever the opcode.

use vstd::prelude::*;

use crate::msg::{lemma_next_multiple, next_multiple};
use crate::serial::util::{fit, write_fitted};
use crate::serial::SerialError;

verus! {

/// The longest body whose padded length still fits in 16 bits.
pub const MAX_BODY: usize = 65532;

/// A message of the legacy protocol: opcode, flags and body bytes.
#[derive(Clone, Debug, PartialEq, Eq)]
pub enum Msg {
    Unknown(u8, u8, Vec<u8>),
}

/// What a legacy message is: opcode, flags and body bytes.
pub ghost enum MsgView {
    Unknown(u8, u8, Seq<u8>),
}

impl View for Msg {
    type V = MsgView;

    open spec fn view(&self) -> MsgView {
        match self {
            Msg::Unknown(c, f, b) => MsgView::Unknown(*c, *f, b@),
        }
    }
}

/// The two bytes of `v`, most significant first.
pub open spec fn be16(v: nat) -> Seq<u8> {
    seq![(v / 256) as u8, (v % 256) as u8]
}

/// The frame for opcode `code`, flags `f` and body `b`: the header with the
/// big-endian padded body length, then `b` zero-padded to a multiple of four.
pub open spec fn frame(code: u8, f: u8, b: Seq<u8>) -> Seq<u8> {
    let n = next_multiple(b.len() as int, 4);
    seq![code, f] + be16(n as nat) + fit(b, n as nat)
}

/// The message read from the frame at the front of `s`, with the frame's
/// length; the length field is taken as the body length as it stands.
pub open spec fn parse_frame(s: Seq<u8>) -> Option<(MsgView, nat)> {
    if s.len() < 4 {
        None
    } else {
        let n = s[2] * 256 + s[3];
        if s.len() < 4 + n {
            None
        } else {
            Some((MsgView::Unknown(s[0], s[1], s.subrange(4, 4 + n)), (4 + n) as nat))
        }
    }
}

/// Round up a value to a multiple of `of`.
pub fn round_up(val: u16, of: u16) -> (r: u16)
    requires
        of > 0,
        next_multiple(val as int, of as int) <= u16::MAX,
    ensures
        r == next_multiple(val as int, of as int),
        r % of == 0,
        val <= r < val + of,
{
    proof {
        lemma_next_multiple(val as int, of as int);
    }
    val + round_up_remainder(val, of)
}

/// Get the amount required to round up a value to a multiple of `of`.
pub fn round_up_remainder(val: u16, of: u16) -> (r: u16)
    requires
        of > 0,
    ensures
        r == next_multiple(val as int, of as int) - val,
        r < of,
        (val + r) % (of as int) == 0,
{
    proof {
        lemma_next_multiple(val as int, of as int);
    }
    if val % of == 0 {
        0
    } else {
        of - (val % of)
    }
}

impl Msg {
    /// Appends the frame for this message. Fails, writing nothing, where the
    /// body is longer than `MAX_BODY` bytes.
    pub fn serialize(&self, out: &mut Vec<u8>) -> (r: Result<(), SerialError>)
        ensures
            match self@ {
                MsgView::Unknown(c, f, b) => {
                    &&& b.len() <= MAX_BODY ==> r is Ok && final(out)@ == old(out)@ + frame(c, f, b)
                    &&& b.len() > MAX_BODY ==> r == Err::<(), SerialError>(
                        SerialError::FrameTooLarge,
                    ) && final(out)@ == old(out)@
                    &&& r is Ok ==> final(out)@.len() == old(out)@.len() + 4 + next_multiple(b.len() as int, 4)
                },
            },
    {
        match self {
            Msg::Unknown(code, f, b) => {
                if b.len() > MAX_BODY {
                    return Err(SerialError::FrameTooLarge);
                }
                let n: u16 = b.len() as u16;
                proof {
                    lemma_next_multiple(n as int, 4);
                }
                let size: u16 = n + round_up_remainder(n, 4);
                let size: u16 = round_up(size, 4);
                let ghost start = out@;
                out.push(*code);
                out.push(*f);
                out.push((size / 256) as u8);
                out.push((size % 256) as u8);
                write_fitted(b, size as usize, out);
                proof {
                    assert(out@ =~= start + frame(*code, *f, b@));
                }
                Ok(())
            },
        }
    }

    /// Reads the frame at `pos`, returning its message with the position after
    /// the frame.
    pub fn deserialize(src: &[u8], pos: usize) -> (r: Result<(Msg, usize), SerialError>)
        requires
            pos <= src@.len(),
        ensures
            match r {
                Ok((m, p)) => pos <= p <= src@.len() && parse_frame(src@.skip(pos as int)) == Some(
                    (m@, (p - pos) as nat),
                ),
                Err(e) => parse_frame(src@.skip(pos as int)) is None && e
                    == SerialError::UnexpectedEnd,
            },
    {
        if src.len() - pos < 4 {
            return Err(SerialError::UnexpectedEnd);
        }
        let code: u8 = src[pos];
        let f: u8 = src[pos + 1];
        let size: usize = src[pos + 2] as usize * 256 + src[pos + 3] as usize;
        if src.len() - pos - 4 < size {
            return Err(SerialError::UnexpectedEnd);
        }
        let end: usize = pos + 4 + size;
        let mut body: Vec<u8> = Vec::new();
        let mut i: usize = pos + 4;
        while i < end
            invariant
                pos + 4 <= i <= end,
                end == pos + 4 + size,
                end <= src@.len(),
                body@ == src@.subrange(pos + 4, i as int),
            decreases end - i,
        {
            body.push(src[i]);
            assert(src@.subrange(pos + 4, i + 1) =~= src@.subrange(pos + 4, i as int).push(
                src@[i as int],
            ));
            i = i + 1;
        }
        proof {
            assert(src@.skip(pos as int).subrange(4, 4 + size) =~= body@);
        }
        Ok((Msg::Unknown(code, f, body), end))
    }
}

/// A legacy frame is its header and its body padded to a multiple of four.
pub proof fn lemma_frame_length(code: u8, f: u8, b: Seq<u8>)
    ensures
        frame(code, f, b).len() == 4 + next_multiple(b.len() as int, 4),
        frame(code, f, b).len() % 4 == 0,
{
    lemma_next_multiple(b.len() as int, 4);
}

/// Reading back the frame of a message whose body is already aligned to four
/// bytes gives the message and the whole frame, whatever follows it.
pub proof fn lemma_msg_round_trip(code: u8, f: u8, b: Seq<u8>, rest: Seq<u8>)
    requires
        b.len() % 4 == 0,
        b.len() <= MAX_BODY,
    ensures
        parse_frame(frame(code, f, b) + rest) == Some(
            (MsgView::Unknown(code, f, b), (4 + b.len()) as nat),
        ),
{
    let s = frame(code, f, b) + rest;
    assert(fit(b, b.len()) =~= b);
    assert(s[2] * 256 + s[3] == b.len());
    assert(s.subrange(4, 4 + b.len() as int) =~= b);
}

} // verus!
