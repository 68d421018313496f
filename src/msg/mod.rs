//! Frames of the current protocol: a little-endian length that covers the
//! whole frame, and payloads chosen by opcode.

use vstd::prelude::*;

use crate::serial::util::{fit, write_fitted};
use crate::serial::{
    le_bytes, le_value, lemma_pow256_values, read_le, write_le, Serial, SerialError,
};

pub mod login;

use self::login::{
    HlCheck, Redirect4, Redirect4View, Redirect6, Redirect6View, Welcome, WelcomeView,
};

verus! {

/// Bytes of a frame header: opcode, flags and the 16-bit length.
pub const HEADER_LEN: usize = 4;

/// The longest payload whose frame length still fits in 16 bits.
pub const MAX_PAYLOAD: usize = 65528;

/// The smallest multiple of `of` that is at least `v`.
pub open spec fn next_multiple(v: int, of: int) -> int {
    if v % of == 0 {
        v
    } else {
        v - v % of + of
    }
}

/// The next multiple is a multiple, and less than `of` above `v`.
pub proof fn lemma_next_multiple(v: int, of: int)
    requires
        v >= 0,
        of > 0,
    ensures
        next_multiple(v, of) % of == 0,
        v <= next_multiple(v, of) < v + of,
{
    vstd::arithmetic::div_mod::lemma_fundamental_div_mod(v, of);
    vstd::arithmetic::div_mod::lemma_mod_bound(v, of);
    if v % of != 0 {
        vstd::arithmetic::div_mod::lemma_mod_multiples_basic(v / of + 1, of);
        assert(v - v % of + of == (v / of + 1) * of) by (nonlinear_arith)
            requires
                v == of * (v / of) + v % of,
        ;
    }
}

/// Round up a value to a multiple of `of`.
pub fn round_up(val: u16, of: u16) -> (r: u16)
    requires
        of > 0,
        next_multiple(val as int, of as int) <= u16::MAX,
    ensures
        r == next_multiple(val as int, of as int),
        r % of == 0,
        val <= r < val + of,
{
    proof {
        lemma_next_multiple(val as int, of as int);
    }
    val + round_up_remainder(val, of)
}

/// Get the amount required to round up a value to a multiple of `of`.
pub fn round_up_remainder(val: u16, of: u16) -> (r: u16)
    requires
        of > 0,
    ensures
        r == next_multiple(val as int, of as int) - val,
        r < of,
        (val + r) % (of as int) == 0,
{
    proof {
        lemma_next_multiple(val as int, of as int);
    }
    if val % of == 0 {
        0
    } else {
        of - (val % of)
    }
}

/// A message of the current protocol.
#[derive(Clone, Debug, PartialEq, Eq)]
pub enum Msg {
    /// A frame whose opcode has no known payload: opcode, flags and body bytes.
    Unknown(u8, u8, Vec<u8>),
    LoginWelcome(u8, Welcome),
    ShipWelcome(u8, Welcome),
    Redirect4(Redirect4),
    Redirect6(Redirect6),
    Type05Disconnect,
    HlCheck(HlCheck),
}

/// What a message is, with its payloads as their views.
pub ghost enum MsgView {
    Unknown(u8, u8, Seq<u8>),
    LoginWelcome(u8, WelcomeView),
    ShipWelcome(u8, WelcomeView),
    Redirect4(Redirect4View),
    Redirect6(Redirect6View),
    Type05Disconnect,
    HlCheck(HlCheck),
}

impl View for Msg {
    type V = MsgView;

    open spec fn view(&self) -> MsgView {
        match self {
            Msg::Unknown(c, f, b) => MsgView::Unknown(*c, *f, b@),
            Msg::LoginWelcome(f, w) => MsgView::LoginWelcome(*f, w@),
            Msg::ShipWelcome(f, w) => MsgView::ShipWelcome(*f, w@),
            Msg::Redirect4(r) => MsgView::Redirect4(r@),
            Msg::Redirect6(r) => MsgView::Redirect6(r@),
            Msg::Type05Disconnect => MsgView::Type05Disconnect,
            Msg::HlCheck(h) => MsgView::HlCheck(*h),
        }
    }
}

/// The opcode that `m` is sent with.
pub open spec fn opcode(m: MsgView) -> u8 {
    match m {
        MsgView::Unknown(c, _, _) => c,
        MsgView::LoginWelcome(_, _) => 0x17,
        MsgView::ShipWelcome(_, _) => 0x02,
        MsgView::Redirect4(_) => 0x19,
        MsgView::Redirect6(_) => 0x19,
        MsgView::Type05Disconnect => 0x05,
        MsgView::HlCheck(_) => 0xDB,
    }
}

/// The flags byte that `m` is sent with.
pub open spec fn flags(m: MsgView) -> u8 {
    match m {
        MsgView::Unknown(_, f, _) => f,
        MsgView::LoginWelcome(f, _) => f,
        MsgView::ShipWelcome(f, _) => f,
        MsgView::Redirect4(_) => 0,
        MsgView::Redirect6(_) => 6,
        MsgView::Type05Disconnect => 0,
        MsgView::HlCheck(_) => 0,
    }
}

/// The payload bytes of `m`, before padding.
pub open spec fn payload(m: MsgView) -> Seq<u8> {
    match m {
        MsgView::Unknown(_, _, b) => b,
        MsgView::LoginWelcome(_, w) => Welcome::spec_serialize(w),
        MsgView::ShipWelcome(_, w) => Welcome::spec_serialize(w),
        MsgView::Redirect4(r) => Redirect4::spec_serialize(r),
        MsgView::Redirect6(r) => Redirect6::spec_serialize(r),
        MsgView::Type05Disconnect => Seq::empty(),
        MsgView::HlCheck(h) => HlCheck::spec_serialize(h),
    }
}

/// The length of the frame that carries a payload of `n` bytes: header
/// included, rounded up to a multiple of four.
pub open spec fn frame_len(n: int) -> int {
    next_multiple(n + HEADER_LEN, 4)
}

/// The frame for opcode `code`, flags `f` and payload `p`: the header with the
/// little-endian frame length, then `p` zero-padded to the frame's end.
pub open spec fn frame(code: u8, f: u8, p: Seq<u8>) -> Seq<u8> {
    seq![code, f] + le_bytes(frame_len(p.len() as int) as nat, 2) + fit(
        p,
        (frame_len(p.len() as int) - HEADER_LEN) as nat,
    )
}

/// The body length that a frame whose length field holds `size` carries:
/// the header taken off and the rest rounded up to a multiple of four.
pub open spec fn body_len(size: int) -> int {
    if size <= HEADER_LEN {
        0
    } else {
        next_multiple(size - HEADER_LEN, 4)
    }
}

/// Whether opcode `code` has a known payload.
pub open spec fn is_known_opcode(code: u8) -> bool {
    code == 0x02 || code == 0x05 || code == 0x17 || code == 0x19 || code == 0xDB
}

/// The message that a frame with opcode `code`, flags `f` and body `body`
/// holds; `None` where a known payload does not fit in the body.
pub open spec fn dispatch(code: u8, f: u8, body: Seq<u8>) -> Option<MsgView> {
    if code == 0x02 {
        match Welcome::spec_deserialize(body) {
            Some((w, _)) => Some(MsgView::ShipWelcome(f, w)),
            None => None,
        }
    } else if code == 0x05 {
        Some(MsgView::Type05Disconnect)
    } else if code == 0x17 {
        match Welcome::spec_deserialize(body) {
            Some((w, _)) => Some(MsgView::LoginWelcome(f, w)),
            None => None,
        }
    } else if code == 0x19 {
        if f == 6 {
            match Redirect6::spec_deserialize(body) {
                Some((r, _)) => Some(MsgView::Redirect6(r)),
                None => None,
            }
        } else {
            match Redirect4::spec_deserialize(body) {
                Some((r, _)) => Some(MsgView::Redirect4(r)),
                None => None,
            }
        }
    } else if code == 0xDB {
        match HlCheck::spec_deserialize(body) {
            Some((h, _)) => Some(MsgView::HlCheck(h)),
            None => None,
        }
    } else {
        Some(MsgView::Unknown(code, f, body))
    }
}

/// The message read from the frame at the front of `s`, with the frame's
/// length; `None` where `s` ends before the frame or the payload does not fit
/// in the body.
pub open spec fn parse_frame(s: Seq<u8>) -> Option<(MsgView, nat)> {
    if s.len() < HEADER_LEN {
        None
    } else {
        let n = body_len(le_value(s.subrange(2, 4)) as int);
        if s.len() < HEADER_LEN + n {
            None
        } else {
            match dispatch(s[0], s[1], s.subrange(HEADER_LEN as int, HEADER_LEN + n)) {
                Some(m) => Some((m, (HEADER_LEN + n) as nat)),
                None => None,
            }
        }
    }
}

/// The number of body bytes that follow a header whose length field holds
/// `size_verbatim`.
pub fn body_len_of(size_verbatim: u16) -> (r: usize)
    ensures
        r == body_len(size_verbatim as int),
{
    if size_verbatim <= 4 {
        0
    } else {
        proof {
            lemma_next_multiple(size_verbatim - 4, 4);
        }
        round_up(size_verbatim - 4, 4) as usize
    }
}

/// Appends the bytes of `b`.
fn copy_bytes(b: &Vec<u8>, out: &mut Vec<u8>)
    ensures
        final(out)@ == old(out)@ + b@,
{
    let ghost start = out@;
    let mut i: usize = 0;
    while i < b.len()
        invariant
            i <= b@.len(),
            out@ == start + b@.take(i as int),
        decreases b@.len() - i,
    {
        out.push(b[i]);
        assert(b@.take(i + 1) =~= b@.take(i as int).push(b@[i as int]));
        i = i + 1;
    }
    assert(b@.take(i as int) =~= b@);
}

/// Decodes the body of a frame with a known opcode.
fn dispatch_body(code: u8, f: u8, body: &[u8]) -> (r: Result<Msg, SerialError>)
    ensures
        match r {
            Ok(m) => dispatch(code, f, body@) == Some(m@),
            Err(e) => dispatch(code, f, body@) is None && e == SerialError::UnexpectedEnd,
        },
{
    proof {
        assert(body@.skip(0) =~= body@);
    }
    if code == 0x02 {
        match Welcome::deserialize(body, 0) {
            Ok((w, _)) => Ok(Msg::ShipWelcome(f, w)),
            Err(e) => Err(e),
        }
    } else if code == 0x05 {
        Ok(Msg::Type05Disconnect)
    } else if code == 0x17 {
        match Welcome::deserialize(body, 0) {
            Ok((w, _)) => Ok(Msg::LoginWelcome(f, w)),
            Err(e) => Err(e),
        }
    } else if code == 0x19 {
        if f == 6 {
            match Redirect6::deserialize(body, 0) {
                Ok((r, _)) => Ok(Msg::Redirect6(r)),
                Err(e) => Err(e),
            }
        } else {
            match Redirect4::deserialize(body, 0) {
                Ok((r, _)) => Ok(Msg::Redirect4(r)),
                Err(e) => Err(e),
            }
        }
    } else if code == 0xDB {
        match HlCheck::deserialize(body, 0) {
            Ok((h, _)) => Ok(Msg::HlCheck(h)),
            Err(e) => Err(e),
        }
    } else {
        let mut b: Vec<u8> = Vec::new();
        let mut i: usize = 0;
        while i < body.len()
            invariant
                i <= body@.len(),
                b@ == body@.take(i as int),
            decreases body@.len() - i,
        {
            b.push(body[i]);
            assert(body@.take(i + 1) =~= body@.take(i as int).push(body@[i as int]));
            i = i + 1;
        }
        assert(body@.take(i as int) =~= body@);
        Ok(Msg::Unknown(code, f, b))
    }
}

impl Msg {
    /// Appends the frame for this message. Fails, writing nothing, where the
    /// payload is longer than `MAX_PAYLOAD` bytes.
    pub fn serialize(&self, out: &mut Vec<u8>) -> (r: Result<(), SerialError>)
        ensures
            payload(self@).len() <= MAX_PAYLOAD ==> r is Ok && final(out)@ == old(out)@ + frame(
                opcode(self@),
                flags(self@),
                payload(self@),
            ),
            payload(self@).len() > MAX_PAYLOAD ==> r == Err::<(), SerialError>(
                SerialError::FrameTooLarge,
            ) && final(out)@ == old(out)@,
            r is Ok ==> final(out)@.len() == old(out)@.len() + frame_len(payload(self@).len() as int),
    {
        let mut body: Vec<u8> = Vec::new();
        let code: u8;
        let f: u8;
        match self {
            Msg::LoginWelcome(fl, pl) => {
                code = 0x17;
                f = *fl;
                pl.serialize(&mut body);
            },
            Msg::ShipWelcome(fl, pl) => {
                code = 0x02;
                f = *fl;
                pl.serialize(&mut body);
            },
            Msg::Redirect4(pl) => {
                code = 0x19;
                f = 0;
                pl.serialize(&mut body);
            },
            Msg::Redirect6(pl) => {
                code = 0x19;
                f = 6;
                pl.serialize(&mut body);
            },
            Msg::Unknown(c, fl, b) => {
                code = *c;
                f = *fl;
                copy_bytes(b, &mut body);
            },
            Msg::Type05Disconnect => {
                code = 0x05;
                f = 0;
            },
            Msg::HlCheck(pl) => {
                code = 0xDB;
                f = 0;
                pl.serialize(&mut body);
            },
        }
        assert(body@ =~= payload(self@));
        if body.len() > MAX_PAYLOAD {
            return Err(SerialError::FrameTooLarge);
        }
        let total: u16 = (body.len() + HEADER_LEN) as u16;
        proof {
            lemma_next_multiple(total as int, 4);
            lemma_pow256_values();
        }
        let size: u16 = round_up(total, 4);
        let ghost start = out@;
        out.push(code);
        out.push(f);
        write_le(size as u64, 2, out);
        write_fitted(&body, (size - 4) as usize, out);
        proof {
            assert(out@ =~= start + frame(opcode(self@), flags(self@), payload(self@)));
            crate::serial::lemma_le_bytes_len(size as nat, 2);
        }
        Ok(())
    }

    /// Reads the frame at `pos` and decodes its message, returning it with the
    /// position after the frame.
    pub fn deserialize(src: &[u8], pos: usize) -> (r: Result<(Msg, usize), SerialError>)
        requires
            pos <= src@.len(),
        ensures
            match r {
                Ok((m, p)) => pos <= p <= src@.len() && parse_frame(src@.skip(pos as int)) == Some(
                    (m@, (p - pos) as nat),
                ),
                Err(e) => parse_frame(src@.skip(pos as int)) is None && e
                    == SerialError::UnexpectedEnd,
            },
    {
        let ghost s = src@.skip(pos as int);
        if src.len() - pos < HEADER_LEN {
            return Err(SerialError::UnexpectedEnd);
        }
        let code: u8 = src[pos];
        let f: u8 = src[pos + 1];
        let size_verbatim: u16 = read_le(src, pos + 2, 2) as u16;
        proof {
            assert(s.subrange(2, 4) =~= src@.subrange(pos + 2, pos + 4));
            crate::serial::lemma_le_value_bound(src@.subrange(pos + 2, pos + 4));
            lemma_pow256_values();
        }
        let size: usize = body_len_of(size_verbatim);
        if src.len() - pos - HEADER_LEN < size {
            return Err(SerialError::UnexpectedEnd);
        }
        let end: usize = pos + HEADER_LEN + size;
        let body: &[u8] = vstd::slice::slice_subrange(src, pos + HEADER_LEN, end);
        proof {
            assert(body@ =~= s.subrange(HEADER_LEN as int, HEADER_LEN + size));
        }
        match dispatch_body(code, f, body) {
            Ok(m) => Ok((m, end)),
            Err(e) => Err(e),
        }
    }
}


/// Messages that come back unchanged from their frame: payloads that read
/// back as written, and for an opaque message an opcode without a known
/// payload, a body already aligned to four bytes, and a frame length that fits.
pub open spec fn msg_wf(m: MsgView) -> bool {
    match m {
        MsgView::Unknown(c, _, b) => !is_known_opcode(c) && b.len() % 4 == 0 && b.len() <= MAX_PAYLOAD,
        MsgView::LoginWelcome(_, w) => Welcome::spec_wf(w),
        MsgView::ShipWelcome(_, w) => Welcome::spec_wf(w),
        MsgView::Redirect4(r) => Redirect4::spec_wf(r),
        MsgView::Redirect6(r) => Redirect6::spec_wf(r),
        MsgView::Type05Disconnect => true,
        MsgView::HlCheck(h) => HlCheck::spec_wf(h),
    }
}

/// A frame is as long as its length field says: the payload plus the header,
/// rounded up to a multiple of four, and so never shorter than the header.
pub proof fn lemma_frame_length(code: u8, f: u8, p: Seq<u8>)
    requires
        p.len() <= MAX_PAYLOAD,
    ensures
        frame(code, f, p).len() == frame_len(p.len() as int),
        frame_len(p.len() as int) % 4 == 0,
        HEADER_LEN <= frame_len(p.len() as int) <= u16::MAX,
        p.len() + HEADER_LEN <= frame_len(p.len() as int) < p.len() + HEADER_LEN + 4,
{
    lemma_next_multiple(p.len() + HEADER_LEN, 4);
    crate::serial::lemma_le_bytes_len(frame_len(p.len() as int) as nat, 2);
}

proof fn lemma_u8_array_len(vs: Seq<u8>)
    ensures
        crate::serial::util::array_serialize::<u8>(vs).len() == vs.len(),
    decreases vs.len(),
{
    if vs.len() > 0 {
        lemma_u8_array_len(vs.drop_last());
        crate::serial::lemma_le_bytes_len(vs.last() as nat, 1);
    }
}

proof fn lemma_payload_len(m: MsgView)
    requires
        msg_wf(m),
    ensures
        payload(m).len() <= MAX_PAYLOAD,
{
    crate::serial::lemma_le_bytes_len(0, 0);
    match m {
        MsgView::LoginWelcome(_, w) | MsgView::ShipWelcome(_, w) => {
            crate::serial::util::lemma_ascii_field_round_trip(w.copyright, login::COPYRIGHT_LEN as nat);
            crate::serial::lemma_le_bytes_len(w.server_key as nat, 4);
            crate::serial::lemma_le_bytes_len(w.client_key as nat, 4);
        },
        MsgView::Redirect4(r) => {
            crate::serial::util::lemma_array_round_trip::<u8>(r.ip, 4, Seq::empty());
            lemma_u8_array_len(crate::serial::util::array_fit::<u8>(r.ip, 4));
            crate::serial::lemma_le_bytes_len(r.port as nat, 2);
        },
        MsgView::Redirect6(r) => {
            crate::serial::util::lemma_array_round_trip::<u8>(r.ip, 16, Seq::empty());
            lemma_u8_array_len(crate::serial::util::array_fit::<u8>(r.ip, 16));
            crate::serial::lemma_le_bytes_len(r.port as nat, 2);
        },
        MsgView::HlCheck(h) => {
            crate::serial::lemma_le_bytes_len(h.serial as nat, 4);
            crate::serial::lemma_le_bytes_len(h.access_key as nat, 4);
        },
        _ => {},
    }
}

proof fn lemma_frame_body(code: u8, f: u8, p: Seq<u8>, rest: Seq<u8>)
    requires
        p.len() <= MAX_PAYLOAD,
    ensures
        parse_frame(frame(code, f, p) + rest) == match dispatch(code, f, fit(p, (frame_len(p.len() as int) - HEADER_LEN) as nat)) {
            Some(m) => Some((m, frame_len(p.len() as int) as nat)),
            None => None,
        },
{
    let n = p.len() as int;
    let l = frame_len(n);
    lemma_frame_length(code, f, p);
    let s = frame(code, f, p) + rest;
    let body = fit(p, (l - HEADER_LEN) as nat);
    assert(s.subrange(2, 4) =~= le_bytes(l as nat, 2));
    lemma_pow256_values();
    crate::serial::lemma_le_round_trip(l as nat, 2);
    assert(body_len(l) == l - HEADER_LEN);
    assert(s.subrange(HEADER_LEN as int, l) =~= body);
}

/// Reading back the frame of a message gives the message and the whole frame,
/// whatever follows it.
pub proof fn lemma_msg_round_trip(m: MsgView, rest: Seq<u8>)
    requires
        msg_wf(m),
    ensures
        parse_frame(frame(opcode(m), flags(m), payload(m)) + rest) == Some(
            (m, frame_len(payload(m).len() as int) as nat),
        ),
{
    lemma_payload_len(m);
    lemma_frame_body(opcode(m), flags(m), payload(m), rest);
    let p = payload(m);
    let n = p.len() as int;
    let l = frame_len(n);
    lemma_frame_length(opcode(m), flags(m), p);
    let pad = Seq::new((l - HEADER_LEN - n) as nat, |_i: int| 0u8);
    let body = fit(p, (l - HEADER_LEN) as nat);
    assert(body =~= p + pad);
    match m {
        MsgView::Unknown(c, f, b) => {
            assert(pad =~= Seq::<u8>::empty());
            assert(body =~= b);
        },
        MsgView::LoginWelcome(_, w) | MsgView::ShipWelcome(_, w) => {
            Welcome::lemma_round_trip(w, pad);
        },
        MsgView::Redirect4(r) => {
            Redirect4::lemma_round_trip(r, pad);
        },
        MsgView::Redirect6(r) => {
            Redirect6::lemma_round_trip(r, pad);
        },
        MsgView::HlCheck(h) => {
            HlCheck::lemma_round_trip(h, pad);
        },
        MsgView::Type05Disconnect => {},
    }
}

/// A frame whose opcode has no known payload reads as an opaque message that
/// holds its opcode, flags and body bytes exactly.
pub proof fn lemma_unknown_opcode(s: Seq<u8>)
    requires
        s.len() >= HEADER_LEN,
        !is_known_opcode(s[0]),
        s.len() >= HEADER_LEN + body_len(le_value(s.subrange(2, 4)) as int),
    ensures
        parse_frame(s) == Some(
            (
                MsgView::Unknown(
                    s[0],
                    s[1],
                    s.subrange(
                        HEADER_LEN as int,
                        HEADER_LEN + body_len(le_value(s.subrange(2, 4)) as int),
                    ),
                ),
                (HEADER_LEN + body_len(le_value(s.subrange(2, 4)) as int)) as nat,
            ),
        ),
{
}

/// A redirect frame holds the second address shape exactly when its flags are
/// 6, and the first otherwise; each shape is sent with its own flags value.
pub proof fn lemma_redirect_flags(s: Seq<u8>, r4: Redirect4View, r6: Redirect6View)
    requires
        s.len() >= HEADER_LEN,
        s[0] == 0x19,
    ensures
        parse_frame(s) matches Some((m, _)) ==> (if s[1] == 6 {
            m is Redirect6
        } else {
            m is Redirect4
        }),
        opcode(MsgView::Redirect4(r4)) == 0x19 && flags(MsgView::Redirect4(r4)) == 0,
        opcode(MsgView::Redirect6(r6)) == 0x19 && flags(MsgView::Redirect6(r6)) == 6,
{
}

} // verus!
