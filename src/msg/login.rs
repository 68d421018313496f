//! Payloads of the login and ship messages that the dispatcher knows.

use vstd::prelude::*;

use crate::serial::util::{
    array_deserialize, array_fit, array_serialize, ascii_encoded, ascii_field_text, fit,
    lemma_array_round_trip, lemma_ascii_field_round_trip, plain_ascii, read_array,
    read_ascii_len, views, write_array, write_ascii_len,
};
use crate::serial::{Serial, SerialError};

verus! {

/// Bytes of the copyright text field of a welcome message.
pub const COPYRIGHT_LEN: usize = 0x40;

/// Greeting sent when a client connects: a copyright banner and the two
/// session keys.
#[derive(Clone, Debug, PartialEq, Eq)]
pub struct Welcome {
    pub copyright: String,
    pub server_key: u32,
    pub client_key: u32,
}

/// What a `Welcome` holds, with its text and bytes as sequences.
pub ghost struct WelcomeView {
    pub copyright: Seq<char>,
    pub server_key: u32,
    pub client_key: u32,
}

impl View for Welcome {
    type V = WelcomeView;

    open spec fn view(&self) -> WelcomeView {
        WelcomeView {
            copyright: self.copyright@,
            server_key: self.server_key,
            client_key: self.client_key,
        }
    }
}

impl Serial for Welcome {
    open spec fn spec_serialize(v: WelcomeView) -> Seq<u8> {
        fit(ascii_encoded(v.copyright), COPYRIGHT_LEN as nat) + u32::spec_serialize(v.server_key)
            + u32::spec_serialize(v.client_key)
    }

    open spec fn spec_deserialize(s: Seq<u8>) -> Option<(WelcomeView, nat)> {
        if s.len() < COPYRIGHT_LEN {
            None
        } else {
            match u32::spec_deserialize(s.skip(COPYRIGHT_LEN as int)) {
                None => None,
                Some((sk, a)) => match u32::spec_deserialize(s.skip(COPYRIGHT_LEN + a)) {
                    None => None,
                    Some((ck, b)) => Some(
                        (
                            WelcomeView {
                                copyright: ascii_field_text(s.take(COPYRIGHT_LEN as int)),
                                server_key: sk,
                                client_key: ck,
                            },
                            (COPYRIGHT_LEN + a + b) as nat,
                        ),
                    ),
                },
            }
        }
    }

    open spec fn spec_default() -> WelcomeView {
        WelcomeView { copyright: Seq::empty(), server_key: 0, client_key: 0 }
    }

    /// The banner fits its field and is plain 7-bit text.
    open spec fn spec_wf(v: WelcomeView) -> bool {
        &&& v.copyright.len() <= COPYRIGHT_LEN
        &&& forall|i: int| 0 <= i < v.copyright.len() ==> plain_ascii(#[trigger] v.copyright[i])
    }

    proof fn lemma_round_trip(v: WelcomeView, rest: Seq<u8>) {
        let f = fit(ascii_encoded(v.copyright), COPYRIGHT_LEN as nat);
        let a = u32::spec_serialize(v.server_key);
        let b = u32::spec_serialize(v.client_key);
        let s = Self::spec_serialize(v) + rest;
        lemma_ascii_field_round_trip(v.copyright, COPYRIGHT_LEN as nat);
        u32::lemma_round_trip(v.server_key, b + rest);
        u32::lemma_round_trip(v.client_key, rest);
        assert(s.take(COPYRIGHT_LEN as int) =~= f);
        assert(s.skip(COPYRIGHT_LEN as int) =~= a + (b + rest));
        assert(s.skip(COPYRIGHT_LEN + a.len()) =~= b + rest);
    }

    proof fn lemma_default_wf() {
    }

    fn serialize(&self, out: &mut Vec<u8>) {
        let _ = write_ascii_len(self.copyright.as_str(), COPYRIGHT_LEN, out);
        self.server_key.serialize(out);
        self.client_key.serialize(out);
    }

    fn deserialize(src: &[u8], pos: usize) -> (r: Result<(Welcome, usize), SerialError>) {
        if src.len() - pos < COPYRIGHT_LEN {
            return Err(SerialError::UnexpectedEnd);
        }
        let (copyright, p) = match read_ascii_len(COPYRIGHT_LEN as u32, src, pos) {
            Ok(x) => x,
            Err(e) => return Err(e),
        };
        proof {
            assert(src@.skip(pos as int).take(COPYRIGHT_LEN as int) =~= src@.subrange(
                pos as int,
                pos + COPYRIGHT_LEN,
            ));
            assert(src@.skip(pos as int).skip(COPYRIGHT_LEN as int) =~= src@.skip(p as int));
        }
        let (server_key, q) = match u32::deserialize(src, p) {
            Ok(x) => x,
            Err(e) => return Err(e),
        };
        proof {
            assert(src@.skip(pos as int).skip(COPYRIGHT_LEN + (q - p)) =~= src@.skip(q as int));
        }
        let (client_key, t) = match u32::deserialize(src, q) {
            Ok(x) => x,
            Err(e) => return Err(e),
        };
        Ok((Welcome { copyright, server_key, client_key }, t))
    }

    fn default_value() -> (r: Welcome) {
        Welcome { copyright: String::new(), server_key: 0, client_key: 0 }
    }
}


/// Points the client at another server by IPv4 address and port.
#[derive(Clone, Debug, PartialEq, Eq)]
pub struct Redirect4 {
    pub ip: Vec<u8>,
    pub port: u16,
}

/// What a `Redirect4` holds, with its text and bytes as sequences.
pub ghost struct Redirect4View {
    pub ip: Seq<u8>,
    pub port: u16,
}

impl View for Redirect4 {
    type V = Redirect4View;

    open spec fn view(&self) -> Redirect4View {
        Redirect4View { ip: self.ip@, port: self.port }
    }
}

impl Serial for Redirect4 {
    open spec fn spec_serialize(v: Redirect4View) -> Seq<u8> {
        array_serialize::<u8>(array_fit::<u8>(v.ip, 4)) + u16::spec_serialize(v.port)
    }

    open spec fn spec_deserialize(s: Seq<u8>) -> Option<(Redirect4View, nat)> {
        match array_deserialize::<u8>(4, s) {
            None => None,
            Some((ip, a)) => match u16::spec_deserialize(s.skip(a as int)) {
                None => None,
                Some((port, b)) => Some((Redirect4View { ip, port }, a + b)),
            },
        }
    }

    open spec fn spec_default() -> Redirect4View {
        Redirect4View { ip: Seq::new(4, |_i: int| 0u8), port: 0 }
    }

    /// The address has exactly its 4 bytes.
    open spec fn spec_wf(v: Redirect4View) -> bool {
        v.ip.len() == 4
    }

    proof fn lemma_round_trip(v: Redirect4View, rest: Seq<u8>) {
        let a = array_serialize::<u8>(array_fit::<u8>(v.ip, 4));
        let b = u16::spec_serialize(v.port);
        lemma_array_round_trip::<u8>(v.ip, 4, b + rest);
        assert(array_fit::<u8>(v.ip, 4) =~= v.ip);
        assert(Self::spec_serialize(v) + rest =~= a + (b + rest));
        assert((a + (b + rest)).skip(a.len() as int) =~= b + rest);
        u16::lemma_round_trip(v.port, rest);
    }

    proof fn lemma_default_wf() {
    }

    fn serialize(&self, out: &mut Vec<u8>) {
        let ghost start = out@;
        let ip: &[u8] = self.ip.as_slice();
        proof {
            assert(views(ip@) =~= self.ip@);
        }
        write_array(ip, 4, out);
        self.port.serialize(out);
        proof {
            assert(out@ =~= start + Self::spec_serialize(self@));
        }
    }

    fn deserialize(src: &[u8], pos: usize) -> (r: Result<(Redirect4, usize), SerialError>) {
        let (ip, p) = match read_array::<u8>(4, src, pos) {
            Ok(x) => x,
            Err(e) => return Err(e),
        };
        proof {
            assert(views(ip@) =~= ip@);
            assert(src@.skip(pos as int).skip(p - pos) =~= src@.skip(p as int));
        }
        let (port, q) = match u16::deserialize(src, p) {
            Ok(x) => x,
            Err(e) => return Err(e),
        };
        Ok((Redirect4 { ip, port }, q))
    }

    fn default_value() -> (r: Redirect4) {
        let ip: Vec<u8> = vec![0u8; 4];
        proof {
            assert(ip@ =~= Seq::new(4, |_i: int| 0u8));
        }
        Redirect4 { ip, port: 0 }
    }
}

/// Points the client at another server by IPv6 address and port.
#[derive(Clone, Debug, PartialEq, Eq)]
pub struct Redirect6 {
    pub ip: Vec<u8>,
    pub port: u16,
}

/// What a `Redirect6` holds, with its text and bytes as sequences.
pub ghost struct Redirect6View {
    pub ip: Seq<u8>,
    pub port: u16,
}

impl View for Redirect6 {
    type V = Redirect6View;

    open spec fn view(&self) -> Redirect6View {
        Redirect6View { ip: self.ip@, port: self.port }
    }
}

impl Serial for Redirect6 {
    open spec fn spec_serialize(v: Redirect6View) -> Seq<u8> {
        array_serialize::<u8>(array_fit::<u8>(v.ip, 16)) + u16::spec_serialize(v.port)
    }

    open spec fn spec_deserialize(s: Seq<u8>) -> Option<(Redirect6View, nat)> {
        match array_deserialize::<u8>(16, s) {
            None => None,
            Some((ip, a)) => match u16::spec_deserialize(s.skip(a as int)) {
                None => None,
                Some((port, b)) => Some((Redirect6View { ip, port }, a + b)),
            },
        }
    }

    open spec fn spec_default() -> Redirect6View {
        Redirect6View { ip: Seq::new(16, |_i: int| 0u8), port: 0 }
    }

    /// The address has exactly its 16 bytes.
    open spec fn spec_wf(v: Redirect6View) -> bool {
        v.ip.len() == 16
    }

    proof fn lemma_round_trip(v: Redirect6View, rest: Seq<u8>) {
        let a = array_serialize::<u8>(array_fit::<u8>(v.ip, 16));
        let b = u16::spec_serialize(v.port);
        lemma_array_round_trip::<u8>(v.ip, 16, b + rest);
        assert(array_fit::<u8>(v.ip, 16) =~= v.ip);
        assert(Self::spec_serialize(v) + rest =~= a + (b + rest));
        assert((a + (b + rest)).skip(a.len() as int) =~= b + rest);
        u16::lemma_round_trip(v.port, rest);
    }

    proof fn lemma_default_wf() {
    }

    fn serialize(&self, out: &mut Vec<u8>) {
        let ghost start = out@;
        let ip: &[u8] = self.ip.as_slice();
        proof {
            assert(views(ip@) =~= self.ip@);
        }
        write_array(ip, 16, out);
        self.port.serialize(out);
        proof {
            assert(out@ =~= start + Self::spec_serialize(self@));
        }
    }

    fn deserialize(src: &[u8], pos: usize) -> (r: Result<(Redirect6, usize), SerialError>) {
        let (ip, p) = match read_array::<u8>(16, src, pos) {
            Ok(x) => x,
            Err(e) => return Err(e),
        };
        proof {
            assert(views(ip@) =~= ip@);
            assert(src@.skip(pos as int).skip(p - pos) =~= src@.skip(p as int));
        }
        let (port, q) = match u16::deserialize(src, p) {
            Ok(x) => x,
            Err(e) => return Err(e),
        };
        Ok((Redirect6 { ip, port }, q))
    }

    fn default_value() -> (r: Redirect6) {
        let ip: Vec<u8> = vec![0u8; 16];
        proof {
            assert(ip@ =~= Seq::new(16, |_i: int| 0u8));
        }
        Redirect6 { ip, port: 0 }
    }
}

/// Health check sent by a client: its serial number and access key.
#[derive(Clone, Copy, Debug, PartialEq, Eq)]
pub struct HlCheck {
    pub serial: u32,
    pub access_key: u32,
}

impl View for HlCheck {
    type V = HlCheck;

    open spec fn view(&self) -> HlCheck {
        *self
    }
}

impl Serial for HlCheck {
    open spec fn spec_serialize(v: HlCheck) -> Seq<u8> {
        u32::spec_serialize(v.serial) + u32::spec_serialize(v.access_key)
    }

    open spec fn spec_deserialize(s: Seq<u8>) -> Option<(HlCheck, nat)> {
        match u32::spec_deserialize(s) {
            None => None,
            Some((serial, a)) => match u32::spec_deserialize(s.skip(a as int)) {
                None => None,
                Some((access_key, b)) => Some((HlCheck { serial, access_key }, a + b)),
            },
        }
    }

    open spec fn spec_default() -> HlCheck {
        HlCheck { serial: 0, access_key: 0 }
    }

    open spec fn spec_wf(v: HlCheck) -> bool {
        true
    }

    proof fn lemma_round_trip(v: HlCheck, rest: Seq<u8>) {
        let a = u32::spec_serialize(v.serial);
        let b = u32::spec_serialize(v.access_key);
        u32::lemma_round_trip(v.serial, b + rest);
        assert(Self::spec_serialize(v) + rest =~= a + (b + rest));
        assert((a + (b + rest)).skip(a.len() as int) =~= b + rest);
        u32::lemma_round_trip(v.access_key, rest);
    }

    proof fn lemma_default_wf() {
    }

    fn serialize(&self, out: &mut Vec<u8>) {
        self.serial.serialize(out);
        self.access_key.serialize(out);
    }

    fn deserialize(src: &[u8], pos: usize) -> (r: Result<(HlCheck, usize), SerialError>) {
        let (serial, p) = match u32::deserialize(src, pos) {
            Ok(x) => x,
            Err(e) => return Err(e),
        };
        proof {
            assert(src@.skip(pos as int).skip(p - pos) =~= src@.skip(p as int));
        }
        let (access_key, q) = match u32::deserialize(src, p) {
            Ok(x) => x,
            Err(e) => return Err(e),
        };
        Ok((HlCheck { serial, access_key }, q))
    }

    fn default_value() -> (r: HlCheck) {
        HlCheck { serial: 0, access_key: 0 }
    }
}

} // verus!
