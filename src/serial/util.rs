//! Fixed-length 7-bit text, 16-bit text and fixed-arity array fields.

use vstd::prelude::*;
use encoding::Encoding;

use super::{Serial, SerialError};

verus! {

/// The 7-bit encoding of `s`: a character below U+0080 becomes its code, any
/// other character becomes `?`.
pub open spec fn ascii_encoded(s: Seq<char>) -> Seq<u8> {
    s.map_values(|c: char| if (c as u32) < 0x80 { (c as u32) as u8 } else { 0x3Fu8 })
}

/// The 7-bit decoding of `b`: a byte below 0x80 becomes its character, any
/// other byte becomes U+FFFD.
pub open spec fn ascii_decoded(b: Seq<u8>) -> Seq<char> {
    b.map_values(|x: u8| if x < 0x80 { x as char } else { '\u{FFFD}' })
}

/// The bytes of `b` before its first zero byte (all of `b` if it has none).
pub open spec fn until_nul(b: Seq<u8>) -> Seq<u8>
    decreases b.len(),
{
    if b.len() == 0 {
        b
    } else if b[0] == 0 {
        Seq::empty()
    } else {
        seq![b[0]] + until_nul(b.drop_first())
    }
}

/// `b` cut or zero-padded to exactly `len` bytes.
pub open spec fn fit(b: Seq<u8>, len: nat) -> Seq<u8> {
    if b.len() >= len {
        b.take(len as int)
    } else {
        b + Seq::new((len - b.len()) as nat, |_i: int| 0u8)
    }
}

/// The text read from a fixed 7-bit field whose bytes are `field`.
pub open spec fn ascii_field_text(field: Seq<u8>) -> Seq<char> {
    ascii_decoded(until_nul(field))
}

/// Relies on encoding's `ASCII.encode` with `EncoderTrap::Replace`: each
/// character below U+0080 is written as its code and each other one as `?`
/// (the trap re-encodes "?"), so the call always succeeds.
#[verifier::external_body]
fn ascii_encode(s: &str) -> (r: Option<Vec<u8>>)
    ensures
        match r {
            Some(v) => v@ == ascii_encoded(s@),
            None => false,
        },
{
    encoding::all::ASCII.encode(s, encoding::EncoderTrap::Replace).ok()
}

/// Relies on encoding's `ASCII.decode` with `DecoderTrap::Replace`: each byte
/// below 0x80 is read as its character and each other byte as U+FFFD, so the
/// call always succeeds.
#[verifier::external_body]
fn ascii_decode(b: &[u8]) -> (r: Option<String>)
    ensures
        match r {
            Some(v) => v@ == ascii_decoded(b@),
            None => false,
        },
{
    encoding::all::ASCII.decode(b, encoding::DecoderTrap::Replace).ok()
}

/// Appends `b`, cut or zero-padded to exactly `len` bytes.
pub fn write_fitted(b: &Vec<u8>, len: usize, out: &mut Vec<u8>)
    ensures
        final(out)@ == old(out)@ + fit(b@, len as nat),
{
    let ghost start = out@;
    let n: usize = if b.len() < len { b.len() } else { len };
    let mut i: usize = 0;
    while i < n
        invariant
            i <= n,
            n as int == if b@.len() < len { b@.len() as int } else { len as int },
            out@ == start + b@.take(i as int),
        decreases n - i,
    {
        out.push(b[i]);
        assert(b@.take(i + 1) =~= b@.take(i as int).push(b@[i as int]));
        i = i + 1;
    }
    let mut j: usize = n;
    while j < len
        invariant
            n <= j <= len,
            n as int == if b@.len() < len { b@.len() as int } else { len as int },
            out@ == start + b@.take(n as int) + Seq::new((j - n) as nat, |_i: int| 0u8),
        decreases len - j,
    {
        out.push(0u8);
        assert(Seq::new((j + 1 - n) as nat, |_i: int| 0u8) =~= Seq::new(
            (j - n) as nat,
            |_i: int| 0u8,
        ).push(0u8));
        j = j + 1;
    }
    assert(out@ =~= start + fit(b@, len as nat));
}

/// Reads a 7-bit text field of `len` bytes at `pos`. The text ends at the
/// field's first zero byte; the rest of the field is padding.
pub fn read_ascii_len(len: u32, src: &[u8], pos: usize) -> (r: Result<(String, usize), SerialError>)
    requires
        pos <= src@.len(),
    ensures
        pos + len <= src@.len() ==> (r matches Ok((s, p)) && p == pos + len && s@
            == ascii_field_text(src@.subrange(pos as int, pos + len))),
        pos + len > src@.len() ==> r == Err::<(String, usize), SerialError>(
            SerialError::UnexpectedEnd,
        ),
{
    if src.len() - pos < len as usize {
        return Err(SerialError::UnexpectedEnd);
    }
    let end: usize = pos + len as usize;
    let ghost field = src@.subrange(pos as int, end as int);
    let mut text: Vec<u8> = Vec::new();
    let mut i: usize = pos;
    while i < end && src[i] != 0
        invariant
            pos <= i <= end,
            end <= src@.len(),
            field == src@.subrange(pos as int, end as int),
            until_nul(field) == text@ + until_nul(src@.subrange(i as int, end as int)),
        decreases end - i,
    {
        let ghost rest = src@.subrange(i as int, end as int);
        assert(rest.drop_first() =~= src@.subrange(i + 1, end as int));
        assert(text@.push(src@[i as int]) + until_nul(rest.drop_first()) =~= text@ + until_nul(
            rest,
        ));
        text.push(src[i]);
        i = i + 1;
    }
    proof {
        let rest = src@.subrange(i as int, end as int);
        assert(until_nul(rest) =~= Seq::<u8>::empty());
        assert(text@ =~= until_nul(field));
    }
    match ascii_decode(text.as_slice()) {
        Some(s) => Ok((s, end)),
        None => Err(SerialError::Text),
    }
}

/// Writes `s` as a 7-bit text field of exactly `len` bytes: the encoded text cut
/// to `len` bytes when it is longer, else followed by zero bytes.
pub fn write_ascii_len(s: &str, len: usize, out: &mut Vec<u8>) -> (r: Result<(), SerialError>)
    ensures
        r is Ok,
        final(out)@ == old(out)@ + fit(ascii_encoded(s@), len as nat),
{
    match ascii_encode(s) {
        Some(b) => {
            write_fitted(&b, len, out);
            Ok(())
        },
        None => Err(SerialError::Text),
    }
}


/// The little-endian 16-bit code units of `c`, as bytes: one unit below
/// U+10000, else a surrogate pair.
pub open spec fn utf16_char_bytes(c: char) -> Seq<u8> {
    let v = c as u32 as int;
    if v < 0x1_0000 {
        seq![(v % 256) as u8, (v / 256) as u8]
    } else {
        let hi = 0xD800 + (v - 0x1_0000) / 1024;
        let lo = 0xDC00 + (v - 0x1_0000) % 1024;
        seq![(hi % 256) as u8, (hi / 256) as u8, (lo % 256) as u8, (lo / 256) as u8]
    }
}

/// The little-endian 16-bit encoding of `s`.
pub open spec fn utf16le_encoded(s: Seq<char>) -> Seq<u8>
    decreases s.len(),
{
    if s.len() == 0 {
        Seq::empty()
    } else {
        utf16_char_bytes(s[0]) + utf16le_encoded(s.drop_first())
    }
}

/// The text that encoding's lossy little-endian 16-bit decoder gives for `b`.
pub uninterp spec fn utf16le_decoded(b: Seq<u8>) -> Seq<char>;

/// The bytes of a terminated 16-bit text at the front of `s`, without the
/// terminator, and the number of bytes consumed. The text ends at the first
/// code unit that is zero, or where fewer than two bytes remain.
pub open spec fn utf16_scan(s: Seq<u8>) -> (Seq<u8>, nat)
    decreases s.len(),
{
    if s.len() < 2 {
        (Seq::empty(), s.len())
    } else if s[0] == 0 && s[1] == 0 {
        (Seq::empty(), 2)
    } else {
        let (u, n) = utf16_scan(s.skip(2));
        (seq![s[0], s[1]] + u, n + 2)
    }
}

/// The first index `j >= i` at which `b[j - 1]` and `b[j]` are both zero, or
/// `b.len()` if there is none.
pub open spec fn nul_pair_from(b: Seq<u8>, i: int) -> int
    decreases b.len() - i,
{
    if i >= b.len() {
        b.len() as int
    } else if b[i - 1] == 0 && b[i] == 0 {
        i
    } else {
        nul_pair_from(b, i + 1)
    }
}

/// The text read from a bounded 16-bit field whose bytes are `field`: the bytes
/// before the first two consecutive zero bytes (the first of them included)
/// are decoded; an end found at index 1 gives the empty text.
pub open spec fn utf16_field_text(field: Seq<u8>) -> Seq<char> {
    let e = nul_pair_from(field, 1);
    if e == 1 {
        Seq::empty()
    } else {
        utf16le_decoded(field.take(e))
    }
}

/// Relies on encoding's `UTF_16LE.encode` with `EncoderTrap::Replace`: every
/// character is representable, each one below U+10000 as one little-endian code
/// unit and each other one as a surrogate pair, so the call always succeeds.
#[verifier::external_body]
fn utf16_encode(s: &str) -> (r: Option<Vec<u8>>)
    ensures
        match r {
            Some(v) => v@ == utf16le_encoded(s@),
            None => false,
        },
{
    encoding::all::UTF_16LE.encode(s, encoding::EncoderTrap::Replace).ok()
}

/// Relies on encoding's `UTF_16LE.decode` with `DecoderTrap::Replace`: invalid
/// sequences become U+FFFD, so the call always succeeds, and empty input gives
/// empty text.
#[verifier::external_body]
fn utf16_decode(b: &[u8]) -> (r: Option<String>)
    ensures
        match r {
            Some(v) => v@ == utf16le_decoded(b@) && (b@.len() == 0 ==> v@.len() == 0),
            None => false,
        },
{
    encoding::all::UTF_16LE.decode(b, encoding::DecoderTrap::Replace).ok()
}

/// Reads a 16-bit text at `pos` that ends at a zero code unit or at the end of
/// `src`, returning it with the position after what was consumed.
pub fn read_utf16(src: &[u8], pos: usize) -> (r: Result<(String, usize), SerialError>)
    requires
        pos <= src@.len(),
    ensures
        r matches Ok((s, p)) && s@ == utf16le_decoded(utf16_scan(src@.skip(pos as int)).0) && p
            == pos + utf16_scan(src@.skip(pos as int)).1,
{
    let len: usize = src.len();
    let mut buf: Vec<u8> = Vec::new();
    let mut i: usize = pos;
    let mut done: bool = false;
    while !done
        invariant
            pos <= i <= len,
            len == src@.len(),
            !done ==> utf16_scan(src@.skip(pos as int)) == (buf@ + utf16_scan(src@.skip(i as int)).0,
                ((i - pos) + utf16_scan(src@.skip(i as int)).1) as nat),
            done ==> utf16_scan(src@.skip(pos as int)) == (buf@, (i - pos) as nat),
        decreases len - i + if done { 0int } else { 1int },
    {
        let ghost rest = src@.skip(i as int);
        if len - i < 2 {
            assert(buf@ + Seq::<u8>::empty() =~= buf@);
            i = len;
            done = true;
        } else if src[i] == 0 && src[i + 1] == 0 {
            assert(buf@ + Seq::<u8>::empty() =~= buf@);
            i = i + 2;
            done = true;
        } else {
            assert(rest.skip(2) =~= src@.skip(i + 2));
            let ghost tail = utf16_scan(src@.skip(i + 2)).0;
            assert(buf@ + (seq![src@[i as int], src@[i + 1]] + tail) =~= buf@.push(src@[i as int]).push(
                src@[i + 1],
            ) + tail);
            buf.push(src[i]);
            buf.push(src[i + 1]);
            i = i + 2;
        }
    }
    if buf.len() == 0 {
        proof {
            assert(buf@ =~= Seq::<u8>::empty());
        }
    }
    match utf16_decode(buf.as_slice()) {
        Some(s) => Ok((s, i)),
        None => Err(SerialError::Text),
    }
}

/// Writes `s` as 16-bit text followed by one zero code unit.
pub fn write_utf16(s: &str, out: &mut Vec<u8>) -> (r: Result<(), SerialError>)
    ensures
        r is Ok,
        final(out)@ == old(out)@ + utf16le_encoded(s@) + seq![0u8, 0u8],
{
    match utf16_encode(s) {
        Some(b) => {
            let mut b = b;
            b.push(0u8);
            b.push(0u8);
            out.append(&mut b);
            Ok(())
        },
        None => Err(SerialError::Text),
    }
}

/// Reads a bounded 16-bit text field of `len` code units (`2 * len` bytes) at
/// `pos`; the text ends early at the first two consecutive zero bytes.
pub fn read_utf16_len(len: usize, src: &[u8], pos: usize) -> (r: Result<(String, usize), SerialError>)
    requires
        pos <= src@.len(),
    ensures
        pos + 2 * len <= src@.len() ==> (r matches Ok((s, p)) && p == pos + 2 * len && s@
            == utf16_field_text(src@.subrange(pos as int, pos + 2 * len))),
        pos + 2 * len > src@.len() ==> r == Err::<(String, usize), SerialError>(
            SerialError::UnexpectedEnd,
        ),
{
    if len > (src.len() - pos) / 2 {
        return Err(SerialError::UnexpectedEnd);
    }
    let real_len: usize = len * 2;
    let field: &[u8] = vstd::slice::slice_subrange(src, pos, pos + real_len);
    let mut end: usize = 1;
    while end < real_len && !(field[end - 1] == 0 && field[end] == 0)
        invariant
            1 <= end,
            real_len == field@.len(),
            nul_pair_from(field@, 1) == nul_pair_from(field@, end as int),
        decreases real_len - end,
    {
        end = end + 1;
    }
    if end > real_len {
        end = real_len;
    }
    if end == 1 {
        return Ok((String::new(), pos + real_len));
    }
    let text: &[u8] = vstd::slice::slice_subrange(field, 0, end);
    match utf16_decode(text) {
        Some(s) => Ok((s, pos + real_len)),
        None => Err(SerialError::Text),
    }
}

/// Writes `s` as a bounded 16-bit text field of exactly `len` code units: the
/// encoded text cut to `2 * len` bytes when it is longer, else zero-padded.
pub fn write_utf16_len(s: &str, len: usize, out: &mut Vec<u8>) -> (r: Result<(), SerialError>)
    requires
        2 * len <= usize::MAX,
    ensures
        r is Ok,
        final(out)@ == old(out)@ + fit(utf16le_encoded(s@), 2 * len as nat),
{
    match utf16_encode(s) {
        Some(b) => {
            write_fitted(&b, len * 2, out);
            Ok(())
        },
        None => Err(SerialError::Text),
    }
}


/// The views of the elements of `v`.
pub open spec fn views<T: View>(v: Seq<T>) -> Seq<T::V> {
    v.map_values(|x: T| x@)
}

/// The wire form of the elements `vs`, one after another.
pub open spec fn array_serialize<T: Serial>(vs: Seq<T::V>) -> Seq<u8>
    decreases vs.len(),
{
    if vs.len() == 0 {
        Seq::empty()
    } else {
        array_serialize::<T>(vs.drop_last()) + T::spec_serialize(vs.last())
    }
}

/// `n` elements read one after another from the front of `s`, with the bytes
/// they take; `None` where `s` ends too early.
pub open spec fn array_deserialize<T: Serial>(n: nat, s: Seq<u8>) -> Option<(Seq<T::V>, nat)>
    decreases n,
{
    if n == 0 {
        Some((Seq::empty(), 0))
    } else {
        match T::spec_deserialize(s) {
            None => None,
            Some((v, k)) => match array_deserialize::<T>((n - 1) as nat, s.skip(k as int)) {
                None => None,
                Some((vs, m)) => Some((seq![v] + vs, k + m)),
            },
        }
    }
}

/// The `len` slots of a fixed-arity field holding `vs`: the first `len`
/// elements, followed by filler values where `vs` has fewer.
pub open spec fn array_fit<T: Serial>(vs: Seq<T::V>, len: nat) -> Seq<T::V> {
    if vs.len() >= len {
        vs.take(len as int)
    } else {
        vs + Seq::new((len - vs.len()) as nat, |_i: int| T::spec_default())
    }
}

/// Reads a fixed-arity field of `len` elements at `pos`.
pub fn read_array<T: Serial>(len: usize, src: &[u8], pos: usize) -> (r: Result<(Vec<T>, usize), SerialError>)
    requires
        pos <= src@.len(),
    ensures
        match r {
            Ok((v, p)) => pos <= p <= src@.len() && array_deserialize::<T>(
                len as nat,
                src@.skip(pos as int),
            ) == Some((views(v@), (p - pos) as nat)),
            Err(e) => array_deserialize::<T>(len as nat, src@.skip(pos as int)) is None && e
                == SerialError::UnexpectedEnd,
        },
{
    let ghost whole = src@.skip(pos as int);
    let mut items: Vec<T> = Vec::new();
    let mut p: usize = pos;
    let mut i: usize = 0;
    while i < len
        invariant
            i <= len,
            pos <= p <= src@.len(),
            whole == src@.skip(pos as int),
            array_deserialize::<T>(len as nat, whole) == match array_deserialize::<T>(
                (len - i) as nat,
                src@.skip(p as int),
            ) {
                None => None,
                Some((vs, m)) => Some((views(items@) + vs, ((p - pos) + m) as nat)),
            },
        decreases len - i,
    {
        match T::deserialize(src, p) {
            Ok((v, q)) => {
                proof {
                    assert(src@.skip(p as int).skip(q - p) =~= src@.skip(q as int));
                    assert(views(items@.push(v)) =~= views(items@).push(v@));
                    match array_deserialize::<T>((len - i - 1) as nat, src@.skip(q as int)) {
                        None => {},
                        Some((vs, m)) => {
                            assert(views(items@) + (seq![v@] + vs) =~= views(items@).push(v@)
                                + vs);
                        },
                    }
                }
                items.push(v);
                p = q;
                i = i + 1;
            },
            Err(e) => {
                return Err(e);
            },
        }
    }
    proof {
        assert(views(items@) + Seq::<T::V>::empty() =~= views(items@));
    }
    Ok((items, p))
}

/// Writes a fixed-arity field of `len` elements: the first `len` of `sl`, then
/// filler values where `sl` has fewer.
pub fn write_array<T: Serial>(sl: &[T], len: usize, out: &mut Vec<u8>)
    ensures
        final(out)@ == old(out)@ + array_serialize::<T>(array_fit::<T>(views(sl@), len as nat)),
{
    let ghost start = out@;
    let ghost slots = array_fit::<T>(views(sl@), len as nat);
    let n: usize = if sl.len() < len { sl.len() } else { len };
    let mut i: usize = 0;
    while i < len
        invariant
            i <= len,
            n as int == if sl@.len() < len { sl@.len() as int } else { len as int },
            slots == array_fit::<T>(views(sl@), len as nat),
            slots.len() == len,
            out@ == start + array_serialize::<T>(slots.take(i as int)),
        decreases len - i,
    {
        let ghost before = out@;
        assert(slots.take(i + 1).drop_last() =~= slots.take(i as int));
        if i < n {
            sl[i].serialize(out);
            assert(slots[i as int] == sl@[i as int]@);
        } else {
            let d = T::default_value();
            d.serialize(out);
        }
        assert(out@ =~= start + array_serialize::<T>(slots.take(i + 1)));
        i = i + 1;
    }
    assert(slots.take(len as int) =~= slots);
}


/// `c` is a 7-bit character other than NUL.
pub open spec fn plain_ascii(c: char) -> bool {
    0 < (c as u32) < 0x80
}

proof fn lemma_until_nul_prefix(b: Seq<u8>, z: Seq<u8>)
    requires
        forall|i: int| 0 <= i < b.len() ==> b[i] != 0,
        z.len() == 0 || z[0] == 0,
    ensures
        until_nul(b + z) == b,
    decreases b.len(),
{
    if b.len() == 0 {
        assert(b + z =~= z);
        assert(until_nul(z) =~= b);
    } else {
        assert((b + z).drop_first() =~= b.drop_first() + z);
        lemma_until_nul_prefix(b.drop_first(), z);
        assert(seq![b[0]] + b.drop_first() =~= b);
    }
}

/// A text of at most `len` characters, each in U+0001..U+007F, reads back from
/// its fixed 7-bit field as itself; whatever the text, the field is exactly
/// `len` bytes, and a shorter text is followed by zero bytes.
pub proof fn lemma_ascii_field_round_trip(s: Seq<char>, len: nat)
    ensures
        fit(ascii_encoded(s), len).len() == len,
        s.len() > len ==> fit(ascii_encoded(s), len) == ascii_encoded(s).take(len as int),
        s.len() <= len ==> fit(ascii_encoded(s), len) == ascii_encoded(s) + Seq::new(
            (len - s.len()) as nat,
            |_i: int| 0u8,
        ),
        s.len() <= len && (forall|i: int| 0 <= i < s.len() ==> plain_ascii(#[trigger] s[i]))
            ==> ascii_field_text(
            fit(ascii_encoded(s), len),
        ) == s,
{
    let b = ascii_encoded(s);
    if s.len() <= len && (forall|i: int| 0 <= i < s.len() ==> plain_ascii(#[trigger] s[i])) {
        let z = Seq::new((len - s.len()) as nat, |_i: int| 0u8);
        assert forall|i: int| 0 <= i < b.len() implies b[i] != 0 by {
            assert(plain_ascii(s[i]));
        }
        lemma_until_nul_prefix(b, z);
        assert(fit(b, len) =~= b + z);
        assert forall|i: int| 0 <= i < s.len() implies #[trigger] ascii_decoded(b)[i] == s[i] by {
            assert(plain_ascii(s[i]));
            let c = s[i];
            assert(b[i] < 0x80);
            vstd::utf8::char_u32_cast(c, c as u32);
            assert(b[i] as char == (c as u32) as char);
            assert(ascii_decoded(b)[i] == b[i] as char);
        }
        assert(ascii_decoded(b) =~= s);
    }
}

proof fn lemma_nul_pair_agree(a: Seq<u8>, b: Seq<u8>, i: int, j: int)
    requires
        a.len() == b.len(),
        1 <= i <= j < a.len(),
        a[j - 1] == 0,
        a[j] == 0,
        a.take(j + 1) == b.take(j + 1),
    ensures
        nul_pair_from(a, i) == nul_pair_from(b, i),
        i <= nul_pair_from(a, i) <= j,
    decreases j - i,
{
    assert(a[i - 1] == a.take(j + 1)[i - 1] && b[i - 1] == b.take(j + 1)[i - 1]);
    assert(a[i] == a.take(j + 1)[i] && b[i] == b.take(j + 1)[i]);
    if i < j && !(a[i - 1] == 0 && a[i] == 0) {
        lemma_nul_pair_agree(a, b, i + 1, j);
    }
}

/// In a bounded 16-bit field that holds two consecutive zero bytes ending at
/// index `j`, the text is decided by the bytes up to `j`: two fields that agree
/// there read as the same text, whatever follows. Where no earlier pair of zero
/// bytes exists, that text is the decoding of the first `j` bytes.
pub proof fn lemma_utf16_field_prefix(a: Seq<u8>, b: Seq<u8>, j: int)
    requires
        a.len() == b.len(),
        1 <= j < a.len(),
        a[j - 1] == 0,
        a[j] == 0,
        a.take(j + 1) == b.take(j + 1),
    ensures
        utf16_field_text(a) == utf16_field_text(b),
        (forall|k: int| 1 <= k < j ==> !(a[k - 1] == 0 && #[trigger] a[k] == 0)) ==> utf16_field_text(a)
            == if j == 1 {
            Seq::<char>::empty()
        } else {
            utf16le_decoded(a.take(j))
        },
{
    lemma_nul_pair_agree(a, b, 1, j);
    let e = nul_pair_from(a, 1);
    assert(a.take(e) =~= b.take(e)) by {
        assert forall|k: int| 0 <= k < e implies a.take(e)[k] == b.take(e)[k] by {
            assert(a[k] == a.take(j + 1)[k] && b[k] == b.take(j + 1)[k]);
        }
    }
    if forall|k: int| 1 <= k < j ==> !(a[k - 1] == 0 && #[trigger] a[k] == 0) {
        lemma_nul_pair_first(a, 1, j);
    }
}

proof fn lemma_nul_pair_first(a: Seq<u8>, i: int, j: int)
    requires
        1 <= i <= j < a.len(),
        a[j - 1] == 0,
        a[j] == 0,
        forall|k: int| 1 <= k < j ==> !(a[k - 1] == 0 && #[trigger] a[k] == 0),
    ensures
        nul_pair_from(a, i) == j,
    decreases j - i,
{
    if i < j {
        assert(!(a[i - 1] == 0 && a[i] == 0));
        lemma_nul_pair_first(a, i + 1, j);
    }
}

proof fn lemma_array_serialize_front<T: Serial>(v: T::V, vs: Seq<T::V>)
    ensures
        array_serialize::<T>(seq![v] + vs) == T::spec_serialize(v) + array_serialize::<T>(vs),
    decreases vs.len(),
{
    let w = seq![v] + vs;
    if vs.len() == 0 {
        assert(w.drop_last() =~= Seq::<T::V>::empty());
        assert(w.last() == v);
        assert(array_serialize::<T>(w) == array_serialize::<T>(w.drop_last()) + T::spec_serialize(v));
        assert(array_serialize::<T>(Seq::<T::V>::empty()) =~= Seq::<u8>::empty());
        assert(array_serialize::<T>(vs) =~= Seq::<u8>::empty());
        assert(Seq::<u8>::empty() + T::spec_serialize(v) =~= T::spec_serialize(v) + Seq::<u8>::empty());
    } else {
        assert(w.drop_last() =~= seq![v] + vs.drop_last());
        lemma_array_serialize_front::<T>(v, vs.drop_last());
        assert(w.last() == vs.last());
        assert(array_serialize::<T>(w) == array_serialize::<T>(w.drop_last()) + T::spec_serialize(w.last()));
        assert(T::spec_serialize(v) + array_serialize::<T>(vs.drop_last()) + T::spec_serialize(vs.last())
            =~= T::spec_serialize(v) + (array_serialize::<T>(vs.drop_last()) + T::spec_serialize(vs.last())));
    }
}

proof fn lemma_array_rt<T: Serial>(vs: Seq<T::V>, rest: Seq<u8>)
    requires
        forall|i: int| 0 <= i < vs.len() ==> T::spec_wf(#[trigger] vs[i]),
    ensures
        array_deserialize::<T>(vs.len(), array_serialize::<T>(vs) + rest) == Some(
            (vs, array_serialize::<T>(vs).len()),
        ),
    decreases vs.len(),
{
    if vs.len() == 0 {
        assert(array_serialize::<T>(vs) =~= Seq::<u8>::empty());
        assert(vs =~= Seq::<T::V>::empty());
    } else {
        let v = vs[0];
        let tail = vs.drop_first();
        assert(seq![v] + tail =~= vs);
        lemma_array_serialize_front::<T>(v, tail);
        let bytes = array_serialize::<T>(tail) + rest;
        assert(array_serialize::<T>(vs) + rest =~= T::spec_serialize(v) + bytes);
        assert(T::spec_wf(vs[0]));
        T::lemma_round_trip(v, bytes);
        assert((T::spec_serialize(v) + bytes).skip(T::spec_serialize(v).len() as int) =~= bytes);
        assert forall|i: int| 0 <= i < tail.len() implies T::spec_wf(#[trigger] tail[i]) by {
            assert(tail[i] == vs[i + 1]);
        }
        lemma_array_rt::<T>(tail, rest);
    }
}

/// Writing elements into a fixed-arity field of `len` slots and reading the
/// field back gives `len` elements: those written, up to `len` of them, and then
/// filler values.
pub proof fn lemma_array_round_trip<T: Serial>(vs: Seq<T::V>, len: nat, rest: Seq<u8>)
    requires
        forall|i: int| 0 <= i < vs.len() ==> T::spec_wf(#[trigger] vs[i]),
    ensures
        array_fit::<T>(vs, len).len() == len,
        vs.len() >= len ==> array_fit::<T>(vs, len) == vs.take(len as int),
        vs.len() < len ==> (forall|i: int| 0 <= i < vs.len() ==> #[trigger] array_fit::<T>(vs, len)[i] == vs[i]),
        vs.len() < len ==> (forall|i: int| vs.len() <= i < len ==> #[trigger] array_fit::<T>(vs, len)[i] == T::spec_default()),
        array_deserialize::<T>(len, array_serialize::<T>(array_fit::<T>(vs, len)) + rest) == Some(
            (array_fit::<T>(vs, len), array_serialize::<T>(array_fit::<T>(vs, len)).len()),
        ),
{
    let slots = array_fit::<T>(vs, len);
    T::lemma_default_wf();
    assert forall|i: int| 0 <= i < slots.len() implies T::spec_wf(#[trigger] slots[i]) by {
        if i < vs.len() {
            assert(slots[i] == vs[i]);
        }
    }
    lemma_array_rt::<T>(slots, rest);
}

} // verus!
