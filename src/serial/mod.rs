//! The `Serial` capability: values that write themselves into a byte sink and
//! read themselves back from a byte source.
//!
//! A sink is a `Vec<u8>` that bytes are appended to; a source is a byte slice
//! with a read position. All multi-byte integers are little-endian.

use vstd::prelude::*;
use vstd::arithmetic::div_mod::lemma_mod_breakdown;

pub mod util;

verus! {

/// Why a read or a write could not complete.
#[derive(Clone, Copy, Debug, PartialEq, Eq, Structural)]
pub enum SerialError {
    /// The source ended before the value did.
    UnexpectedEnd,
    /// A text codec reported a failure.
    Text,
    /// A frame body does not fit in the 16-bit length field.
    FrameTooLarge,
}

/// `256` to the power `n`.
pub open spec fn pow256(n: nat) -> nat
    decreases n,
{
    if n == 0 {
        1
    } else {
        256 * pow256((n - 1) as nat)
    }
}

/// The `n` least significant bytes of `v`, least significant first.
pub open spec fn le_bytes(v: nat, n: nat) -> Seq<u8>
    decreases n,
{
    if n == 0 {
        Seq::empty()
    } else {
        seq![(v % 256) as u8] + le_bytes(v / 256, (n - 1) as nat)
    }
}

/// The number whose little-endian bytes are `s`.
pub open spec fn le_value(s: Seq<u8>) -> nat
    decreases s.len(),
{
    if s.len() == 0 {
        0
    } else {
        s[0] as nat + 256 * le_value(s.drop_first())
    }
}

/// The unsigned `n`-byte pattern of the two's complement integer `v`.
pub open spec fn twos(v: int, n: nat) -> nat {
    if v >= 0 {
        v as nat
    } else {
        (v + pow256(n)) as nat
    }
}

/// The two's complement integer of the unsigned `n`-byte pattern `u`.
pub open spec fn from_twos(u: nat, n: nat) -> int {
    if 2 * u < pow256(n) {
        u as int
    } else {
        u - pow256(n)
    }
}

/// Powers of 256 are positive.
pub proof fn lemma_pow256_pos(n: nat)
    ensures
        pow256(n) > 0,
    decreases n,
{
    if n > 0 {
        lemma_pow256_pos((n - 1) as nat);
    }
}

/// The powers of 256 for the integer widths.
pub proof fn lemma_pow256_values()
    ensures
        pow256(1) == 256,
        pow256(2) == 0x1_0000,
        pow256(4) == 0x1_0000_0000,
        pow256(8) == 0x1_0000_0000_0000_0000,
{
    reveal_with_fuel(pow256, 9);
}

/// `le_bytes(v, n)` has `n` bytes.
pub proof fn lemma_le_bytes_len(v: nat, n: nat)
    ensures
        le_bytes(v, n).len() == n,
    decreases n,
{
    if n > 0 {
        lemma_le_bytes_len(v / 256, (n - 1) as nat);
    }
}

/// A number of `k` little-endian bytes is below `256^k`.
pub proof fn lemma_le_value_bound(s: Seq<u8>)
    ensures
        le_value(s) < pow256(s.len()),
    decreases s.len(),
{
    if s.len() > 0 {
        lemma_le_value_bound(s.drop_first());
        let t = le_value(s.drop_first());
        let p = pow256(s.drop_first().len());
        assert(s[0] as nat + 256 * t < 256 * p) by (nonlinear_arith)
            requires
                s[0] < 256,
                t < p,
        ;
    }
}

/// Reading back the bytes of `v` gives `v` reduced to `n` bytes.
pub proof fn lemma_le_round_trip(v: nat, n: nat)
    ensures
        le_value(le_bytes(v, n)) == v % pow256(n),
    decreases n,
{
    lemma_le_bytes_len(v, n);
    if n == 0 {
        assert(le_bytes(v, n) =~= Seq::<u8>::empty());
    } else {
        let m = (n - 1) as nat;
        lemma_le_round_trip(v / 256, m);
        let s = le_bytes(v, n);
        assert(s.drop_first() =~= le_bytes(v / 256, m));
        lemma_pow256_pos(m);
        lemma_mod_breakdown(v as int, 256, pow256(m) as int);
    }
}

/// Appends the `n` least significant bytes of `v`, least significant first.
pub fn write_le(v: u64, n: usize, out: &mut Vec<u8>)
    requires
        n <= 8,
    ensures
        final(out)@ == old(out)@ + le_bytes(v as nat, n as nat),
{
    let ghost start = out@;
    let mut rest: u64 = v;
    let mut k: usize = 0;
    while k < n
        invariant
            k <= n,
            out@ + le_bytes(rest as nat, (n - k) as nat) == start + le_bytes(v as nat, n as nat),
        decreases n - k,
    {
        let ghost before = out@;
        assert(le_bytes(rest as nat, (n - k) as nat) =~= seq![(rest % 256) as u8] + le_bytes(
            (rest / 256) as nat,
            (n - k - 1) as nat,
        ));
        out.push((rest % 256) as u8);
        assert(out@ + le_bytes((rest / 256) as nat, (n - k - 1) as nat) =~= before
            + le_bytes(rest as nat, (n - k) as nat));
        rest = rest / 256;
        k = k + 1;
    }
    assert(le_bytes(rest as nat, 0) =~= Seq::<u8>::empty());
    assert(out@ =~= out@ + le_bytes(rest as nat, 0));
}

/// Reads the `n`-byte little-endian number at `pos`.
pub fn read_le(src: &[u8], pos: usize, n: usize) -> (r: u64)
    requires
        n <= 8,
        pos + n <= src@.len(),
    ensures
        r as nat == le_value(src@.subrange(pos as int, pos + n)),
{
    let mut acc: u64 = 0;
    let len: usize = src.len();
    assert(len == src@.len());
    let mut i: usize = pos + n;
    proof {
        assert(src@.subrange(i as int, (pos + n) as int) =~= Seq::<u8>::empty());
    }
    while i > pos
        invariant
            pos <= i <= pos + n,
            pos + n <= src@.len(),
            n <= 8,
            acc as nat == le_value(src@.subrange(i as int, pos + n)),
        decreases i - pos,
    {
        let ghost tail = src@.subrange(i as int, pos + n);
        let ghost whole = src@.subrange(i - 1, pos + n);
        assert(whole.drop_first() =~= tail);
        proof {
            lemma_le_value_bound(whole);
            lemma_pow256_values();
            lemma_pow256_mono(whole.len(), 8);
        }
        acc = acc * 256 + src[i - 1] as u64;
        i = i - 1;
    }
    acc
}

/// Powers of 256 grow with the exponent.
pub proof fn lemma_pow256_mono(a: nat, b: nat)
    requires
        a <= b,
    ensures
        pow256(a) <= pow256(b),
    decreases b,
{
    if a < b {
        lemma_pow256_mono(a, (b - 1) as nat);
        lemma_pow256_pos((b - 1) as nat);
    }
}


/// A value with a fixed wire form.
///
/// The wire form is stated over the value's view: `spec_serialize` is what a
/// value is written as, `spec_deserialize` what is read from the front of a byte
/// sequence together with the number of bytes that it takes.
pub trait Serial: Sized + View {
    /// The bytes that `v` is written as.
    spec fn spec_serialize(v: Self::V) -> Seq<u8>;

    /// The value read from the front of `s` and the bytes it takes, or `None`
    /// where `s` ends too early.
    spec fn spec_deserialize(s: Seq<u8>) -> Option<(Self::V, nat)>;

    /// The value that fills unused slots of a fixed-arity field.
    spec fn spec_default() -> Self::V;

    /// The values that read back exactly as they were written.
    spec fn spec_wf(v: Self::V) -> bool;

    /// A written value reads back as itself, whatever follows it.
    proof fn lemma_round_trip(v: Self::V, rest: Seq<u8>)
        requires
            Self::spec_wf(v),
        ensures
            Self::spec_deserialize(Self::spec_serialize(v) + rest) == Some(
                (v, Self::spec_serialize(v).len()),
            ),
    ;

    /// The filler value reads back as itself.
    proof fn lemma_default_wf()
        ensures
            Self::spec_wf(Self::spec_default()),
    ;

    /// Appends the wire form of `self` to `out`.
    fn serialize(&self, out: &mut Vec<u8>)
        ensures
            final(out)@ == old(out)@ + Self::spec_serialize(self@),
    ;

    /// Reads a value at `pos` of `src`, returning it with the position after it.
    fn deserialize(src: &[u8], pos: usize) -> (r: Result<(Self, usize), SerialError>)
        requires
            pos <= src@.len(),
        ensures
            match r {
                Ok((v, p)) => pos <= p <= src@.len() && Self::spec_deserialize(src@.skip(pos as int))
                    == Some((v@, (p - pos) as nat)),
                Err(e) => Self::spec_deserialize(src@.skip(pos as int)) is None && e
                    == SerialError::UnexpectedEnd,
            },
    ;

    /// The filler value.
    fn default_value() -> (r: Self)
        ensures
            r@ == Self::spec_default(),
    ;
}

/// Reading `n` bytes of a little-endian number at the front of `bytes + rest`
/// gives back the number.
pub proof fn lemma_le_prefix(v: nat, n: nat, rest: Seq<u8>)
    requires
        v < pow256(n),
    ensures
        (le_bytes(v, n) + rest).len() >= n,
        le_value((le_bytes(v, n) + rest).take(n as int)) == v,
{
    lemma_le_bytes_len(v, n);
    assert((le_bytes(v, n) + rest).take(n as int) =~= le_bytes(v, n));
    lemma_le_round_trip(v, n);
    lemma_pow256_pos(n);
    vstd::arithmetic::div_mod::lemma_small_mod(v, pow256(n));
}

impl Serial for u8 {
    open spec fn spec_serialize(v: u8) -> Seq<u8> {
        le_bytes(v as nat, 1)
    }

    open spec fn spec_deserialize(s: Seq<u8>) -> Option<(u8, nat)> {
        if s.len() >= 1 {
            Some((le_value(s.take(1)) as u8, 1))
        } else {
            None
        }
    }

    open spec fn spec_default() -> u8 {
        0
    }

    open spec fn spec_wf(v: u8) -> bool {
        true
    }

    proof fn lemma_round_trip(v: u8, rest: Seq<u8>) {
        lemma_pow256_values();
        lemma_le_prefix(v as nat, 1, rest);
        lemma_le_bytes_len(v as nat, 1);
    }

    proof fn lemma_default_wf() {
    }

    fn serialize(&self, out: &mut Vec<u8>) {
        proof {
            lemma_pow256_values();
        }
        write_le(*self as u64, 1, out);
    }

    fn deserialize(src: &[u8], pos: usize) -> (r: Result<(u8, usize), SerialError>) {
        if src.len() - pos < 1 {
            return Err(SerialError::UnexpectedEnd);
        }
        proof {
            lemma_le_value_bound(src@.subrange(pos as int, pos + 1));
            lemma_pow256_values();
            assert(src@.skip(pos as int).take(1) =~= src@.subrange(pos as int, pos + 1));
        }
        let v: u8 = read_le(src, pos, 1) as u8;
        Ok((v, pos + 1))
    }

    fn default_value() -> (r: u8) {
        0
    }
}

impl Serial for u16 {
    open spec fn spec_serialize(v: u16) -> Seq<u8> {
        le_bytes(v as nat, 2)
    }

    open spec fn spec_deserialize(s: Seq<u8>) -> Option<(u16, nat)> {
        if s.len() >= 2 {
            Some((le_value(s.take(2)) as u16, 2))
        } else {
            None
        }
    }

    open spec fn spec_default() -> u16 {
        0
    }

    open spec fn spec_wf(v: u16) -> bool {
        true
    }

    proof fn lemma_round_trip(v: u16, rest: Seq<u8>) {
        lemma_pow256_values();
        lemma_le_prefix(v as nat, 2, rest);
        lemma_le_bytes_len(v as nat, 2);
    }

    proof fn lemma_default_wf() {
    }

    fn serialize(&self, out: &mut Vec<u8>) {
        proof {
            lemma_pow256_values();
        }
        write_le(*self as u64, 2, out);
    }

    fn deserialize(src: &[u8], pos: usize) -> (r: Result<(u16, usize), SerialError>) {
        if src.len() - pos < 2 {
            return Err(SerialError::UnexpectedEnd);
        }
        proof {
            lemma_le_value_bound(src@.subrange(pos as int, pos + 2));
            lemma_pow256_values();
            assert(src@.skip(pos as int).take(2) =~= src@.subrange(pos as int, pos + 2));
        }
        let v: u16 = read_le(src, pos, 2) as u16;
        Ok((v, pos + 2))
    }

    fn default_value() -> (r: u16) {
        0
    }
}

impl Serial for u32 {
    open spec fn spec_serialize(v: u32) -> Seq<u8> {
        le_bytes(v as nat, 4)
    }

    open spec fn spec_deserialize(s: Seq<u8>) -> Option<(u32, nat)> {
        if s.len() >= 4 {
            Some((le_value(s.take(4)) as u32, 4))
        } else {
            None
        }
    }

    open spec fn spec_default() -> u32 {
        0
    }

    open spec fn spec_wf(v: u32) -> bool {
        true
    }

    proof fn lemma_round_trip(v: u32, rest: Seq<u8>) {
        lemma_pow256_values();
        lemma_le_prefix(v as nat, 4, rest);
        lemma_le_bytes_len(v as nat, 4);
    }

    proof fn lemma_default_wf() {
    }

    fn serialize(&self, out: &mut Vec<u8>) {
        proof {
            lemma_pow256_values();
        }
        write_le(*self as u64, 4, out);
    }

    fn deserialize(src: &[u8], pos: usize) -> (r: Result<(u32, usize), SerialError>) {
        if src.len() - pos < 4 {
            return Err(SerialError::UnexpectedEnd);
        }
        proof {
            lemma_le_value_bound(src@.subrange(pos as int, pos + 4));
            lemma_pow256_values();
            assert(src@.skip(pos as int).take(4) =~= src@.subrange(pos as int, pos + 4));
        }
        let v: u32 = read_le(src, pos, 4) as u32;
        Ok((v, pos + 4))
    }

    fn default_value() -> (r: u32) {
        0
    }
}

impl Serial for u64 {
    open spec fn spec_serialize(v: u64) -> Seq<u8> {
        le_bytes(v as nat, 8)
    }

    open spec fn spec_deserialize(s: Seq<u8>) -> Option<(u64, nat)> {
        if s.len() >= 8 {
            Some((le_value(s.take(8)) as u64, 8))
        } else {
            None
        }
    }

    open spec fn spec_default() -> u64 {
        0
    }

    open spec fn spec_wf(v: u64) -> bool {
        true
    }

    proof fn lemma_round_trip(v: u64, rest: Seq<u8>) {
        lemma_pow256_values();
        lemma_le_prefix(v as nat, 8, rest);
        lemma_le_bytes_len(v as nat, 8);
    }

    proof fn lemma_default_wf() {
    }

    fn serialize(&self, out: &mut Vec<u8>) {
        proof {
            lemma_pow256_values();
        }
        write_le(*self as u64, 8, out);
    }

    fn deserialize(src: &[u8], pos: usize) -> (r: Result<(u64, usize), SerialError>) {
        if src.len() - pos < 8 {
            return Err(SerialError::UnexpectedEnd);
        }
        proof {
            lemma_le_value_bound(src@.subrange(pos as int, pos + 8));
            lemma_pow256_values();
            assert(src@.skip(pos as int).take(8) =~= src@.subrange(pos as int, pos + 8));
        }
        let v: u64 = read_le(src, pos, 8) as u64;
        Ok((v, pos + 8))
    }

    fn default_value() -> (r: u64) {
        0
    }
}

impl Serial for i8 {
    open spec fn spec_serialize(v: i8) -> Seq<u8> {
        le_bytes(twos(v as int, 1), 1)
    }

    open spec fn spec_deserialize(s: Seq<u8>) -> Option<(i8, nat)> {
        if s.len() >= 1 {
            Some((from_twos(le_value(s.take(1)), 1) as i8, 1))
        } else {
            None
        }
    }

    open spec fn spec_default() -> i8 {
        0
    }

    open spec fn spec_wf(v: i8) -> bool {
        true
    }

    proof fn lemma_round_trip(v: i8, rest: Seq<u8>) {
        lemma_pow256_values();
        lemma_le_prefix(twos(v as int, 1), 1, rest);
        lemma_le_bytes_len(twos(v as int, 1), 1);
    }

    proof fn lemma_default_wf() {
    }

    fn serialize(&self, out: &mut Vec<u8>) {
        proof {
            lemma_pow256_values();
        }
        let u: u64 = if *self >= 0 {
            *self as u64
        } else {
            (*self as i128 + 0x100) as u64
        };
        write_le(u, 1, out);
    }

    fn deserialize(src: &[u8], pos: usize) -> (r: Result<(i8, usize), SerialError>) {
        if src.len() - pos < 1 {
            return Err(SerialError::UnexpectedEnd);
        }
        proof {
            lemma_le_value_bound(src@.subrange(pos as int, pos + 1));
            lemma_pow256_values();
            assert(src@.skip(pos as int).take(1) =~= src@.subrange(pos as int, pos + 1));
        }
        let u: u64 = read_le(src, pos, 1);
        let v: i8 = if u < 0x80 {
            u as i8
        } else {
            (u as i128 - 0x100) as i8
        };
        Ok((v, pos + 1))
    }

    fn default_value() -> (r: i8) {
        0
    }
}

impl Serial for i16 {
    open spec fn spec_serialize(v: i16) -> Seq<u8> {
        le_bytes(twos(v as int, 2), 2)
    }

    open spec fn spec_deserialize(s: Seq<u8>) -> Option<(i16, nat)> {
        if s.len() >= 2 {
            Some((from_twos(le_value(s.take(2)), 2) as i16, 2))
        } else {
            None
        }
    }

    open spec fn spec_default() -> i16 {
        0
    }

    open spec fn spec_wf(v: i16) -> bool {
        true
    }

    proof fn lemma_round_trip(v: i16, rest: Seq<u8>) {
        lemma_pow256_values();
        lemma_le_prefix(twos(v as int, 2), 2, rest);
        lemma_le_bytes_len(twos(v as int, 2), 2);
    }

    proof fn lemma_default_wf() {
    }

    fn serialize(&self, out: &mut Vec<u8>) {
        proof {
            lemma_pow256_values();
        }
        let u: u64 = if *self >= 0 {
            *self as u64
        } else {
            (*self as i128 + 0x1_0000) as u64
        };
        write_le(u, 2, out);
    }

    fn deserialize(src: &[u8], pos: usize) -> (r: Result<(i16, usize), SerialError>) {
        if src.len() - pos < 2 {
            return Err(SerialError::UnexpectedEnd);
        }
        proof {
            lemma_le_value_bound(src@.subrange(pos as int, pos + 2));
            lemma_pow256_values();
            assert(src@.skip(pos as int).take(2) =~= src@.subrange(pos as int, pos + 2));
        }
        let u: u64 = read_le(src, pos, 2);
        let v: i16 = if u < 0x8000 {
            u as i16
        } else {
            (u as i128 - 0x1_0000) as i16
        };
        Ok((v, pos + 2))
    }

    fn default_value() -> (r: i16) {
        0
    }
}

impl Serial for i32 {
    open spec fn spec_serialize(v: i32) -> Seq<u8> {
        le_bytes(twos(v as int, 4), 4)
    }

    open spec fn spec_deserialize(s: Seq<u8>) -> Option<(i32, nat)> {
        if s.len() >= 4 {
            Some((from_twos(le_value(s.take(4)), 4) as i32, 4))
        } else {
            None
        }
    }

    open spec fn spec_default() -> i32 {
        0
    }

    open spec fn spec_wf(v: i32) -> bool {
        true
    }

    proof fn lemma_round_trip(v: i32, rest: Seq<u8>) {
        lemma_pow256_values();
        lemma_le_prefix(twos(v as int, 4), 4, rest);
        lemma_le_bytes_len(twos(v as int, 4), 4);
    }

    proof fn lemma_default_wf() {
    }

    fn serialize(&self, out: &mut Vec<u8>) {
        proof {
            lemma_pow256_values();
        }
        let u: u64 = if *self >= 0 {
            *self as u64
        } else {
            (*self as i128 + 0x1_0000_0000) as u64
        };
        write_le(u, 4, out);
    }

    fn deserialize(src: &[u8], pos: usize) -> (r: Result<(i32, usize), SerialError>) {
        if src.len() - pos < 4 {
            return Err(SerialError::UnexpectedEnd);
        }
        proof {
            lemma_le_value_bound(src@.subrange(pos as int, pos + 4));
            lemma_pow256_values();
            assert(src@.skip(pos as int).take(4) =~= src@.subrange(pos as int, pos + 4));
        }
        let u: u64 = read_le(src, pos, 4);
        let v: i32 = if u < 0x8000_0000 {
            u as i32
        } else {
            (u as i128 - 0x1_0000_0000) as i32
        };
        Ok((v, pos + 4))
    }

    fn default_value() -> (r: i32) {
        0
    }
}

impl Serial for i64 {
    open spec fn spec_serialize(v: i64) -> Seq<u8> {
        le_bytes(twos(v as int, 8), 8)
    }

    open spec fn spec_deserialize(s: Seq<u8>) -> Option<(i64, nat)> {
        if s.len() >= 8 {
            Some((from_twos(le_value(s.take(8)), 8) as i64, 8))
        } else {
            None
        }
    }

    open spec fn spec_default() -> i64 {
        0
    }

    open spec fn spec_wf(v: i64) -> bool {
        true
    }

    proof fn lemma_round_trip(v: i64, rest: Seq<u8>) {
        lemma_pow256_values();
        lemma_le_prefix(twos(v as int, 8), 8, rest);
        lemma_le_bytes_len(twos(v as int, 8), 8);
    }

    proof fn lemma_default_wf() {
    }

    fn serialize(&self, out: &mut Vec<u8>) {
        proof {
            lemma_pow256_values();
        }
        let u: u64 = if *self >= 0 {
            *self as u64
        } else {
            (*self as i128 + 0x1_0000_0000_0000_0000) as u64
        };
        write_le(u, 8, out);
    }

    fn deserialize(src: &[u8], pos: usize) -> (r: Result<(i64, usize), SerialError>) {
        if src.len() - pos < 8 {
            return Err(SerialError::UnexpectedEnd);
        }
        proof {
            lemma_le_value_bound(src@.subrange(pos as int, pos + 8));
            lemma_pow256_values();
            assert(src@.skip(pos as int).take(8) =~= src@.subrange(pos as int, pos + 8));
        }
        let u: u64 = read_le(src, pos, 8);
        let v: i64 = if u < 0x8000_0000_0000_0000 {
            u as i64
        } else {
            (u as i128 - 0x1_0000_0000_0000_0000) as i64
        };
        Ok((v, pos + 8))
    }

    fn default_value() -> (r: i64) {
        0
    }
}

impl Serial for bool {
    open spec fn spec_serialize(v: bool) -> Seq<u8> {
        seq![if v { 1u8 } else { 0u8 }]
    }

    open spec fn spec_deserialize(s: Seq<u8>) -> Option<(bool, nat)> {
        if s.len() >= 1 {
            Some((s[0] != 0, 1))
        } else {
            None
        }
    }

    open spec fn spec_default() -> bool {
        false
    }

    open spec fn spec_wf(v: bool) -> bool {
        true
    }

    proof fn lemma_round_trip(v: bool, rest: Seq<u8>) {
    }

    proof fn lemma_default_wf() {
    }

    fn serialize(&self, out: &mut Vec<u8>) {
        out.push(if *self { 1u8 } else { 0u8 });
    }

    fn deserialize(src: &[u8], pos: usize) -> (r: Result<(bool, usize), SerialError>) {
        if src.len() - pos < 1 {
            return Err(SerialError::UnexpectedEnd);
        }
        Ok((src[pos] != 0, pos + 1))
    }

    fn default_value() -> (r: bool) {
        false
    }
}

} // verus!
