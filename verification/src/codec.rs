//! Canonical wire encodings: field elements and the verifier SRS.
//!
//! Integers and field elements are little-endian and fixed-width; group
//! elements keep their fixed-width compressed encodings; no length prefixes
//! are used. Each encoding is proved to evaluate back to the value it came
//! from; `lemma_scalar_value_injective` and `lemma_wire_round_trip` state
//! that decoding is the inverse of encoding.

use vstd::prelude::*;
use vstd::arithmetic::div_mod::{
    lemma_fundamental_div_mod, lemma_fundamental_div_mod_converse_div,
    lemma_fundamental_div_mod_converse_mod, lemma_multiply_divide_lt,
};
use vstd::arithmetic::mul::{lemma_mul_inequality, lemma_mul_is_associative};

use crate::errors::Error;
use crate::field::{scalar_modulus, Scalar};
use crate::srs::{G1Repr, G2Repr, VerifierSRS};

verus! {

/// 256^k: the count of byte strings of length k.
pub open spec fn shift(k: nat) -> nat
    decreases k,
{
    if k == 0 {
        1
    } else {
        256 * shift((k - 1) as nat)
    }
}

/// The integer a little-endian byte sequence stands for.
pub open spec fn le_value(b: Seq<u8>) -> nat
    decreases b.len(),
{
    if b.len() == 0 {
        0
    } else {
        b[0] as nat + 256 * le_value(b.drop_first())
    }
}

/// The k little-endian bytes of an integer.
pub open spec fn le_bytes(x: nat, k: nat) -> Seq<u8>
    decreases k,
{
    if k == 0 {
        Seq::empty()
    } else {
        seq![(x % 256) as u8] + le_bytes(x / 256, (k - 1) as nat)
    }
}

/// The width of a machine word's range.
pub proof fn lemma_shift_8()
    ensures
        shift(8) == 0x10000000000000000,
{
    assert(shift(0) == 1);
    assert(shift(1) == 256);
    assert(shift(2) == 0x10000);
    assert(shift(3) == 0x1000000);
    assert(shift(4) == 0x100000000);
    assert(shift(5) == 0x10000000000);
    assert(shift(6) == 0x1000000000000);
    assert(shift(7) == 0x100000000000000);
}

/// The range bound grows with the length.
pub proof fn lemma_shift_le(a: nat, b: nat)
    requires
        a <= b,
    ensures
        shift(a) <= shift(b),
    decreases b,
{
    if a < b {
        lemma_shift_le(a, (b - 1) as nat);
        assert(shift((b - 1) as nat) <= 256 * shift((b - 1) as nat));
    }
}

/// An encoding has its stated width.
pub proof fn lemma_le_bytes_len(x: nat, k: nat)
    ensures
        le_bytes(x, k).len() == k,
    decreases k,
{
    if k > 0 {
        lemma_le_bytes_len(x / 256, (k - 1) as nat);
    }
}

/// A value below the range bound evaluates back from its encoding.
pub proof fn lemma_le_bytes_value(x: nat, k: nat)
    requires
        x < shift(k),
    ensures
        le_value(le_bytes(x, k)) == x,
    decreases k,
{
    if k == 0 {
    } else {
        lemma_le_bytes_len(x / 256, (k - 1) as nat);
        assert(le_bytes(x, k).drop_first() =~= le_bytes(x / 256, (k - 1) as nat));
        lemma_multiply_divide_lt(x as int, 256, shift((k - 1) as nat) as int);
        lemma_le_bytes_value(x / 256, (k - 1) as nat);
        lemma_fundamental_div_mod(x as int, 256);
    }
}

/// A byte sequence evaluates to a value below its range bound.
pub proof fn lemma_le_value_bound(s: Seq<u8>)
    ensures
        le_value(s) < shift(s.len()),
    decreases s.len(),
{
    if s.len() == 0 {
    } else {
        let rest = le_value(s.drop_first());
        lemma_le_value_bound(s.drop_first());
        lemma_mul_inequality(rest as int, shift((s.len() - 1) as nat) as int - 1, 256);
        assert(256 * rest == rest * 256);
    }
}

/// Concatenation splits an evaluation at the boundary.
pub proof fn lemma_le_value_concat(a: Seq<u8>, b: Seq<u8>)
    ensures
        le_value(a + b) == le_value(a) + shift(a.len()) * le_value(b),
    decreases a.len(),
{
    if a.len() == 0 {
        assert(a + b =~= b);
        assert(shift(0) == 1);
        assert(shift(0) * le_value(b) == le_value(b));
    } else {
        let la1 = (a.len() - 1) as nat;
        assert((a + b).drop_first() =~= a.drop_first() + b);
        assert((a + b)[0] == a[0]);
        lemma_le_value_concat(a.drop_first(), b);
        assert(le_value(a + b) == a[0] + 256 * le_value(a.drop_first() + b));
        assert(le_value(a.drop_first() + b) == le_value(a.drop_first()) + shift(la1) * le_value(
            b,
        ));
        assert(le_value(a) == a[0] + 256 * le_value(a.drop_first()));
        assert(shift(a.len()) == 256 * shift(la1));
        lemma_mul_is_associative(256, shift(la1) as int, le_value(b) as int);
        assert(256 * (shift(la1) * le_value(b)) == (256 * shift(la1)) * le_value(b));
    }
}

/// Range bounds multiply across a split.
pub proof fn lemma_shift_add(a: nat, b: nat)
    ensures
        shift(a + b) == shift(a) * shift(b),
    decreases a,
{
    if a == 0 {
        assert(shift(0 + b) == 1 * shift(b));
    } else {
        lemma_shift_add((a - 1) as nat, b);
        assert(shift(a + b) == 256 * shift((a + b - 1) as nat));
        assert(shift(a) == 256 * shift((a - 1) as nat));
        lemma_mul_is_associative(256, shift((a - 1) as nat) as int, shift(b) as int);
    }
}

/// Every byte sequence is the encoding of its own value.
pub proof fn lemma_le_bytes_of_value(s: Seq<u8>)
    ensures
        le_bytes(le_value(s), s.len()) =~= s,
    decreases s.len(),
{
    if s.len() == 0 {
    } else {
        let v = le_value(s);
        let rest = le_value(s.drop_first());
        assert(v as int == rest as int * 256 + s[0] as int);
        lemma_fundamental_div_mod_converse_mod(v as int, 256, rest as int, s[0] as int);
        lemma_fundamental_div_mod_converse_div(v as int, 256, rest as int, s[0] as int);
        lemma_le_bytes_of_value(s.drop_first());
        lemma_le_bytes_len(v, s.len());
        assert(le_bytes(v, s.len()) =~= seq![(v % 256) as u8] + le_bytes(
            v / 256,
            (s.len() - 1) as nat,
        ));
    }
}

/// Appends the eight little-endian bytes of `x`.
fn push_u64_le(out: &mut Vec<u8>, x: u64)
    ensures
        final(out)@ == old(out)@ + le_bytes(x as nat, 8),
{
    let mut cur: u64 = x;
    let mut i: usize = 0;
    while i < 8
        invariant
            0 <= i <= 8,
            old(out)@ + le_bytes(x as nat, 8) =~= out@ + le_bytes(cur as nat, (8 - i) as nat),
        decreases 8 - i,
    {
        proof {
            assert(le_bytes(cur as nat, (8 - i) as nat) =~= seq![(cur as nat % 256) as u8]
                + le_bytes(cur as nat / 256, (8 - i - 1) as nat));
            assert((out@ + seq![(cur as nat % 256) as u8]) + le_bytes(
                cur as nat / 256,
                (8 - i - 1) as nat,
            ) =~= out@ + (seq![(cur as nat % 256) as u8] + le_bytes(
                cur as nat / 256,
                (8 - i - 1) as nat,
            )));
        }
        let b = (cur % 256) as u8;
        out.push(b);
        cur = cur / 256;
        i = i + 1;
    }
    proof {
        assert(out@ + le_bytes(cur as nat, 0) =~= out@);
    }
}

/// Appends a copy of `src`.
fn push_bytes(out: &mut Vec<u8>, src: &Vec<u8>)
    ensures
        final(out)@ == old(out)@ + src@,
{
    let mut i: usize = 0;
    while i < src.len()
        invariant
            0 <= i <= src@.len(),
            out@ =~= old(out)@ + src@.take(i as int),
        decreases src@.len() - i,
    {
        proof {
            assert(src@.take(i as int + 1) =~= src@.take(i as int).push(src@[i as int]));
            assert((old(out)@ + src@.take(i as int)).push(src@[i as int]) =~= old(out)@
                + src@.take(i as int + 1));
        }
        out.push(src[i]);
        i = i + 1;
    }
    proof {
        assert(src@.take(src@.len() as int) =~= src@);
    }
}

/// Reads the eight little-endian bytes at `start` as one integer.
fn read_u64_le(b: &Vec<u8>, start: usize) -> (x: u64)
    requires
        start + 8 <= b@.len(),
    ensures
        x as nat == le_value(b@.subrange(start as int, start as int + 8)),
{
    let mut x: u64 = 0;
    let mut j: usize = 8;
    proof {
        assert(b@.subrange(start as int + 8, start as int + 8).len() == 0);
    }
    while j > 0
        invariant
            0 <= j <= 8,
            start + 8 <= b@.len(),
            x as nat == le_value(b@.subrange(start as int + j, start as int + 8)),
        decreases j,
    {
        proof {
            assert(b@.subrange(start as int + j - 1, start as int + 8).drop_first() =~= b@
                .subrange(start as int + j, start as int + 8));
            lemma_le_value_bound(b@.subrange(start as int + j, start as int + 8));
            lemma_shift_le((8 - j) as nat, 7);
            lemma_shift_8();
        }
        j = j - 1;
        let blen = b.len();
        assert(start + j < blen);
        let idx = start + j;
        x = b[idx] as u64 + 256 * x;
    }
    x
}

/// Copies `len` bytes of `b` starting at `start`.
pub(crate) fn copy_range(b: &Vec<u8>, start: usize, len: usize) -> (out: Vec<u8>)
    requires
        start + len <= b@.len(),
    ensures
        out@ == b@.subrange(start as int, start as int + len),
{
    let mut out: Vec<u8> = Vec::new();
    let mut i: usize = 0;
    while i < len
        invariant
            0 <= i <= len,
            start + len <= b@.len(),
            out@ =~= b@.subrange(start as int, start as int + i),
        decreases len - i,
    {
        proof {
            assert(b@.subrange(start as int, start as int + i + 1) =~= b@.subrange(
                start as int,
                start as int + i,
            ).push(b@[start as int + i]));
        }
        let blen = b.len();
        assert(start + i < blen);
        out.push(b[start + i]);
        i = i + 1;
    }
    out
}

/// Lowest little-endian 64-bit limb of the scalar field order.
const Q_LIMB_0: u64 = 0xffffffff00000001;

/// Second little-endian 64-bit limb of the scalar field order.
const Q_LIMB_1: u64 = 0x53bda402fffe5bfe;

/// Third little-endian 64-bit limb of the scalar field order.
const Q_LIMB_2: u64 = 0x3339d80809a1d805;

/// Highest little-endian 64-bit limb of the scalar field order.
const Q_LIMB_3: u64 = 0x73eda753299d7d48;

/// Serializes a field element to its 32 little-endian bytes: the canonical
/// fixed-width encoding of the scalar field.
pub fn scalar_to_bytes(s: &Scalar) -> (out: Vec<u8>)
    ensures
        out@.len() == 32,
        out@ == le_bytes(s.value(), 32),
        le_value(out@) == s.value(),
{
    let mut out: Vec<u8> = Vec::new();
    push_u64_le(&mut out, s.l0);
    push_u64_le(&mut out, s.l1);
    push_u64_le(&mut out, s.l2);
    push_u64_le(&mut out, s.l3);
    proof {
        let a0 = le_bytes(s.l0 as nat, 8);
        let a1 = le_bytes(s.l1 as nat, 8);
        let a2 = le_bytes(s.l2 as nat, 8);
        let a3 = le_bytes(s.l3 as nat, 8);
        lemma_le_bytes_len(s.l0 as nat, 8);
        lemma_le_bytes_len(s.l1 as nat, 8);
        lemma_le_bytes_len(s.l2 as nat, 8);
        lemma_le_bytes_len(s.l3 as nat, 8);
        lemma_shift_8();
        lemma_le_bytes_value(s.l0 as nat, 8);
        lemma_le_bytes_value(s.l1 as nat, 8);
        lemma_le_bytes_value(s.l2 as nat, 8);
        lemma_le_bytes_value(s.l3 as nat, 8);
        assert(Seq::<u8>::empty() + a0 =~= a0);
        assert(out@ == ((a0 + a1) + a2) + a3);
        lemma_le_value_concat(a0, a1);
        lemma_le_value_concat(a0 + a1, a2);
        lemma_le_value_concat((a0 + a1) + a2, a3);
        lemma_shift_add(8, 8);
        lemma_shift_add(16, 8);
        assert(shift(16) == 0x100000000000000000000000000000000);
        assert(shift(24) == 0x1000000000000000000000000000000000000000000000000);
        assert((a0 + a1).len() == 16);
        assert(((a0 + a1) + a2).len() == 24);
        assert(le_value(a0) == s.l0 as nat);
        assert(le_value(a1) == s.l1 as nat);
        assert(le_value(a2) == s.l2 as nat);
        assert(le_value(a3) == s.l3 as nat);
        assert(le_value(a0 + a1) == le_value(a0) + shift(8) * le_value(a1));
        assert(le_value((a0 + a1) + a2) == le_value(a0 + a1) + shift(16) * le_value(a2));
        assert(le_value(out@) == le_value((a0 + a1) + a2) + shift(24) * le_value(a3));
        assert(le_value(out@) == s.value());
        lemma_le_bytes_of_value(out@);
        assert(le_bytes(s.value(), 32) == out@);
    }
    out
}

/// Decodes 32 little-endian bytes to a field element: only a fully reduced
/// value, below the field order, decodes.
pub fn scalar_from_bytes(bytes: &Vec<u8>) -> (r: Result<Scalar, Error>)
    ensures
        match r {
            Ok(s) => {
                &&& bytes@.len() == 32
                &&& s.wf()
                &&& s.value() == le_value(bytes@)
            },
            Err(e) => {
                &&& e == Error::Serialization
                &&& (bytes@.len() != 32 || le_value(bytes@) >= scalar_modulus())
            },
        },
{
    if bytes.len() != 32 {
        return Err(Error::Serialization);
    }
    let l0 = read_u64_le(bytes, 0);
    let l1 = read_u64_le(bytes, 8);
    let l2 = read_u64_le(bytes, 16);
    let l3 = read_u64_le(bytes, 24);
    let s = Scalar { l0, l1, l2, l3 };
    proof {
        let b0 = bytes@.subrange(0, 8);
        let b1 = bytes@.subrange(8, 16);
        let b2 = bytes@.subrange(16, 24);
        let b3 = bytes@.subrange(24, 32);
        assert(bytes@ =~= ((b0 + b1) + b2) + b3);
        lemma_le_value_concat(b0, b1);
        lemma_le_value_concat(b0 + b1, b2);
        lemma_le_value_concat((b0 + b1) + b2, b3);
        lemma_shift_8();
        lemma_shift_add(8, 8);
        lemma_shift_add(16, 8);
        assert(shift(16) == 0x100000000000000000000000000000000);
        assert(shift(24) == 0x1000000000000000000000000000000000000000000000000);
        assert((b0 + b1).len() == 16);
        assert(((b0 + b1) + b2).len() == 24);
        assert(le_value(b0 + b1) == le_value(b0) + shift(8) * le_value(b1));
        assert(le_value((b0 + b1) + b2) == le_value(b0 + b1) + shift(16) * le_value(b2));
        assert(le_value(bytes@) == le_value((b0 + b1) + b2) + shift(24) * le_value(b3));
        assert(l0 as nat == le_value(b0));
        assert(l1 as nat == le_value(b1));
        assert(l2 as nat == le_value(b2));
        assert(l3 as nat == le_value(b3));
        assert(s.l0 == l0 && s.l1 == l1 && s.l2 == l2 && s.l3 == l3);
        assert(le_value(bytes@) == le_value(b0) + 0x10000000000000000nat * le_value(b1)
            + 0x100000000000000000000000000000000nat * le_value(b2)
            + 0x1000000000000000000000000000000000000000000000000nat * le_value(b3));
        assert(s.value() == le_value(bytes@));
    }
    if l3 > Q_LIMB_3 || (l3 == Q_LIMB_3 && (l2 > Q_LIMB_2 || (l2 == Q_LIMB_2 && (l1 > Q_LIMB_1
        || (l1 == Q_LIMB_1 && l0 >= Q_LIMB_0))))) {
        proof {
            assert(s.value() >= scalar_modulus());
        }
        return Err(Error::Serialization);
    }
    proof {
        assert(s.value() < scalar_modulus());
    }
    Ok(s)
}

/// The encoding determines the element: two field elements with the same
/// value have the same limbs, so what `scalar_from_bytes` returns on
/// `scalar_to_bytes(p)` is `p` itself.
pub proof fn lemma_scalar_value_injective(a: Scalar, b: Scalar)
    requires
        a.value() == b.value(),
    ensures
        a == b,
{
    let w: int = 0x10000000000000000;
    let ra: int = a.l1 + w * a.l2 + (w * w) * a.l3;
    let rb: int = b.l1 + w * b.l2 + (w * w) * b.l3;
    assert(a.value() as int == ra * w + a.l0);
    assert(b.value() as int == rb * w + b.l0);
    lemma_fundamental_div_mod_converse_mod(a.value() as int, w, ra, a.l0 as int);
    lemma_fundamental_div_mod_converse_div(a.value() as int, w, ra, a.l0 as int);
    lemma_fundamental_div_mod_converse_mod(b.value() as int, w, rb, b.l0 as int);
    lemma_fundamental_div_mod_converse_div(b.value() as int, w, rb, b.l0 as int);
    assert(a.l0 == b.l0 && ra == rb);
    let sa: int = a.l2 + w * a.l3;
    let sb: int = b.l2 + w * b.l3;
    assert(ra == sa * w + a.l1);
    assert(rb == sb * w + b.l1);
    lemma_fundamental_div_mod_converse_mod(ra, w, sa, a.l1 as int);
    lemma_fundamental_div_mod_converse_div(ra, w, sa, a.l1 as int);
    lemma_fundamental_div_mod_converse_mod(rb, w, sb, b.l1 as int);
    lemma_fundamental_div_mod_converse_div(rb, w, sb, b.l1 as int);
    assert(a.l1 == b.l1 && sa == sb);
    lemma_fundamental_div_mod_converse_mod(sa, w, a.l3 as int, a.l2 as int);
    lemma_fundamental_div_mod_converse_div(sa, w, a.l3 as int, a.l2 as int);
    lemma_fundamental_div_mod_converse_mod(sb, w, b.l3 as int, b.l2 as int);
    lemma_fundamental_div_mod_converse_div(sb, w, b.l3 as int, b.l2 as int);
    assert(a.l2 == b.l2 && a.l3 == b.l3);
}

impl VerifierSRS {
    /// The canonical encoding: `n` as eight little-endian bytes, then each
    /// group element's fixed-width compressed encoding, in declaration
    /// order; 440 bytes in all.
    pub open spec fn wire_bytes(self) -> Seq<u8> {
        le_bytes(self.n as nat, 8) + self.g.bytes@ + self.h.bytes@ + self.g_alpha.bytes@
            + self.g_beta.bytes@ + self.h_alpha.bytes@ + self.h_beta.bytes@
    }

    /// Serializes to the canonical encoding.
    pub fn serialize(&self) -> (out: Vec<u8>)
        ensures
            out@ == self.wire_bytes(),
    {
        let mut out: Vec<u8> = Vec::new();
        push_u64_le(&mut out, self.n as u64);
        push_bytes(&mut out, &self.g.bytes);
        push_bytes(&mut out, &self.h.bytes);
        push_bytes(&mut out, &self.g_alpha.bytes);
        push_bytes(&mut out, &self.g_beta.bytes);
        push_bytes(&mut out, &self.h_alpha.bytes);
        push_bytes(&mut out, &self.h_beta.bytes);
        proof {
            assert(out@ =~= self.wire_bytes());
        }
        out
    }

    /// Decodes the canonical encoding: only a byte string of exactly the
    /// fixed width whose size field fits the machine decodes, and it
    /// decodes to an SRS that encodes back to the same bytes.
    pub fn deserialize(bytes: &Vec<u8>) -> (r: Result<VerifierSRS, Error>)
        ensures
            match r {
                Ok(s) => {
                    &&& bytes@.len() == 440
                    &&& s.wf()
                    &&& s.n as nat == le_value(bytes@.subrange(0, 8))
                    &&& s.wire_bytes() == bytes@
                },
                Err(e) => {
                    &&& e == Error::Serialization
                    &&& (bytes@.len() != 440 || le_value(bytes@.subrange(0, 8)) > usize::MAX
                        as nat)
                },
            },
    {
        if bytes.len() != 440 {
            return Err(Error::Serialization);
        }
        let n64 = read_u64_le(bytes, 0);
        if n64 > usize::MAX as u64 {
            return Err(Error::Serialization);
        }
        let n = n64 as usize;
        let s = VerifierSRS {
            n,
            g: G1Repr { bytes: copy_range(bytes, 8, 48) },
            h: G2Repr { bytes: copy_range(bytes, 56, 96) },
            g_alpha: G1Repr { bytes: copy_range(bytes, 152, 48) },
            g_beta: G1Repr { bytes: copy_range(bytes, 200, 48) },
            h_alpha: G2Repr { bytes: copy_range(bytes, 248, 96) },
            h_beta: G2Repr { bytes: copy_range(bytes, 344, 96) },
        };
        proof {
            lemma_le_bytes_of_value(bytes@.subrange(0, 8));
            assert(le_bytes(s.n as nat, 8) =~= bytes@.subrange(0, 8));
            lemma_le_bytes_len(s.n as nat, 8);
            assert(s.wire_bytes() =~= bytes@);
        }
        Ok(s)
    }
}

/// Decoding is the inverse of encoding: two well-formed SRS values with the
/// same canonical encoding agree in every field's content. Together with
/// the contracts of `serialize` and `deserialize` this is the round trip:
/// what `deserialize` returns on `p.serialize()` agrees with `p`.
pub proof fn lemma_wire_round_trip(p: VerifierSRS, s: VerifierSRS)
    requires
        p.wf(),
        s.wf(),
        s.wire_bytes() == p.wire_bytes(),
    ensures
        s.n == p.n,
        s.g.bytes@ == p.g.bytes@,
        s.h.bytes@ == p.h.bytes@,
        s.g_alpha.bytes@ == p.g_alpha.bytes@,
        s.g_beta.bytes@ == p.g_beta.bytes@,
        s.h_alpha.bytes@ == p.h_alpha.bytes@,
        s.h_beta.bytes@ == p.h_beta.bytes@,
{
    lemma_le_bytes_len(p.n as nat, 8);
    lemma_le_bytes_len(s.n as nat, 8);
    assert(p.wire_bytes().subrange(0, 8) =~= le_bytes(p.n as nat, 8));
    assert(s.wire_bytes().subrange(0, 8) =~= le_bytes(s.n as nat, 8));
    lemma_shift_8();
    lemma_le_bytes_value(p.n as nat, 8);
    lemma_le_bytes_value(s.n as nat, 8);
    assert(s.g.bytes@ =~= s.wire_bytes().subrange(8, 56));
    assert(p.g.bytes@ =~= p.wire_bytes().subrange(8, 56));
    assert(s.h.bytes@ =~= s.wire_bytes().subrange(56, 152));
    assert(p.h.bytes@ =~= p.wire_bytes().subrange(56, 152));
    assert(s.g_alpha.bytes@ =~= s.wire_bytes().subrange(152, 200));
    assert(p.g_alpha.bytes@ =~= p.wire_bytes().subrange(152, 200));
    assert(s.g_beta.bytes@ =~= s.wire_bytes().subrange(200, 248));
    assert(p.g_beta.bytes@ =~= p.wire_bytes().subrange(200, 248));
    assert(s.h_alpha.bytes@ =~= s.wire_bytes().subrange(248, 344));
    assert(p.h_alpha.bytes@ =~= p.wire_bytes().subrange(248, 344));
    assert(s.h_beta.bytes@ =~= s.wire_bytes().subrange(344, 440));
    assert(p.h_beta.bytes@ =~= p.wire_bytes().subrange(344, 440));
}

} // verus!
