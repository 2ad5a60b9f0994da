//! The scalar field of BLS12-381, modelled as canonical residues.
//!
//! A `Scalar` holds the four little-endian 64-bit limbs of a fully reduced
//! field element; its mathematical meaning is `value()`, an integer below the
//! field order. The additive and multiplicative structure is stated by the
//! spec functions `fadd`, `fmul` and `fpow`, and the executable operations
//! call into `ark_ff` behind trusted wrappers whose contracts say exactly
//! that: the result is the modular sum or product of the operands.

use vstd::prelude::*;
use vstd::arithmetic::div_mod::{
    lemma_add_mod_noop, lemma_mul_mod_noop_left, lemma_mul_mod_noop_right, lemma_small_mod,
};
use vstd::arithmetic::mul::lemma_mul_is_associative;

verus! {

/// Order of the BLS12-381 scalar field; every `Scalar` is reduced by it.
pub open spec fn scalar_modulus() -> nat {
    0x73eda753299d7d483339d80809a1d80553bda402fffe5bfeffffffff00000001nat
}

/// Sum in the scalar field.
pub open spec fn fadd(a: nat, b: nat) -> nat {
    (a + b) % scalar_modulus()
}

/// Product in the scalar field.
pub open spec fn fmul(a: nat, b: nat) -> nat {
    (a * b) % scalar_modulus()
}

/// Power in the scalar field.
pub open spec fn fpow(a: nat, e: nat) -> nat
    decreases e,
{
    if e == 0 {
        1
    } else {
        fmul(a, fpow(a, (e - 1) as nat))
    }
}

/// A residue is unchanged by a further reduction.
pub proof fn lemma_reduced(a: nat)
    requires
        a < scalar_modulus(),
    ensures
        a % scalar_modulus() == a,
{
    lemma_small_mod(a, scalar_modulus());
}

/// Reducing either factor first does not change a product.
pub proof fn lemma_fmul_noop(a: nat, b: nat)
    ensures
        fmul(a % scalar_modulus(), b) == fmul(a, b),
        fmul(a, b % scalar_modulus()) == fmul(a, b),
{
    lemma_mul_mod_noop_left(a as int, b as int, scalar_modulus() as int);
    lemma_mul_mod_noop_right(a as int, b as int, scalar_modulus() as int);
}

/// Reducing either term first does not change a sum.
pub proof fn lemma_fadd_noop(a: nat, b: nat)
    ensures
        fadd(a % scalar_modulus(), b) == fadd(a, b),
        fadd(a, b % scalar_modulus()) == fadd(a, b),
{
    lemma_add_mod_noop(a as int, b as int, scalar_modulus() as int);
    lemma_reduced(fadd(a, b));
    assert((a % scalar_modulus() + b % scalar_modulus()) % scalar_modulus() == fadd(a, b));
    lemma_add_mod_noop(a as int, (b % scalar_modulus()) as int, scalar_modulus() as int);
    lemma_add_mod_noop((a % scalar_modulus()) as int, b as int, scalar_modulus() as int);
}

/// Field multiplication is associative, and both groupings equal the single
/// reduction of the triple product.
pub proof fn lemma_fmul_assoc(a: nat, b: nat, c: nat)
    ensures
        fmul(fmul(a, b), c) == (a * b * c) % scalar_modulus(),
        fmul(a, fmul(b, c)) == (a * b * c) % scalar_modulus(),
{
    lemma_mul_mod_noop_left((a * b) as int, c as int, scalar_modulus() as int);
    lemma_mul_mod_noop_right(a as int, (b * c) as int, scalar_modulus() as int);
    lemma_mul_is_associative(a as int, b as int, c as int);
}

/// Multiplying by one only reduces.
pub proof fn lemma_fmul_one(a: nat)
    ensures
        fmul(a, 1) == a % scalar_modulus(),
        fmul(1, a) == a % scalar_modulus(),
{
}

/// A power is a reduced residue.
pub proof fn lemma_fpow_bound(a: nat, e: nat)
    ensures
        fpow(a, e) < scalar_modulus(),
{
    if e == 0 {
    } else {
        assert(fpow(a, e) == fmul(a, fpow(a, (e - 1) as nat)));
    }
}

/// Powers of a sum of exponents multiply.
pub proof fn lemma_fpow_add(a: nat, m: nat, n: nat)
    ensures
        fpow(a, m + n) == fmul(fpow(a, m), fpow(a, n)),
    decreases m,
{
    if m == 0 {
        lemma_fpow_bound(a, n);
        lemma_fmul_one(fpow(a, n));
        lemma_reduced(fpow(a, n));
    } else {
        lemma_fpow_add(a, (m - 1) as nat, n);
        lemma_fmul_assoc(a, fpow(a, (m - 1) as nat), fpow(a, n));
        assert(fpow(a, m + n) == fmul(a, fpow(a, (m + n - 1) as nat)));
        assert(fpow(a, (m + n - 1) as nat) == fmul(fpow(a, (m - 1) as nat), fpow(a, n)));
        lemma_mul_mod_noop_right(
            a as int,
            (fpow(a, (m - 1) as nat) * fpow(a, n)) as int,
            scalar_modulus() as int,
        );
        assert(fmul(fpow(a, m), fpow(a, n)) == fmul(fmul(a, fpow(a, (m - 1) as nat)), fpow(a, n)));
    }
}

/// The power of a squared base is the power of the doubled exponent.
pub proof fn lemma_fpow_square(a: nat, e: nat)
    ensures
        fpow(fmul(a, a), e) == fpow(a, 2 * e),
    decreases e,
{
    if e == 0 {
    } else {
        lemma_fpow_square(a, (e - 1) as nat);
        assert(fpow(fmul(a, a), e) == fmul(fmul(a, a), fpow(fmul(a, a), (e - 1) as nat)));
        lemma_fpow_add(a, 2, (2 * e - 2) as nat);
        assert(fpow(a, 0) == 1);
        assert(fpow(a, 1) == fmul(a, 1));
        lemma_fmul_one(a);
        assert(fpow(a, 2) == fmul(a, a % scalar_modulus()));
        lemma_fmul_noop(a, a);
    }
}

/// An element of the BLS12-381 scalar field: the four little-endian 64-bit
/// limbs of its canonical (fully reduced) representative.
#[derive(Clone, Copy, Debug, PartialEq, Eq, Structural)]
pub struct Scalar {
    pub l0: u64,
    pub l1: u64,
    pub l2: u64,
    pub l3: u64,
}

impl Scalar {
    /// The integer this element stands for.
    pub open spec fn value(self) -> nat {
        self.l0 as nat + (self.l1 as nat) * 0x10000000000000000nat
            + (self.l2 as nat) * 0x100000000000000000000000000000000nat
            + (self.l3 as nat) * 0x1000000000000000000000000000000000000000000000000nat
    }

    /// A well-formed element is fully reduced.
    pub open spec fn wf(self) -> bool {
        self.value() < scalar_modulus()
    }

    /// The element with the given small value.
    pub fn from_u64(x: u64) -> (r: Scalar)
        ensures
            r.wf(),
            r.value() == x as nat,
    {
        Scalar { l0: x, l1: 0, l2: 0, l3: 0 }
    }
}

/// Relies on `Add` of `ark_bls12_381::Fr`, with `PrimeField::from_bigint`
/// and `into_bigint` converting the canonical limbs: the result is the sum
/// of the two residues modulo the field order.
#[verifier::external_body]
pub(crate) fn fr_add(a: &Scalar, b: &Scalar) -> (r: Scalar)
    requires
        a.wf(),
        b.wf(),
    ensures
        r.wf(),
        r.value() == fadd(a.value(), b.value()),
{
    let abi = ark_ff::BigInt::new([a.l0, a.l1, a.l2, a.l3]);
    let bbi = ark_ff::BigInt::new([b.l0, b.l1, b.l2, b.l3]);
    let x = <ark_bls12_381::Fr as ark_ff::PrimeField>::from_bigint(abi).unwrap();
    let y = <ark_bls12_381::Fr as ark_ff::PrimeField>::from_bigint(bbi).unwrap();
    let z = ark_ff::PrimeField::into_bigint(x + y).0;
    Scalar { l0: z[0], l1: z[1], l2: z[2], l3: z[3] }
}

/// Relies on `Mul` of `ark_bls12_381::Fr`, with `PrimeField::from_bigint`
/// and `into_bigint` converting the canonical limbs: the result is the
/// product of the two residues modulo the field order.
#[verifier::external_body]
pub(crate) fn fr_mul(a: &Scalar, b: &Scalar) -> (r: Scalar)
    requires
        a.wf(),
        b.wf(),
    ensures
        r.wf(),
        r.value() == fmul(a.value(), b.value()),
{
    let abi = ark_ff::BigInt::new([a.l0, a.l1, a.l2, a.l3]);
    let bbi = ark_ff::BigInt::new([b.l0, b.l1, b.l2, b.l3]);
    let x = <ark_bls12_381::Fr as ark_ff::PrimeField>::from_bigint(abi).unwrap();
    let y = <ark_bls12_381::Fr as ark_ff::PrimeField>::from_bigint(bbi).unwrap();
    let z = ark_ff::PrimeField::into_bigint(x * y).0;
    Scalar { l0: z[0], l1: z[1], l2: z[2], l3: z[3] }
}

} // verus!
