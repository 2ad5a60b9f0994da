//! Structured reference string material: the verifier's fixed-size SRS, the
//! size rules an SRS and a batch must meet, and the halving (folding) of
//! commitment keys during the inner-product argument.
//!
//! A commitment key at position i is a group element whose discrete
//! logarithm is a power of the secret exponent; the folding of such a key is
//! modelled here by its exponents, one residue per position. The key
//! identity of the halving protocol, `lemma_folded_key_is_poly_eval`, states
//! that folding the structured key through the challenge ladder leaves
//! exactly the commitment-key polynomial, read with the challenges reversed,
//! evaluated at the key's exponent.

use vstd::prelude::*;
use vstd::arithmetic::mul::{lemma_mul_equality_converse, lemma_mul_inequality};
use vstd::arithmetic::power2::{lemma2_to64, lemma_pow2_adds, lemma_pow2_pos, lemma_pow2_unfold, pow2};

use crate::codec::copy_range;
use crate::errors::Error;
use crate::field::{
    fadd, fmul, fpow, fr_add, fr_mul, lemma_fadd_noop, lemma_fmul_noop, lemma_fpow_add,
    lemma_fpow_bound, scalar_modulus, Scalar,
};
use crate::prover::{eval_product, lemma_eval_product_push, vals, wf_all};

verus! {

/// Maximum size of the generic SRS assembled from the two public
/// powers-of-tau ceremonies.
pub const MAX_SRS_SIZE: usize = 1048577;

/// A G1 element, held in the curve's canonical compressed encoding of 48
/// bytes. The curve arithmetic on such an element belongs to the curve
/// library; this crate carries the element as plain bytes, which is also
/// its wire format.
#[derive(Debug, PartialEq, Eq)]
pub struct G1Repr {
    pub bytes: Vec<u8>,
}

/// A G2 element, held in the curve's canonical compressed encoding of 96
/// bytes.
#[derive(Debug, PartialEq, Eq)]
pub struct G2Repr {
    pub bytes: Vec<u8>,
}

impl G1Repr {
    /// The encoding has its fixed width.
    pub open spec fn wf(self) -> bool {
        self.bytes@.len() == 48
    }
}

impl G2Repr {
    /// The encoding has its fixed width.
    pub open spec fn wf(self) -> bool {
        self.bytes@.len() == 96
    }
}

/// The elements needed to verify an aggregated Groth16 proof; it is of fixed
/// size regardless of the number of proofs aggregated, but is specialized to
/// that number, recorded in `n`.
pub struct VerifierSRS {
    pub n: usize,
    pub g: G1Repr,
    pub h: G2Repr,
    pub g_alpha: G1Repr,
    pub g_beta: G1Repr,
    pub h_alpha: G2Repr,
    pub h_beta: G2Repr,
}

/// The prover's specialized SRS: the two aligned commitment keys, each of
/// the batch length `n`. V is a pair of G2 sequences whose exponents are
/// the powers `alpha^i` and `beta^i` for `i` below `n`; W is a pair of G1
/// sequences whose exponents are shifted by `n`: `alpha^(n+i)` and
/// `beta^(n+i)`. The shift is structural: it keeps V and W commitments from
/// colliding, and `specialize` states it in its contract.
pub struct ProverSRS {
    pub n: usize,
    pub vkey_a: Vec<G2Repr>,
    pub vkey_b: Vec<G2Repr>,
    pub wkey_a: Vec<G1Repr>,
    pub wkey_b: Vec<G1Repr>,
}

impl ProverSRS {
    /// All four key halves have the batch length, and every element its
    /// full fixed-width encoding.
    pub open spec fn wf(self) -> bool {
        &&& self.vkey_a@.len() == self.n
        &&& self.vkey_b@.len() == self.n
        &&& self.wkey_a@.len() == self.n
        &&& self.wkey_b@.len() == self.n
        &&& forall|i: int| 0 <= i < self.n ==> (#[trigger] self.vkey_a@[i]).wf()
        &&& forall|i: int| 0 <= i < self.n ==> (#[trigger] self.vkey_b@[i]).wf()
        &&& forall|i: int| 0 <= i < self.n ==> (#[trigger] self.wkey_a@[i]).wf()
        &&& forall|i: int| 0 <= i < self.n ==> (#[trigger] self.wkey_b@[i]).wf()
    }
}

/// The generic SRS assembled from a powers-of-tau ceremony: the consecutive
/// powers of the two secret exponents over both source groups, from which
/// an SRS for any admissible batch size is cut.
pub struct GenericSRS {
    pub g_alpha_powers: Vec<G1Repr>,
    pub g_beta_powers: Vec<G1Repr>,
    pub h_alpha_powers: Vec<G2Repr>,
    pub h_beta_powers: Vec<G2Repr>,
}

impl GenericSRS {
    /// Every element carries its full fixed-width encoding.
    pub open spec fn wf(self) -> bool {
        &&& forall|i: int|
            0 <= i < self.g_alpha_powers@.len() ==> (#[trigger] self.g_alpha_powers@[i]).wf()
        &&& forall|i: int|
            0 <= i < self.g_beta_powers@.len() ==> (#[trigger] self.g_beta_powers@[i]).wf()
        &&& forall|i: int|
            0 <= i < self.h_alpha_powers@.len() ==> (#[trigger] self.h_alpha_powers@[i]).wf()
        &&& forall|i: int|
            0 <= i < self.h_beta_powers@.len() ==> (#[trigger] self.h_beta_powers@[i]).wf()
    }

    /// Whether this SRS can be specialized to the given batch size: the
    /// size is an admissible power of two and both G1 power tables reach
    /// the shifted range `[num_proofs, 2 * num_proofs)`.
    pub open spec fn can_specialize(self, num_proofs: nat) -> bool {
        &&& 2 <= num_proofs
        &&& num_proofs <= MAX_SRS_SIZE
        &&& is_power_of_2(num_proofs)
        &&& 2 * num_proofs <= self.g_alpha_powers@.len()
        &&& 2 * num_proofs <= self.g_beta_powers@.len()
        &&& num_proofs <= self.h_alpha_powers@.len()
        &&& num_proofs <= self.h_beta_powers@.len()
    }
}

/// A usable batch size: a power of two.
pub open spec fn is_power_of_2(n: nat) -> bool
    decreases n,
{
    if n == 0 {
        false
    } else if n == 1 {
        true
    } else {
        n % 2 == 0 && is_power_of_2(n / 2)
    }
}

/// Every power of two is a usable batch size.
pub proof fn lemma_pow2_is_power_of_2(k: nat)
    ensures
        is_power_of_2(pow2(k)),
    decreases k,
{
    lemma2_to64();
    if k == 0 {
    } else {
        lemma_pow2_unfold(k);
        lemma_pow2_pos((k - 1) as nat);
        lemma_pow2_is_power_of_2((k - 1) as nat);
        assert(pow2(k) % 2 == 0);
        assert(pow2(k) / 2 == pow2((k - 1) as nat));
    }
}

/// The usable batch sizes are exactly the powers of two: what `validate`
/// accepts is what the halving ladder of `fold_commitment_key` consumes.
pub proof fn lemma_power_of_2_iff(n: nat)
    ensures
        is_power_of_2(n) <==> exists|k: nat| n == pow2(k),
    decreases n,
{
    lemma2_to64();
    if exists|k: nat| n == pow2(k) {
        let k = choose|k: nat| n == pow2(k);
        lemma_pow2_is_power_of_2(k);
    }
    if is_power_of_2(n) {
        if n == 1 {
            assert(n == pow2(0));
        } else {
            lemma_power_of_2_iff(n / 2);
            let k = choose|k: nat| n / 2 == pow2(k);
            lemma_pow2_unfold((k + 1) as nat);
            assert(n == pow2((k + 1) as nat));
        }
    }
}

/// Whether `n` is a power of two.
pub fn is_power_of_two(n: usize) -> (b: bool)
    ensures
        b == is_power_of_2(n as nat),
{
    if n == 0 {
        return false;
    }
    let mut m: usize = n;
    while m > 1
        invariant
            m >= 1,
            is_power_of_2(n as nat) == is_power_of_2(m as nat),
        decreases m,
    {
        if m % 2 != 0 {
            return false;
        }
        m = m / 2;
    }
    true
}

impl VerifierSRS {
    /// A structurally valid SRS: specialized to a power of two of at least
    /// two proofs, within the ceremony's capacity.
    pub open spec fn valid(self) -> bool {
        2 <= self.n && self.n <= MAX_SRS_SIZE && is_power_of_2(self.n as nat)
    }

    /// Every group element carries its full fixed-width encoding.
    pub open spec fn wf(self) -> bool {
        self.g.wf() && self.h.wf() && self.g_alpha.wf() && self.g_beta.wf()
            && self.h_alpha.wf() && self.h_beta.wf()
    }

    /// Refuses an SRS whose size is below the minimum, above the ceremony's
    /// capacity, or not a power of two.
    pub fn validate(&self) -> (r: Result<(), Error>)
        ensures
            match r {
                Ok(_) => self.valid(),
                Err(e) => !self.valid() && e == Error::InvalidSrs,
            },
    {
        if self.n < 2 || self.n > MAX_SRS_SIZE || !is_power_of_two(self.n) {
            Err(Error::InvalidSrs)
        } else {
            Ok(())
        }
    }
}

/// A copy of element `i` of a G1 table.
fn g1_at(v: &Vec<G1Repr>, i: usize) -> (out: G1Repr)
    requires
        i < v@.len(),
    ensures
        out.bytes@ == v@[i as int].bytes@,
{
    let src = &v[i];
    let len = src.bytes.len();
    let b = copy_range(&src.bytes, 0, len);
    proof {
        assert(v@[i as int].bytes@.subrange(0, v@[i as int].bytes@.len() as int) =~= v@[
            i as int
        ].bytes@);
    }
    G1Repr { bytes: b }
}

/// A copy of element `i` of a G2 table.
fn g2_at(v: &Vec<G2Repr>, i: usize) -> (out: G2Repr)
    requires
        i < v@.len(),
    ensures
        out.bytes@ == v@[i as int].bytes@,
{
    let src = &v[i];
    let len = src.bytes.len();
    let b = copy_range(&src.bytes, 0, len);
    proof {
        assert(v@[i as int].bytes@.subrange(0, v@[i as int].bytes@.len() as int) =~= v@[
            i as int
        ].bytes@);
    }
    G2Repr { bytes: b }
}

/// A copy of `count` elements of a G1 table starting at `start`.
fn g1_slice(v: &Vec<G1Repr>, start: usize, count: usize) -> (out: Vec<G1Repr>)
    requires
        start + count <= v@.len(),
    ensures
        out@.len() == count,
        forall|i: int| 0 <= i < count ==> (#[trigger] out@[i]).bytes@ == v@[start + i].bytes@,
{
    let mut out: Vec<G1Repr> = Vec::new();
    let mut i: usize = 0;
    while i < count
        invariant
            0 <= i <= count,
            start + count <= v@.len(),
            out@.len() == i,
            forall|j: int| 0 <= j < i ==> (#[trigger] out@[j]).bytes@ == v@[start + j].bytes@,
        decreases count - i,
    {
        let vlen = v.len();
        assert(start + i < vlen);
        let e = g1_at(v, start + i);
        out.push(e);
        i = i + 1;
    }
    out
}

/// A copy of `count` elements of a G2 table starting at `start`.
fn g2_slice(v: &Vec<G2Repr>, start: usize, count: usize) -> (out: Vec<G2Repr>)
    requires
        start + count <= v@.len(),
    ensures
        out@.len() == count,
        forall|i: int| 0 <= i < count ==> (#[trigger] out@[i]).bytes@ == v@[start + i].bytes@,
{
    let mut out: Vec<G2Repr> = Vec::new();
    let mut i: usize = 0;
    while i < count
        invariant
            0 <= i <= count,
            start + count <= v@.len(),
            out@.len() == i,
            forall|j: int| 0 <= j < i ==> (#[trigger] out@[j]).bytes@ == v@[start + j].bytes@,
        decreases count - i,
    {
        let vlen = v.len();
        assert(start + i < vlen);
        let e = g2_at(v, start + i);
        out.push(e);
        i = i + 1;
    }
    out
}

impl GenericSRS {
    /// Cuts the SRS for a batch of `num_proofs`: the V keys are the first
    /// `num_proofs` G2 powers, the W keys are the G1 powers shifted by
    /// `num_proofs`, and the verifier's fixed-size SRS takes the zeroth
    /// and first power of each table.
    pub fn specialize(&self, num_proofs: usize) -> (r: Result<(ProverSRS, VerifierSRS), Error>)
        requires
            self.wf(),
        ensures
            match r {
                Ok(pair) => {
                    &&& self.can_specialize(num_proofs as nat)
                    &&& pair.0.wf()
                    &&& pair.1.wf()
                    &&& pair.1.valid()
                    &&& pair.0.n == num_proofs
                    &&& pair.1.n == num_proofs
                    &&& forall|i: int|
                        0 <= i < num_proofs ==> (#[trigger] pair.0.vkey_a@[i]).bytes@
                            == self.h_alpha_powers@[i].bytes@
                    &&& forall|i: int|
                        0 <= i < num_proofs ==> (#[trigger] pair.0.vkey_b@[i]).bytes@
                            == self.h_beta_powers@[i].bytes@
                    &&& forall|i: int|
                        0 <= i < num_proofs ==> (#[trigger] pair.0.wkey_a@[i]).bytes@
                            == self.g_alpha_powers@[num_proofs + i].bytes@
                    &&& forall|i: int|
                        0 <= i < num_proofs ==> (#[trigger] pair.0.wkey_b@[i]).bytes@
                            == self.g_beta_powers@[num_proofs + i].bytes@
                    &&& pair.1.g.bytes@ == self.g_alpha_powers@[0].bytes@
                    &&& pair.1.g_alpha.bytes@ == self.g_alpha_powers@[1].bytes@
                    &&& pair.1.g_beta.bytes@ == self.g_beta_powers@[1].bytes@
                    &&& pair.1.h.bytes@ == self.h_alpha_powers@[0].bytes@
                    &&& pair.1.h_alpha.bytes@ == self.h_alpha_powers@[1].bytes@
                    &&& pair.1.h_beta.bytes@ == self.h_beta_powers@[1].bytes@
                },
                Err(e) => e == Error::InvalidSrs && !self.can_specialize(num_proofs as nat),
            },
    {
        if num_proofs < 2 || num_proofs > MAX_SRS_SIZE || !is_power_of_two(num_proofs) {
            return Err(Error::InvalidSrs);
        }
        let two_n = 2 * num_proofs;
        if self.g_alpha_powers.len() < two_n || self.g_beta_powers.len() < two_n
            || self.h_alpha_powers.len() < num_proofs || self.h_beta_powers.len() < num_proofs {
            return Err(Error::InvalidSrs);
        }
        let pk = ProverSRS {
            n: num_proofs,
            vkey_a: g2_slice(&self.h_alpha_powers, 0, num_proofs),
            vkey_b: g2_slice(&self.h_beta_powers, 0, num_proofs),
            wkey_a: g1_slice(&self.g_alpha_powers, num_proofs, num_proofs),
            wkey_b: g1_slice(&self.g_beta_powers, num_proofs, num_proofs),
        };
        let vk = VerifierSRS {
            n: num_proofs,
            g: g1_at(&self.g_alpha_powers, 0),
            h: g2_at(&self.h_alpha_powers, 0),
            g_alpha: g1_at(&self.g_alpha_powers, 1),
            g_beta: g1_at(&self.g_beta_powers, 1),
            h_alpha: g2_at(&self.h_alpha_powers, 1),
            h_beta: g2_at(&self.h_beta_powers, 1),
        };
        Ok((pk, vk))
    }
}

/// Refuses a batch whose size differs from the SRS specialization size.
pub fn check_batch_size(nproofs: usize, srs_n: usize) -> (r: Result<(), Error>)
    ensures
        match r {
            Ok(_) => nproofs == srs_n,
            Err(e) => nproofs != srs_n && e == Error::BatchSizeMismatch,
        },
{
    if nproofs == srs_n {
        Ok(())
    } else {
        Err(Error::BatchSizeMismatch)
    }
}

/// One halving round over the key's exponents: position i of the shorter key
/// folds the left half entry with the challenge-scaled right half entry.
pub open spec fn fold_step(v: Seq<nat>, x: nat) -> Seq<nat> {
    Seq::new(v.len() / 2, |i: int| fadd(v[i], fmul(x, v[i + v.len() / 2])))
}

/// All halving rounds, first challenge first.
pub open spec fn fold_all(v: Seq<nat>, xs: Seq<nat>) -> Seq<nat>
    decreases xs.len(),
{
    if xs.len() == 0 {
        v
    } else {
        fold_all(fold_step(v, xs[0]), xs.drop_first())
    }
}

/// The exponents of a structured key: `(1, a, a^2, ..., a^(n-1))`.
pub open spec fn powers(a: nat, n: nat) -> Seq<nat> {
    Seq::new(n, |i: int| fpow(a, i as nat))
}

/// Every entry multiplied by a common factor.
pub open spec fn scale(c: nat, v: Seq<nat>) -> Seq<nat> {
    v.map(|i: int, e: nat| fmul(c, e))
}

/// Folding once more at the end of the ladder folds the folded key.
pub proof fn lemma_fold_all_push(v: Seq<nat>, xs: Seq<nat>, x: nat)
    ensures
        fold_all(v, xs.push(x)) == fold_step(fold_all(v, xs), x),
    decreases xs.len(),
{
    if xs.len() == 0 {
        assert(xs.push(x)[0] == x);
        assert(xs.push(x).drop_first().len() == 0);
        assert(fold_all(fold_step(v, x), xs.push(x).drop_first()) == fold_step(v, x));
    } else {
        assert(xs.push(x)[0] == xs[0]);
        assert(xs.push(x).drop_first() =~= xs.drop_first().push(x));
        lemma_fold_all_push(fold_step(v, xs[0]), xs.drop_first(), x);
    }
}

/// Folding a structured key scales the half-length structured key by the
/// round's factor `1 + x * a^m`.
proof fn lemma_fold_step_powers(a: nat, m: nat, x: nat)
    ensures
        fold_step(powers(a, 2 * m), x) =~= scale(
            fadd(1, fmul(x, fpow(a, m))),
            powers(a, m),
        ),
{
    let q = scalar_modulus();
    let c = fpow(a, m);
    let t = fadd(1, fmul(x, c));
    assert forall|i: int| 0 <= i < m implies fold_step(powers(a, 2 * m), x)[i] == scale(
        t,
        powers(a, m),
    )[i] by {
        let vi = fpow(a, i as nat);
        let vj = fpow(a, (i + m) as nat);
        lemma_fpow_bound(a, i as nat);
        lemma_fpow_bound(a, m);
        lemma_fpow_add(a, i as nat, m);
        assert(vj == fmul(vi, c));
        lemma_fmul_noop(x, vi * c);
        assert(fmul(x, vj) == (x * (vi * c)) % q);
        lemma_fadd_noop(vi, x * (vi * c));
        assert(fadd(vi, fmul(x, vj)) == (vi + x * (vi * c)) % q);
        lemma_fadd_noop(1, x * c);
        assert(t == (1 + x * c) % q);
        lemma_fmul_noop(1 + x * c, vi);
        assert(fmul(t, vi) == ((1 + x * c) * vi) % q);
        assert(vi + x * (vi * c) == (1 + x * c) * vi) by (nonlinear_arith);
        assert(fold_step(powers(a, 2 * m), x)[i] == fadd(vi, fmul(x, vj)));
        assert(scale(t, powers(a, m))[i] == fmul(t, vi));
    }
}

/// A common factor passes through a halving round.
proof fn lemma_fold_step_scale(c: nat, v: Seq<nat>, x: nat)
    ensures
        fold_step(scale(c, v), x) =~= scale(c, fold_step(v, x)),
{
    let q = scalar_modulus();
    let h = v.len() / 2;
    assert(scale(c, v).len() == v.len());
    assert forall|i: int| 0 <= i < h implies fold_step(scale(c, v), x)[i] == scale(
        c,
        fold_step(v, x),
    )[i] by {
        let vi = v[i];
        let vj = v[i + h];
        assert(fold_step(scale(c, v), x)[i] == fadd(fmul(c, vi), fmul(x, fmul(c, vj))));
        assert(scale(c, fold_step(v, x))[i] == fmul(c, fadd(vi, fmul(x, vj))));
        lemma_fmul_noop(x, c * vj);
        assert(fmul(x, fmul(c, vj)) == (x * (c * vj)) % q);
        lemma_fadd_noop(c * vi, x * (c * vj));
        lemma_fadd_noop((c * vi) % q, x * (c * vj));
        assert(fadd(fmul(c, vi), fmul(x, fmul(c, vj))) == (c * vi + x * (c * vj)) % q);
        lemma_fmul_noop(x, vj);
        lemma_fadd_noop(vi, x * vj);
        assert(fadd(vi, fmul(x, vj)) == (vi + x * vj) % q);
        lemma_fmul_noop(c, vi + x * vj);
        assert(fmul(c, fadd(vi, fmul(x, vj))) == (c * (vi + x * vj)) % q);
        assert(c * vi + x * (c * vj) == c * (vi + x * vj)) by (nonlinear_arith);
    }
}

/// A common factor passes through the whole ladder.
proof fn lemma_fold_all_scale(c: nat, v: Seq<nat>, xs: Seq<nat>)
    ensures
        fold_all(scale(c, v), xs) == scale(c, fold_all(v, xs)),
    decreases xs.len(),
{
    if xs.len() == 0 {
    } else {
        lemma_fold_step_scale(c, v, xs[0]);
        assert(fold_step(scale(c, v), xs[0]) == scale(c, fold_step(v, xs[0])));
        lemma_fold_all_scale(c, fold_step(v, xs[0]), xs.drop_first());
    }
}

/// Key-halving identity: after all rounds of folding the structured key
/// `(1, a, ..., a^(2^k - 1))` with the challenges `(x_1, ..., x_k)`, the
/// single remaining exponent is the commitment-key polynomial built from
/// the reversed challenge order, evaluated at `a`. The verifier therefore
/// never rebuilds the folded key: it evaluates the product form instead.
pub proof fn lemma_folded_key_is_poly_eval(a: nat, xs: Seq<nat>)
    ensures
        fold_all(powers(a, pow2(xs.len())), xs) =~= seq![eval_product(xs.reverse(), a)],
    decreases xs.len(),
{
    lemma2_to64();
    if xs.len() == 0 {
        assert(pow2(0) == 1);
        assert(powers(a, 1).len() == 1);
        assert(powers(a, 1)[0] == fpow(a, 0));
        assert(xs.reverse().len() == 0);
        assert(eval_product(xs.reverse(), a) == 1);
    } else {
        let k = xs.len();
        let m = pow2((k - 1) as nat);
        lemma_pow2_unfold(k);
        assert(pow2(k) == 2 * m);
        let x0 = xs[0];
        let c1 = fadd(1, fmul(x0, fpow(a, m)));
        lemma_fold_step_powers(a, m, x0);
        assert(fold_step(powers(a, 2 * m), x0) == scale(c1, powers(a, m)));
        lemma_fold_all_scale(c1, powers(a, m), xs.drop_first());
        lemma_folded_key_is_poly_eval(a, xs.drop_first());
        let e = eval_product(xs.drop_first().reverse(), a);
        assert(fold_all(powers(a, m), xs.drop_first()) == seq![e]);
        assert(fold_all(powers(a, pow2(k)), xs) == scale(c1, seq![e]));
        assert(scale(c1, seq![e]) =~= seq![fmul(c1, e)]);
        assert(xs.reverse() =~= xs.drop_first().reverse().push(x0));
        lemma_eval_product_push(xs.drop_first().reverse(), x0, a);
        assert(xs.drop_first().reverse().len() == k - 1);
        assert(eval_product(xs.reverse(), a) == fmul(e, c1));
        assert(e * c1 == c1 * e);
        assert(fmul(e, c1) == fmul(c1, e));
    }
}

/// One halving round of a commitment key held by its exponents.
pub fn fold_key_round(v: &Vec<Scalar>, x: &Scalar) -> (out: Vec<Scalar>)
    requires
        wf_all(v@),
        x.wf(),
        v.len() % 2 == 0,
    ensures
        out@.len() == v@.len() / 2,
        wf_all(out@),
        vals(out@) == fold_step(vals(v@), x.value()),
{
    let half = v.len() / 2;
    let mut out: Vec<Scalar> = Vec::new();
    let mut i: usize = 0;
    while i < half
        invariant
            0 <= i <= half,
            half == v@.len() / 2,
            v.len() % 2 == 0,
            wf_all(v@),
            x.wf(),
            out@.len() == i,
            wf_all(out@),
            forall|j: int|
                0 <= j < i ==> (#[trigger] out@[j]).value() == fadd(
                    v@[j].value(),
                    fmul(x.value(), v@[j + half].value()),
                ),
        decreases half - i,
    {
        assert(v@[i as int].wf() && v@[i + half].wf());
        let scaled = fr_mul(x, &v[i + half]);
        let folded = fr_add(&v[i], &scaled);
        out.push(folded);
        i = i + 1;
    }
    proof {
        assert(vals(out@) =~= fold_step(vals(v@), x.value()));
    }
    out
}

/// Folds a commitment key, held by its exponents, through the whole
/// challenge ladder, first challenge first. The key must hold exactly
/// `2^k` entries for the `k` challenges; any other length is refused.
/// The caller hands in the scalar proper to the side being folded: the
/// argument's values fold with each round's challenge itself, the V keys
/// with its inverse, and the W keys with the challenge again, which is
/// what keeps the final commitment verifiable.
pub fn fold_commitment_key(v: &Vec<Scalar>, challenges: &Vec<Scalar>) -> (r: Result<
    Scalar,
    Error,
>)
    requires
        wf_all(v@),
        wf_all(challenges@),
    ensures
        match r {
            Ok(s) => {
                &&& v@.len() == pow2(challenges@.len())
                &&& s.wf()
                &&& seq![s.value()] == fold_all(vals(v@), vals(challenges@))
            },
            Err(e) => v@.len() != pow2(challenges@.len()) && e == Error::InvalidSrs,
        },
{
    proof {
        lemma2_to64();
    }
    let mut cur: Vec<Scalar> = Vec::new();
    let mut i: usize = 0;
    while i < v.len()
        invariant
            0 <= i <= v@.len(),
            cur@ =~= v@.take(i as int),
            wf_all(v@),
        decreases v@.len() - i,
    {
        cur.push(v[i]);
        i = i + 1;
    }
    proof {
        assert(cur@ =~= v@);
    }
    let mut k: usize = 0;
    while k < challenges.len()
        invariant
            0 <= k <= challenges@.len(),
            wf_all(v@),
            wf_all(challenges@),
            wf_all(cur@),
            vals(cur@) == fold_all(vals(v@), vals(challenges@.take(k as int))),
            cur@.len() * pow2(k as nat) == v@.len(),
        decreases challenges@.len() - k,
    {
        if cur.len() < 2 || cur.len() % 2 != 0 {
            proof {
                lemma_pow2_pos(k as nat);
                if v@.len() == pow2(challenges@.len()) {
                    lemma_pow2_adds(k as nat, (challenges@.len() - k) as nat);
                    assert(pow2(challenges@.len()) == pow2(k as nat) * pow2(
                        (challenges@.len() - k) as nat,
                    ));
                    assert(pow2(k as nat) * cur@.len() == cur@.len() * pow2(k as nat))
                        by (nonlinear_arith);
                    lemma_mul_equality_converse(
                        pow2(k as nat) as int,
                        cur@.len() as int,
                        pow2((challenges@.len() - k) as nat) as int,
                    );
                    lemma_pow2_unfold((challenges@.len() - k) as nat);
                    lemma_pow2_pos((challenges@.len() - k - 1) as nat);
                    assert(false);
                }
            }
            return Err(Error::InvalidSrs);
        }
        assert(challenges@[k as int].wf());
        let x = challenges[k];
        let next = fold_key_round(&cur, &x);
        proof {
            let pre = vals(challenges@.take(k as int));
            assert(vals(challenges@.take(k as int + 1)) =~= pre.push(
                challenges@[k as int].value(),
            ));
            lemma_fold_all_push(vals(v@), pre, challenges@[k as int].value());
            lemma_pow2_unfold((k + 1) as nat);
            assert(next@.len() * (2 * pow2(k as nat)) == (next@.len() * 2) * pow2(k as nat))
                by (nonlinear_arith);
        }
        cur = next;
        k = k + 1;
    }
    proof {
        assert(challenges@.take(challenges@.len() as int) =~= challenges@);
    }
    if cur.len() != 1 {
        proof {
            lemma_pow2_pos(challenges@.len());
            if cur@.len() == 0 {
                assert(v@.len() == 0);
            } else {
                lemma_mul_inequality(2, cur@.len() as int, pow2(challenges@.len()) as int);
                assert(v@.len() >= 2 * pow2(challenges@.len()));
            }
        }
        return Err(Error::InvalidSrs);
    }
    let s = cur[0];
    proof {
        assert(cur@.len() == 1);
        assert(1 * pow2(challenges@.len()) == pow2(challenges@.len()));
        assert(v@.len() == pow2(challenges@.len()));
        assert(vals(cur@) == fold_all(vals(v@), vals(challenges@)));
        assert(vals(cur@).len() == 1);
        assert(vals(cur@)[0] == cur@[0].value());
        assert(seq![s.value()] =~= vals(cur@));
    }
    Ok(s)
}

} // verus!
