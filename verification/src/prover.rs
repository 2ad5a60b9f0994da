//! Prover- and verifier-side scalar computations: the O(log n) product-form
//! evaluation of the commitment-key polynomial and the structured scalar
//! powers of the random linear combination.
//!
//! The sequence of halving challenges (x_1, ..., x_k) of the inner-product
//! argument defines the polynomial f(X) = prod_j (1 + x_{k-j} X^(2^j)). The
//! verifier never materialises f's 2^k coefficients: it evaluates the product
//! form in O(k). `lemma_eval_product_matches_expansion` proves that the two
//! readings agree for every challenge vector and every point.

use vstd::prelude::*;
use vstd::arithmetic::power2::{lemma2_to64, lemma_pow2_unfold, pow2};

use crate::field::{
    fadd, fmul, fpow, fr_add, fr_mul, lemma_fadd_noop, lemma_fmul_assoc, lemma_fmul_noop,
    lemma_fmul_one, lemma_fpow_add, lemma_fpow_bound, lemma_fpow_square, lemma_reduced,
    scalar_modulus, Scalar,
};

verus! {

/// The values of a sequence of field elements.
pub open spec fn vals(s: Seq<Scalar>) -> Seq<nat> {
    s.map(|i: int, x: Scalar| x.value())
}

/// Every element of the sequence is fully reduced.
pub open spec fn wf_all(s: Seq<Scalar>) -> bool {
    forall|i: int| 0 <= i < s.len() ==> (#[trigger] s[i]).wf()
}

/// The product `prod_j (1 + xs[j] * zr^(2^j))` over the scalar field: the
/// closed form of the commitment-key polynomial at the point `zr`, taking
/// the challenges in the order they are paired with the squared powers.
pub open spec fn eval_product(xs: Seq<nat>, zr: nat) -> nat
    decreases xs.len(),
{
    if xs.len() == 0 {
        1
    } else {
        fmul(fadd(1, fmul(xs[0], zr)), eval_product(xs.drop_first(), fmul(zr, zr)))
    }
}

/// Appending a challenge multiplies the product by one more factor, whose
/// power of the point is `2^(xs.len())`.
pub proof fn lemma_eval_product_push(xs: Seq<nat>, x: nat, zr: nat)
    ensures
        eval_product(xs.push(x), zr) == fmul(
            eval_product(xs, zr),
            fadd(1, fmul(x, fpow(zr, pow2(xs.len())))),
        ),
    decreases xs.len(),
{
    lemma2_to64();
    if xs.len() == 0 {
        let s1 = xs.push(x);
        assert(s1[0] == x);
        assert(s1.drop_first().len() == 0);
        assert(eval_product(s1.drop_first(), fmul(zr, zr)) == 1);
        let t = fadd(1, fmul(x, zr));
        lemma_fmul_one(t);
        lemma_reduced(t);
        assert(eval_product(s1, zr) == t);
        assert(fpow(zr, 0) == 1);
        assert(fpow(zr, 1) == fmul(zr, 1));
        lemma_fmul_one(zr);
        lemma_fmul_noop(x, zr);
        assert(fmul(x, fpow(zr, pow2(0))) == fmul(x, zr));
        let t2 = fadd(1, fmul(x, fpow(zr, pow2(0))));
        lemma_fmul_one(t2);
        lemma_reduced(t2);
    } else {
        let h = fadd(1, fmul(xs[0], zr));
        assert(xs.push(x).drop_first() =~= xs.drop_first().push(x));
        assert(xs.push(x)[0] == xs[0]);
        lemma_eval_product_push(xs.drop_first(), x, fmul(zr, zr));
        let ep = eval_product(xs.drop_first(), fmul(zr, zr));
        lemma_fpow_square(zr, pow2((xs.len() - 1) as nat));
        lemma_pow2_unfold(xs.len());
        assert(fpow(fmul(zr, zr), pow2((xs.len() - 1) as nat)) == fpow(zr, pow2(xs.len())));
        let t = fadd(1, fmul(x, fpow(zr, pow2(xs.len()))));
        assert(eval_product(xs.push(x), zr) == fmul(h, fmul(ep, t)));
        lemma_fmul_assoc(h, ep, t);
        assert(eval_product(xs, zr) == fmul(h, ep));
    }
}

/// Evaluation of the polynomial `prod_j (1 + xs[j] * (z * r_shift)^(2^j))` at
/// the point `z`, shifted by `r_shift`, in one field operation pair per
/// challenge. `xs` holds the halving challenges in reversed order; pairing
/// the first entry with the first power makes the O(log n) evaluation
/// correct, as `lemma_eval_product_matches_expansion` states.
pub fn polynomial_evaluation_product_form_from_transcript(
    transcript: &Vec<Scalar>,
    z: &Scalar,
    r_shift: &Scalar,
) -> (res: Scalar)
    requires
        transcript.len() >= 1,
        wf_all(transcript@),
        z.wf(),
        r_shift.wf(),
    ensures
        res.wf(),
        res.value() == eval_product(vals(transcript@), fmul(z.value(), r_shift.value())),
{
    let ghost zr0: nat = fmul(z.value(), r_shift.value());
    let mut power_zr = fr_mul(z, r_shift);
    let one = Scalar::from_u64(1);
    assert(transcript@[0].wf());
    let t0 = fr_mul(&transcript[0], &power_zr);
    let mut res = fr_add(&one, &t0);
    let mut i: usize = 1;
    proof {
        lemma2_to64();
        assert(fpow(zr0, 0) == 1);
        assert(fpow(zr0, 1) == fmul(zr0, 1));
        lemma_fmul_one(zr0);
        lemma_reduced(zr0);
        let s1 = vals(transcript@.take(1));
        assert(s1.len() == 1);
        assert(s1[0] == transcript@[0].value());
        assert(s1.drop_first().len() == 0);
        assert(eval_product(s1.drop_first(), fmul(zr0, zr0)) == 1);
        let h = fadd(1, fmul(transcript@[0].value(), zr0));
        assert(eval_product(s1, zr0) == fmul(h, 1));
        lemma_fmul_one(h);
        lemma_reduced(h);
    }
    while i < transcript.len()
        invariant
            1 <= i <= transcript.len(),
            wf_all(transcript@),
            power_zr.wf(),
            res.wf(),
            one.wf(),
            one.value() == 1,
            zr0 < scalar_modulus(),
            power_zr.value() == fpow(zr0, pow2((i - 1) as nat)),
            res.value() == eval_product(vals(transcript@.take(i as int)), zr0),
        decreases transcript.len() - i,
    {
        proof {
            lemma_fpow_add(zr0, pow2((i - 1) as nat), pow2((i - 1) as nat));
            lemma_pow2_unfold(i as nat);
        }
        power_zr = fr_mul(&power_zr, &power_zr);
        assert(transcript@[i as int].wf());
        let ti = fr_mul(&transcript[i], &power_zr);
        let term = fr_add(&one, &ti);
        proof {
            let pre = vals(transcript@.take(i as int));
            assert(pre.len() == i);
            assert(vals(transcript@.take(i as int + 1)) =~= pre.push(
                transcript@[i as int].value(),
            ));
            lemma_eval_product_push(pre, transcript@[i as int].value(), zr0);
        }
        res = fr_mul(&res, &term);
        i = i + 1;
    }
    proof {
        assert(transcript@.take(transcript@.len() as int) =~= transcript@);
    }
    res
}

/// The coefficient sequence of a polynomial `g(X^2)` multiplied by
/// `(1 + x * X)`: entries of `g` at even positions, their `x`-multiples at
/// odd positions.
pub open spec fn interleave(g: Seq<nat>, x: nat) -> Seq<nat> {
    Seq::new(
        2 * g.len(),
        |i: int|
            if i % 2 == 0 {
                g[i / 2]
            } else {
                fmul(x, g[i / 2])
            },
    )
}

/// The 2^k coefficients of the expanded polynomial
/// `f(X) = prod_j (1 + xs[j] * X^(2^j))`.
pub open spec fn poly_coeffs(xs: Seq<nat>) -> Seq<nat>
    decreases xs.len(),
{
    if xs.len() == 0 {
        seq![1nat]
    } else {
        interleave(poly_coeffs(xs.drop_first()), xs[0])
    }
}

/// Evaluation of a coefficient sequence at `z`, lowest coefficient first,
/// one coefficient at a time.
pub open spec fn eval_coeffs(c: Seq<nat>, z: nat) -> nat
    decreases c.len(),
{
    if c.len() == 0 {
        0
    } else {
        fadd(c[0], fmul(z, eval_coeffs(c.drop_first(), z)))
    }
}

/// Every expanded coefficient is a reduced residue.
pub proof fn lemma_poly_coeffs_reduced(xs: Seq<nat>)
    ensures
        forall|i: int|
            0 <= i < poly_coeffs(xs).len() ==> #[trigger] poly_coeffs(xs)[i] < scalar_modulus(),
    decreases xs.len(),
{
    if xs.len() == 0 {
    } else {
        lemma_poly_coeffs_reduced(xs.drop_first());
        let g = poly_coeffs(xs.drop_first());
        assert(poly_coeffs(xs) == interleave(g, xs[0]));
        assert forall|i: int|
            0 <= i < poly_coeffs(xs).len() implies #[trigger] poly_coeffs(xs)[i]
            < scalar_modulus() by {
            assert(0 <= i / 2 < g.len());
            if i % 2 == 0 {
                assert(poly_coeffs(xs)[i] == g[i / 2]);
            } else {
                assert(poly_coeffs(xs)[i] == fmul(xs[0], g[i / 2]));
            }
        }
    }
}

/// An evaluation is a reduced residue.
pub proof fn lemma_eval_coeffs_bound(c: Seq<nat>, z: nat)
    ensures
        eval_coeffs(c, z) < scalar_modulus(),
{
    if c.len() == 0 {
    } else {
        assert(eval_coeffs(c, z) == fadd(c[0], fmul(z, eval_coeffs(c.drop_first(), z))));
    }
}

/// Evaluating the interleaved coefficients at `z` is evaluating `g` at `z^2`
/// and multiplying by `(1 + x * z)`.
proof fn lemma_interleave_eval(g: Seq<nat>, x: nat, z: nat)
    requires
        forall|i: int| 0 <= i < g.len() ==> #[trigger] g[i] < scalar_modulus(),
    ensures
        eval_coeffs(interleave(g, x), z) == fmul(
            fadd(1, fmul(x, z)),
            eval_coeffs(g, fmul(z, z)),
        ),
    decreases g.len(),
{
    let q = scalar_modulus();
    let t = fadd(1, fmul(x, z));
    if g.len() == 0 {
        assert(interleave(g, x).len() == 0);
        assert(eval_coeffs(interleave(g, x), z) == 0);
        assert(t * 0 == 0);
        assert(fmul(t, 0) == 0) by {
            lemma_reduced(0);
        }
    } else {
        let g0 = g[0];
        let c = interleave(g, x);
        let cd = c.drop_first();
        assert(c.len() == 2 * g.len());
        assert(c[0] == g0);
        assert(c[1] == fmul(x, g0));
        assert(cd[0] == fmul(x, g0));
        assert(cd.drop_first() =~= interleave(g.drop_first(), x));
        lemma_interleave_eval(g.drop_first(), x, z);
        let e = eval_coeffs(g.drop_first(), fmul(z, z));
        lemma_eval_coeffs_bound(g.drop_first(), fmul(z, z));
        // Flatten the left-hand side to a single reduction.
        lemma_fadd_noop(1, x * z);
        assert(t == (1 + x * z) % q);
        lemma_fmul_noop(1 + x * z, e);
        assert(fmul(t, e) == ((1 + x * z) * e) % q);
        lemma_fmul_noop(z, (1 + x * z) * e);
        assert(fmul(z, fmul(t, e)) == (z * ((1 + x * z) * e)) % q);
        lemma_fadd_noop(x * g0, z * ((1 + x * z) * e));
        lemma_fadd_noop((x * g0) % q, z * ((1 + x * z) * e));
        assert(fadd(fmul(x, g0), fmul(z, fmul(t, e))) == (x * g0 + z * ((1 + x * z) * e)) % q);
        lemma_fmul_noop(z, x * g0 + z * ((1 + x * z) * e));
        assert(fmul(z, fadd(fmul(x, g0), fmul(z, fmul(t, e))))
            == (z * (x * g0 + z * ((1 + x * z) * e))) % q);
        lemma_fadd_noop(g0, z * (x * g0 + z * ((1 + x * z) * e)));
        assert(eval_coeffs(cd, z) == fadd(fmul(x, g0), fmul(z, fmul(t, e))));
        assert(eval_coeffs(c, z) == (g0 + z * (x * g0 + z * ((1 + x * z) * e))) % q);
        // Flatten the right-hand side to a single reduction.
        lemma_fmul_noop(z * z, e);
        assert(fmul(fmul(z, z), e) == (z * z * e) % q);
        lemma_fadd_noop(g0, z * z * e);
        assert(eval_coeffs(g, fmul(z, z)) == (g0 + z * z * e) % q);
        lemma_fmul_noop(1 + x * z, (g0 + z * z * e) % q);
        lemma_fmul_noop((1 + x * z), g0 + z * z * e);
        assert(fmul(t, eval_coeffs(g, fmul(z, z))) == ((1 + x * z) * (g0 + z * z * e)) % q);
        // The two raw integers agree by ring reasoning alone.
        assert(g0 + z * (x * g0 + z * ((1 + x * z) * e)) == (1 + x * z) * (g0 + z * z * e))
            by (nonlinear_arith);
    }
}

/// The O(k) product form of `f` and its expanded degree-(2^k - 1)
/// coefficient sequence evaluate to the same residue at every point: the
/// verifier's cheap evaluation computes exactly the polynomial the prover's
/// challenges define.
pub proof fn lemma_eval_product_matches_expansion(xs: Seq<nat>, zr: nat)
    ensures
        eval_product(xs, zr) == eval_coeffs(poly_coeffs(xs), zr),
    decreases xs.len(),
{
    if xs.len() == 0 {
        let c = poly_coeffs(xs);
        assert(c.len() == 1 && c[0] == 1);
        assert(c.drop_first().len() == 0);
        assert(eval_coeffs(c.drop_first(), zr) == 0);
        assert(zr * 0 == 0);
        lemma_reduced(0);
        assert(fmul(zr, 0) == 0);
        lemma_reduced(1);
        assert(eval_coeffs(c, zr) == fadd(1, 0));
    } else {
        lemma_eval_product_matches_expansion(xs.drop_first(), fmul(zr, zr));
        lemma_poly_coeffs_reduced(xs.drop_first());
        lemma_interleave_eval(poly_coeffs(xs.drop_first()), xs[0], zr);
    }
}

/// The vector `(1, s, s^2, ..., s^(num-1))` of structured powers used for
/// the random linear combination of the batch.
pub fn structured_scalar_power(num: usize, s: &Scalar) -> (powers: Vec<Scalar>)
    requires
        s.wf(),
    ensures
        powers@.len() == num,
        wf_all(powers@),
        forall|i: int| 0 <= i < num ==> (#[trigger] powers@[i]).value() == fpow(s.value(), i as nat),
{
    let mut powers: Vec<Scalar> = Vec::new();
    let mut cur = Scalar::from_u64(1);
    let mut i: usize = 0;
    while i < num
        invariant
            0 <= i <= num,
            s.wf(),
            cur.wf(),
            cur.value() == fpow(s.value(), i as nat),
            powers@.len() == i,
            wf_all(powers@),
            forall|j: int|
                0 <= j < i ==> (#[trigger] powers@[j]).value() == fpow(s.value(), j as nat),
        decreases num - i,
    {
        powers.push(cur);
        proof {
            lemma_fpow_add(s.value(), 1, i as nat);
            assert(fpow(s.value(), 0) == 1);
            assert(fpow(s.value(), 1) == fmul(s.value(), 1));
            lemma_fmul_one(s.value());
            lemma_reduced(s.value());
            lemma_fmul_noop(s.value(), fpow(s.value(), i as nat));
            assert(cur.value() * s.value() == s.value() * cur.value());
        }
        cur = fr_mul(&cur, s);
        i = i + 1;
    }
    powers
}

} // verus!
