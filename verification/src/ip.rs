//! Inner products over the scalar field: the scalar side of the
//! multi-exponentiation inner product, used to aggregate the batch under
//! the structured powers of the random linear combination.

use vstd::prelude::*;

use crate::errors::Error;
use crate::field::{
    fadd, fmul, fr_add, fr_mul, lemma_fadd_noop, lemma_fmul_noop, scalar_modulus, Scalar,
};
use crate::prover::{vals, wf_all};
use crate::srs::fold_step;

verus! {

/// The inner product `sum_i a[i] * b[i]` over the scalar field, of two
/// aligned sequences.
pub open spec fn inner_product(a: Seq<nat>, b: Seq<nat>) -> nat
    recommends
        a.len() == b.len(),
    decreases a.len(),
{
    if a.len() == 0 {
        0
    } else {
        fadd(inner_product(a.drop_last(), b.drop_last()), fmul(a.last(), b.last()))
    }
}

/// The left half of a sequence.
pub open spec fn left_half(s: Seq<nat>) -> Seq<nat> {
    s.subrange(0, s.len() as int / 2)
}

/// The right half of a sequence.
pub open spec fn right_half(s: Seq<nat>) -> Seq<nat> {
    s.subrange(s.len() as int / 2, s.len() as int)
}

/// An inner product is a reduced residue.
pub proof fn lemma_inner_product_bound(a: Seq<nat>, b: Seq<nat>)
    ensures
        inner_product(a, b) < scalar_modulus(),
{
    if a.len() == 0 {
    } else {
        assert(inner_product(a, b) == fadd(
            inner_product(a.drop_last(), b.drop_last()),
            fmul(a.last(), b.last()),
        ));
    }
}

/// The prefix form of the round invariant: over the first `j` folded
/// positions, the inner product of the folded vectors is the two straight
/// half inner products plus the two cross products scaled by `x` and `y`.
proof fn lemma_gipa_round_prefix(a: Seq<nat>, b: Seq<nat>, x: nat, y: nat, j: int)
    requires
        a.len() == b.len(),
        a.len() % 2 == 0,
        fmul(x, y) == 1,
        0 <= j <= a.len() / 2,
    ensures
        inner_product(fold_step(a, x).take(j), fold_step(b, y).take(j)) == fadd(
            fadd(
                inner_product(left_half(a).take(j), left_half(b).take(j)),
                inner_product(right_half(a).take(j), right_half(b).take(j)),
            ),
            fadd(
                fmul(x, inner_product(right_half(a).take(j), left_half(b).take(j))),
                fmul(y, inner_product(left_half(a).take(j), right_half(b).take(j))),
            ),
        ),
    decreases j,
{
    let q = scalar_modulus();
    let m = a.len() as int / 2;
    let fsa = fold_step(a, x);
    let fsb = fold_step(b, y);
    if j == 0 {
        assert(fmul(x, 0) == 0 && fmul(y, 0) == 0 && fadd(0, 0) == 0) by {
            assert(x * 0 == 0 && y * 0 == 0);
            vstd::arithmetic::div_mod::lemma_small_mod(0, q);
        }
    } else {
        lemma_gipa_round_prefix(a, b, x, y, j - 1);
        let av = a[j - 1];
        let ar = a[m + j - 1];
        let bv = b[j - 1];
        let br = b[m + j - 1];
        assert(fsa.take(j).drop_last() =~= fsa.take(j - 1));
        assert(fsb.take(j).drop_last() =~= fsb.take(j - 1));
        assert(left_half(a).take(j).drop_last() =~= left_half(a).take(j - 1));
        assert(left_half(b).take(j).drop_last() =~= left_half(b).take(j - 1));
        assert(right_half(a).take(j).drop_last() =~= right_half(a).take(j - 1));
        assert(right_half(b).take(j).drop_last() =~= right_half(b).take(j - 1));
        assert(fsa.take(j).last() == fadd(av, fmul(x, ar)));
        assert(fsb.take(j).last() == fadd(bv, fmul(y, br)));
        assert(left_half(a).take(j).last() == av);
        assert(left_half(b).take(j).last() == bv);
        assert(right_half(a).take(j).last() == ar);
        assert(right_half(b).take(j).last() == br);
        let ll = inner_product(left_half(a).take(j - 1), left_half(b).take(j - 1));
        let rr = inner_product(right_half(a).take(j - 1), right_half(b).take(j - 1));
        let rl = inner_product(right_half(a).take(j - 1), left_half(b).take(j - 1));
        let lr = inner_product(left_half(a).take(j - 1), right_half(b).take(j - 1));
        lemma_inner_product_bound(left_half(a).take(j - 1), left_half(b).take(j - 1));
        lemma_inner_product_bound(right_half(a).take(j - 1), right_half(b).take(j - 1));
        lemma_inner_product_bound(right_half(a).take(j - 1), left_half(b).take(j - 1));
        lemma_inner_product_bound(left_half(a).take(j - 1), right_half(b).take(j - 1));
        // Flatten the previous sums to single reductions.
        lemma_fmul_noop(x, rl);
        lemma_fmul_noop(y, lr);
        lemma_fadd_noop(x * rl, y * lr);
        lemma_fadd_noop((x * rl) % q, y * lr);
        assert(fadd(fmul(x, rl), fmul(y, lr)) == (x * rl + y * lr) % q);
        lemma_fadd_noop(ll + rr, x * rl + y * lr);
        lemma_fadd_noop((ll + rr) % q, x * rl + y * lr);
        assert(fadd(fadd(ll, rr), fadd(fmul(x, rl), fmul(y, lr))) == (ll + rr + (x * rl + y * lr))
            % q);
        // Flatten this round's folded term.
        lemma_fadd_noop(av, x * ar);
        lemma_fadd_noop(bv, y * br);
        assert(fadd(av, fmul(x, ar)) == (av + x * ar) % q);
        assert(fadd(bv, fmul(y, br)) == (bv + y * br) % q);
        lemma_fmul_noop(av + x * ar, bv + y * br);
        lemma_fmul_noop((av + x * ar) % q, bv + y * br);
        assert(fmul(fadd(av, fmul(x, ar)), fadd(bv, fmul(y, br))) == ((av + x * ar) * (bv + y
            * br)) % q);
        lemma_fadd_noop(ll + rr + (x * rl + y * lr), (av + x * ar) * (bv + y * br));
        lemma_fadd_noop(
            (ll + rr + (x * rl + y * lr)) % q,
            (av + x * ar) * (bv + y * br),
        );
        assert(inner_product(fsa.take(j), fsb.take(j)) == (ll + rr + (x * rl + y * lr) + (av + x
            * ar) * (bv + y * br)) % q);
        // Flatten the new right-hand side.
        lemma_fadd_noop(ll, av * bv);
        lemma_fadd_noop(rr, ar * br);
        assert(fadd(ll, fmul(av, bv)) == (ll + av * bv) % q);
        assert(fadd(rr, fmul(ar, br)) == (rr + ar * br) % q);
        lemma_fadd_noop(ll + av * bv, rr + ar * br);
        lemma_fadd_noop((ll + av * bv) % q, rr + ar * br);
        lemma_fadd_noop(rl, ar * bv);
        lemma_fadd_noop(lr, av * br);
        assert(fadd(rl, fmul(ar, bv)) == (rl + ar * bv) % q);
        assert(fadd(lr, fmul(av, br)) == (lr + av * br) % q);
        lemma_fmul_noop(x, rl + ar * bv);
        lemma_fmul_noop(y, lr + av * br);
        assert(fmul(x, fadd(rl, fmul(ar, bv))) == (x * (rl + ar * bv)) % q);
        assert(fmul(y, fadd(lr, fmul(av, br))) == (y * (lr + av * br)) % q);
        lemma_fadd_noop(x * (rl + ar * bv), y * (lr + av * br));
        lemma_fadd_noop((x * (rl + ar * bv)) % q, y * (lr + av * br));
        lemma_fadd_noop(
            ll + av * bv + (rr + ar * br),
            x * (rl + ar * bv) + y * (lr + av * br),
        );
        lemma_fadd_noop(
            (ll + av * bv + (rr + ar * br)) % q,
            x * (rl + ar * bv) + y * (lr + av * br),
        );
        // The two raw integers agree up to the `x * y` factor on the
        // right-times-right term, which the inverse relation removes.
        let d = ll + rr + x * rl + y * lr + av * bv + y * (av * br) + x * (ar * bv);
        let pa = x * ar;
        let pb = y * br;
        assert((av + pa) * (bv + pb) == av * bv + av * pb + pa * bv + pa * pb)
            by (nonlinear_arith);
        assert(av * pb == y * (av * br)) by (nonlinear_arith)
            requires pb == y * br;
        assert(pa * bv == x * (ar * bv)) by (nonlinear_arith)
            requires pa == x * ar;
        assert(pa * pb == (x * y) * (ar * br)) by (nonlinear_arith)
            requires pa == x * ar && pb == y * br;
        assert((av + x * ar) * (bv + y * br) == av * bv + y * (av * br) + x * (ar * bv) + (x * y)
            * (ar * br));
        assert(ll + rr + (x * rl + y * lr) + (av + x * ar) * (bv + y * br) == d + (x * y) * (ar
            * br));
        assert(x * (rl + ar * bv) == x * rl + x * (ar * bv)) by (nonlinear_arith);
        assert(y * (lr + av * br) == y * lr + y * (av * br)) by (nonlinear_arith);
        assert(ll + av * bv + (rr + ar * br) + (x * (rl + ar * bv) + y * (lr + av * br)) == d
            + ar * br);
        vstd::arithmetic::div_mod::lemma_mul_mod_noop_left(
            (x * y) as int,
            (ar * br) as int,
            q as int,
        );
        assert(((x * y) * (ar * br)) % q == (ar * br) % q);
        lemma_fadd_noop(d, (x * y) * (ar * br));
        lemma_fadd_noop(d, ar * br);
        assert((d + (x * y) * (ar * br)) % q == (d + ar * br) % q);
    }
}

/// The round invariant of the inner-product argument, over the scalar
/// field: folding the two vectors with a challenge and its inverse leaves
/// the inner product of the halves plus the two cross inner products, one
/// scaled by the challenge and one by its inverse. This is what lets one
/// halving round reduce a length-m claim to a length-m/2 claim.
pub proof fn lemma_gipa_round_inner_product(a: Seq<nat>, b: Seq<nat>, x: nat, y: nat)
    requires
        a.len() == b.len(),
        a.len() % 2 == 0,
        fmul(x, y) == 1,
    ensures
        inner_product(fold_step(a, x), fold_step(b, y)) == fadd(
            fadd(
                inner_product(left_half(a), left_half(b)),
                inner_product(right_half(a), right_half(b)),
            ),
            fadd(
                fmul(x, inner_product(right_half(a), left_half(b))),
                fmul(y, inner_product(left_half(a), right_half(b))),
            ),
        ),
{
    let m = a.len() as int / 2;
    lemma_gipa_round_prefix(a, b, x, y, m);
    assert(fold_step(a, x).take(m) =~= fold_step(a, x));
    assert(fold_step(b, y).take(m) =~= fold_step(b, y));
    assert(left_half(a).take(m) =~= left_half(a));
    assert(left_half(b).take(m) =~= left_half(b));
    assert(right_half(a).take(m) =~= right_half(a));
    assert(right_half(b).take(m) =~= right_half(b));
}

/// The inner product of two aligned scalar vectors; vectors of different
/// lengths are refused.
pub fn scalar_inner_product(a: &Vec<Scalar>, b: &Vec<Scalar>) -> (r: Result<Scalar, Error>)
    requires
        wf_all(a@),
        wf_all(b@),
    ensures
        match r {
            Ok(s) => {
                &&& a@.len() == b@.len()
                &&& s.wf()
                &&& s.value() == inner_product(vals(a@), vals(b@))
            },
            Err(e) => a@.len() != b@.len() && e == Error::MalformedInput,
        },
{
    if a.len() != b.len() {
        return Err(Error::MalformedInput);
    }
    let mut acc = Scalar::from_u64(0);
    let mut i: usize = 0;
    proof {
        assert(vals(a@.take(0)).len() == 0);
    }
    while i < a.len()
        invariant
            0 <= i <= a@.len(),
            a@.len() == b@.len(),
            wf_all(a@),
            wf_all(b@),
            acc.wf(),
            acc.value() == inner_product(vals(a@.take(i as int)), vals(b@.take(i as int))),
        decreases a@.len() - i,
    {
        assert(a@[i as int].wf() && b@[i as int].wf());
        let prod = fr_mul(&a[i], &b[i]);
        proof {
            let pa = vals(a@.take(i as int + 1));
            let pb = vals(b@.take(i as int + 1));
            assert(pa.drop_last() =~= vals(a@.take(i as int)));
            assert(pb.drop_last() =~= vals(b@.take(i as int)));
            assert(pa.last() == a@[i as int].value());
            assert(pb.last() == b@[i as int].value());
        }
        acc = fr_add(&acc, &prod);
        i = i + 1;
    }
    proof {
        assert(a@.take(a@.len() as int) =~= a@);
        assert(b@.take(b@.len() as int) =~= b@);
    }
    Ok(acc)
}

} // verus!
