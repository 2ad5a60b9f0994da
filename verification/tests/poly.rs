use ark_ff::PrimeField;
use snarkpack_core::codec::{scalar_from_bytes, scalar_to_bytes};
use snarkpack_core::errors::Error;
use snarkpack_core::field::Scalar;
use snarkpack_core::ip::scalar_inner_product;
use snarkpack_core::prover::{
    polynomial_evaluation_product_form_from_transcript, structured_scalar_power,
};

fn s(x: u64) -> Scalar {
    Scalar::from_u64(x)
}

/// The largest element of the scalar field, one below the modulus.
fn q_minus_one() -> Scalar {
    Scalar {
        l0: 0xffffffff00000000,
        l1: 0x53bda402fffe5bfe,
        l2: 0x3339d80809a1d805,
        l3: 0x73eda753299d7d48,
    }
}

fn to_fr(sc: &Scalar) -> ark_bls12_381::Fr {
    ark_bls12_381::Fr::from_bigint(ark_ff::BigInt::new([sc.l0, sc.l1, sc.l2, sc.l3])).unwrap()
}

fn from_fr(f: ark_bls12_381::Fr) -> Scalar {
    let b = f.into_bigint().0;
    Scalar { l0: b[0], l1: b[1], l2: b[2], l3: b[3] }
}

#[test]
fn poly_eval_single_challenge() {
    // f(X) = 1 + 2 X evaluated at z = 3 with no shift: 7.
    let t = vec![s(2)];
    let res = polynomial_evaluation_product_form_from_transcript(&t, &s(3), &s(1));
    assert_eq!(res, s(7));
}

#[test]
fn poly_eval_two_challenges() {
    // f(X) = (1 + 2 X)(1 + 5 X^2) at z = 3: 7 * 46 = 322.
    let t = vec![s(2), s(5)];
    let res = polynomial_evaluation_product_form_from_transcript(&t, &s(3), &s(1));
    assert_eq!(res, s(322));
}

#[test]
fn poly_eval_r_shift() {
    // The shift multiplies the point: 1 + 3 * (5 * 2) = 31.
    let t = vec![s(3)];
    let res = polynomial_evaluation_product_form_from_transcript(&t, &s(5), &s(2));
    assert_eq!(res, s(31));
}

#[test]
fn poly_eval_wraps_modulus() {
    // With x = z = q - 1: 1 + (q - 1)^2 = 1 + 1 = 2 modulo q.
    let t = vec![q_minus_one()];
    let res = polynomial_evaluation_product_form_from_transcript(&t, &q_minus_one(), &s(1));
    assert_eq!(res, s(2));
}

#[test]
fn poly_eval_matches_curve_library() {
    // The same evaluation computed directly with the curve library's field.
    let x1 = s(0x123456789abcdef);
    let x2 = q_minus_one();
    let z = s(0xfedcba987654321);
    let r = s(3);
    let t = vec![x1, x2];
    let res = polynomial_evaluation_product_form_from_transcript(&t, &z, &r);
    let one = ark_bls12_381::Fr::from(1u64);
    let zr = to_fr(&z) * to_fr(&r);
    let expected = (one + to_fr(&x1) * zr) * (one + to_fr(&x2) * zr * zr);
    assert_eq!(res, from_fr(expected));
}

#[test]
fn structured_powers_small() {
    let powers = structured_scalar_power(5, &s(3));
    let expected = vec![s(1), s(3), s(9), s(27), s(81)];
    assert_eq!(powers, expected);
}

#[test]
fn structured_powers_empty() {
    let powers = structured_scalar_power(0, &s(42));
    assert!(powers.is_empty());
}

#[test]
fn inner_product_small() {
    let a = vec![s(1), s(2), s(3)];
    let b = vec![s(4), s(5), s(6)];
    assert_eq!(scalar_inner_product(&a, &b), Ok(s(32)));
}

#[test]
fn inner_product_wraps_modulus() {
    // (q - 1) * (q - 1) = 1 modulo q.
    let a = vec![q_minus_one()];
    assert_eq!(scalar_inner_product(&a, &a), Ok(s(1)));
}

#[test]
fn inner_product_rejects_mismatched_lengths() {
    let a = vec![s(1), s(2)];
    let b = vec![s(3)];
    assert_eq!(scalar_inner_product(&a, &b), Err(Error::MalformedInput));
}

#[test]
fn scalar_bytes_little_endian() {
    let bytes = scalar_to_bytes(&s(0x0102030405060708));
    assert_eq!(bytes.len(), 32);
    assert_eq!(&bytes[0..8], &[8, 7, 6, 5, 4, 3, 2, 1]);
    assert!(bytes[8..].iter().all(|b| *b == 0));
}

#[test]
fn scalar_bytes_round_trip() {
    let p = q_minus_one();
    let bytes = scalar_to_bytes(&p);
    assert_eq!(scalar_from_bytes(&bytes), Ok(p));
}

#[test]
fn scalar_bytes_reject_unreduced() {
    // All-ones is far above the field order.
    let bytes = vec![0xffu8; 32];
    assert_eq!(scalar_from_bytes(&bytes), Err(Error::Serialization));
    // The field order itself, one above the largest residue, is refused.
    let mut q_bytes = scalar_to_bytes(&q_minus_one());
    assert_eq!(q_bytes[0], 0);
    q_bytes[0] = 1;
    assert_eq!(scalar_from_bytes(&q_bytes), Err(Error::Serialization));
}

#[test]
fn scalar_bytes_reject_wrong_length() {
    let bytes = vec![0u8; 31];
    assert_eq!(scalar_from_bytes(&bytes), Err(Error::Serialization));
}

#[test]
fn structured_powers_match_curve_library() {
    let base = q_minus_one();
    let powers = structured_scalar_power(4, &base);
    let fr = to_fr(&base);
    let mut acc = ark_bls12_381::Fr::from(1u64);
    for p in &powers {
        assert_eq!(*p, from_fr(acc));
        acc *= fr;
    }
}
