use ark_ff::{Field, PrimeField};
use snarkpack_core::errors::Error;
use snarkpack_core::field::Scalar;
use snarkpack_core::ip::scalar_inner_product;
use snarkpack_core::prover::{
    polynomial_evaluation_product_form_from_transcript, structured_scalar_power,
};
use snarkpack_core::srs::{
    check_batch_size, fold_commitment_key, fold_key_round, is_power_of_two, G1Repr, G2Repr,
    GenericSRS, VerifierSRS, MAX_SRS_SIZE,
};

fn s(x: u64) -> Scalar {
    Scalar::from_u64(x)
}

fn mk_srs(n: usize) -> VerifierSRS {
    VerifierSRS {
        n,
        g: G1Repr { bytes: vec![1u8; 48] },
        h: G2Repr { bytes: vec![2u8; 96] },
        g_alpha: G1Repr { bytes: vec![3u8; 48] },
        g_beta: G1Repr { bytes: vec![4u8; 48] },
        h_alpha: G2Repr { bytes: vec![5u8; 96] },
        h_beta: G2Repr { bytes: vec![6u8; 96] },
    }
}

#[test]
fn power_of_two_recognition() {
    assert!(is_power_of_two(1));
    assert!(is_power_of_two(2));
    assert!(is_power_of_two(1024));
    assert!(!is_power_of_two(0));
    assert!(!is_power_of_two(6));
    assert!(!is_power_of_two(1023));
}

#[test]
fn validate_accepts_good_sizes() {
    assert!(mk_srs(2).validate().is_ok());
    assert!(mk_srs(8).validate().is_ok());
    assert!(mk_srs(1048576).validate().is_ok());
}

#[test]
fn validate_rejects_bad_sizes() {
    assert_eq!(mk_srs(0).validate(), Err(Error::InvalidSrs));
    assert_eq!(mk_srs(1).validate(), Err(Error::InvalidSrs));
    assert_eq!(mk_srs(7).validate(), Err(Error::InvalidSrs));
    // The next power of two above the ceremony's capacity.
    assert!(2097152 > MAX_SRS_SIZE);
    assert_eq!(mk_srs(2097152).validate(), Err(Error::InvalidSrs));
}

#[test]
fn batch_size_must_match_srs() {
    // An SRS specialized to eight proofs refuses a batch of four.
    assert_eq!(check_batch_size(4, 8), Err(Error::BatchSizeMismatch));
    assert_eq!(check_batch_size(8, 8), Ok(()));
}

#[test]
fn fold_single_round() {
    let v = vec![s(1), s(2), s(3), s(4)];
    let folded = fold_key_round(&v, &s(2));
    assert_eq!(folded, vec![s(7), s(10)]);
}

#[test]
fn fold_smallest_batch_single_round() {
    // A key of two entries folds in exactly one round.
    let v = vec![s(1), s(5)];
    let r = fold_commitment_key(&v, &vec![s(4)]);
    assert_eq!(r, Ok(s(21)));
}

#[test]
fn fold_two_rounds() {
    // Rounds: [1,2,3,4] --x=2--> [7, 10] --x=3--> [37].
    let v = vec![s(1), s(2), s(3), s(4)];
    let r = fold_commitment_key(&v, &vec![s(2), s(3)]);
    assert_eq!(r, Ok(s(37)));
}

#[test]
fn fold_rejects_short_key() {
    let v = vec![s(1), s(2), s(3)];
    let r = fold_commitment_key(&v, &vec![s(2)]);
    assert_eq!(r, Err(Error::InvalidSrs));
}

#[test]
fn fold_rejects_long_key() {
    let v = vec![s(1), s(2), s(3), s(4)];
    let r = fold_commitment_key(&v, &vec![s(2)]);
    assert_eq!(r, Err(Error::InvalidSrs));
}

#[test]
fn folded_key_equals_poly_eval() {
    // A structured key with exponent 7, folded through challenges (2, 3),
    // equals the commitment-key polynomial at 7 with the challenges
    // reversed: both are 2178.
    let key = structured_scalar_power(4, &s(7));
    let folded = fold_commitment_key(&key, &vec![s(2), s(3)]).unwrap();
    let reversed = vec![s(3), s(2)];
    let eval = polynomial_evaluation_product_form_from_transcript(&reversed, &s(7), &s(1));
    assert_eq!(folded, eval);
    assert_eq!(folded, s(2178));
}

fn mk_generic(g_len: usize, h_len: usize) -> GenericSRS {
    GenericSRS {
        g_alpha_powers: (0..g_len).map(|i| G1Repr { bytes: vec![i as u8; 48] }).collect(),
        g_beta_powers: (0..g_len).map(|i| G1Repr { bytes: vec![100 + i as u8; 48] }).collect(),
        h_alpha_powers: (0..h_len).map(|i| G2Repr { bytes: vec![i as u8; 96] }).collect(),
        h_beta_powers: (0..h_len).map(|i| G2Repr { bytes: vec![200 + i as u8; 96] }).collect(),
    }
}

#[test]
fn specialize_cuts_shifted_keys() {
    let srs = mk_generic(16, 8);
    let (pk, vk) = srs.specialize(4).unwrap();
    assert_eq!(pk.n, 4);
    assert_eq!(vk.n, 4);
    // V keys: the first four G2 powers.
    for i in 0..4usize {
        assert_eq!(pk.vkey_a[i].bytes, vec![i as u8; 96]);
        assert_eq!(pk.vkey_b[i].bytes, vec![200 + i as u8; 96]);
    }
    // W keys: the G1 powers shifted by the batch size.
    for i in 0..4usize {
        assert_eq!(pk.wkey_a[i].bytes, vec![4 + i as u8; 48]);
        assert_eq!(pk.wkey_b[i].bytes, vec![104 + i as u8; 48]);
    }
    // Verifier SRS: the zeroth and first power of each table.
    assert_eq!(vk.g.bytes, vec![0u8; 48]);
    assert_eq!(vk.g_alpha.bytes, vec![1u8; 48]);
    assert_eq!(vk.g_beta.bytes, vec![101u8; 48]);
    assert_eq!(vk.h.bytes, vec![0u8; 96]);
    assert_eq!(vk.h_alpha.bytes, vec![1u8; 96]);
    assert_eq!(vk.h_beta.bytes, vec![201u8; 96]);
    assert!(vk.validate().is_ok());
}

#[test]
fn specialize_rejects_bad_sizes() {
    let srs = mk_generic(16, 8);
    assert!(matches!(srs.specialize(0), Err(Error::InvalidSrs)));
    assert!(matches!(srs.specialize(1), Err(Error::InvalidSrs)));
    assert!(matches!(srs.specialize(3), Err(Error::InvalidSrs)));
}

#[test]
fn specialize_rejects_short_tables() {
    // A batch of eight needs sixteen G1 powers; only eight are there.
    let srs = mk_generic(8, 8);
    assert!(matches!(srs.specialize(8), Err(Error::InvalidSrs)));
}

#[test]
fn gipa_round_preserves_inner_product() {
    // Folding with a challenge and its inverse keeps the inner product up
    // to the two challenge-scaled cross products.
    let x = s(2);
    let x_fr = ark_bls12_381::Fr::from(2u64);
    let y_fr = x_fr.inverse().unwrap();
    let yb = y_fr.into_bigint().0;
    let y = Scalar { l0: yb[0], l1: yb[1], l2: yb[2], l3: yb[3] };
    let a = vec![s(1), s(2), s(3), s(4)];
    let b = vec![s(5), s(6), s(7), s(8)];
    let folded_a = fold_key_round(&a, &x);
    let folded_b = fold_key_round(&b, &y);
    let lhs = scalar_inner_product(&folded_a, &folded_b).unwrap();
    // <aL, bL> + <aR, bR> = (5 + 12) + (21 + 32) = 70;
    // x <aR, bL> = 2 * (15 + 24) = 78; y <aL, bR> = (7 + 16) / 2.
    let expected = ark_bls12_381::Fr::from(70u64) + ark_bls12_381::Fr::from(78u64)
        + y_fr * ark_bls12_381::Fr::from(23u64);
    let eb = expected.into_bigint().0;
    assert_eq!(lhs, Scalar { l0: eb[0], l1: eb[1], l2: eb[2], l3: eb[3] });
}

#[test]
fn wire_round_trip() {
    let srs = mk_srs(8);
    let bytes = srs.serialize();
    assert_eq!(bytes.len(), 440);
    let back = VerifierSRS::deserialize(&bytes).unwrap();
    assert_eq!(back.n, srs.n);
    assert_eq!(back.g, srs.g);
    assert_eq!(back.h, srs.h);
    assert_eq!(back.g_alpha, srs.g_alpha);
    assert_eq!(back.g_beta, srs.g_beta);
    assert_eq!(back.h_alpha, srs.h_alpha);
    assert_eq!(back.h_beta, srs.h_beta);
}

#[test]
fn wire_size_field_is_little_endian() {
    let srs = mk_srs(0x0102030405060708);
    let bytes = srs.serialize();
    assert_eq!(&bytes[0..8], &[0x08, 0x07, 0x06, 0x05, 0x04, 0x03, 0x02, 0x01]);
}

#[test]
fn wire_rejects_wrong_length() {
    let bytes = vec![0u8; 10];
    assert!(matches!(VerifierSRS::deserialize(&bytes), Err(Error::Serialization)));
    let bytes = vec![0u8; 441];
    assert!(matches!(VerifierSRS::deserialize(&bytes), Err(Error::Serialization)));
}
