use halo2_proofs::pasta::group::ff::PrimeField;
use halo2_proofs::pasta::Fp;
use zkpolicy::codec::{decode_proofs, fact_hash_from_decimal, fe_to_decimal, proof_entry, DecimalError};
use zkpolicy::field::{fp_to_u128, fp_to_usize, Fe};

fn fe(v: u64) -> Fe {
    Fe::from_u64(v)
}

fn fp_of(x: &Fe) -> Fp {
    Fp::from_repr(x.to_bytes()).unwrap()
}

fn fe_of(x: Fp) -> Fe {
    Fe::from_bytes(x.to_repr()).unwrap()
}

#[test]
fn field_arithmetic_matches_pasta() {
    let a = fe(1234567);
    let b = fe(89);
    assert_eq!(fp_of(&a.plus(&b)), Fp::from(1234567u64) + Fp::from(89u64));
    assert_eq!(fp_of(&a.minus(&b)), Fp::from(1234567u64) - Fp::from(89u64));
    assert_eq!(fp_of(&b.minus(&a)), Fp::from(89u64) - Fp::from(1234567u64));
    assert_eq!(fp_of(&a.times(&b)), Fp::from(1234567u64) * Fp::from(89u64));
    assert_eq!(fp_of(&a.negated()), -Fp::from(1234567u64));
    assert!(a.plus(&b).equals(&fe(1234656)));
}

#[test]
fn zero_and_one() {
    assert!(Fe::zero().is_zero());
    assert!(!Fe::one().is_zero());
    assert_eq!(fp_of(&Fe::one()), Fp::one());
    assert!(fe(0).equals(&Fe::zero()));
}

#[test]
fn from_bytes_refuses_non_canonical() {
    let mut bytes = [0xffu8; 32];
    assert!(Fe::from_bytes(bytes).is_none());
    bytes = [0u8; 32];
    bytes[0] = 7;
    assert!(Fe::from_bytes(bytes).unwrap().equals(&fe(7)));
    let modulus_bytes = (-Fp::one()).to_repr();
    assert!(Fe::from_bytes(modulus_bytes).is_some());
}

#[test]
fn low_bits_of_values() {
    assert_eq!(fp_to_u128(&fe(7)), 7);
    assert_eq!(fp_to_usize(&fe(123456789)), 123456789);
    let minus_one = fe_of(-Fp::one());
    let expected = u128::from_le_bytes((-Fp::one()).to_repr()[0..16].try_into().unwrap());
    assert_eq!(fp_to_u128(&minus_one), expected);
    let lo = u64::from_le_bytes((-Fp::one()).to_repr()[0..8].try_into().unwrap());
    assert_eq!(fp_to_usize(&minus_one), lo as usize);
}

#[test]
fn decimal_numerals() {
    assert_eq!(fe_to_decimal(&fe(0)), "0");
    assert_eq!(fe_to_decimal(&fe(12345)), "12345");
    let m1 = fe_of(-Fp::one());
    assert_eq!(
        fe_to_decimal(&m1),
        "28948022309329048855892746252171976963363056481941560715954676764349967630336"
    );
}

#[test]
fn decimal_round_trip() {
    for v in [0u64, 1, 42, 987654321, u64::MAX] {
        let x = fe(v);
        let back = fact_hash_from_decimal(&fe_to_decimal(&x)).unwrap();
        assert!(back.equals(&x));
    }
    let m1 = fe_of(-Fp::one());
    let back = fact_hash_from_decimal(&fe_to_decimal(&m1)).unwrap();
    assert!(back.equals(&m1));
}

#[test]
fn decimal_errors() {
    assert_eq!(fact_hash_from_decimal("abc").unwrap_err(), DecimalError::InvalidNumber);
    assert_eq!(fact_hash_from_decimal("").unwrap_err(), DecimalError::InvalidNumber);
    assert_eq!(fact_hash_from_decimal("-5").unwrap_err(), DecimalError::InvalidNumber);
    assert_eq!(
        fact_hash_from_decimal("28948022309329048855892746252171976963363056481941560715954676764349967630337")
            .unwrap_err(),
        DecimalError::NotInField
    );
    assert_eq!(
        fact_hash_from_decimal("1000000000000000000000000000000000000000000000000000000000000000000000000000000000")
            .unwrap_err(),
        DecimalError::NotInField
    );
    assert!(fact_hash_from_decimal("+17").unwrap().equals(&fe(17)));
    assert!(fact_hash_from_decimal("1_000").unwrap().equals(&fe(1000)));
}

#[test]
fn proof_entries_encode_bytes_and_columns() {
    let inst = vec![vec![vec![fe(1), fe(20)], vec![fe(300)]], vec![vec![fe(4)]]];
    let e = proof_entry(&[1u8, 2, 3, 4], &inst);
    assert_eq!(e.proof_b64, "AQIDBA==");
    assert_eq!(
        e.inputs_b64,
        vec![vec!["1".to_string(), "20".to_string()], vec!["300".to_string()], vec!["4".to_string()]]
    );
    let e2 = proof_entry(&[], &Vec::new());
    assert_eq!(e2.proof_b64, "");
    assert!(e2.inputs_b64.is_empty());
}

#[test]
fn stored_proofs_decode_back() {
    let proofs: Vec<Vec<u8>> = vec![vec![], vec![0xff], vec![1, 2], vec![9, 8, 7, 6, 5, 4, 3]];
    let texts: Vec<String> = proofs.iter().map(|p| proof_entry(p, &Vec::new()).proof_b64).collect();
    assert_eq!(texts[1], "/w==");
    assert_eq!(decode_proofs(&texts).unwrap(), proofs);
}

#[test]
fn invalid_stored_proof_is_refused() {
    let texts = vec!["AQIDBA==".to_string(), "not base64!".to_string()];
    assert!(decode_proofs(&texts).is_none());
    let unpadded = vec!["AQIDBA".to_string()];
    assert!(decode_proofs(&unpadded).is_none());
}
