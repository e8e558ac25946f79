use blake2::Digest;
use halo2_gadgets::poseidon::primitives::{ConstantLength, Hash as PoseidonHash, P128Pow5T3};
use halo2_proofs::pasta::group::ff::{FromUniformBytes, PrimeField};
use halo2_proofs::pasta::Fp;
use std::hash::{Hash, Hasher};
use zkpolicy::field::Fe;
use zkpolicy::hashing::{
    fact_hash_native_salted, fact_hash_native_term, fs_coeffs, poseidon_hash_list_native, rlc_encode_cpu,
    str_to_fp, to_fp_value,
};
use zkpolicy::predicates::{
    flatten_goal_variables, flatten_goal_variables_fp, parse_predicate_call, parse_predicate_call_for_variables,
};

fn fp_of(x: &Fe) -> Fp {
    Fp::from_repr(x.to_bytes()).unwrap()
}

fn blake3_fp(s: &str) -> Fp {
    let h = blake3::hash(s.as_bytes());
    let b = h.as_bytes();
    let limbs: [u64; 4] = [
        u64::from_le_bytes(b[0..8].try_into().unwrap()),
        u64::from_le_bytes(b[8..16].try_into().unwrap()),
        u64::from_le_bytes(b[16..24].try_into().unwrap()),
        u64::from_le_bytes(b[24..32].try_into().unwrap()),
    ];
    Fp::from_raw(limbs)
}

fn poseidon2(a: Fp, b: Fp) -> Fp {
    PoseidonHash::<Fp, P128Pow5T3, ConstantLength<2>, 3, 2>::init().hash([a, b])
}

#[test]
fn numerals_map_to_themselves() {
    assert_eq!(fp_of(&to_fp_value("42")), Fp::from(42u64));
    assert_eq!(fp_of(&to_fp_value("  '42' ")), Fp::from(42u64));
    assert_eq!(fp_of(&to_fp_value("+7")), Fp::from(7u64));
    assert_eq!(fp_of(&to_fp_value("18446744073709551615")), Fp::from(u64::MAX));
}

#[test]
fn atoms_map_to_their_blake3_digest() {
    assert_eq!(fp_of(&to_fp_value("alice")), blake3_fp("alice"));
    assert_eq!(fp_of(&to_fp_value(" 'alice' ")), blake3_fp("alice"));
    assert_eq!(fp_of(&to_fp_value("18446744073709551616")), blake3_fp("18446744073709551616"));
    assert_eq!(fp_of(&to_fp_value("-3")), blake3_fp("-3"));
    assert_ne!(fp_of(&to_fp_value("alice")), fp_of(&to_fp_value("bob")));
}

#[test]
fn standard_hasher_values() {
    let mut h = std::collections::hash_map::DefaultHasher::new();
    "john".hash(&mut h);
    assert_eq!(fp_of(&str_to_fp("john")), Fp::from(h.finish()));
}

#[test]
fn poseidon_fold_matches_primitive() {
    let vals = [Fe::from_u64(3), Fe::from_u64(5), Fe::from_u64(8)];
    let expected = poseidon2(poseidon2(poseidon2(Fp::zero(), Fp::from(3u64)), Fp::from(5u64)), Fp::from(8u64));
    assert_eq!(fp_of(&poseidon_hash_list_native(&vals)), expected);
    assert_eq!(fp_of(&poseidon_hash_list_native(&[])), Fp::zero());
    let t = fact_hash_native_term(&Fe::from_u64(3), &[Fe::from_u64(5), Fe::from_u64(8)]);
    assert_eq!(fp_of(&t), expected);
}

#[test]
fn salted_fact_hash_pads_with_zero() {
    let args = vec![vec!["alice".to_string()], vec!["bob".to_string(), "carol".to_string()]];
    let h = fact_hash_native_salted("parent", &args, "99");
    let mut acc = Fp::zero();
    let mut tokens = vec![blake3_fp("parent")];
    for i in 0..4 {
        for j in 0..4 {
            if i < args.len() && j < args[i].len() {
                tokens.push(blake3_fp(&args[i][j]));
            } else {
                tokens.push(Fp::zero());
            }
        }
    }
    tokens.push(Fp::from(99u64));
    for t in tokens {
        acc = poseidon2(acc, t);
    }
    assert_eq!(fp_of(&h), acc);
}

#[test]
fn rlc_is_horner_fold() {
    let t = [Fe::from_u64(1), Fe::from_u64(2), Fe::from_u64(3)];
    let r = rlc_encode_cpu(&t, &Fe::from_u64(10));
    assert!(r.equals(&Fe::from_u64(123)));
    assert!(rlc_encode_cpu(&[], &Fe::from_u64(10)).is_zero());
}

#[test]
fn fiat_shamir_coefficients() {
    let c = fs_coeffs("seed", 3);
    assert_eq!(c.len(), 3);
    for (i, x) in c.iter().enumerate() {
        let mut h = blake2::Blake2s256::new();
        h.update(b"seed");
        h.update(i.to_le_bytes());
        let d = h.finalize();
        let mut wide = [0u8; 64];
        wide[..32].copy_from_slice(&d);
        let expected = <Fp as FromUniformBytes<64>>::from_uniform_bytes(&wide);
        assert_eq!(fp_of(x), expected);
    }
    assert!(fs_coeffs("seed", 0).is_empty());
    assert!(!fp_of(&fs_coeffs("seed", 1)[0]).eq(&fp_of(&fs_coeffs("other", 1)[0])));
}

#[test]
fn predicate_calls() {
    assert_eq!(parse_predicate_call("parent(alice,bob)"), Some(("parent".to_string(), 2)));
    assert_eq!(parse_predicate_call("p( x )"), Some(("p".to_string(), 1)));
    assert_eq!(parse_predicate_call("q()"), Some(("q".to_string(), 0)));
    assert_eq!(parse_predicate_call("q(  )"), Some(("q".to_string(), 0)));
    assert_eq!(parse_predicate_call("atom"), None);
    assert_eq!(parse_predicate_call("p(f(a,b),c)"), Some(("p".to_string(), 2)));
    assert_eq!(parse_predicate_call("p([a,b],c)"), Some(("p".to_string(), 2)));
}

#[test]
fn predicate_call_variables() {
    assert_eq!(
        parse_predicate_call_for_variables("parent( alice , bob)"),
        Some(("parent".to_string(), vec!["alice".to_string(), "bob".to_string()]))
    );
    assert_eq!(parse_predicate_call_for_variables("none"), None);
}

#[test]
fn flattened_goal_variables() {
    let head = vec!["alice".to_string(), "john".to_string()];
    let body = vec!["parent(alice,bob)".to_string(), "ancestor(bob,john)".to_string(), "true".to_string()];
    let v = flatten_goal_variables(&head, &body);
    assert_eq!(v, vec!["alice", "john", "alice", "bob", "bob", "john"]);
    let f = flatten_goal_variables_fp(&head, &body);
    assert_eq!(f.len(), 7);
    assert!(f[6].equals(&Fe::one()));
    assert!(f[0].equals(&str_to_fp("alice")));
    assert!(f[5].equals(&str_to_fp("john")));
}

#[test]
fn flattening_splits_over_bodies() {
    let head = vec!["alice".to_string(), "john".to_string()];
    let b1 = vec!["parent(alice,bob)".to_string()];
    let b2 = vec!["ancestor(bob,john)".to_string(), "true".to_string()];
    let both: Vec<String> = b1.iter().chain(b2.iter()).cloned().collect();
    let mut split = flatten_goal_variables(&head, &b1);
    split.extend(flatten_goal_variables(&[], &b2));
    assert_eq!(flatten_goal_variables(&head, &both), split);
}
