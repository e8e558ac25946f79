use halo2_gadgets::poseidon::primitives::{ConstantLength, Hash as PoseidonHash, P128Pow5T3};
use halo2_proofs::pasta::group::ff::PrimeField;
use halo2_proofs::pasta::Fp;
use zkpolicy::builtin::eval_chain_equal;
use zkpolicy::circuit_values::{
    assign_dot_check, dot_instances, dot_verify_instances, DotInputError, bind_body_and_subtree_padded, is_fact_from_pairs, range_check_u32_limbs, rlc_goal_check,
    rules_check,
};
use zkpolicy::data::{
    ChildSig, ChildSigFp, ClauseTemplate, ClauseTemplateFp, Equality, PredicateTemplateFp, TermFp, TermRefComplex, TermSide,
};
use zkpolicy::predicates::rows_equality_global;
use zkpolicy::dot_exists::assign_exists_dot_zero;
use zkpolicy::fact_check::fact_decision;
use zkpolicy::field::Fe;
use zkpolicy::hashing::{poseidon_hash_list_native, to_fp_value};
use zkpolicy::rows_compress::{assign_compressed_active, assign_compressed_active_simple, assign_compressed_all};
use zkpolicy::rule_rows::{assign_rule_rows_fp, assign_rule_rows_fp_4d, linear_idx_4d};
use zkpolicy::sig_check::{check_membership_or, check_membership_or_flat, fold_sig_list, sig_alpha_exec};
use zkpolicy::sig_pairs::{bind_proof_and_candidates_sig_pairs, measure_arity};
use zkpolicy::tree_hash::{hash_nested_pairs, HashEqChip};

fn fe(v: u64) -> Fe {
    Fe::from_u64(v)
}

fn fp_of(x: &Fe) -> Fp {
    Fp::from_repr(x.to_bytes()).unwrap()
}

fn minus_one() -> Fe {
    Fe::one().negated()
}

fn poseidon2(a: Fp, b: Fp) -> Fp {
    PoseidonHash::<Fp, P128Pow5T3, ConstantLength<2>, 3, 2>::init().hash([a, b])
}

/// A 4x4 matrix with the given entries at (0,0) and (1,0).
fn matrix(a00: Fe, a10: Fe) -> Vec<Vec<Fe>> {
    let mut m = vec![vec![Fe::zero(); 4]; 4];
    m[0][0] = a00;
    m[1][0] = a10;
    m
}

fn chain(first: &str, lhs: u64, rhs: u64, steps: &[(&str, u64)]) -> (Vec<Fe>, Vec<Vec<Vec<Fe>>>) {
    let mut names = vec![to_fp_value(first)];
    let mut args = vec![matrix(fe(lhs), fe(rhs))];
    for (op, x) in steps {
        names.push(to_fp_value(op));
        args.push(matrix(fe(*x), Fe::zero()));
    }
    (names, args)
}

#[test]
fn is_goal_with_arithmetic_chain() {
    let (names, args) = chain("is", 14, 2, &[("+", 5), ("*", 2)]);
    let w = eval_chain_equal(&names, &args);
    assert!(w.acc.equals(&fe(14)));
    assert!(w.ok.equals(&Fe::one()));
    assert!(w.b_ie.equals(&Fe::one()));
    assert!(w.b_order.is_zero());
    assert_eq!(w.steps.len(), 2);
    assert!(w.steps[0].acc.equals(&fe(7)));
    assert!(w.steps[0].s_add.equals(&Fe::one()));
    assert!(w.steps[1].s_mul.equals(&Fe::one()));
}

#[test]
fn is_goal_with_wrong_value_fails() {
    let (names, args) = chain("is", 15, 2, &[("+", 5), ("*", 2)]);
    let w = eval_chain_equal(&names, &args);
    assert!(w.ok.is_zero());
}

#[test]
fn subtraction_and_integer_division() {
    let (names, args) = chain("=", 3, 20, &[("-", 5), ("div", 4)]);
    let w = eval_chain_equal(&names, &args);
    assert!(w.steps[0].acc.equals(&fe(15)));
    assert!(w.steps[1].q.equals(&fe(3)));
    assert!(w.steps[1].r.equals(&fe(3)));
    assert!(w.acc.equals(&fe(3)));
    assert!(w.ok.equals(&Fe::one()));
}

#[test]
fn division_by_zero_gives_zero_quotient() {
    let (names, args) = chain("is", 0, 9, &[("div", 0)]);
    let w = eval_chain_equal(&names, &args);
    assert!(w.steps[0].q.is_zero());
    assert!(w.ok.equals(&Fe::one()));
}

#[test]
fn comparisons_read_the_operands() {
    let gt = eval_chain_equal(&chain(">", 5, 3, &[]).0, &chain(">", 5, 3, &[]).1);
    assert!(gt.ok.equals(&Fe::one()));
    assert!(gt.b_order.equals(&Fe::one()));
    let gt_eq = eval_chain_equal(&chain(">", 4, 4, &[]).0, &chain(">", 4, 4, &[]).1);
    assert!(gt_eq.ok.is_zero());
    let ge = eval_chain_equal(&chain(">=", 4, 4, &[]).0, &chain(">=", 4, 4, &[]).1);
    assert!(ge.ok.equals(&Fe::one()));
    let le = eval_chain_equal(&chain("<=", 4, 4, &[]).0, &chain("<=", 4, 4, &[]).1);
    assert!(le.ok.equals(&Fe::one()));
    let lt = eval_chain_equal(&chain("<", 3, 5, &[]).0, &chain("<", 3, 5, &[]).1);
    assert!(lt.ok.equals(&Fe::one()));
    assert!(lt.is_negative.equals(&Fe::one()));
    let not_lt = eval_chain_equal(&chain("<", 5, 3, &[]).0, &chain("<", 5, 3, &[]).1);
    assert!(not_lt.ok.is_zero());
    let not_gt = eval_chain_equal(&chain(">", 3, 5, &[]).0, &chain(">", 3, 5, &[]).1);
    assert!(not_gt.ok.is_zero());
    let le = eval_chain_equal(&chain("<=", 3, 5, &[]).0, &chain("<=", 3, 5, &[]).1);
    assert!(le.ok.equals(&Fe::one()));
    let ge = eval_chain_equal(&chain(">=", 3, 5, &[]).0, &chain(">=", 3, 5, &[]).1);
    assert!(ge.ok.is_zero());
}

#[test]
fn unknown_relation_is_not_known() {
    let w = eval_chain_equal(&chain("foo", 1, 1, &[]).0, &chain("foo", 1, 1, &[]).1);
    assert!(w.b_known.is_zero());
    assert!(w.ok.is_zero());
}

#[test]
fn fact_lookup_among_public_hashes() {
    let names = vec![to_fp_value("parent")];
    let args = vec![matrix(to_fp_value("alice"), to_fp_value("bob"))];
    let salt = fe(42);
    let mut tokens = vec![names[0]];
    for row in &args[0] {
        tokens.extend(row.iter().copied());
    }
    tokens.push(salt);
    let h = poseidon_hash_list_native(&tokens);
    let pubs = vec![fe(1), h, fe(3)];
    let w = fact_decision(&names, &args, &salt, &[], &pubs);
    assert!(w.hashed.equals(&h));
    assert_eq!(w.tokens.len(), 18);
    assert!(w.bits[1].equals(&Fe::one()));
    assert!(w.bits[0].is_zero());
    assert!(w.fact_ok.equals(&Fe::one()));
    assert!(w.result.equals(&Fe::one()));
    assert!(w.any_flag.is_zero());
    let missing = fact_decision(&names, &args, &fe(43), &[Fe::one()], &pubs);
    assert!(missing.fact_ok.is_zero());
    assert!(missing.result.is_zero());
    assert!(missing.any_flag.equals(&Fe::one()));
    assert!(missing.or_abc.equals(&Fe::one()));
}

#[test]
fn fact_published_twice_is_not_selected() {
    let names = vec![to_fp_value("parent")];
    let args = vec![matrix(to_fp_value("alice"), to_fp_value("bob"))];
    let salt = fe(42);
    let probe = fact_decision(&names, &args, &salt, &[], &[]);
    let h = probe.hashed;
    assert!(probe.fact_ok.is_zero());
    let once = fact_decision(&names, &args, &salt, &[], &vec![fe(7), h]);
    assert!(once.fact_ok.equals(&Fe::one()));
    let twice = fact_decision(&names, &args, &salt, &[], &vec![h, fe(7), h]);
    assert!(twice.pub_sel[32].equals(&h.plus(&h)));
    assert!(twice.fact_ok.is_zero());
}

#[test]
fn arity_counts_leading_rows() {
    let mut m = vec![vec![Fe::zero(); 4]; 4];
    m[2][0] = minus_one();
    assert!(measure_arity(&m).equals(&fe(2)));
    let empty: Vec<Vec<Fe>> = vec![vec![], vec![fe(1)]];
    assert!(measure_arity(&empty).is_zero());
    assert!(measure_arity(&vec![vec![fe(5)]; 3]).equals(&fe(3)));
}

fn term(name: &str, arity_rows: usize) -> TermFp {
    let mut m = vec![vec![minus_one(); 4]; 4];
    for r in m.iter_mut().take(arity_rows) {
        r[0] = fe(1);
    }
    TermFp { name: to_fp_value(name), args: m, fact_hashes: Fe::zero() }
}

fn pred(name: &str, arity: u64, children: Vec<Vec<(&str, u64)>>) -> PredicateTemplateFp {
    PredicateTemplateFp {
        name: to_fp_value(name),
        arity: fe(arity),
        clauses: vec![ClauseTemplateFp {
            children: children
                .into_iter()
                .map(|row| row.into_iter().map(|(n, a)| ChildSigFp { name: to_fp_value(n), arity: fe(a) }).collect())
                .collect(),
            equalities: vec![],
        }],
    }
}

#[test]
fn signature_tables_are_padded() {
    let goal = vec![term("ancestor", 2)];
    let sub = vec![vec![term("parent", 2)], vec![term("ancestor", 2)]];
    let rules = vec![pred("ancestor", 2, vec![vec![("parent", 2)], vec![("ancestor", 2)]])];
    let (proof, cands) = bind_proof_and_candidates_sig_pairs(&goal, &sub, &rules);
    assert_eq!(proof.len(), 11);
    assert!(proof.iter().all(|r| r.len() == 11));
    assert!(proof[0][0].0.equals(&to_fp_value("ancestor")));
    assert!(proof[0][0].1.equals(&fe(2)));
    assert!(proof[1][0].0.equals(&to_fp_value("parent")));
    assert!(proof[0][1].0.is_zero() && proof[3][0].0.is_zero());
    assert_eq!(cands.len(), 48);
    assert!(cands.iter().all(|c| c.len() == 11 && c.iter().all(|r| r.len() == 11)));
    assert!(cands[0][0][0].0.equals(&to_fp_value("ancestor")));
    assert!(cands[0][1][0].0.equals(&to_fp_value("parent")));
    assert!(cands[1][0][0].0.is_zero());
}

#[test]
fn matching_candidate_passes_membership() {
    let goal = vec![term("ancestor", 2)];
    let sub = vec![vec![term("parent", 2)], vec![term("ancestor", 2)]];
    let rules = vec![
        pred("ancestor", 2, vec![vec![("parent", 2)]]),
        pred("ancestor", 2, vec![vec![("parent", 2)], vec![("ancestor", 2)]]),
    ];
    let (proof, cands) = bind_proof_and_candidates_sig_pairs(&goal, &sub, &rules);
    let w = check_membership_or(&proof, &cands, &Fe::zero());
    assert_eq!(w.b_flags.len(), 48);
    assert!(w.b_flags[0].is_zero());
    assert!(w.b_flags[1].equals(&Fe::one()));
    assert!(w.prod_not_b.is_zero());
    assert!(w.or_check.is_zero());
    let only_first = vec![pred("ancestor", 2, vec![vec![("parent", 2)]])];
    let (proof2, cands2) = bind_proof_and_candidates_sig_pairs(&goal, &sub, &only_first);
    let w2 = check_membership_or(&proof2, &cands2, &Fe::zero());
    assert!(w2.or_check.equals(&Fe::one()));
    let as_fact = check_membership_or(&proof2, &cands2, &Fe::one());
    assert!(as_fact.or_check.is_zero());
}

#[test]
fn flat_membership_disjunction() {
    let alpha = sig_alpha_exec();
    assert!(alpha.equals(&to_fp_value("rlc_alpha_v1")));
    let p = vec![(fe(1), fe(2))];
    let c = vec![vec![(fe(3), fe(4))], vec![(fe(1), fe(2))]];
    let w = check_membership_or_flat(&p, &c, &Fe::zero());
    assert!(w.or_steps[0].is_zero());
    assert!(w.or_steps[1].equals(&Fe::one()));
    assert!(w.final_ok.equals(&Fe::one()));
    assert!(w.proof_rlc.equals(&fold_sig_list(&p, &alpha)));
}

#[test]
fn signature_fold_pads_tokens() {
    let alpha = fe(2);
    let r = fold_sig_list(&vec![(fe(1), fe(1))], &alpha);
    // tokens: 0x534947, 1, 1, then 237 zeros
    let mut acc = Fp::zero();
    let mut toks = vec![Fp::from(0x534947u64), Fp::one(), Fp::one()];
    toks.resize(240, Fp::zero());
    for t in toks {
        acc = acc * Fp::from(2u64) + t;
    }
    assert_eq!(fp_of(&r), acc);
}

#[test]
fn enabled_zero_dot_passes_exists_check() {
    let w = vec![fe(1), fe(2), fe(1)];
    let c_list = vec![vec![fe(1), fe(1), fe(1)], vec![fe(2), Fe::zero(), minus_one().times(&fe(2))]];
    let r = assign_exists_dot_zero(&w, &c_list, &vec![fe(1), fe(1)], &Fe::zero());
    assert!(r.dots[0].equals(&fe(4)));
    assert!(r.dots[1].is_zero());
    assert!(r.zs[1].equals(&Fe::one()));
    assert!(r.final_check.is_zero());
    let disabled = assign_exists_dot_zero(&w, &c_list, &vec![fe(1), Fe::zero()], &Fe::zero());
    assert!(disabled.final_check.equals(&Fe::one()));
    let fact = assign_exists_dot_zero(&w, &c_list, &vec![fe(1), Fe::zero()], &Fe::one());
    assert!(fact.final_check.is_zero());
}

#[test]
fn flat_positions() {
    assert_eq!(linear_idx_4d(0, 0, 0, 0), Some(0));
    assert_eq!(linear_idx_4d(1, 2, 3, 3), Some(64 + 32 + 12 + 3));
    assert_eq!(linear_idx_4d(11, 0, 0, 0), None);
    assert_eq!(linear_idx_4d(0, 4, 0, 0), None);
    assert_eq!(linear_idx_4d(0, 0, 4, 0), None);
    assert_eq!(linear_idx_4d(0, 0, 0, 4), None);
}

#[test]
fn equality_rows_from_offsets() {
    let eqs = vec![
        (fe(0), fe(1), fe(1), fe(0)),
        (fe(0), fe(0), fe(0), fe(0)),
        (fe(5), fe(0), fe(0), fe(0)),
        (fe(1), fe(4), fe(0), fe(0)),
    ];
    let offsets = vec![fe(0), fe(2)];
    let rows = assign_rule_rows_fp(&eqs, &offsets, 5);
    assert_eq!(rows.len(), 4);
    assert!(rows[0][1].equals(&Fe::one()));
    assert!(rows[0][2].equals(&minus_one()));
    assert!(rows[0][0].is_zero() && rows[0][3].is_zero() && rows[0][4].is_zero());
    assert!(rows[1].iter().all(|x| x.is_zero()));
    assert!(rows[2].iter().all(|x| x.is_zero()));
    assert!(rows[3].iter().all(|x| x.is_zero()));
    // The row checks exactly the equality of its two positions.
    let w = vec![fe(9), fe(7), fe(7), fe(3), fe(1)];
    let dot = rows[0].iter().zip(w.iter()).fold(Fe::zero(), |acc, (a, b)| acc.plus(&a.times(b)));
    assert!(dot.is_zero());
    let w2 = vec![fe(9), fe(8), fe(7), fe(3), fe(1)];
    let dot2 = rows[0].iter().zip(w2.iter()).fold(Fe::zero(), |acc, (a, b)| acc.plus(&a.times(b)));
    assert!(dot2.equals(&fe(1)));
}

#[test]
fn equality_rows_from_four_level_positions() {
    let e = (fe(0), fe(0), fe(1), fe(0), fe(0), fe(0), fe(0), fe(1));
    let rows = assign_rule_rows_fp_4d(&[e, (fe(0), fe(0), fe(0), fe(0), fe(0), fe(0), fe(0), fe(0))], 10);
    assert!(rows[0][4].equals(&Fe::one()));
    assert!(rows[0][1].equals(&minus_one()));
    assert!(rows[1].iter().all(|x| x.is_zero()));
    let far = rows_far();
    assert!(far.iter().all(|x| x.is_zero()));
}

fn rows_far() -> Vec<Fe> {
    let e = (fe(1), fe(0), fe(0), fe(0), fe(0), fe(0), fe(0), fe(1));
    assign_rule_rows_fp_4d(&[e], 10).remove(0)
}

#[test]
fn compressed_rows() {
    let rows = vec![
        vec![vec![fe(1), fe(2)], vec![fe(3), fe(4)]],
        vec![vec![fe(10), fe(20)], vec![fe(30), fe(40)]],
    ];
    let simple = assign_compressed_active_simple(&rows, &vec![Fe::zero(), Fe::one()]);
    assert!(simple[0].equals(&fe(40)) && simple[1].equals(&fe(60)));
    let weighted = assign_compressed_active(&rows, &vec![Fe::one(), Fe::one()], &fe(10));
    assert!(weighted[0].equals(&fe(1 + 30 + 10 + 300)));
    assert!(weighted[1].equals(&fe(2 + 40 + 20 + 400)));
    let all = assign_compressed_all(&rows, 3, 2);
    assert_eq!(all.len(), 3);
    assert!(all[0][0].equals(&fe(4)) && all[1][1].equals(&fe(60)));
    assert!(all[2][0].is_zero() && all[2][1].is_zero());
}

#[test]
fn poseidon_tree_roots() {
    let a = fe(1);
    let b = fe(2);
    let c = fe(3);
    assert!(HashEqChip::tree_hash_all(&[a]).equals(&a));
    assert_eq!(fp_of(&HashEqChip::tree_hash_all(&[])), poseidon2(Fp::zero(), Fp::zero()));
    let root = HashEqChip::tree_hash_all(&[a, b, c]);
    let expected = poseidon2(
        poseidon2(Fp::from(1u64), Fp::from(2u64)),
        poseidon2(Fp::from(3u64), Fp::zero()),
    );
    assert_eq!(fp_of(&root), expected);
    assert_eq!(fp_of(&HashEqChip::hash2(&a, &b)), poseidon2(Fp::from(1u64), Fp::from(2u64)));
}

#[test]
fn nested_pairs_fold() {
    let pairs = vec![vec![(fe(1), fe(2))], vec![], vec![(fe(3), fe(4))]];
    let mut acc = Fp::zero();
    for v in [1u64, 2, 3, 4] {
        acc = poseidon2(acc, Fp::from(v));
    }
    assert_eq!(fp_of(&hash_nested_pairs(&pairs)), acc);
}

#[test]
fn goal_term_consistency() {
    let args = vec![fe(5), fe(6)];
    let (g, t, u, ok) = rlc_goal_check(&fe(1), &args, &fe(1), &args, &fe(1), &args);
    assert!(ok);
    assert!(g.equals(&t) && t.equals(&u));
    let (_, _, _, bad) = rlc_goal_check(&fe(1), &args, &fe(1), &vec![fe(5), fe(7)], &fe(1), &args);
    assert!(!bad);
}

#[test]
fn dot_trace_and_gate() {
    let z = Fe::zero();
    let (trace, ok) = assign_dot_check(&vec![fe(1), fe(2), fe(3)], &vec![fe(3), fe(0), minus_one()], &z, &z);
    assert!(trace[0].equals(&fe(3)) && trace[1].equals(&fe(3)) && trace[2].is_zero());
    assert!(ok);
    // with the flag set, w = (1, 2, _) breaks the 0/1 check on the second entry
    let (_, flagged) = assign_dot_check(&vec![fe(1), fe(2), fe(3)], &vec![fe(3), fe(0), minus_one()], &Fe::one(), &z);
    assert!(!flagged);
    // the last entry is not held to 0/1
    let (_, last_free) = assign_dot_check(&vec![fe(1), fe(0), fe(3)], &vec![fe(3), fe(5), minus_one()], &Fe::one(), &z);
    assert!(last_free);
    let (_, bad) = assign_dot_check(&vec![fe(1)], &vec![fe(1)], &z, &z);
    assert!(!bad);
    let (_, fact) = assign_dot_check(&vec![fe(1)], &vec![fe(1)], &z, &Fe::one());
    assert!(fact);
    let (empty, ok_empty) = assign_dot_check(&vec![], &vec![], &z, &z);
    assert!(empty.is_empty() && ok_empty);
}

#[test]
fn rule_commitment_check() {
    let rules = vec![fe(1), fe(2)];
    let h = poseidon_hash_list_native(&rules);
    let (hashed, flag) = rules_check(&rules, &h);
    assert!(hashed.equals(&h));
    assert!(flag.is_zero());
    let (_, flag2) = rules_check(&rules, &fe(0));
    assert!(flag2.equals(&Fe::one()));
}

#[test]
fn fact_test_on_proof_table() {
    let fact_table = vec![vec![(fe(9), fe(2))], vec![(fe(7), Fe::zero())]];
    assert!(is_fact_from_pairs(&fact_table).equals(&Fe::one()));
    let rule_table = vec![vec![(fe(9), fe(2))], vec![(fe(7), fe(2))]];
    assert!(is_fact_from_pairs(&rule_table).is_zero());
    assert!(is_fact_from_pairs(&vec![vec![(fe(9), fe(2))]]).is_zero());
}

#[test]
fn sixteen_bit_limbs() {
    let (lo, hi) = range_check_u32_limbs(&fe(0x1234_5678));
    assert!(lo.equals(&fe(0x5678)) && hi.equals(&fe(0x1234)));
    let (lo2, hi2) = range_check_u32_limbs(&fe(0xAB_0001_0002));
    assert!(lo2.equals(&fe(2)) && hi2.equals(&fe(1)));
}

#[test]
fn padded_body_and_subtree_terms() {
    let body = vec![term("parent", 2)];
    let (b, s) = bind_body_and_subtree_padded(&body, &[]);
    assert_eq!(b.len(), 4);
    assert_eq!(s.len(), 4);
    assert!(b[0].0.equals(&to_fp_value("parent")));
    assert!(b[0].1[0].equals(&fe(1)) && b[0].1[2].equals(&minus_one()));
    assert!(b[1].0.is_zero() && b[1].1.iter().all(|x| x.is_zero()));
    assert!(s.iter().all(|(n, a)| n.is_zero() && a.len() == 4));
}

#[test]
fn equality_rows_count_places_less_classes() {
    let r = |l: usize, a: usize| TermSide::Ref(TermRefComplex { children_node_list: l, predicate: 0, arg: a, list_index: 0 });
    let eq = |x: TermSide, y: TermSide| Equality { left: x, right: y };
    let children = vec![vec![ChildSig { name: "p".to_string(), arity: 2 }]];
    // p(X, Y) :- p(X, Y): places 0..4, classes {0, 2} and {1, 3}
    let c = ClauseTemplate { children: children.clone(), equalities: vec![eq(r(0, 0), r(1, 0)), eq(r(0, 1), r(1, 1))] };
    let rows = rows_equality_global(&c, 2);
    assert_eq!(rows.len(), 4 - 2);
    assert_eq!(rows[0].len(), 5);
    assert!(rows[0][0].equals(&Fe::one()) && rows[0][2].equals(&minus_one()));
    // one more equality joins the two classes: 4 places, 1 class
    let c2 = ClauseTemplate {
        children,
        equalities: vec![eq(r(0, 0), r(1, 0)), eq(r(0, 1), r(1, 1)), eq(r(1, 0), r(0, 1))],
    };
    assert_eq!(rows_equality_global(&c2, 2).len(), 3);
}

#[test]
fn dot_public_inputs() {
    let c = vec![fe(1), fe(2), fe(3)];
    let (cs, fs) = dot_instances(&c, 3, 4, &Fe::one()).unwrap();
    assert_eq!(cs.len(), 3);
    assert!(cs[2].equals(&fe(3)));
    assert_eq!(fs.len(), 3);
    assert!(fs.iter().all(|f| f.equals(&Fe::one())));
    assert_eq!(dot_instances(&c, 2, 4, &Fe::one()).unwrap_err(), DotInputError::LengthMismatch);
    assert_eq!(dot_instances(&c, 3, 2, &Fe::one()).unwrap_err(), DotInputError::PaddingNeeded);
    assert_eq!(dot_verify_instances(&c, 2, &Fe::one()).unwrap_err(), DotInputError::PaddingNeeded);
    assert_eq!(dot_verify_instances(&c, 3, &Fe::zero()).unwrap().1.len(), 3);
}
