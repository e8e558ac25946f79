//! Membership of the proof's signature table among the candidate clauses:
//! each table is flattened into `(name, arity)` pairs, turned into tokens
//! (a domain separator, the pairs, zero padding to `MAX_SIG_TOKENS`) and
//! folded into a random linear combination with the fixed `alpha`; a
//! candidate matches when its combination equals the proof's.
use vstd::prelude::*;
use crate::builtin::ind;
use crate::fact_check::prod_not;
use crate::field::{Fe, fadd, fsub, fmul, fe_add, fe_sub, fe_mul, fe_from_u64, vals, modulus};
use crate::hashing::{rlc_spec, rlc_encode_cpu, to_fp_spec, to_fp_chars};
use crate::params::MAX_SIG_TOKENS;
use crate::sig_pairs::{pair_v, row_v, rows_v};
use crate::text::chars_from_slice;

verus! {

/// The domain separator that opens every signature token list ("SIG").
pub open spec fn sig_sep() -> nat {
    0x534947
}

/// The fixed challenge of the signature combination: the code of
/// `rlc_alpha_v1`.
pub open spec fn sig_alpha() -> nat {
    to_fp_spec(seq!['r', 'l', 'c', '_', 'a', 'l', 'p', 'h', 'a', '_', 'v', '1'])
}

/// The challenge, computed.
pub fn sig_alpha_exec() -> (r: Fe)
    ensures
        r@ == sig_alpha(),
{
    let c = chars_from_slice(&['r', 'l', 'c', '_', 'a', 'l', 'p', 'h', 'a', '_', 'v', '1']);
    assert(c@ =~= seq!['r', 'l', 'c', '_', 'a', 'l', 'p', 'h', 'a', '_', 'v', '1']);
    to_fp_chars(&c)
}

/// The rows of a table, one after the other.
pub open spec fn pairs_flat(rows: Seq<Seq<(nat, nat)>>) -> Seq<(nat, nat)>
    decreases rows.len(),
{
    if rows.len() == 0 {
        Seq::empty()
    } else {
        pairs_flat(rows.drop_last()) + rows.last()
    }
}

/// The name and arity of each pair, in order.
pub open spec fn pair_tokens(p: Seq<(nat, nat)>) -> Seq<nat>
    decreases p.len(),
{
    if p.len() == 0 {
        Seq::empty()
    } else {
        pair_tokens(p.drop_last()) + seq![p.last().0, p.last().1]
    }
}

/// The tokens of a signature list: the separator, the pairs, then zeros up
/// to `MAX_SIG_TOKENS` (a longer list is not cut).
pub open spec fn sig_tokens(p: Seq<(nat, nat)>) -> Seq<nat> {
    let t = seq![sig_sep()] + pair_tokens(p);
    if t.len() >= MAX_SIG_TOKENS {
        t
    } else {
        t + Seq::new((MAX_SIG_TOKENS - t.len()) as nat, |i: int| 0nat)
    }
}

/// The combination of a signature list.
pub open spec fn sig_rlc(p: Seq<(nat, nat)>) -> nat {
    rlc_spec(sig_tokens(p), sig_alpha())
}

/// The tokens of a signature list.
fn sig_token_list(pairs: &Vec<(Fe, Fe)>) -> (t: Vec<Fe>)
    ensures
        vals(t@) == sig_tokens(row_v(pairs@)),
{
    let mut t: Vec<Fe> = Vec::new();
    t.push(fe_from_u64(0x534947));
    assert(vals(t@) =~= seq![sig_sep()]) by {
        vstd::arithmetic::div_mod::lemma_small_mod(0x534947, modulus());
    }
    let ghost pv = row_v(pairs@);
    let mut i: usize = 0;
    while i < pairs.len()
        invariant
            i <= pairs@.len(),
            pv == row_v(pairs@),
            vals(t@) == seq![sig_sep()] + pair_tokens(pv.take(i as int)),
        decreases pairs@.len() - i,
    {
        let ghost before = vals(t@);
        t.push(pairs[i].0);
        t.push(pairs[i].1);
        assert(vals(t@) =~= before + seq![pairs@[i as int].0@, pairs@[i as int].1@]);
        assert(pv.take(i + 1).drop_last() =~= pv.take(i as int));
        assert(pv.take(i + 1).last() == pair_v(pairs@[i as int]));
        i = i + 1;
    }
    assert(pv.take(pairs@.len() as int) =~= pv);
    let ghost base = vals(t@);
    let n0 = t.len();
    while t.len() < MAX_SIG_TOKENS
        invariant
            n0 <= t@.len(),
            n0 == base.len(),
            n0 >= MAX_SIG_TOKENS ==> t@.len() == n0,
            n0 < MAX_SIG_TOKENS ==> t@.len() <= MAX_SIG_TOKENS,
            vals(t@) == base + Seq::new((t@.len() - n0) as nat, |k: int| 0nat),
        decreases MAX_SIG_TOKENS - t@.len(),
    {
        let ghost before = vals(t@);
        t.push(Fe::zero());
        assert(vals(t@) =~= before.push(0));
        assert(Seq::new((t@.len() - n0) as nat, |k: int| 0nat) =~= Seq::new((t@.len() - 1 - n0) as nat, |k: int| 0nat).push(0));
    }
    assert(base + Seq::new(0nat, |k: int| 0nat) =~= base);
    t
}

/// The combination of a signature list with the challenge `alpha`.
pub fn fold_sig_list(pairs: &Vec<(Fe, Fe)>, alpha: &Fe) -> (r: Fe)
    ensures
        r@ == rlc_spec(sig_tokens(row_v(pairs@)), alpha@),
{
    let t = sig_token_list(pairs);
    rlc_encode_cpu(t.as_slice(), alpha)
}

/// The pairs of a table, row after row.
fn flatten_pairs(rows: &Vec<Vec<(Fe, Fe)>>) -> (r: Vec<(Fe, Fe)>)
    ensures
        row_v(r@) == pairs_flat(rows_v(rows@)),
{
    let ghost rv = rows_v(rows@);
    let mut out: Vec<(Fe, Fe)> = Vec::new();
    let mut i: usize = 0;
    while i < rows.len()
        invariant
            i <= rows@.len(),
            rv == rows_v(rows@),
            row_v(out@) == pairs_flat(rv.take(i as int)),
        decreases rows@.len() - i,
    {
        let ghost base = row_v(out@);
        let mut j: usize = 0;
        while j < rows[i].len()
            invariant
                i < rows@.len(),
                j <= rows@[i as int]@.len(),
                row_v(out@) == base + row_v(rows@[i as int]@.take(j as int)),
            decreases rows@[i as int]@.len() - j,
        {
            let ghost prev = row_v(out@);
            out.push(rows[i][j]);
            assert(row_v(out@) =~= prev.push(pair_v(rows@[i as int]@[j as int])));
            assert(row_v(rows@[i as int]@.take(j + 1)) =~= row_v(rows@[i as int]@.take(j as int)).push(
                pair_v(rows@[i as int]@[j as int]),
            ));
            j = j + 1;
        }
        assert(rows@[i as int]@.take(rows@[i as int]@.len() as int) =~= rows@[i as int]@);
        assert(rv.take(i + 1).drop_last() =~= rv.take(i as int));
        assert(rv.take(i + 1).last() == row_v(rows@[i as int]@));
        i = i + 1;
    }
    assert(rv.take(rows@.len() as int) =~= rv);
    out
}

/// The values of the membership check.
#[derive(Clone, Debug)]
pub struct MembershipWitness {
    pub proof_rlc: Fe,
    pub cand_rlcs: Vec<Fe>,
    pub b_flags: Vec<Fe>,
    pub prod_not_b: Fe,
    pub or_check: Fe,
}

/// Whether `w` holds the values of the check: the combination of the
/// flattened proof table and of each flattened candidate table, one match
/// flag per candidate, `prod(1 - b_i)`, and `prod(1 - b_i) * (1 - is_fact)`,
/// which the circuit requires to be zero.
pub open spec fn membership_spec(
    w: MembershipWitness,
    proof: Seq<Vec<(Fe, Fe)>>,
    cands: Seq<Vec<Vec<(Fe, Fe)>>>,
    is_fact: nat,
) -> bool {
    &&& w.proof_rlc@ == sig_rlc(pairs_flat(rows_v(proof)))
    &&& w.cand_rlcs@.len() == cands.len()
    &&& w.b_flags@.len() == cands.len()
    &&& forall|i: int|
        0 <= i < cands.len() ==> (#[trigger] w.cand_rlcs@[i])@ == sig_rlc(pairs_flat(rows_v(cands[i]@)))
            && w.b_flags@[i]@ == ind(w.proof_rlc@ == w.cand_rlcs@[i]@)
    &&& w.prod_not_b@ == prod_not(vals(w.b_flags@))
    &&& w.or_check@ == fmul(w.prod_not_b@, fsub(1, is_fact))
}

/// Compares the proof's signature table with every candidate table and
/// returns the match flags with the value of the check.
pub fn check_membership_or(
    proof_pairs_nested: &Vec<Vec<(Fe, Fe)>>,
    candidate_pairs_nested: &Vec<Vec<Vec<(Fe, Fe)>>>,
    is_fact: &Fe,
) -> (w: MembershipWitness)
    ensures
        membership_spec(w, proof_pairs_nested@, candidate_pairs_nested@, is_fact@),
{
    let alpha = sig_alpha_exec();
    let proof_flat = flatten_pairs(proof_pairs_nested);
    let proof_rlc = fold_sig_list(&proof_flat, &alpha);
    let mut cand_rlcs: Vec<Fe> = Vec::new();
    let mut b_flags: Vec<Fe> = Vec::new();
    let mut prod = Fe::one();
    let mut i: usize = 0;
    assert(vals(b_flags@.take(0)) =~= Seq::<nat>::empty());
    while i < candidate_pairs_nested.len()
        invariant
            i <= candidate_pairs_nested@.len(),
            alpha@ == sig_alpha(),
            proof_rlc@ == sig_rlc(pairs_flat(rows_v(proof_pairs_nested@))),
            cand_rlcs@.len() == i,
            b_flags@.len() == i,
            forall|k: int|
                0 <= k < i ==> (#[trigger] cand_rlcs@[k])@ == sig_rlc(pairs_flat(rows_v(candidate_pairs_nested@[k]@)))
                    && b_flags@[k]@ == ind(proof_rlc@ == cand_rlcs@[k]@),
            prod@ == prod_not(vals(b_flags@)),
        decreases candidate_pairs_nested@.len() - i,
    {
        let flat = flatten_pairs(&candidate_pairs_nested[i]);
        let c = fold_sig_list(&flat, &alpha);
        let b = if proof_rlc.equals(&c) {
            Fe::one()
        } else {
            Fe::zero()
        };
        let ghost before = vals(b_flags@);
        prod = fe_mul(&prod, &fe_sub(&Fe::one(), &b));
        cand_rlcs.push(c);
        b_flags.push(b);
        assert(vals(b_flags@) =~= before.push(b@));
        assert(vals(b_flags@).drop_last() =~= before);
        i = i + 1;
    }
    let or_check = fe_mul(&prod, &fe_sub(&Fe::one(), is_fact));
    MembershipWitness { proof_rlc, cand_rlcs, b_flags, prod_not_b: prod, or_check }
}

/// A zero factor makes `prod_not` zero.
proof fn lemma_prod_not_zero(f: Seq<nat>, i: int)
    requires
        0 <= i < f.len(),
        f[i] == 1,
    ensures
        prod_not(f) == 0,
    decreases f.len(),
{
    vstd::arithmetic::div_mod::lemma_small_mod(0, modulus());
    vstd::arithmetic::div_mod::lemma_small_mod(1, modulus());
    if i < f.len() - 1 {
        lemma_prod_not_zero(f.drop_last(), i);
        assert(0 * fsub(1, f.last()) == 0);
    } else {
        assert(fsub(1, 1) == 0);
        assert(prod_not(f.drop_last()) * 0 == 0);
    }
}

/// The membership check passes (its value is zero) when the goal is a fact,
/// and when some candidate table flattens to the same signature pairs as the
/// proof table.
pub proof fn law_matching_candidate_passes(
    w: MembershipWitness,
    proof: Seq<Vec<(Fe, Fe)>>,
    cands: Seq<Vec<Vec<(Fe, Fe)>>>,
    is_fact: nat,
)
    requires
        membership_spec(w, proof, cands, is_fact),
        is_fact == 1 || exists|i: int|
            0 <= i < cands.len() && pairs_flat(rows_v(#[trigger] cands[i]@)) == pairs_flat(rows_v(proof)),
    ensures
        w.or_check@ == 0,
{
    vstd::arithmetic::div_mod::lemma_small_mod(0, modulus());
    vstd::arithmetic::div_mod::lemma_small_mod(1, modulus());
    if is_fact == 1 {
        assert(fsub(1, 1) == 0);
        assert(w.prod_not_b@ * 0 == 0);
    } else {
        let i = choose|i: int|
            0 <= i < cands.len() && pairs_flat(rows_v(#[trigger] cands[i]@)) == pairs_flat(rows_v(proof));
        assert(w.cand_rlcs@[i]@ == w.proof_rlc@);
        assert(vals(w.b_flags@)[i] == 1);
        lemma_prod_not_zero(vals(w.b_flags@), i);
        assert(0 * fsub(1, is_fact) == 0);
    }
}

/// Zero flags leave `prod_not` at one.
proof fn lemma_prod_not_one(f: Seq<nat>)
    requires
        forall|j: int| 0 <= j < f.len() ==> f[j] == 0,
    ensures
        prod_not(f) == 1,
    decreases f.len(),
{
    vstd::arithmetic::div_mod::lemma_small_mod(1, modulus());
    if f.len() > 0 {
        lemma_prod_not_one(f.drop_last());
        assert(fsub(1, 0) == 1);
        assert(fmul(1, 1) == 1);
    }
}

/// With a fact flag of zero or one, the membership check passes (its value
/// is zero) exactly when the goal is a fact or some candidate table has the
/// same combination as the proof table.
pub proof fn law_membership_passes_iff_combination_matches(
    w: MembershipWitness,
    proof: Seq<Vec<(Fe, Fe)>>,
    cands: Seq<Vec<Vec<(Fe, Fe)>>>,
    is_fact: nat,
)
    requires
        membership_spec(w, proof, cands, is_fact),
        is_fact == 0 || is_fact == 1,
    ensures
        w.or_check@ == 0 <==> (is_fact == 1 || exists|i: int| 0 <= i < cands.len() && #[trigger] w.cand_rlcs@[i]@ == w.proof_rlc@),
{
    vstd::arithmetic::div_mod::lemma_small_mod(0, modulus());
    vstd::arithmetic::div_mod::lemma_small_mod(1, modulus());
    if is_fact == 1 {
        assert(fsub(1, 1) == 0);
        assert(w.prod_not_b@ * 0 == 0);
    } else if exists|i: int| 0 <= i < cands.len() && #[trigger] w.cand_rlcs@[i]@ == w.proof_rlc@ {
        let i = choose|i: int| 0 <= i < cands.len() && #[trigger] w.cand_rlcs@[i]@ == w.proof_rlc@;
        assert(vals(w.b_flags@)[i] == 1);
        lemma_prod_not_zero(vals(w.b_flags@), i);
        assert(0 * fsub(1, is_fact) == 0);
    } else {
        assert forall|j: int| 0 <= j < vals(w.b_flags@).len() implies vals(w.b_flags@)[j] == 0 by {
            assert(w.cand_rlcs@[j]@ != w.proof_rlc@);
        }
        lemma_prod_not_one(vals(w.b_flags@));
        assert(fsub(1, 0) == 1);
        assert(fmul(1, 1) == 1);
    }
}

/// The running disjunction of the matches of `p` against the first `k`
/// combinations: `acc = 1 - (1 - acc)(1 - [p == c_i])`.
pub open spec fn or_upto(p: nat, rl: Seq<Fe>, k: int) -> nat
    decreases k,
{
    if k <= 0 {
        0
    } else {
        fsub(1, fmul(fsub(1, or_upto(p, rl, k - 1)), fsub(1, ind(p == rl[k - 1]@))))
    }
}

proof fn lemma_or_upto_prefix(p: nat, a: Seq<Fe>, b: Seq<Fe>, k: int)
    requires
        k <= a.len(),
        k <= b.len(),
        forall|j: int| 0 <= j < k ==> a[j] == b[j],
    ensures
        or_upto(p, a, k) == or_upto(p, b, k),
    decreases k,
{
    if k > 0 {
        lemma_or_upto_prefix(p, a, b, k - 1);
    }
}

/// The values of the check on flat signature lists.
#[derive(Clone, Debug)]
pub struct FlatMembershipWitness {
    pub proof_rlc: Fe,
    pub cand_rlcs: Vec<Fe>,
    pub or_steps: Vec<Fe>,
    pub final_ok: Fe,
}

/// The check on flat signature lists: the running disjunction of the
/// matches, and `final_ok = or + is_fact - or * is_fact`, which the circuit
/// requires to be one.
pub fn check_membership_or_flat(
    proof_pairs: &Vec<(Fe, Fe)>,
    candidate_pairs_all: &Vec<Vec<(Fe, Fe)>>,
    is_fact: &Fe,
) -> (w: FlatMembershipWitness)
    ensures
        w.proof_rlc@ == sig_rlc(row_v(proof_pairs@)),
        w.cand_rlcs@.len() == candidate_pairs_all@.len(),
        w.or_steps@.len() == candidate_pairs_all@.len(),
        forall|i: int|
            0 <= i < candidate_pairs_all@.len() ==> (#[trigger] w.cand_rlcs@[i])@ == sig_rlc(
                row_v(candidate_pairs_all@[i]@),
            ) && w.or_steps@[i]@ == or_upto(w.proof_rlc@, w.cand_rlcs@, i + 1),
        w.final_ok@ == fsub(
            fadd(or_upto(w.proof_rlc@, w.cand_rlcs@, candidate_pairs_all@.len() as int), is_fact@),
            fmul(or_upto(w.proof_rlc@, w.cand_rlcs@, candidate_pairs_all@.len() as int), is_fact@),
        ),
{
    let alpha = sig_alpha_exec();
    let proof_rlc = fold_sig_list(proof_pairs, &alpha);
    let mut cand_rlcs: Vec<Fe> = Vec::new();
    let mut or_steps: Vec<Fe> = Vec::new();
    let mut acc = Fe::zero();
    let mut i: usize = 0;
    while i < candidate_pairs_all.len()
        invariant
            i <= candidate_pairs_all@.len(),
            alpha@ == sig_alpha(),
            proof_rlc@ == sig_rlc(row_v(proof_pairs@)),
            cand_rlcs@.len() == i,
            or_steps@.len() == i,
            forall|k: int|
                0 <= k < i ==> (#[trigger] cand_rlcs@[k])@ == sig_rlc(row_v(candidate_pairs_all@[k]@))
                    && or_steps@[k]@ == or_upto(proof_rlc@, cand_rlcs@, k + 1),
            acc@ == or_upto(proof_rlc@, cand_rlcs@, i as int),
        decreases candidate_pairs_all@.len() - i,
    {
        let c = fold_sig_list(&candidate_pairs_all[i], &alpha);
        let m = if proof_rlc.equals(&c) {
            Fe::one()
        } else {
            Fe::zero()
        };
        let ghost old_rlcs = cand_rlcs@;
        let one = Fe::one();
        acc = fe_sub(&one, &fe_mul(&fe_sub(&one, &acc), &fe_sub(&one, &m)));
        cand_rlcs.push(c);
        or_steps.push(acc);
        proof {
            assert forall|k: int| 0 <= k <= i implies or_upto(proof_rlc@, cand_rlcs@, k) == or_upto(
                proof_rlc@,
                old_rlcs,
                k,
            ) by {
                lemma_or_upto_prefix(proof_rlc@, cand_rlcs@, old_rlcs, k);
            }
            assert(cand_rlcs@[i as int] == c);
        }
        i = i + 1;
    }
    let final_ok = fe_sub(&fe_add(&acc, is_fact), &fe_mul(&acc, is_fact));
    FlatMembershipWitness { proof_rlc, cand_rlcs, or_steps, final_ok }
}

} // verus!
