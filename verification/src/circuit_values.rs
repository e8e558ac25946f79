//! The values that the remaining chips of the unification circuit assign:
//! the three-way goal consistency combination, the gated dot-product trace,
//! the rule-set commitment check, the fact test on the proof table, the
//! 16-bit split of a range check, and the padded body/subtree term layout.
use vstd::prelude::*;
use crate::builtin::ind;
use crate::data::TermFp;
use crate::field::{Fe, fe_add, fe_mul, fp_to_u128, two_pow_128, vals, modulus};
use crate::hashing::{rlc_spec, rlc_encode_cpu, poseidon_fold, poseidon_hash_list_native};
use crate::params::{MAX_ARITY, MAX_PAIRS};
use crate::predicates::dot_sum;
use crate::sig_check::{sig_alpha, sig_alpha_exec};

verus! {

/// The tokens of a term: its name, then its arguments.
pub open spec fn term_tokens(name: Fe, args: Seq<Fe>) -> Seq<nat> {
    seq![name@] + vals(args)
}

/// The combination of a term's tokens with the fixed challenge.
fn term_rlc(name: &Fe, args: &Vec<Fe>, alpha: &Fe) -> (r: Fe)
    ensures
        r@ == rlc_spec(term_tokens(*name, args@), alpha@),
{
    let mut t: Vec<Fe> = Vec::new();
    t.push(*name);
    let mut i: usize = 0;
    while i < args.len()
        invariant
            i <= args@.len(),
            vals(t@) == seq![name@] + vals(args@.take(i as int)),
        decreases args@.len() - i,
    {
        let ghost before = vals(t@);
        t.push(args[i]);
        assert(vals(t@) =~= before.push(args@[i as int]@));
        assert(vals(args@.take(i + 1)) =~= vals(args@.take(i as int)).push(args@[i as int]@));
        i = i + 1;
    }
    assert(args@.take(args@.len() as int) =~= args@);
    rlc_encode_cpu(t.as_slice(), alpha)
}

/// The three combinations that the goal check compares: the goal text's
/// term, the parsed goal term, and the goal of the clause instance, each as
/// name then arguments. The goal is consistent when all three are equal.
pub fn rlc_goal_check(
    goal_name: &Fe,
    goal_args: &Vec<Fe>,
    term_name: &Fe,
    term_args: &Vec<Fe>,
    unif_name: &Fe,
    unif_args: &Vec<Fe>,
) -> (r: (Fe, Fe, Fe, bool))
    ensures
        r.0@ == rlc_spec(term_tokens(*goal_name, goal_args@), sig_alpha()),
        r.1@ == rlc_spec(term_tokens(*term_name, term_args@), sig_alpha()),
        r.2@ == rlc_spec(term_tokens(*unif_name, unif_args@), sig_alpha()),
        r.3 == (r.0@ == r.1@ && r.0@ == r.2@),
{
    let alpha = sig_alpha_exec();
    let g = term_rlc(goal_name, goal_args, &alpha);
    let t = term_rlc(term_name, term_args, &alpha);
    let u = term_rlc(unif_name, unif_args, &alpha);
    let ok = g.equals(&t) && g.equals(&u);
    (g, t, u, ok)
}

/// Terms with the same name and arguments pass the goal check.
pub proof fn law_equal_terms_are_consistent(name: Fe, args: Seq<Fe>, r: (Fe, Fe, Fe, bool))
    requires
        r.0@ == rlc_spec(term_tokens(name, args), sig_alpha()),
        r.1@ == rlc_spec(term_tokens(name, args), sig_alpha()),
        r.2@ == rlc_spec(term_tokens(name, args), sig_alpha()),
        r.3 == (r.0@ == r.1@ && r.0@ == r.2@),
    ensures
        r.3,
{
}

/// The running dot product that the dot chip assigns row by row, and whether
/// its checks hold: for a fact they are switched off; else the last value
/// must be zero, and, when `flag` is set, every entry of `w` but the last
/// must be zero or one (an empty product has no rows to check).
pub fn assign_dot_check(w_vec: &Vec<Fe>, c_vec: &Vec<Fe>, flag: &Fe, is_fact: &Fe) -> (r: (Vec<Fe>, bool))
    requires
        w_vec@.len() == c_vec@.len(),
    ensures
        r.0@.len() == w_vec@.len(),
        forall|i: int|
            0 <= i < r.0@.len() ==> (#[trigger] r.0@[i])@ == dot_sum(vals(w_vec@), vals(c_vec@), i + 1) % modulus() as int,
        r.1 == (is_fact@ == 1 || w_vec@.len() == 0 || (dot_sum(vals(w_vec@), vals(c_vec@), w_vec@.len() as int)
            % modulus() as int == 0 && (flag@ == 0 || forall|i: int| 0 <= i < w_vec@.len() - 1 ==> (#[trigger] w_vec@[i])@ <= 1))),
{
    let ghost wv = vals(w_vec@);
    let ghost cv = vals(c_vec@);
    let mut acc = Fe::zero();
    let mut trace: Vec<Fe> = Vec::new();
    let mut i: usize = 0;
    while i < w_vec.len()
        invariant
            i <= w_vec@.len(),
            w_vec@.len() == c_vec@.len(),
            wv == vals(w_vec@),
            cv == vals(c_vec@),
            trace@.len() == i,
            acc@ == dot_sum(wv, cv, i as int) % modulus() as int,
            forall|k: int| 0 <= k < i ==> (#[trigger] trace@[k])@ == dot_sum(wv, cv, k + 1) % modulus() as int,
        decreases w_vec@.len() - i,
    {
        proof {
            crate::predicates::lemma_dot_sum_nonneg(wv, cv, i as int);
            crate::field::lemma_mod_accumulate(dot_sum(wv, cv, i as int), wv[i as int], cv[i as int]);
        }
        acc = fe_add(&acc, &fe_mul(&w_vec[i], &c_vec[i]));
        trace.push(acc);
        i = i + 1;
    }
    let n = w_vec.len();
    let last = if n > 0 {
        n - 1
    } else {
        0
    };
    let mut bits = true;
    let mut j: usize = 0;
    while j < last
        invariant
            bits == forall|k: int| 0 <= k < j ==> (#[trigger] w_vec@[k])@ <= 1,
            j <= last,
            n == w_vec@.len(),
            n > 0 ==> last == n - 1,
            n == 0 ==> last == 0,
        decreases last - j,
    {
        let x = &w_vec[j];
        if !(x.is_zero() || x.equals(&Fe::one())) {
            bits = false;
        }
        j = j + 1;
    }
    let ok = is_fact.equals(&Fe::one()) || w_vec.len() == 0 || (acc.is_zero() && (flag.is_zero() || bits));
    (trace, ok)
}

/// The rule-set commitment check: the Poseidon fold of the flattened rules,
/// and the flag `[hash != public hash]` that the circuit requires to be zero.
pub fn rules_check(flatten_rules: &[Fe], public_rules_hash: &Fe) -> (r: (Fe, Fe))
    ensures
        r.0@ == poseidon_fold(vals(flatten_rules@)),
        r.1@ == ind(r.0@ != public_rules_hash@),
{
    let h = poseidon_hash_list_native(flatten_rules);
    let c = if h.equals(public_rules_hash) {
        Fe::zero()
    } else {
        Fe::one()
    };
    (h, c)
}

/// The fact test on the proof table: a goal is a fact when the first pair of
/// the second row (the first body term) has arity zero; a table without
/// such a pair is not a fact.
pub fn is_fact_from_pairs(proof_pairs: &Vec<Vec<(Fe, Fe)>>) -> (r: Fe)
    ensures
        r@ == (if proof_pairs@.len() > 1 && proof_pairs@[1]@.len() > 0 {
            ind(proof_pairs@[1]@[0].1@ == 0)
        } else {
            0
        }),
{
    if proof_pairs.len() > 1 && proof_pairs[1].len() > 0 {
        if proof_pairs[1][0].1.is_zero() {
            Fe::one()
        } else {
            Fe::zero()
        }
    } else {
        Fe::zero()
    }
}

/// The 16-bit limbs that the range check assigns for `v`: the low and the
/// next 16 bits of its low 128 bits.
pub fn range_check_u32_limbs(v: &Fe) -> (r: (Fe, Fe))
    ensures
        r.0@ == (v@ % two_pow_128()) % 0x10000,
        r.1@ == ((v@ % two_pow_128()) / 0x10000) % 0x10000,
{
    let x = fp_to_u128(v);
    let lo = x % 0x10000;
    let hi = (x / 0x10000) % 0x10000;
    let lo64 = lo as u64;
    let hi64 = hi as u64;
    let a = Fe::from_u64(lo64);
    let b = Fe::from_u64(hi64);
    proof {
        assert(modulus() > 0x10000);
        vstd::arithmetic::div_mod::lemma_small_mod(lo64 as nat, modulus());
        vstd::arithmetic::div_mod::lemma_small_mod(hi64 as nat, modulus());
    }
    (a, b)
}

/// The name and first-entry arguments of term `i`, or zeros past the list.
pub open spec fn padded_term(terms: Seq<TermFp>, i: int) -> (nat, Seq<nat>) {
    (
        if i < terms.len() { terms[i].name@ } else { 0 },
        Seq::new(
            MAX_ARITY as nat,
            |j: int|
                if i < terms.len() && j < terms[i].args@.len() && terms[i].args@[j]@.len() > 0 {
                    terms[i].args@[j]@[0]@
                } else {
                    0
                },
        ),
    )
}

/// The layout of one term list: `MAX_PAIRS` entries, each a name with
/// `MAX_ARITY` arguments (the first entry of each argument list), zero
/// past the list.
fn padded_terms(terms: &[TermFp]) -> (r: Vec<(Fe, Vec<Fe>)>)
    ensures
        r@.len() == MAX_PAIRS,
        forall|i: int|
            0 <= i < MAX_PAIRS ==> (#[trigger] r@[i]).0@ == padded_term(terms@, i).0 && vals(r@[i].1@)
                == padded_term(terms@, i).1,
{
    let mut out: Vec<(Fe, Vec<Fe>)> = Vec::new();
    let mut i: usize = 0;
    while i < MAX_PAIRS
        invariant
            i <= MAX_PAIRS,
            out@.len() == i,
            forall|k: int|
                0 <= k < i ==> (#[trigger] out@[k]).0@ == padded_term(terms@, k).0 && vals(out@[k].1@)
                    == padded_term(terms@, k).1,
        decreases MAX_PAIRS - i,
    {
        let name = if i < terms.len() {
            terms[i].name
        } else {
            Fe::zero()
        };
        let mut args: Vec<Fe> = Vec::new();
        let mut j: usize = 0;
        while j < MAX_ARITY
            invariant
                i < MAX_PAIRS,
                j <= MAX_ARITY,
                vals(args@) == padded_term(terms@, i as int).1.take(j as int),
            decreases MAX_ARITY - j,
        {
            let a = if i < terms.len() && j < terms[i].args.len() && terms[i].args[j].len() > 0 {
                terms[i].args[j][0]
            } else {
                Fe::zero()
            };
            let ghost before = vals(args@);
            args.push(a);
            assert(vals(args@) =~= before.push(a@));
            assert(padded_term(terms@, i as int).1.take(j + 1) =~= padded_term(terms@, i as int).1.take(j as int).push(
                padded_term(terms@, i as int).1[j as int],
            ));
            j = j + 1;
        }
        assert(padded_term(terms@, i as int).1.take(MAX_ARITY as int) =~= padded_term(terms@, i as int).1);
        out.push((name, args));
        i = i + 1;
    }
    out
}

/// The padded layouts of the body terms and of the subtree terms, as the
/// body/subtree chip binds them.
pub fn bind_body_and_subtree_padded(body: &[TermFp], subtree: &[TermFp]) -> (r: (Vec<(Fe, Vec<Fe>)>, Vec<(Fe, Vec<Fe>)>))
    ensures
        r.0@.len() == MAX_PAIRS,
        r.1@.len() == MAX_PAIRS,
        forall|i: int|
            0 <= i < MAX_PAIRS ==> (#[trigger] r.0@[i]).0@ == padded_term(body@, i).0 && vals(r.0@[i].1@) == padded_term(
                body@,
                i,
            ).1 && r.1@[i].0@ == padded_term(subtree@, i).0 && vals(r.1@[i].1@) == padded_term(subtree@, i).1,
{
    (padded_terms(body), padded_terms(subtree))
}

/// Why the public inputs of a dot proof cannot be formed.
#[derive(Debug, Clone, Copy, PartialEq, Eq)]
pub enum DotInputError {
    /// `c` and `w` differ in length.
    LengthMismatch,
    /// `c` is longer than the circuit's dimension.
    PaddingNeeded,
}

/// The public inputs of a dot proof of `c` against a witness of length
/// `w_len` in a circuit of dimension `max_dim`: `c` and, beside it, the
/// flag repeated once per entry. Refused when the lengths differ, or else
/// when `c` is longer than `max_dim`.
pub fn dot_instances(c: &Vec<Fe>, w_len: usize, max_dim: usize, flag: &Fe) -> (r: Result<(Vec<Fe>, Vec<Fe>), DotInputError>)
    ensures
        r == Err::<(Vec<Fe>, Vec<Fe>), DotInputError>(DotInputError::LengthMismatch) <==> c@.len() != w_len,
        r == Err::<(Vec<Fe>, Vec<Fe>), DotInputError>(DotInputError::PaddingNeeded) <==> c@.len() == w_len && c@.len() > max_dim,
        r matches Ok((cs, fs)) ==> cs@ == c@ && fs@.len() == c@.len() && forall|i: int| 0 <= i < fs@.len() ==> #[trigger] fs@[i] == *flag,
{
    if c.len() != w_len {
        return Err(DotInputError::LengthMismatch);
    }
    dot_verify_instances(c, max_dim, flag)
}

/// The public inputs against which a dot proof of `c` is checked: `c` and
/// the flag once per entry; refused when `c` is longer than `max_dim`.
pub fn dot_verify_instances(c: &Vec<Fe>, max_dim: usize, flag: &Fe) -> (r: Result<(Vec<Fe>, Vec<Fe>), DotInputError>)
    ensures
        r is Err <==> c@.len() > max_dim,
        r matches Err(e) ==> e == DotInputError::PaddingNeeded,
        r matches Ok((cs, fs)) ==> cs@ == c@ && fs@.len() == c@.len() && forall|i: int| 0 <= i < fs@.len() ==> #[trigger] fs@[i] == *flag,
{
    if c.len() > max_dim {
        return Err(DotInputError::PaddingNeeded);
    }
    let mut cs: Vec<Fe> = Vec::new();
    let mut fs: Vec<Fe> = Vec::new();
    let mut i: usize = 0;
    while i < c.len()
        invariant
            i <= c@.len(),
            cs@ == c@.take(i as int),
            fs@.len() == i,
            forall|k: int| 0 <= k < i ==> #[trigger] fs@[k] == *flag,
        decreases c@.len() - i,
    {
        cs.push(c[i]);
        fs.push(*flag);
        assert(cs@ =~= c@.take(i + 1));
        i = i + 1;
    }
    assert(c@.take(c@.len() as int) =~= c@);
    Ok((cs, fs))
}

} // verus!
