//! The decision of the fact check for a leaf goal: the goal holds when its
//! salted hash is one of the public fact hashes or when it is a built-in
//! expression that evaluates to true; flags of matching rules count for the
//! gate that `is_fact` switches on.
use vstd::prelude::*;
use crate::builtin::{ChainWitness, chain_input_ok, chain_spec, eval_chain_equal, ind};
use crate::field::{Fe, fadd, fsub, fmul, fe_add, fe_sub, fe_mul, vals, modulus};
use crate::hashing::{poseidon_fold, poseidon_hash_list_native, fact_tokens, fact_arg_tokens};
use crate::goal_encoding::{og_encodes, og_name, og_args, og_raw_args, og_key, matrix_is, plain_part, call_text, consumption_class_name, lemma_call_text_parts};
use crate::params::{MAX_ARITY, MAX_PRED_LIST};
use crate::data::TermFp;
use crate::params::MAX_FACTS_HASHES;

verus! {

/// The entries of a matrix, row after row.
pub open spec fn rows_flat(m: Seq<Vec<Fe>>) -> Seq<nat>
    decreases m.len(),
{
    if m.len() == 0 {
        Seq::empty()
    } else {
        rows_flat(m.drop_last()) + vals(m.last()@)
    }
}

/// The tokens the fact hash folds: the first name, the entries of the first
/// argument matrix row after row, and the salt.
pub open spec fn fact_hash_tokens(names: Seq<Fe>, args: Seq<Vec<Vec<Fe>>>, salt: nat) -> Seq<nat> {
    seq![names[0]@] + rows_flat(args[0]@) + seq![salt]
}

/// Public hash `i`; the instance column reads zero past the given values.
pub open spec fn pub_at(pubs: Seq<Fe>, i: int) -> nat {
    if 0 <= i < pubs.len() {
        pubs[i]@
    } else {
        0
    }
}

/// The sum of the public hashes among the first `k` that equal `h`.
pub open spec fn selected(h: nat, pubs: Seq<Fe>, k: int) -> nat
    decreases k,
{
    if k <= 0 {
        0
    } else {
        fadd(selected(h, pubs, k - 1), fmul(ind(h == pub_at(pubs, k - 1)), pub_at(pubs, k - 1)))
    }
}

/// The product of `1 - f` over the flags.
pub open spec fn prod_not(flags: Seq<nat>) -> nat
    decreases flags.len(),
{
    if flags.len() == 0 {
        1
    } else {
        fmul(prod_not(flags.drop_last()), fsub(1, flags.last()))
    }
}

/// The values of the fact check.
#[derive(Clone, Debug)]
pub struct FactWitness {
    pub builtin: ChainWitness,
    pub tokens: Vec<Fe>,
    pub hashed: Fe,
    pub bits: Vec<Fe>,
    pub pub_sel: Vec<Fe>,
    pub prod_not_flag: Fe,
    pub any_flag: Fe,
    pub fact_ok: Fe,
    pub or_abc: Fe,
    pub result: Fe,
}

/// Whether `w` holds the values of the fact check of the goal terms
/// `names`/`args` with salt `salt`, rule flags `flags` and public hashes
/// `pubs`: the built-in evaluation, the salted hash, one match bit per
/// public hash, their selection, `any_flag = 1 - prod(1 - flag)`,
/// `fact_ok = [hash == selection]`, the disjunction of the three, and the
/// result `builtin ok or fact ok`.
pub open spec fn fact_spec(
    w: FactWitness,
    names: Seq<Fe>,
    args: Seq<Vec<Vec<Fe>>>,
    salt: nat,
    flags: Seq<Fe>,
    pubs: Seq<Fe>,
) -> bool {
    &&& chain_spec(w.builtin, names, args)
    &&& vals(w.tokens@) == fact_hash_tokens(names, args, salt)
    &&& w.hashed@ == poseidon_fold(fact_hash_tokens(names, args, salt))
    &&& w.bits@.len() == MAX_FACTS_HASHES
    &&& w.pub_sel@.len() == MAX_FACTS_HASHES
    &&& forall|i: int|
        0 <= i < MAX_FACTS_HASHES ==> (#[trigger] w.bits@[i])@ == ind(w.hashed@ == pub_at(pubs, i))
            && w.pub_sel@[i]@ == selected(w.hashed@, pubs, i + 1)
    &&& w.prod_not_flag@ == prod_not(vals(flags))
    &&& w.any_flag@ == fsub(1, w.prod_not_flag@)
    &&& w.fact_ok@ == ind(w.hashed@ == selected(w.hashed@, pubs, MAX_FACTS_HASHES as int))
    &&& w.or_abc@ == fsub(
        1,
        fmul(fmul(fsub(1, w.fact_ok@), fsub(1, w.any_flag@)), fsub(1, w.builtin.ok@)),
    )
    &&& w.result@ == ind(w.builtin.ok@ == 1 || w.fact_ok@ == 1)
}

/// The tokens of the fact hash.
fn hash_tokens(names: &[Fe], args: &[Vec<Vec<Fe>>], salt: &Fe) -> (t: Vec<Fe>)
    requires
        names@.len() >= 1,
        args@.len() >= 1,
    ensures
        vals(t@) == fact_hash_tokens(names@, args@, salt@),
{
    let mut t: Vec<Fe> = Vec::new();
    t.push(names[0]);
    let m = &args[0];
    let mut i: usize = 0;
    assert(vals(t@) =~= seq![names@[0]@]);
    assert(m@.take(0) =~= Seq::<Vec<Fe>>::empty());
    while i < m.len()
        invariant
            i <= m@.len(),
            names@.len() >= 1,
            args@.len() >= 1,
            *m == args@[0],
            vals(t@) == seq![names@[0]@] + rows_flat(m@.take(i as int)),
        decreases m@.len() - i,
    {
        let row = &m[i];
        let ghost base = vals(t@);
        let mut j: usize = 0;
        while j < row.len()
            invariant
                j <= row@.len(),
                vals(t@) == base + vals(row@.take(j as int)),
            decreases row@.len() - j,
        {
            let ghost prev = vals(t@);
            t.push(row[j]);
            assert(vals(t@) =~= prev.push(row@[j as int]@));
            assert(vals(row@.take(j + 1)) =~= vals(row@.take(j as int)).push(row@[j as int]@));
            assert(vals(t@) =~= base + vals(row@.take(j + 1)));
            j = j + 1;
        }
        assert(row@.take(row@.len() as int) =~= row@);
        assert(m@.take(i + 1).drop_last() =~= m@.take(i as int));
        assert(vals(t@) =~= seq![names@[0]@] + rows_flat(m@.take(i + 1)));
        i = i + 1;
    }
    assert(m@.take(m@.len() as int) =~= m@);
    let ghost before = vals(t@);
    t.push(*salt);
    assert(vals(t@) =~= before.push(salt@));
    t
}

/// The product of `1 - f` over the flags.
fn prod_not_exec(flags: &[Fe]) -> (r: Fe)
    ensures
        r@ == prod_not(vals(flags@)),
{
    let mut acc = Fe::one();
    let mut i: usize = 0;
    assert(vals(flags@.take(0)) =~= Seq::<nat>::empty());
    while i < flags.len()
        invariant
            i <= flags@.len(),
            acc@ == prod_not(vals(flags@.take(i as int))),
        decreases flags@.len() - i,
    {
        assert(vals(flags@.take(i + 1)).drop_last() =~= vals(flags@.take(i as int)));
        assert(vals(flags@.take(i + 1)).last() == flags@[i as int]@);
        acc = fe_mul(&acc, &fe_sub(&Fe::one(), &flags[i]));
        i = i + 1;
    }
    assert(flags@.take(flags@.len() as int) =~= flags@);
    acc
}

/// The match bits of the hash against the public hashes and the running
/// selection.
fn select_public(hashed: &Fe, pubs: &[Fe]) -> (r: (Vec<Fe>, Vec<Fe>))
    ensures
        r.0@.len() == MAX_FACTS_HASHES,
        r.1@.len() == MAX_FACTS_HASHES,
        forall|i: int|
            0 <= i < MAX_FACTS_HASHES ==> (#[trigger] r.0@[i])@ == ind(hashed@ == pub_at(pubs@, i))
                && r.1@[i]@ == selected(hashed@, pubs@, i + 1),
{
    let mut bits: Vec<Fe> = Vec::new();
    let mut sel: Vec<Fe> = Vec::new();
    let mut acc = Fe::zero();
    let mut i: usize = 0;
    while i < MAX_FACTS_HASHES
        invariant
            i <= MAX_FACTS_HASHES,
            bits@.len() == i,
            sel@.len() == i,
            acc@ == selected(hashed@, pubs@, i as int),
            forall|k: int|
                0 <= k < i ==> (#[trigger] bits@[k])@ == ind(hashed@ == pub_at(pubs@, k))
                    && sel@[k]@ == selected(hashed@, pubs@, k + 1),
        decreases MAX_FACTS_HASHES - i,
    {
        let p = if i < pubs.len() {
            pubs[i]
        } else {
            Fe::zero()
        };
        assert(p@ == pub_at(pubs@, i as int));
        let bit = if hashed.equals(&p) {
            Fe::one()
        } else {
            Fe::zero()
        };
        acc = fe_add(&acc, &fe_mul(&bit, &p));
        bits.push(bit);
        sel.push(acc);
        i = i + 1;
    }
    (bits, sel)
}

/// Decides a leaf goal: evaluates it as a built-in expression, hashes its
/// first term with the salt, looks the hash up among the public fact hashes,
/// and folds the rule flags. The result is one when the built-in evaluation
/// or the lookup succeeds.
pub fn fact_decision(
    names: &[Fe],
    args: &[Vec<Vec<Fe>>],
    salt: &Fe,
    flags: &[Fe],
    pubs: &[Fe],
) -> (w: FactWitness)
    requires
        chain_input_ok(names@, args@),
    ensures
        fact_spec(w, names@, args@, salt@, flags@, pubs@),
{
    let builtin = eval_chain_equal(names, args);
    let tokens = hash_tokens(names, args, salt);
    let hashed = poseidon_hash_list_native(tokens.as_slice());
    let (bits, pub_sel) = select_public(&hashed, pubs);
    let prod_not_flag = prod_not_exec(flags);
    let any_flag = fe_sub(&Fe::one(), &prod_not_flag);
    let last = pub_sel[MAX_FACTS_HASHES - 1];
    assert(bits@[MAX_FACTS_HASHES - 1]@ == ind(hashed@ == pub_at(pubs@, MAX_FACTS_HASHES - 1)));
    let fact_ok = if hashed.equals(&last) {
        Fe::one()
    } else {
        Fe::zero()
    };
    let one = Fe::one();
    let na = fe_sub(&one, &fact_ok);
    let nb = fe_sub(&one, &any_flag);
    let nc = fe_sub(&one, &builtin.ok);
    let or_abc = fe_sub(&one, &fe_mul(&fe_mul(&na, &nb), &nc));
    let result = if builtin.ok.equals(&one) || fact_ok.equals(&one) {
        Fe::one()
    } else {
        Fe::zero()
    };
    FactWitness { builtin, tokens, hashed, bits, pub_sel, prod_not_flag, any_flag, fact_ok, or_abc, result }
}

/// Whether `h` occurs at most once among the first `k` public hashes.
pub open spec fn at_most_once(h: nat, pubs: Seq<Fe>, k: int) -> bool {
    forall|i: int, j: int|
        0 <= i < k && 0 <= j < k && #[trigger] pub_at(pubs, i) == h && #[trigger] pub_at(pubs, j) == h ==> i == j
}

/// With `h` at most once among the first `k` public hashes, the selection
/// is `h` when it occurs there and zero otherwise.
proof fn lemma_selected_unique(h: nat, pubs: Seq<Fe>, k: int)
    requires
        0 <= k,
        h < modulus(),
        at_most_once(h, pubs, k),
    ensures
        selected(h, pubs, k) == (if exists|i: int| 0 <= i < k && #[trigger] pub_at(pubs, i) == h { h } else { 0 }),
    decreases k,
{
    vstd::arithmetic::div_mod::lemma_small_mod(0, modulus());
    vstd::arithmetic::div_mod::lemma_small_mod(1, modulus());
    vstd::arithmetic::div_mod::lemma_small_mod(h, modulus());
    if k > 0 {
        lemma_selected_unique(h, pubs, k - 1);
        let prev = selected(h, pubs, k - 1);
        let last = pub_at(pubs, k - 1);
        if last == h {
            if exists|i: int| 0 <= i < k - 1 && #[trigger] pub_at(pubs, i) == h {
                let i = choose|i: int| 0 <= i < k - 1 && #[trigger] pub_at(pubs, i) == h;
                assert(pub_at(pubs, i) == h && pub_at(pubs, k - 1) == h);
                assert(false);
            }
            assert(prev == 0);
            assert(fmul(1, h) == h);
            assert(fadd(0, h) == h);
            assert(pub_at(pubs, k - 1) == h);
        } else {
            assert(fmul(0, last) == 0);
            vstd::arithmetic::div_mod::lemma_small_mod(prev, modulus());
            assert(fadd(prev, 0) == prev);
            if exists|i: int| 0 <= i < k && #[trigger] pub_at(pubs, i) == h {
                let i = choose|i: int| 0 <= i < k && #[trigger] pub_at(pubs, i) == h;
                assert(i < k - 1);
            }
        }
    }
}

/// A published fact is found: when its salted hash is not zero and occurs at
/// most once among the public hashes, the lookup succeeds exactly when the
/// hash is one of them.
pub proof fn law_fact_lookup_finds_published_hash(
    w: FactWitness,
    names: Seq<Fe>,
    args: Seq<Vec<Vec<Fe>>>,
    salt: nat,
    flags: Seq<Fe>,
    pubs: Seq<Fe>,
)
    requires
        fact_spec(w, names, args, salt, flags, pubs),
        w.hashed@ != 0,
        at_most_once(w.hashed@, pubs, MAX_FACTS_HASHES as int),
    ensures
        w.fact_ok@ == 1 <==> exists|i: int| 0 <= i < MAX_FACTS_HASHES && #[trigger] pub_at(pubs, i) == w.hashed@,
{
    w.hashed.lemma_bound();
    lemma_selected_unique(w.hashed@, pubs, MAX_FACTS_HASHES as int);
}

/// The entries of a matrix whose rows all have `MAX_PRED_LIST` entries, row
/// after row: entry `j` of row `i` at `i * MAX_PRED_LIST + j`.
proof fn lemma_rows_flat_uniform(m: Seq<Vec<Fe>>)
    requires
        forall|i: int| 0 <= i < m.len() ==> (#[trigger] m[i])@.len() == MAX_PRED_LIST,
    ensures
        rows_flat(m).len() == m.len() * MAX_PRED_LIST,
        forall|k: int|
            0 <= k < m.len() * MAX_PRED_LIST ==> #[trigger] rows_flat(m)[k] == m[k / (MAX_PRED_LIST as int)]@[k
                % (MAX_PRED_LIST as int)]@,
    decreases m.len(),
{
    if m.len() > 0 {
        let p = m.drop_last();
        assert forall|i: int| 0 <= i < p.len() implies (#[trigger] p[i])@.len() == MAX_PRED_LIST by {
            assert(p[i] == m[i]);
        }
        lemma_rows_flat_uniform(p);
        let n = p.len() as int;
        assert(m.last() == m[n]);
        assert forall|k: int| 0 <= k < m.len() * MAX_PRED_LIST implies #[trigger] rows_flat(m)[k] == m[k / (
        MAX_PRED_LIST as int)]@[k % (MAX_PRED_LIST as int)]@ by {
            if k < n * 4 {
                assert(rows_flat(m)[k] == rows_flat(p)[k]);
                assert(0 <= k / 4 < n) by (nonlinear_arith)
                    requires
                        0 <= k < n * 4,
                ;
                assert(p[k / 4] == m[k / 4]);
            } else {
                assert(k / 4 == n && k % 4 == k - n * 4) by (nonlinear_arith)
                    requires
                        n * 4 <= k < n * 4 + 4,
                ;
                assert(rows_flat(m)[k] == vals(m.last()@)[k - n * 4]);
            }
        }
    }
}

/// A fact issued with its salt hashes the same tokens that the fact check
/// hashes for the encoded goal of its text: the name, the arguments row
/// after row (each argument alone in its list), and the salt that the fact
/// map gives for the goal's text.
pub proof fn law_issued_fact_hash_is_checked_hash(
    t: TermFp,
    s: Seq<char>,
    facts: Map<Seq<char>, nat>,
    args: Seq<Seq<String>>,
    salt: Seq<char>,
)
    requires
        og_encodes(t, s, facts),
        args.len() == og_args(s).len(),
        forall|i: int| 0 <= i < args.len() ==> (#[trigger] args[i]).len() == 1 && args[i][0]@ == og_args(s)[i],
        facts.contains_key(og_key(s)),
        facts[og_key(s)] == crate::hashing::to_fp_spec(salt),
    ensures
        fact_tokens(og_name(s), args, salt) == seq![t.name@] + rows_flat(t.args@) + seq![t.fact_hashes@],
{
    lemma_rows_flat_uniform(t.args@);
    let a = fact_arg_tokens(args);
    let r = rows_flat(t.args@);
    assert(r.len() == 16);
    assert forall|k: int| 0 <= k < 16 implies a[k] == r[k] by {
        assert(0 <= k / 4 < 4 && 0 <= k % 4 < 4) by (nonlinear_arith)
            requires
                0 <= k < 16,
        ;
        let i = k / 4;
        let j = k % 4;
        assert((t.args@[i])@[j]@ == (if j == 0 && i < og_args(s).len() { crate::hashing::to_fp_spec(og_args(s)[i]) } else { 0 }));
        if i < args.len() && j < args[i].len() {
            assert(j == 0);
        }
    }
    assert(a =~= r);
    assert(fact_tokens(og_name(s), args, salt) =~= seq![t.name@] + r + seq![t.fact_hashes@]);
}

/// The argument texts of a fact whose arguments are single strings.
pub open spec fn single_texts(args: Seq<Seq<String>>) -> Seq<Seq<char>> {
    args.map_values(|l: Seq<String>| l[0]@)
}

/// A fact `name(a1,...,ak)` issued with its salt hashes the same tokens that
/// the fact check hashes for the encoded goal text `name(a1,...,ak)`, when
/// the fact map gives that text the fact's salt; the name and arguments are
/// plain text (a `consumptionClass` goal with `low` as second argument reads
/// its first argument as `_`, and is left out).
pub proof fn law_issued_fact_hash_is_hash_of_goal_text(
    t: TermFp,
    name: Seq<char>,
    args: Seq<Seq<String>>,
    salt: Seq<char>,
    facts: Map<Seq<char>, nat>,
)
    requires
        plain_part(name),
        forall|i: int| 0 <= i < args.len() ==> (#[trigger] args[i]).len() == 1 && plain_part(args[i][0]@),
        name != consumption_class_name() || (args.len() >= 2 && args[1][0]@ != seq!['l', 'o', 'w']),
        og_encodes(t, call_text(name, single_texts(args)), facts),
        facts.contains_key(call_text(name, single_texts(args))),
        facts[call_text(name, single_texts(args))] == crate::hashing::to_fp_spec(salt),
    ensures
        fact_tokens(name, args, salt) == seq![t.name@] + rows_flat(t.args@) + seq![t.fact_hashes@],
        poseidon_fold(fact_tokens(name, args, salt)) == poseidon_fold(seq![t.name@] + rows_flat(t.args@) + seq![t.fact_hashes@]),
{
    let texts = single_texts(args);
    let s = call_text(name, texts);
    assert forall|i: int| 0 <= i < texts.len() implies plain_part(#[trigger] texts[i]) by {
        assert(args[i].len() == 1);
    }
    lemma_call_text_parts(name, texts);
    assert(og_args(s) == texts);
    assert(og_key(s) == s);
    law_issued_fact_hash_is_checked_hash(t, s, facts, args, salt);
}

} // verus!
