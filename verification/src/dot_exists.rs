//! The values of the value check that some enabled candidate clause has a
//! zero dot product with the witness vector: `dot_i = <w, c_i>`,
//! `z_i = [dot_i == 0]`, `prod = prod(1 - z_i * b_i)`, and the value
//! `(1 - fact) * prod` that the circuit requires to be zero.
use vstd::prelude::*;
use crate::builtin::ind;
use crate::field::{Fe, fsub, fmul, fe_sub, fe_mul, vals, modulus};
use crate::predicates::{dot, dot_vals};

verus! {

/// The product of `1 - z_i * b_i` over the first `k` candidates.
pub open spec fn prod_zb(z: Seq<nat>, b: Seq<nat>, k: int) -> nat
    decreases k,
{
    if k <= 0 {
        1
    } else {
        fmul(prod_zb(z, b, k - 1), fsub(1, fmul(z[k - 1], b[k - 1])))
    }
}

/// The values of the check.
#[derive(Clone, Debug)]
pub struct DotExistsWitness {
    pub dots: Vec<Fe>,
    pub zs: Vec<Fe>,
    pub prod: Fe,
    pub final_check: Fe,
}

/// Whether the candidates and flags fit the witness vector: every candidate
/// has at least `w.len()` entries and has a flag.
pub open spec fn dot_exists_input_ok(w: Seq<Fe>, c_list: Seq<Vec<Fe>>, b_flags: Seq<Fe>) -> bool {
    &&& b_flags.len() >= c_list.len()
    &&& forall|i: int| 0 <= i < c_list.len() ==> (#[trigger] c_list[i])@.len() >= w.len()
}

/// Whether `r` holds the values of the check.
pub open spec fn dot_exists_spec(
    r: DotExistsWitness,
    w: Seq<Fe>,
    c_list: Seq<Vec<Fe>>,
    b_flags: Seq<Fe>,
    fact: nat,
) -> bool {
    &&& r.dots@.len() == c_list.len()
    &&& r.zs@.len() == c_list.len()
    &&& forall|i: int|
        0 <= i < c_list.len() ==> (#[trigger] r.dots@[i])@ == dot_vals(vals(w), vals(c_list[i]@)) % modulus() as int
            && r.zs@[i]@ == ind(r.dots@[i]@ == 0)
    &&& r.prod@ == prod_zb(vals(r.zs@), vals(b_flags), c_list.len() as int)
    &&& r.final_check@ == fmul(fsub(1, fact), r.prod@)
}

/// Computes the values of the check for the witness vector `w`, the
/// candidate vectors, their enable flags and the fact flag.
pub fn assign_exists_dot_zero(w: &Vec<Fe>, c_list: &Vec<Vec<Fe>>, b_flags: &Vec<Fe>, fact: &Fe) -> (r: DotExistsWitness)
    requires
        dot_exists_input_ok(w@, c_list@, b_flags@),
    ensures
        dot_exists_spec(r, w@, c_list@, b_flags@, fact@),
{
    let mut dots: Vec<Fe> = Vec::new();
    let mut zs: Vec<Fe> = Vec::new();
    let mut prod = Fe::one();
    let mut i: usize = 0;
    while i < c_list.len()
        invariant
            i <= c_list@.len(),
            dot_exists_input_ok(w@, c_list@, b_flags@),
            dots@.len() == i,
            zs@.len() == i,
            forall|k: int|
                0 <= k < i ==> (#[trigger] dots@[k])@ == dot_vals(vals(w@), vals(c_list@[k]@)) % modulus() as int
                    && zs@[k]@ == ind(dots@[k]@ == 0),
            prod@ == prod_zb(vals(zs@), vals(b_flags@), i as int),
        decreases c_list@.len() - i,
    {
        let d = dot(w, &c_list[i]);
        let z = if d.is_zero() {
            Fe::one()
        } else {
            Fe::zero()
        };
        let ghost zs_before = vals(zs@);
        prod = fe_mul(&prod, &fe_sub(&Fe::one(), &fe_mul(&z, &b_flags[i])));
        dots.push(d);
        zs.push(z);
        proof {
            assert(vals(zs@) =~= zs_before.push(z@));
            assert forall|k: int| 0 <= k < i implies prod_zb(vals(zs@), vals(b_flags@), k) == prod_zb(zs_before, vals(b_flags@), k) by {
                lemma_prod_zb_prefix(vals(zs@), zs_before, vals(b_flags@), k);
            }
            lemma_prod_zb_prefix(vals(zs@), zs_before, vals(b_flags@), i as int);
        }
        i = i + 1;
    }
    let final_check = fe_mul(&fe_sub(&Fe::one(), fact), &prod);
    DotExistsWitness { dots, zs, prod, final_check }
}

/// `prod_zb` reads only the first `k` flags of each sequence.
proof fn lemma_prod_zb_prefix(z1: Seq<nat>, z2: Seq<nat>, b: Seq<nat>, k: int)
    requires
        k <= z1.len(),
        k <= z2.len(),
        forall|j: int| 0 <= j < k ==> z1[j] == z2[j],
    ensures
        prod_zb(z1, b, k) == prod_zb(z2, b, k),
    decreases k,
{
    if k > 0 {
        lemma_prod_zb_prefix(z1, z2, b, k - 1);
    }
}

/// A zero factor makes the whole product zero.
proof fn lemma_prod_zb_zero(z: Seq<nat>, b: Seq<nat>, i: int, k: int)
    requires
        0 <= i < k,
        fsub(1, fmul(z[i], b[i])) == 0,
    ensures
        prod_zb(z, b, k) == 0,
    decreases k,
{
    if i < k - 1 {
        lemma_prod_zb_zero(z, b, i, k - 1);
    }
    assert(fmul(0, fsub(1, fmul(z[k - 1], b[k - 1]))) == 0) by {
        vstd::arithmetic::div_mod::lemma_small_mod(0, modulus());
    }
    assert(fmul(prod_zb(z, b, k - 1), 0) == 0) by {
        vstd::arithmetic::div_mod::lemma_small_mod(0, modulus());
    }
}

/// The check passes (its final value is zero) when the goal is a fact, and
/// when some candidate whose flag is one has a zero dot product with the
/// witness vector.
pub proof fn law_dot_exists_passes(
    r: DotExistsWitness,
    w: Seq<Fe>,
    c_list: Seq<Vec<Fe>>,
    b_flags: Seq<Fe>,
    fact: nat,
)
    requires
        dot_exists_input_ok(w, c_list, b_flags),
        dot_exists_spec(r, w, c_list, b_flags, fact),
        fact == 1 || exists|i: int|
            0 <= i < c_list.len() && #[trigger] b_flags[i]@ == 1 && dot_vals(vals(w), vals(c_list[i]@)) % modulus() as int == 0,
    ensures
        r.final_check@ == 0,
{
    vstd::arithmetic::div_mod::lemma_small_mod(0, modulus());
    vstd::arithmetic::div_mod::lemma_small_mod(1, modulus());
    if fact == 1 {
        assert(fsub(1, 1) == 0);
        assert(0 * r.prod@ == 0);
        assert(fmul(0, r.prod@) == 0);
    } else {
        let i = choose|i: int|
            0 <= i < c_list.len() && #[trigger] b_flags[i]@ == 1 && dot_vals(vals(w), vals(c_list[i]@)) % modulus() as int == 0;
        assert(r.dots@[i]@ == 0);
        assert(r.zs@[i]@ == 1);
        assert(vals(r.zs@)[i] == 1);
        assert(vals(b_flags)[i] == 1);
        assert(fmul(1, 1) == 1);
        assert(fsub(1, fmul(vals(r.zs@)[i], vals(b_flags)[i])) == 0);
        lemma_prod_zb_zero(vals(r.zs@), vals(b_flags), i, c_list.len() as int);
        assert(r.prod@ == 0);
        assert(fmul(fsub(1, fact), 0) == 0);
    }
}

/// Candidates that are all disabled or non-zero leave the product at one.
proof fn lemma_prod_zb_one(z: Seq<nat>, b: Seq<nat>, k: int)
    requires
        0 <= k <= z.len(),
        k <= b.len(),
        forall|j: int| 0 <= j < k ==> fmul(#[trigger] z[j], b[j]) == 0,
    ensures
        prod_zb(z, b, k) == 1,
    decreases k,
{
    vstd::arithmetic::div_mod::lemma_small_mod(1, modulus());
    if k > 0 {
        lemma_prod_zb_one(z, b, k - 1);
        assert(fmul(z[k - 1], b[k - 1]) == 0);
        assert(fsub(1, 0) == 1);
        assert(fmul(1, 1) == 1);
    }
}

/// With a fact flag and enable flags of zero or one, the check passes (its
/// final value is zero) exactly when the goal is a fact or some enabled
/// candidate has a zero dot product with the witness vector.
pub proof fn law_dot_exists_passes_iff_enabled_zero(
    r: DotExistsWitness,
    w: Seq<Fe>,
    c_list: Seq<Vec<Fe>>,
    b_flags: Seq<Fe>,
    fact: nat,
)
    requires
        dot_exists_input_ok(w, c_list, b_flags),
        dot_exists_spec(r, w, c_list, b_flags, fact),
        fact == 0 || fact == 1,
        forall|i: int| 0 <= i < c_list.len() ==> (#[trigger] b_flags[i])@ == 0 || b_flags[i]@ == 1,
    ensures
        r.final_check@ == 0 <==> (fact == 1 || exists|i: int|
            0 <= i < c_list.len() && #[trigger] b_flags[i]@ == 1 && dot_vals(vals(w), vals(c_list[i]@)) % modulus() as int == 0),
{
    vstd::arithmetic::div_mod::lemma_small_mod(0, modulus());
    vstd::arithmetic::div_mod::lemma_small_mod(1, modulus());
    if fact == 1 || exists|i: int|
        0 <= i < c_list.len() && #[trigger] b_flags[i]@ == 1 && dot_vals(vals(w), vals(c_list[i]@)) % modulus() as int == 0 {
        law_dot_exists_passes(r, w, c_list, b_flags, fact);
    } else {
        let z = vals(r.zs@);
        let b = vals(b_flags);
        assert forall|j: int| 0 <= j < c_list.len() implies fmul(#[trigger] z[j], b[j]) == 0 by {
            if b_flags[j]@ == 1 {
                assert(r.dots@[j]@ != 0);
                assert(z[j] == 0);
                assert(0 * 1 == 0);
            } else {
                assert(b[j] == 0);
                assert(z[j] * 0 == 0);
            }
        }
        lemma_prod_zb_one(z, b, c_list.len() as int);
        assert(fsub(1, 0) == 1);
        assert(fmul(1, 1) == 1);
    }
}

} // verus!
