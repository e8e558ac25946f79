//! Poseidon commitments computed outside the circuit, as the hashing chips
//! compute them inside: a binary tree over a list of leaves, and a running
//! fold over nested (name, arity) pairs.
use vstd::prelude::*;
use crate::field::{Fe, vals};
use crate::hashing::{poseidon2, poseidon_hash2};
use crate::sig_pairs::{pair_v, rows_v};
use crate::sig_check::pairs_flat;

verus! {

/// One layer of the tree: neighbours hashed pairwise, a last odd leaf
/// hashed with zero.
pub open spec fn tree_layer(v: Seq<nat>) -> Seq<nat> {
    Seq::new(
        ((v.len() + 1) / 2) as nat,
        |i: int|
            if 2 * i + 1 < v.len() {
                poseidon2(v[2 * i], v[2 * i + 1])
            } else {
                poseidon2(v[2 * i], 0)
            },
    )
}

/// The root of the tree over the leaves; the empty list hashes `(0, 0)`.
pub open spec fn tree_root(v: Seq<nat>) -> nat
    decreases v.len(),
{
    if v.len() == 0 {
        poseidon2(0, 0)
    } else if v.len() == 1 {
        v[0]
    } else {
        tree_root(tree_layer(v))
    }
}

/// The running fold over pairs: each pair hashes its name, then its arity,
/// into the accumulator, which starts at zero.
pub open spec fn pairs_fold(p: Seq<(nat, nat)>) -> nat
    decreases p.len(),
{
    if p.len() == 0 {
        0
    } else {
        poseidon2(poseidon2(pairs_fold(p.drop_last()), p.last().0), p.last().1)
    }
}

/// The hashing chip that commits to a list of values by a Poseidon tree.
pub struct HashEqChip;

impl HashEqChip {
    /// The Poseidon hash of a pair.
    pub fn hash2(a: &Fe, b: &Fe) -> (r: Fe)
        ensures
            r@ == poseidon2(a@, b@),
    {
        poseidon_hash2(a, b)
    }

    /// The root of the Poseidon tree over the leaves: each layer hashes
    /// neighbours pairwise (a last odd leaf with zero) until one value is
    /// left; the empty list gives the hash of `(0, 0)`.
    pub fn tree_hash_all(leaves: &[Fe]) -> (r: Fe)
        ensures
            r@ == tree_root(vals(leaves@)),
    {
        if leaves.len() == 0 {
            return Self::hash2(&Fe::zero(), &Fe::zero());
        }
        let mut layer: Vec<Fe> = Vec::new();
        let mut i: usize = 0;
        while i < leaves.len()
            invariant
                i <= leaves@.len(),
                layer@ == leaves@.take(i as int),
            decreases leaves@.len() - i,
        {
            layer.push(leaves[i]);
            assert(layer@ =~= leaves@.take(i + 1));
            i = i + 1;
        }
        assert(leaves@.take(leaves@.len() as int) =~= leaves@);
        while layer.len() > 1
            invariant
                layer@.len() >= 1,
                tree_root(vals(layer@)) == tree_root(vals(leaves@)),
            decreases layer@.len(),
        {
            let ghost lv = vals(layer@);
            let mut next: Vec<Fe> = Vec::new();
            let m = layer.len() / 2 + layer.len() % 2;
            assert(m == (lv.len() + 1) / 2);
            let mut t: usize = 0;
            while t < m
                invariant
                    lv == vals(layer@),
                    layer@.len() >= 2,
                    m == (lv.len() + 1) / 2,
                    lv.len() == layer@.len(),
                    t <= m,
                    next@.len() == t,
                    forall|q: int| 0 <= q < next@.len() ==> (#[trigger] next@[q])@ == tree_layer(lv)[q],
                decreases m - t,
            {
                let n = layer.len();
                assert(2 * t < n);
                let j = 2 * t;
                let h = if j + 1 < layer.len() {
                    Self::hash2(&layer[j], &layer[j + 1])
                } else {
                    Self::hash2(&layer[j], &Fe::zero())
                };
                next.push(h);
                t = t + 1;
            }
            assert(vals(next@) =~= tree_layer(lv));
            layer = next;
        }
        assert(vals(layer@) =~= seq![layer@[0]@]);
        layer[0]
    }
}

/// Folds nested (name, arity) pairs into one Poseidon value: row after row,
/// each pair hashes its name and then its arity into the accumulator.
pub fn hash_nested_pairs(proof_pairs_nested: &Vec<Vec<(Fe, Fe)>>) -> (r: Fe)
    ensures
        r@ == pairs_fold(pairs_flat(rows_v(proof_pairs_nested@))),
{
    let ghost rv = rows_v(proof_pairs_nested@);
    let mut acc = Fe::zero();
    let mut i: usize = 0;
    while i < proof_pairs_nested.len()
        invariant
            i <= proof_pairs_nested@.len(),
            rv == rows_v(proof_pairs_nested@),
            acc@ == pairs_fold(pairs_flat(rv.take(i as int))),
        decreases proof_pairs_nested@.len() - i,
    {
        let row = &proof_pairs_nested[i];
        let ghost base = pairs_flat(rv.take(i as int));
        let mut j: usize = 0;
        assert(base + rv[i as int].take(0) =~= base);
        while j < row.len()
            invariant
                j <= row@.len(),
                *row == proof_pairs_nested@[i as int],
                rv == rows_v(proof_pairs_nested@),
                i < proof_pairs_nested@.len(),
                acc@ == pairs_fold(base + rv[i as int].take(j as int)),
            decreases row@.len() - j,
        {
            let ghost prev = base + rv[i as int].take(j as int);
            assert(rv[i as int][j as int] == pair_v(row@[j as int]));
            assert((base + rv[i as int].take(j + 1)).drop_last() =~= prev);
            acc = poseidon_hash2(&acc, &row[j].0);
            acc = poseidon_hash2(&acc, &row[j].1);
            j = j + 1;
        }
        assert(rv[i as int].take(row@.len() as int) =~= rv[i as int]);
        assert(rv.take(i + 1).drop_last() =~= rv.take(i as int));
        i = i + 1;
    }
    assert(rv.take(proof_pairs_nested@.len() as int) =~= rv);
    acc
}

} // verus!
