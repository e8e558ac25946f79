//! The equality rows of a clause for the value check: each equality between
//! two argument positions becomes a row with `+1` at the left position and
//! `-1` at the right one, so that its dot product with the witness vector
//! is zero exactly when the two values agree. Equalities that fall outside
//! the vector, or that relate a position to itself, give zero rows.
use vstd::prelude::*;
use crate::field::{Fe, fe_minus_one, fp_to_usize, minus_one, vals, fsub, modulus};
use crate::predicates::dot_sum;
use crate::params::{MAX_ARITY, MAX_PRED_LIST, MAX_NODES, PER_NODE, PER_TERM};

verus! {

/// The flat position of entry `list_idx` of argument `arg_idx` of term
/// `pred_idx` of node `node_idx`, or nothing when an index is out of range.
pub open spec fn linear_idx_spec(node_idx: usize, pred_idx: usize, arg_idx: usize, list_idx: usize) -> Option<usize> {
    if node_idx >= MAX_NODES || pred_idx >= MAX_PRED_LIST || arg_idx >= MAX_ARITY || list_idx >= MAX_PRED_LIST {
        None
    } else {
        Some((node_idx * PER_NODE + pred_idx * PER_TERM + arg_idx * MAX_PRED_LIST + list_idx) as usize)
    }
}

/// The flat position of a four-level index.
pub fn linear_idx_4d(node_idx: usize, pred_idx: usize, arg_idx: usize, list_idx: usize) -> (r: Option<usize>)
    ensures
        r == linear_idx_spec(node_idx, pred_idx, arg_idx, list_idx),
{
    if node_idx >= MAX_NODES {
        return None;
    }
    if pred_idx >= MAX_PRED_LIST {
        return None;
    }
    if arg_idx >= MAX_ARITY {
        return None;
    }
    if list_idx >= MAX_PRED_LIST {
        return None;
    }
    Some(node_idx * PER_NODE + pred_idx * PER_TERM + arg_idx * MAX_PRED_LIST + list_idx)
}

/// A field element read as an index: the low 64 bits of its value.
pub open spec fn fe_index(x: Fe) -> usize {
    (x@ % 0x1_0000_0000_0000_0000) as u64 as usize
}

/// The row for an equality between positions `l` and `r` (or a zero row).
pub open spec fn eq_row(p: Option<(usize, usize)>, max_dim: usize) -> Seq<nat> {
    Seq::new(
        max_dim as nat,
        |k: int|
            match p {
                Some((l, r)) => if k == l {
                    1
                } else if k == r {
                    minus_one()
                } else {
                    0
                },
                None => 0,
            },
    )
}

/// An index pair that is inside the vector and relates two different
/// positions, or nothing.
pub open spec fn keep_pair(l: usize, r: usize, max_dim: usize) -> Option<(usize, usize)> {
    if l >= max_dim || r >= max_dim || l == r {
        None
    } else {
        Some((l, r))
    }
}

/// The positions of an equality `(node, arg, node', arg')` given the start
/// position of each node (sums saturate).
pub open spec fn offset_pair(e: (Fe, Fe, Fe, Fe), offsets: Seq<Fe>, max_dim: usize) -> Option<(usize, usize)> {
    let ln = fe_index(e.0);
    let la = fe_index(e.1);
    let rn = fe_index(e.2);
    let ra = fe_index(e.3);
    if ln >= offsets.len() || rn >= offsets.len() {
        None
    } else {
        keep_pair(fe_index(offsets[ln as int]).saturating_add(la), fe_index(offsets[rn as int]).saturating_add(ra), max_dim)
    }
}

/// The positions of an equality between two four-level indices.
pub open spec fn pair_4d(e: (Fe, Fe, Fe, Fe, Fe, Fe, Fe, Fe), max_dim: usize) -> Option<(usize, usize)> {
    let l = linear_idx_spec(fe_index(e.0), fe_index(e.1), fe_index(e.2), fe_index(e.3));
    let r = linear_idx_spec(fe_index(e.4), fe_index(e.5), fe_index(e.6), fe_index(e.7));
    match (l, r) {
        (Some(a), Some(b)) => keep_pair(a, b, max_dim),
        _ => None,
    }
}

/// The row of an index pair.
fn eq_row_exec(p: Option<(usize, usize)>, max_dim: usize) -> (row: Vec<Fe>)
    ensures
        vals(row@) == eq_row(p, max_dim),
{
    let neg1 = fe_minus_one();
    let mut row: Vec<Fe> = Vec::new();
    let mut k: usize = 0;
    while k < max_dim
        invariant
            k <= max_dim,
            neg1@ == minus_one(),
            vals(row@) == eq_row(p, max_dim).take(k as int),
        decreases max_dim - k,
    {
        let v = match p {
            Some((l, r)) => if k == l {
                Fe::one()
            } else if k == r {
                neg1
            } else {
                Fe::zero()
            },
            None => Fe::zero(),
        };
        let ghost before = vals(row@);
        row.push(v);
        assert(vals(row@) =~= before.push(v@));
        assert(eq_row(p, max_dim).take(k + 1) =~= eq_row(p, max_dim).take(k as int).push(eq_row(p, max_dim)[k as int]));
        k = k + 1;
    }
    assert(eq_row(p, max_dim).take(max_dim as int) =~= eq_row(p, max_dim));
    row
}

fn keep_pair_exec(l: usize, r: usize, max_dim: usize) -> (p: Option<(usize, usize)>)
    ensures
        p == keep_pair(l, r, max_dim),
{
    if l >= max_dim || r >= max_dim || l == r {
        None
    } else {
        Some((l, r))
    }
}

/// The equality rows of a clause whose equalities name `(node, arg)`
/// positions, with `offsets` giving the start position of each node.
pub fn assign_rule_rows_fp(
    clause_eqs_fp: &[(Fe, Fe, Fe, Fe)],
    offsets_fp: &[Fe],
    max_dim: usize,
) -> (rows: Vec<Vec<Fe>>)
    ensures
        rows@.len() == clause_eqs_fp@.len(),
        forall|i: int|
            0 <= i < rows@.len() ==> vals((#[trigger] rows@[i])@) == eq_row(
                offset_pair(clause_eqs_fp@[i], offsets_fp@, max_dim),
                max_dim,
            ),
{
    let mut rows: Vec<Vec<Fe>> = Vec::new();
    let mut i: usize = 0;
    while i < clause_eqs_fp.len()
        invariant
            i <= clause_eqs_fp@.len(),
            rows@.len() == i,
            forall|k: int|
                0 <= k < i ==> vals((#[trigger] rows@[k])@) == eq_row(
                    offset_pair(clause_eqs_fp@[k], offsets_fp@, max_dim),
                    max_dim,
                ),
        decreases clause_eqs_fp@.len() - i,
    {
        let e = clause_eqs_fp[i];
        let ln = fp_to_usize(&e.0);
        let la = fp_to_usize(&e.1);
        let rn = fp_to_usize(&e.2);
        let ra = fp_to_usize(&e.3);
        let p = if ln >= offsets_fp.len() || rn >= offsets_fp.len() {
            None
        } else {
            let l = fp_to_usize(&offsets_fp[ln]).saturating_add(la);
            let r = fp_to_usize(&offsets_fp[rn]).saturating_add(ra);
            keep_pair_exec(l, r, max_dim)
        };
        assert(p == offset_pair(clause_eqs_fp@[i as int], offsets_fp@, max_dim));
        rows.push(eq_row_exec(p, max_dim));
        i = i + 1;
    }
    rows
}

/// The equality rows of a clause whose equalities name four-level positions
/// `(node, term, arg, list entry)`.
pub fn assign_rule_rows_fp_4d(clause_eqs_4d: &[(Fe, Fe, Fe, Fe, Fe, Fe, Fe, Fe)], max_dim: usize) -> (rows: Vec<Vec<Fe>>)
    ensures
        rows@.len() == clause_eqs_4d@.len(),
        forall|i: int|
            0 <= i < rows@.len() ==> vals((#[trigger] rows@[i])@) == eq_row(pair_4d(clause_eqs_4d@[i], max_dim), max_dim),
{
    let mut rows: Vec<Vec<Fe>> = Vec::new();
    let mut i: usize = 0;
    while i < clause_eqs_4d.len()
        invariant
            i <= clause_eqs_4d@.len(),
            rows@.len() == i,
            forall|k: int|
                0 <= k < i ==> vals((#[trigger] rows@[k])@) == eq_row(pair_4d(clause_eqs_4d@[k], max_dim), max_dim),
        decreases clause_eqs_4d@.len() - i,
    {
        let e = clause_eqs_4d[i];
        let l = linear_idx_4d(fp_to_usize(&e.0), fp_to_usize(&e.1), fp_to_usize(&e.2), fp_to_usize(&e.3));
        let r = linear_idx_4d(fp_to_usize(&e.4), fp_to_usize(&e.5), fp_to_usize(&e.6), fp_to_usize(&e.7));
        let p = match (l, r) {
            (Some(a), Some(b)) => keep_pair_exec(a, b, max_dim),
            _ => None,
        };
        assert(p == pair_4d(clause_eqs_4d@[i as int], max_dim));
        rows.push(eq_row_exec(p, max_dim));
        i = i + 1;
    }
    rows
}

/// The partial sums of the product of an equality row with a vector.
proof fn lemma_eq_row_partial(l: usize, r: usize, max_dim: usize, w: Seq<nat>, k: int)
    requires
        l < max_dim,
        r < max_dim,
        l != r,
        w.len() == max_dim,
        0 <= k <= max_dim,
    ensures
        dot_sum(eq_row(Some((l, r)), max_dim), w, k) == (if l < k { w[l as int] as int } else { 0 }) + (if r < k {
            minus_one() * w[r as int]
        } else {
            0
        }),
    decreases k,
{
    if k > 0 {
        lemma_eq_row_partial(l, r, max_dim, w, k - 1);
        let row = eq_row(Some((l, r)), max_dim);
        if k - 1 == l {
            assert(row[k - 1] == 1);
        } else if k - 1 == r {
            assert(row[k - 1] == minus_one());
        } else {
            assert(row[k - 1] == 0);
        }
    }
}

/// An equality row checks exactly its two positions: its dot product with a
/// vector of field values is the left value minus the right one, so it is
/// zero exactly when the two positions hold the same value.
pub proof fn law_eq_row_checks_equality(l: usize, r: usize, max_dim: usize, w: Seq<nat>)
    requires
        l < max_dim,
        r < max_dim,
        l != r,
        w.len() == max_dim,
        forall|i: int| 0 <= i < w.len() ==> #[trigger] w[i] < modulus(),
    ensures
        dot_sum(eq_row(Some((l, r)), max_dim), w, max_dim as int) % modulus() as int == fsub(w[l as int], w[r as int]),
        (dot_sum(eq_row(Some((l, r)), max_dim), w, max_dim as int) % modulus() as int == 0) <==> w[l as int] == w[r as int],
{
    lemma_eq_row_partial(l, r, max_dim, w, max_dim as int);
    let p = modulus() as int;
    let a = w[l as int] as int;
    let b = w[r as int] as int;
    assert(a < p && b < p);
    assert(minus_one() * b == (p - 1) * b);
    assert(a + (p - 1) * b == (a - b) + p * b) by (nonlinear_arith);
    vstd::arithmetic::div_mod::lemma_mod_multiples_vanish(b, a - b, p);
    assert((a + (p - 1) * b) % p == (a - b) % p);
    if a >= b {
        vstd::arithmetic::div_mod::lemma_small_mod((a - b) as nat, p as nat);
    } else {
        vstd::arithmetic::div_mod::lemma_mod_multiples_vanish(1, a - b, p);
        assert(p + (a - b) > 0);
        vstd::arithmetic::div_mod::lemma_small_mod((p + (a - b)) as nat, p as nat);
    }
}

} // verus!
