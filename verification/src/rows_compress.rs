//! Compression of clause equality rows for the value check: the rows of each
//! clause are summed column by column (optionally weighted by powers of a
//! challenge `r`), and the clause sums are combined with the clause flags,
//! so that one dot product checks the rows of the selected clause.
use vstd::prelude::*;
use crate::field::{Fe, fadd, fmul, fe_add, fe_mul};

verus! {

/// `r^j` in the field, as the circuit builds it (`r^0 = 1`).
pub open spec fn pow_f(r: nat, j: nat) -> nat
    decreases j,
{
    if j == 0 {
        1
    } else {
        fmul(pow_f(r, (j - 1) as nat), r)
    }
}

/// Whether the row tables have the shape the compression reads: at least one
/// clause whose first row exists, a flag per clause, and for every clause at
/// least as many rows as the first clause, each with at least as many
/// entries as the first row of the first clause.
pub open spec fn tables_ok(rows: Seq<Vec<Vec<Fe>>>, flags: Seq<Fe>) -> bool {
    &&& rows.len() >= 1
    &&& rows[0]@.len() >= 1
    &&& flags.len() >= rows.len()
    &&& forall|i: int|
        0 <= i < rows.len() ==> (#[trigger] rows[i])@.len() >= rows[0]@.len() && forall|j: int|
            0 <= j < rows[0]@.len() ==> (#[trigger] rows[i]@[j])@.len() >= rows[0]@[0]@.len()
}

/// `sum_{j < n} rows[i][j][k] * r^j` (field, left to right).
pub open spec fn weighted_sum(rows: Seq<Vec<Vec<Fe>>>, i: int, k: int, r: nat, n: int) -> nat
    decreases n,
{
    if n <= 0 {
        0
    } else {
        fadd(weighted_sum(rows, i, k, r, n - 1), fmul(rows[i]@[n - 1]@[k]@, pow_f(r, (n - 1) as nat)))
    }
}

/// `sum_{j < n} rows[i][j][k]` (field, left to right).
pub open spec fn plain_sum(rows: Seq<Vec<Vec<Fe>>>, i: int, k: int, n: int) -> nat
    decreases n,
{
    if n <= 0 {
        0
    } else {
        fadd(plain_sum(rows, i, k, n - 1), rows[i]@[n - 1]@[k]@)
    }
}

/// `sum_{i < m} flags[i] * weighted_sum(i)`.
pub open spec fn active_weighted(rows: Seq<Vec<Vec<Fe>>>, flags: Seq<Fe>, k: int, r: nat, m: int) -> nat
    decreases m,
{
    if m <= 0 {
        0
    } else {
        fadd(
            active_weighted(rows, flags, k, r, m - 1),
            fmul(flags[m - 1]@, weighted_sum(rows, m - 1, k, r, rows[0]@.len() as int)),
        )
    }
}

/// `sum_{i < m} flags[i] * plain_sum(i)`.
pub open spec fn active_plain(rows: Seq<Vec<Vec<Fe>>>, flags: Seq<Fe>, k: int, m: int) -> nat
    decreases m,
{
    if m <= 0 {
        0
    } else {
        fadd(active_plain(rows, flags, k, m - 1), fmul(flags[m - 1]@, plain_sum(rows, m - 1, k, rows[0]@.len() as int)))
    }
}

/// The powers `r^0 .. r^(n-1)`.
fn powers_of(r: &Fe, n: usize) -> (p: Vec<Fe>)
    ensures
        p@.len() == n,
        forall|j: int| 0 <= j < n ==> (#[trigger] p@[j])@ == pow_f(r@, j as nat),
{
    let mut p: Vec<Fe> = Vec::new();
    let mut acc = Fe::one();
    let mut j: usize = 0;
    while j < n
        invariant
            j <= n,
            p@.len() == j,
            acc@ == pow_f(r@, j as nat),
            forall|t: int| 0 <= t < j ==> (#[trigger] p@[t])@ == pow_f(r@, t as nat),
        decreases n - j,
    {
        p.push(acc);
        acc = fe_mul(&acc, r);
        j = j + 1;
    }
    p
}

/// One clause's column sum weighted by the powers.
fn weighted_clause_sum(rows: &Vec<Vec<Vec<Fe>>>, flags: &Vec<Fe>, i: usize, k: usize, pw: &Vec<Fe>, r: &Fe) -> (s: Fe)
    requires
        tables_ok(rows@, flags@),
        i < rows@.len(),
        k < rows@[0]@[0]@.len(),
        pw@.len() == rows@[0]@.len(),
        forall|j: int| 0 <= j < pw@.len() ==> (#[trigger] pw@[j])@ == pow_f(r@, j as nat),
    ensures
        s@ == weighted_sum(rows@, i as int, k as int, r@, rows@[0]@.len() as int),
{
    let n = rows[0].len();
    let mut acc = Fe::zero();
    let mut j: usize = 0;
    while j < n
        invariant
            tables_ok(rows@, flags@),
            i < rows@.len(),
            k < rows@[0]@[0]@.len(),
            n == rows@[0]@.len(),
            pw@.len() == n,
            forall|t: int| 0 <= t < pw@.len() ==> (#[trigger] pw@[t])@ == pow_f(r@, t as nat),
            j <= n,
            acc@ == weighted_sum(rows@, i as int, k as int, r@, j as int),
        decreases n - j,
    {
        assert(rows@[i as int]@.len() >= n);
        assert(rows@[i as int]@[j as int]@.len() >= rows@[0]@[0]@.len());
        acc = fe_add(&acc, &fe_mul(&rows[i][j][k], &pw[j]));
        j = j + 1;
    }
    acc
}

/// One clause's plain column sum.
fn plain_clause_sum(rows: &Vec<Vec<Vec<Fe>>>, flags: &Vec<Fe>, i: usize, k: usize) -> (s: Fe)
    requires
        tables_ok(rows@, flags@),
        i < rows@.len(),
        k < rows@[0]@[0]@.len(),
    ensures
        s@ == plain_sum(rows@, i as int, k as int, rows@[0]@.len() as int),
{
    let n = rows[0].len();
    let mut acc = Fe::zero();
    let mut j: usize = 0;
    while j < n
        invariant
            tables_ok(rows@, flags@),
            i < rows@.len(),
            k < rows@[0]@[0]@.len(),
            n == rows@[0]@.len(),
            j <= n,
            acc@ == plain_sum(rows@, i as int, k as int, j as int),
        decreases n - j,
    {
        assert(rows@[i as int]@.len() >= n);
        assert(rows@[i as int]@[j as int]@.len() >= rows@[0]@[0]@.len());
        acc = fe_add(&acc, &rows[i][j][k]);
        j = j + 1;
    }
    acc
}

/// The compressed column vector of the selected clauses: entry `k` is
/// `sum_i flags[i] * sum_j r^j * rows[i][j][k]`, over the clauses, the rows
/// of the first clause and the entries of its first row.
pub fn assign_compressed_active(rows: &Vec<Vec<Vec<Fe>>>, flags: &Vec<Fe>, r: &Fe) -> (out: Vec<Fe>)
    requires
        tables_ok(rows@, flags@),
    ensures
        out@.len() == rows@[0]@[0]@.len(),
        forall|k: int|
            0 <= k < out@.len() ==> (#[trigger] out@[k])@ == active_weighted(rows@, flags@, k, r@, rows@.len() as int),
{
    let dim = rows[0][0].len();
    let pw = powers_of(r, rows[0].len());
    let mut out: Vec<Fe> = Vec::new();
    let mut k: usize = 0;
    while k < dim
        invariant
            tables_ok(rows@, flags@),
            dim == rows@[0]@[0]@.len(),
            pw@.len() == rows@[0]@.len(),
            forall|j: int| 0 <= j < pw@.len() ==> (#[trigger] pw@[j])@ == pow_f(r@, j as nat),
            k <= dim,
            out@.len() == k,
            forall|t: int| 0 <= t < k ==> (#[trigger] out@[t])@ == active_weighted(rows@, flags@, t, r@, rows@.len() as int),
        decreases dim - k,
    {
        let mut acc = Fe::zero();
        let mut i: usize = 0;
        while i < rows.len()
            invariant
                tables_ok(rows@, flags@),
                dim == rows@[0]@[0]@.len(),
                k < dim,
                pw@.len() == rows@[0]@.len(),
                forall|j: int| 0 <= j < pw@.len() ==> (#[trigger] pw@[j])@ == pow_f(r@, j as nat),
                i <= rows@.len(),
                acc@ == active_weighted(rows@, flags@, k as int, r@, i as int),
            decreases rows@.len() - i,
        {
            let c = weighted_clause_sum(rows, flags, i, k, &pw, r);
            acc = fe_add(&acc, &fe_mul(&flags[i], &c));
            i = i + 1;
        }
        out.push(acc);
        k = k + 1;
    }
    out
}

/// The compressed column vector without weights: entry `k` is
/// `sum_i flags[i] * sum_j rows[i][j][k]`. There must be exactly one flag
/// per clause.
pub fn assign_compressed_active_simple(rows: &Vec<Vec<Vec<Fe>>>, flags: &Vec<Fe>) -> (out: Vec<Fe>)
    requires
        tables_ok(rows@, flags@),
        flags@.len() == rows@.len(),
    ensures
        out@.len() == rows@[0]@[0]@.len(),
        forall|k: int|
            0 <= k < out@.len() ==> (#[trigger] out@[k])@ == active_plain(rows@, flags@, k, rows@.len() as int),
{
    let dim = rows[0][0].len();
    let mut out: Vec<Fe> = Vec::new();
    let mut k: usize = 0;
    while k < dim
        invariant
            tables_ok(rows@, flags@),
            dim == rows@[0]@[0]@.len(),
            k <= dim,
            out@.len() == k,
            forall|t: int| 0 <= t < k ==> (#[trigger] out@[t])@ == active_plain(rows@, flags@, t, rows@.len() as int),
        decreases dim - k,
    {
        let mut acc = Fe::zero();
        let mut i: usize = 0;
        while i < rows.len()
            invariant
                tables_ok(rows@, flags@),
                dim == rows@[0]@[0]@.len(),
                k < dim,
                i <= rows@.len(),
                acc@ == active_plain(rows@, flags@, k as int, i as int),
            decreases rows@.len() - i,
        {
            let c = plain_clause_sum(rows, flags, i, k);
            acc = fe_add(&acc, &fe_mul(&flags[i], &c));
            i = i + 1;
        }
        out.push(acc);
        k = k + 1;
    }
    out
}

/// `sum` of entry `k` over the first `n` rows of a clause.
pub open spec fn rows_col_sum(clause: Seq<Vec<Fe>>, k: int, n: int) -> nat
    decreases n,
{
    if n <= 0 {
        0
    } else {
        fadd(rows_col_sum(clause, k, n - 1), clause[n - 1]@[k]@)
    }
}

/// Whether every row of the first `max_candidates` clauses has at least
/// `dim` entries.
pub open spec fn all_rows_fit(rows: Seq<Vec<Vec<Fe>>>, max_candidates: usize, dim: usize) -> bool {
    forall|i: int, j: int|
        0 <= i < rows.len() && i < max_candidates && 0 <= j < rows[i]@.len() ==> (#[trigger] rows[i]@[j])@.len() >= dim
}

/// The column sums of every clause, for `max_candidates` clauses (zero
/// vectors past the given ones): `c[i][k] = sum_j rows[i][j][k]`.
pub fn assign_compressed_all(rows: &Vec<Vec<Vec<Fe>>>, max_candidates: usize, dim: usize) -> (c_all: Vec<Vec<Fe>>)
    requires
        all_rows_fit(rows@, max_candidates, dim),
    ensures
        c_all@.len() == max_candidates,
        forall|i: int|
            0 <= i < max_candidates ==> (#[trigger] c_all@[i])@.len() == dim && forall|k: int|
                0 <= k < dim ==> (#[trigger] c_all@[i]@[k])@ == (if i < rows@.len() {
                    rows_col_sum(rows@[i]@, k, rows@[i]@.len() as int)
                } else {
                    0
                }),
{
    let mut c_all: Vec<Vec<Fe>> = Vec::new();
    let mut i: usize = 0;
    while i < max_candidates
        invariant
            all_rows_fit(rows@, max_candidates, dim),
            i <= max_candidates,
            c_all@.len() == i,
            forall|a: int|
                0 <= a < i ==> (#[trigger] c_all@[a])@.len() == dim && forall|k: int|
                    0 <= k < dim ==> (#[trigger] c_all@[a]@[k])@ == (if a < rows@.len() {
                        rows_col_sum(rows@[a]@, k, rows@[a]@.len() as int)
                    } else {
                        0
                    }),
        decreases max_candidates - i,
    {
        let mut c_i: Vec<Fe> = Vec::new();
        let mut k: usize = 0;
        while k < dim
            invariant
                all_rows_fit(rows@, max_candidates, dim),
                i < max_candidates,
                k <= dim,
                c_i@.len() == k,
                forall|t: int|
                    0 <= t < k ==> (#[trigger] c_i@[t])@ == (if i < rows@.len() {
                        rows_col_sum(rows@[i as int]@, t, rows@[i as int]@.len() as int)
                    } else {
                        0
                    }),
            decreases dim - k,
        {
            let mut sum = Fe::zero();
            if i < rows.len() {
                let mut j: usize = 0;
                while j < rows[i].len()
                    invariant
                        all_rows_fit(rows@, max_candidates, dim),
                        i < max_candidates,
                        i < rows@.len(),
                        k < dim,
                        j <= rows@[i as int]@.len(),
                        sum@ == rows_col_sum(rows@[i as int]@, k as int, j as int),
                    decreases rows@[i as int]@.len() - j,
                {
                    assert(rows@[i as int]@[j as int]@.len() >= dim);
                    sum = fe_add(&sum, &rows[i][j][k]);
                    j = j + 1;
                }
            }
            c_i.push(sum);
            k = k + 1;
        }
        c_all.push(c_i);
        i = i + 1;
    }
    c_all
}

} // verus!
