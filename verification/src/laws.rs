//! Properties of the clause check as a whole: what the equality rows and the
//! structural rows accept.
use vstd::prelude::*;
use crate::data::{ClauseTemplate, GoalEntry};
use crate::field::{modulus, minus_one};
use crate::hashing::fs_coeff_spec;
use crate::node::{
    eq_row_vals, var_vals, variables_pass_spec, structural_pass, structural_c, structural_sum, structural_entry,
};
use crate::predicates::{
    pad_vals, pad_len, dot_vals, dot_sum, zip_len, equality_pairs, clause_labels, total_places, pair_row_at,
    chain_from, all_chains, is_least, clause_has_child, subtree_has, indicator,
};

verus! {

/// Whether the values `w` agree on each class of places of `lab`.
pub open spec fn agrees_on_classes(lab: Seq<int>, n: int, w: Seq<nat>) -> bool {
    forall|i: int, j: int| 0 <= i < n && 0 <= j < n && lab[i] == lab[j] ==> #[trigger] w[i] == #[trigger] w[j]
}

proof fn lemma_dot_sum_ext(a: Seq<nat>, b: Seq<nat>, c: Seq<nat>, d: Seq<nat>, k: int)
    requires
        forall|i: int| 0 <= i < k ==> a[i] == c[i] && b[i] == d[i],
    ensures
        dot_sum(a, b, k) == dot_sum(c, d, k),
    decreases k,
{
    if k > 0 {
        lemma_dot_sum_ext(a, b, c, d, k - 1);
    }
}

proof fn lemma_dot_sum_zero_tail(a: Seq<nat>, b: Seq<nat>, s: int, k: int)
    requires
        0 <= s <= k,
        forall|i: int| s <= i < k ==> a[i] == 0,
    ensures
        dot_sum(a, b, k) == dot_sum(a, b, s),
    decreases k,
{
    if k > s {
        lemma_dot_sum_zero_tail(a, b, s, k - 1);
    }
}

/// Padding two vectors of one non-zero length keeps their dot product.
pub proof fn lemma_pad_dot(a: Seq<nat>, b: Seq<nat>)
    requires
        a.len() == b.len(),
        a.len() > 0,
    ensures
        dot_vals(pad_vals(a), pad_vals(b)) == dot_vals(a, b),
{
    let n = a.len() as int;
    let pa = pad_vals(a);
    let pb = pad_vals(b);
    let l = pad_len(a.len()) as int;
    assert(pa.len() == l && pb.len() == l);
    assert(zip_len(pa.len(), pb.len()) == l);
    assert(zip_len(a.len(), b.len()) == n);
    lemma_dot_sum_ext(pa, pb, a, b, n - 1);
    lemma_dot_sum_zero_tail(pa, pb, n - 1, l - 1);
    assert(dot_sum(pa, pb, l) == dot_sum(pa, pb, l - 1) + pa[l - 1] * pb[l - 1]);
    assert(dot_sum(a, b, n) == dot_sum(a, b, n - 1) + a[n - 1] * b[n - 1]);
}

proof fn lemma_chain_from_pairs(lab: Seq<int>, n: int, i: int, cur: int, j: int)
    requires
        0 <= cur < j,
        lab[cur] == lab[i],
    ensures
        forall|k: int| 0 <= k < chain_from(lab, n, i, cur, j).len() ==> {
            let p = #[trigger] chain_from(lab, n, i, cur, j)[k];
            &&& cur <= p.0 < p.1 < n
            &&& lab[p.0] == lab[i]
            &&& lab[p.1] == lab[i]
        },
    decreases n - j,
{
    if j < n {
        let c = chain_from(lab, n, i, cur, j);
        if lab[j] == lab[i] {
            lemma_chain_from_pairs(lab, n, i, j, j + 1);
            let rest = chain_from(lab, n, i, j, j + 1);
            assert(c == seq![(cur, j)] + rest);
            assert forall|k: int| 0 <= k < c.len() implies {
                let p = #[trigger] c[k];
                &&& cur <= p.0 < p.1 < n
                &&& lab[p.0] == lab[i]
                &&& lab[p.1] == lab[i]
            } by {
                if k > 0 {
                    assert(c[k] == rest[k - 1]);
                }
            }
        } else {
            lemma_chain_from_pairs(lab, n, i, cur, j + 1);
            assert(c == chain_from(lab, n, i, cur, j + 1));
        }
    }
}

proof fn lemma_chain_from_covers(lab: Seq<int>, n: int, i: int, cur: int, j: int, m: int)
    requires
        0 <= cur < j <= m < n,
        lab[cur] == lab[i],
        lab[m] == lab[i],
    ensures
        exists|x: int| #[trigger] chain_from(lab, n, i, cur, j).contains((x, m)) && x < m && lab[x] == lab[i],
    decreases n - j,
{
    let c = chain_from(lab, n, i, cur, j);
    if lab[j] == lab[i] {
        let rest = chain_from(lab, n, i, j, j + 1);
        assert(c == seq![(cur, j)] + rest);
        if j == m {
            assert(c[0] == (cur, m));
            assert(c.contains((cur, m)));
        } else {
            lemma_chain_from_covers(lab, n, i, j, j + 1, m);
            let x = choose|x: int| #[trigger] rest.contains((x, m)) && x < m && lab[x] == lab[i];
            let k = choose|k: int| 0 <= k < rest.len() && rest[k] == (x, m);
            assert(c[k + 1] == (x, m));
            assert(c.contains((x, m)));
        }
    } else {
        lemma_chain_from_covers(lab, n, i, cur, j + 1, m);
    }
}

proof fn lemma_all_chains_pairs(lab: Seq<int>, n: int, i: int)
    requires
        0 <= i,
    ensures
        forall|k: int| 0 <= k < all_chains(lab, n, i).len() ==> {
            let p = #[trigger] all_chains(lab, n, i)[k];
            &&& 0 <= p.0 < p.1 < n
            &&& lab[p.0] == lab[p.1]
        },
    decreases n - i,
{
    if i < n {
        lemma_all_chains_pairs(lab, n, i + 1);
        let head = if is_least(lab, i) {
            chain_from(lab, n, i, i, i + 1)
        } else {
            Seq::empty()
        };
        let rest = all_chains(lab, n, i + 1);
        assert(all_chains(lab, n, i) == head + rest);
        if is_least(lab, i) {
            lemma_chain_from_pairs(lab, n, i, i, i + 1);
        }
        assert forall|k: int| 0 <= k < all_chains(lab, n, i).len() implies {
            let p = #[trigger] all_chains(lab, n, i)[k];
            &&& 0 <= p.0 < p.1 < n
            &&& lab[p.0] == lab[p.1]
        } by {
            if k < head.len() {
                assert(all_chains(lab, n, i)[k] == head[k]);
            } else {
                assert(all_chains(lab, n, i)[k] == rest[k - head.len()]);
            }
        }
    }
}

proof fn lemma_all_chains_covers(lab: Seq<int>, n: int, i: int, s: int, m: int)
    requires
        0 <= i <= s < m < n,
        is_least(lab, s),
        lab[m] == lab[s],
    ensures
        exists|x: int| #[trigger] all_chains(lab, n, i).contains((x, m)) && x < m && lab[x] == lab[m],
    decreases n - i,
{
    let head = if is_least(lab, i) {
        chain_from(lab, n, i, i, i + 1)
    } else {
        Seq::empty()
    };
    let rest = all_chains(lab, n, i + 1);
    assert(all_chains(lab, n, i) == head + rest);
    if i == s {
        lemma_chain_from_covers(lab, n, i, i, i + 1, m);
        let x = choose|x: int| #[trigger] head.contains((x, m)) && x < m && lab[x] == lab[i];
        let k = choose|k: int| 0 <= k < head.len() && head[k] == (x, m);
        assert(all_chains(lab, n, i)[k] == (x, m));
        assert(all_chains(lab, n, i).contains((x, m)));
    } else {
        lemma_all_chains_covers(lab, n, i + 1, s, m);
        let x = choose|x: int| #[trigger] rest.contains((x, m)) && x < m && lab[x] == lab[m];
        let k = choose|k: int| 0 <= k < rest.len() && rest[k] == (x, m);
        assert(all_chains(lab, n, i)[head.len() + k] == (x, m));
        assert(all_chains(lab, n, i).contains((x, m)));
    }
}

/// The first place at or after `k` (and not after `m`) in the class of `m`.
spec fn first_from(lab: Seq<int>, m: int, k: int) -> int
    decreases m - k,
{
    if k >= m || lab[k] == lab[m] {
        k
    } else {
        first_from(lab, m, k + 1)
    }
}

proof fn lemma_first_from(lab: Seq<int>, m: int, k: int)
    requires
        0 <= k <= m,
        forall|q: int| 0 <= q < k ==> lab[q] != lab[m],
    ensures
        0 <= first_from(lab, m, k) <= m,
        lab[first_from(lab, m, k)] == lab[m],
        is_least(lab, first_from(lab, m, k)),
    decreases m - k,
{
    if k < m && lab[k] != lab[m] {
        lemma_first_from(lab, m, k + 1);
    }
}

proof fn lemma_first_same(lab: Seq<int>, a: int, b: int)
    requires
        0 <= a,
        0 <= b,
        lab[a] == lab[b],
    ensures
        first_from(lab, a, 0) == first_from(lab, b, 0),
{
    lemma_first_from(lab, a, 0);
    lemma_first_from(lab, b, 0);
    let fa = first_from(lab, a, 0);
    let fb = first_from(lab, b, 0);
    if fa < fb {
        assert(lab[fa] == lab[fb]);
    } else if fb < fa {
        assert(lab[fb] == lab[fa]);
    }
}

proof fn lemma_equal_to_first(lab: Seq<int>, n: int, w: Seq<nat>, m: int)
    requires
        0 <= m < n,
        forall|k: int| 0 <= k < all_chains(lab, n, 0).len() ==> #[trigger] w[all_chains(lab, n, 0)[k].0] == w[all_chains(lab, n, 0)[k].1],
    ensures
        w[m] == w[first_from(lab, m, 0)],
    decreases m,
{
    lemma_first_from(lab, m, 0);
    let s = first_from(lab, m, 0);
    if s != m {
        lemma_all_chains_covers(lab, n, 0, s, m);
        let ch = all_chains(lab, n, 0);
        let x = choose|x: int| #[trigger] ch.contains((x, m)) && x < m && lab[x] == lab[m];
        let k = choose|k: int| 0 <= k < ch.len() && ch[k] == (x, m);
        assert(w[ch[k].0] == w[ch[k].1]);
        lemma_all_chains_pairs(lab, n, 0);
        assert(0 <= x);
        lemma_equal_to_first(lab, n, w, x);
        lemma_first_same(lab, x, m);
    }
}

/// The consecutive-pair rows of the classes connect every class: values
/// agree on each pair exactly when they agree on each class.
pub proof fn lemma_chains_agree_iff_classes(lab: Seq<int>, n: int, w: Seq<nat>)
    requires
        0 <= n,
    ensures
        (forall|k: int| 0 <= k < all_chains(lab, n, 0).len() ==> #[trigger] w[all_chains(lab, n, 0)[k].0] == w[all_chains(lab, n, 0)[k].1])
            <==> agrees_on_classes(lab, n, w),
{
    let ch = all_chains(lab, n, 0);
    lemma_all_chains_pairs(lab, n, 0);
    if forall|k: int| 0 <= k < ch.len() ==> #[trigger] w[ch[k].0] == w[ch[k].1] {
        assert forall|i: int, j: int| 0 <= i < n && 0 <= j < n && lab[i] == lab[j] implies #[trigger] w[i] == #[trigger] w[j] by {
            lemma_equal_to_first(lab, n, w, i);
            lemma_equal_to_first(lab, n, w, j);
            lemma_first_same(lab, i, j);
        }
    }
    if agrees_on_classes(lab, n, w) {
        assert forall|k: int| 0 <= k < ch.len() implies #[trigger] w[ch[k].0] == w[ch[k].1] by {
            let p = ch[k];
            assert(0 <= p.0 < p.1 < n && lab[p.0] == lab[p.1]);
        }
    }
}

proof fn lemma_pair_row_dot(pair: (int, int), w: Seq<nat>, k: int)
    requires
        0 <= pair.0 < pair.1,
        0 <= k <= w.len(),
    ensures
        dot_sum(Seq::new(w.len(), |j: int| pair_row_at(pair, j)), w, k)
            == (if pair.0 < k { w[pair.0] as int } else { 0 }) + (if pair.1 < k { minus_one() * w[pair.1] } else { 0 }),
    decreases k,
{
    if k > 0 {
        lemma_pair_row_dot(pair, w, k - 1);
        let row = Seq::new(w.len(), |j: int| pair_row_at(pair, j));
        let x = row[k - 1];
        let y = w[k - 1];
        if k - 1 == pair.0 {
            assert(x == 1);
            assert(x * y == y);
        } else if k - 1 == pair.1 {
            assert(x == minus_one());
        } else {
            assert(x == 0);
            assert(x * y == 0) by (nonlinear_arith)
                requires
                    x == 0;
        }
    }
}

proof fn lemma_mod_zero_iff_equal(a: nat, b: nat)
    requires
        a < modulus(),
        b < modulus(),
    ensures
        ((a + minus_one() * b) as int % modulus() as int == 0) <==> a == b,
{
    let p = modulus() as int;
    assert(a + minus_one() * b == (a - b) + p * b) by (nonlinear_arith)
        requires
            minus_one() == p - 1;
    vstd::arithmetic::div_mod::lemma_mod_multiples_vanish(b as int, (a - b) as int, p);
    if a >= b {
        vstd::arithmetic::div_mod::lemma_small_mod((a - b) as nat, p as nat);
    } else {
        vstd::arithmetic::div_mod::lemma_fundamental_div_mod((a - b) as int, p);
        vstd::arithmetic::div_mod::lemma_mod_bound((a - b) as int, p);
        assert(((a - b) as int) % p == (a - b) + p) by {
            vstd::arithmetic::div_mod::lemma_mod_add_multiples_vanish((a - b) as int, p);
            vstd::arithmetic::div_mod::lemma_small_mod(((a - b) + p) as nat, p as nat);
        }
    }
}

/// The variable check of a clause passes exactly when the goal's variables
/// agree on every class of argument places that the clause's equalities
/// connect (given a variable witness as long as the places plus the
/// constant).
pub proof fn law_variable_check_is_class_agreement(c: ClauseTemplate, h: nat, goal: GoalEntry)
    requires
        var_vals(goal).len() == total_places(c, h) + 1,
        total_places(c, h) >= 0,
    ensures
        variables_pass_spec(c, h, goal) <==> agrees_on_classes(clause_labels(c, h), total_places(c, h), var_vals(goal)),
{
    let n = total_places(c, h);
    let w = var_vals(goal);
    let lab = clause_labels(c, h);
    let ch = equality_pairs(c, h);
    assert(ch == all_chains(lab, n, 0));
    lemma_all_chains_pairs(lab, n, 0);
    assert forall|i: int| 0 <= i < w.len() implies w[i] < modulus() by {
        if i < w.len() - 1 {
            vstd::arithmetic::div_mod::lemma_mod_bound(w[i] as int, modulus() as int);
        }
    }
    assert forall|k: int| 0 <= k < ch.len() implies {
        &&& (#[trigger] eq_row_vals(c, h, k)).len() == w.len()
        &&& (dot_vals(pad_vals(eq_row_vals(c, h, k)), pad_vals(w)) % modulus() as int == 0 <==> w[ch[k].0] == w[ch[k].1])
    } by {
        let row = eq_row_vals(c, h, k);
        let p = ch[k];
        lemma_pad_dot(row, w);
        assert(row == Seq::new(w.len(), |j: int| pair_row_at(p, j)));
        lemma_pair_row_dot(p, w, w.len() as int);
        lemma_mod_zero_iff_equal(w[p.0], w[p.1]);
    }
    lemma_chains_agree_iff_classes(lab, n, w);
    if variables_pass_spec(c, h, goal) {
        assert forall|k: int| 0 <= k < all_chains(lab, n, 0).len() implies #[trigger] w[all_chains(lab, n, 0)[k].0] == w[all_chains(lab, n, 0)[k].1] by {
            assert(eq_row_vals(c, h, k).len() == w.len());
        }
    }
    if agrees_on_classes(lab, n, w) {
        assert forall|k: int| 0 <= k < ch.len() implies {
            &&& (#[trigger] eq_row_vals(c, h, k)).len() == var_vals(goal).len()
            &&& dot_vals(pad_vals(eq_row_vals(c, h, k)), pad_vals(var_vals(goal))) % modulus() as int == 0
        } by {
            assert(w[ch[k].0] == w[ch[k].1]);
        }
    }
}


/// The presence witness of a goal over a universe: 1 for each name that a
/// subgoal carries, 0 for the others, then the constant 1.
pub open spec fn presence_vals(goal: GoalEntry, u: Seq<Seq<char>>) -> Seq<nat> {
    Seq::new(u.len() + 1, |j: int| if j < u.len() {
        indicator(subtree_has(goal, u[j]))
    } else {
        1
    })
}

proof fn lemma_structural_sum_diag(c: ClauseTemplate, u: Seq<Seq<char>>, seed: Seq<char>, j: int, k: int)
    requires
        0 <= j < u.len(),
        0 <= k,
    ensures
        structural_sum(c, u, seed, j, k) == (if j < k { fs_coeff_spec(seed, j as usize) as int } else { 0 }),
    decreases k,
{
    if k > 0 {
        lemma_structural_sum_diag(c, u, seed, j, k - 1);
        if k - 1 == j {
            assert(structural_entry(c, u, k - 1, j) == 1);
        } else {
            assert(structural_entry(c, u, k - 1, j) == 0);
            assert(fs_coeff_spec(seed, (k - 1) as usize) * structural_entry(c, u, k - 1, j) == 0) by (nonlinear_arith)
                requires
                    structural_entry(c, u, k - 1, j) == 0;
        }
    }
}

/// `sum_{i < k} coeff_i * [u_i is a body name]`.
spec fn hit_sum(c: ClauseTemplate, u: Seq<Seq<char>>, seed: Seq<char>, k: int) -> int
    decreases k,
{
    if k <= 0 {
        0
    } else {
        hit_sum(c, u, seed, k - 1) + fs_coeff_spec(seed, (k - 1) as usize) * indicator(clause_has_child(c, u[k - 1]))
    }
}

proof fn lemma_structural_sum_last(c: ClauseTemplate, u: Seq<Seq<char>>, seed: Seq<char>, k: int)
    requires
        0 <= k <= u.len(),
    ensures
        structural_sum(c, u, seed, u.len() as int, k) == minus_one() * hit_sum(c, u, seed, k),
    decreases k,
{
    if k > 0 {
        lemma_structural_sum_last(c, u, seed, k - 1);
        let r = fs_coeff_spec(seed, (k - 1) as usize);
        let b = indicator(clause_has_child(c, u[k - 1]));
        assert(structural_entry(c, u, k - 1, u.len() as int) == minus_one() * b);
        assert(r * (minus_one() * b) == minus_one() * (r * b)) by (nonlinear_arith);
        assert(minus_one() * hit_sum(c, u, seed, k - 1) + minus_one() * (r * b) == minus_one() * (hit_sum(c, u, seed, k - 1) + r * b))
            by (nonlinear_arith);
    }
}

proof fn lemma_hit_dot(c: ClauseTemplate, u: Seq<Seq<char>>, seed: Seq<char>, cv: Seq<nat>, w: Seq<nat>, k: int)
    requires
        0 <= k <= u.len(),
        cv.len() == u.len() + 1,
        w.len() == u.len() + 1,
        forall|j: int| 0 <= j < u.len() ==> #[trigger] cv[j] == fs_coeff_spec(seed, j as usize),
        forall|j: int| 0 <= j < u.len() ==> #[trigger] w[j] == indicator(clause_has_child(c, u[j])),
    ensures
        dot_sum(cv, w, k) == hit_sum(c, u, seed, k),
    decreases k,
{
    if k > 0 {
        lemma_hit_dot(c, u, seed, cv, w, k - 1);
        assert(cv[k - 1] == fs_coeff_spec(seed, (k - 1) as usize));
        assert(w[k - 1] == indicator(clause_has_child(c, u[k - 1])));
    }
}

/// The structural check accepts a goal whose subgoals carry, among the
/// names of the universe, exactly the names that the clause body calls,
/// whatever the coefficients.
pub proof fn law_structural_check_accepts_matching_subtree(c: ClauseTemplate, u: Seq<Seq<char>>, seed: Seq<char>, goal: GoalEntry)
    requires
        u.len() > 0,
        forall|j: int| 0 <= j < u.len() ==> subtree_has(goal, #[trigger] u[j]) == clause_has_child(c, u[j]),
    ensures
        structural_pass(c, u, seed, presence_vals(goal, u)),
{
    let n = u.len() as int;
    let p = modulus() as int;
    let cv = structural_c(c, u, seed);
    let w = presence_vals(goal, u);
    assert forall|j: int| 0 <= j < n implies #[trigger] cv[j] == fs_coeff_spec(seed, j as usize) by {
        lemma_structural_sum_diag(c, u, seed, j, n);
        vstd::arithmetic::div_mod::lemma_small_mod(fs_coeff_spec(seed, j as usize), modulus());
    }
    assert forall|j: int| 0 <= j < n implies #[trigger] w[j] == indicator(clause_has_child(c, u[j])) by {
    }
    lemma_hit_dot(c, u, seed, cv, w, n);
    lemma_structural_sum_last(c, u, seed, n);
    let h = hit_sum(c, u, seed, n);
    let last = structural_sum(c, u, seed, n, n);
    assert(last == minus_one() * h);
    assert(cv[n] == (last % p) as nat);
    assert(w[n] == 1);
    assert(dot_sum(cv, w, n + 1) == h + cv[n] * w[n]);
    assert(cv[n] * w[n] == cv[n]) by (nonlinear_arith)
        requires
            w[n] == 1;
    lemma_pad_dot(cv, w);
    assert(zip_len(cv.len(), w.len()) == n + 1);
    // h + (minus_one() * h) % p is a multiple of p
    assert(h + minus_one() * h == p * h) by (nonlinear_arith)
        requires
            minus_one() == p - 1;
    vstd::arithmetic::div_mod::lemma_add_mod_noop(h, minus_one() * h, p);
    vstd::arithmetic::div_mod::lemma_mod_multiples_basic(h, p);
    vstd::arithmetic::div_mod::lemma_mod_twice(h, p);
    vstd::arithmetic::div_mod::lemma_add_mod_noop(h, (minus_one() * h) % p, p);
}

} // verus!
