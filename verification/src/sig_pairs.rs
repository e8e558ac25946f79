//! The (name, arity) signature pairs that the rule-finding circuit compares:
//! one row of pairs for the goal and one per subtree node on the proof side,
//! and, for every candidate clause, its head row and one row per body row.
//! Every row is padded with zero pairs to `MAX_CHILDREN`, every table to
//! `MAX_CHILDREN` rows, and the candidates to `MAX_CANDIDATES`.
use vstd::prelude::*;
use crate::data::{TermFp, PredicateTemplateFp, ClauseTemplateFp, ChildSigFp};
use crate::field::{Fe, fe_from_u64, fe_minus_one, minus_one, modulus};
use crate::params::{MAX_CHILDREN, MAX_CANDIDATES};

verus! {

/// The values of a pair of field elements.
pub open spec fn pair_v(p: (Fe, Fe)) -> (nat, nat) {
    (p.0@, p.1@)
}

/// The values of a row of pairs.
pub open spec fn row_v(r: Seq<(Fe, Fe)>) -> Seq<(nat, nat)> {
    r.map_values(|p: (Fe, Fe)| pair_v(p))
}

/// The values of rows of pairs.
pub open spec fn rows_v(rs: Seq<Vec<(Fe, Fe)>>) -> Seq<Seq<(nat, nat)>> {
    rs.map_values(|r: Vec<(Fe, Fe)>| row_v(r@))
}

/// The values of candidate tables.
pub open spec fn cands_v(cs: Seq<Vec<Vec<(Fe, Fe)>>>) -> Seq<Seq<Seq<(nat, nat)>>> {
    cs.map_values(|c: Vec<Vec<(Fe, Fe)>>| rows_v(c@))
}

/// `n` zero pairs.
pub open spec fn zero_pairs(n: nat) -> Seq<(nat, nat)> {
    Seq::new(n, |i: int| (0nat, 0nat))
}

/// A row padded with zero pairs to `MAX_CHILDREN` (a longer row stays).
pub open spec fn pad_pairs(row: Seq<(nat, nat)>) -> Seq<(nat, nat)> {
    if row.len() >= MAX_CHILDREN {
        row
    } else {
        row + zero_pairs((MAX_CHILDREN - row.len()) as nat)
    }
}

/// Rows padded with rows of `MAX_CHILDREN` zero pairs to `MAX_CHILDREN`.
pub open spec fn pad_rows(rows: Seq<Seq<(nat, nat)>>) -> Seq<Seq<(nat, nat)>> {
    if rows.len() >= MAX_CHILDREN {
        rows
    } else {
        rows + Seq::new((MAX_CHILDREN - rows.len()) as nat, |i: int| zero_pairs(MAX_CHILDREN as nat))
    }
}

/// Whether a matrix row opens with an entry other than minus one.
pub open spec fn row_counts(row: Seq<Fe>) -> bool {
    row.len() > 0 && row[0]@ != minus_one()
}

/// The number of leading rows of an argument matrix that open with an entry
/// other than minus one: the arity the circuit reads off a term.
pub open spec fn leading_rows(m: Seq<Vec<Fe>>) -> nat
    decreases m.len(),
{
    if m.len() == 0 || !row_counts(m[0]@) {
        0
    } else {
        1 + leading_rows(m.drop_first())
    }
}

proof fn lemma_leading_rows_le(m: Seq<Vec<Fe>>)
    ensures
        leading_rows(m) <= m.len(),
    decreases m.len(),
{
    if m.len() > 0 && row_counts(m[0]@) {
        lemma_leading_rows_le(m.drop_first());
    }
}

/// The arity of a term as the circuit reads it: the leading rows of its
/// matrix that do not open with minus one.
pub fn measure_arity(m: &Vec<Vec<Fe>>) -> (r: Fe)
    ensures
        r@ == leading_rows(m@),
{
    let neg1 = fe_minus_one();
    let mut k: usize = 0;
    assert(m@.skip(0) =~= m@);
    while k < m.len() && m[k].len() > 0 && !m[k][0].equals(&neg1)
        invariant
            k <= m@.len(),
            neg1@ == minus_one(),
            leading_rows(m@) == k + leading_rows(m@.skip(k as int)),
        decreases m@.len() - k,
    {
        assert(m@.skip(k as int).drop_first() =~= m@.skip(k + 1));
        assert(m@.skip(k as int)[0] == m@[k as int]);
        k = k + 1;
    }
    proof {
        if k < m@.len() {
            assert(m@.skip(k as int)[0] == m@[k as int]);
        }
        lemma_leading_rows_le(m@);
        assert(modulus() > 0x1_0000_0000_0000_0000);
        vstd::arithmetic::div_mod::lemma_small_mod(k as nat, modulus());
    }
    fe_from_u64(k as u64)
}

/// The pairs of a list of terms: each name with its arity.
pub open spec fn term_pairs(ts: Seq<TermFp>) -> Seq<(nat, nat)> {
    ts.map_values(|t: TermFp| (t.name@, leading_rows(t.args@)))
}

/// The proof-side rows: the goal terms, then each subtree node's terms.
pub open spec fn proof_rows(goal: Seq<TermFp>, sub: Seq<Vec<TermFp>>) -> Seq<Seq<(nat, nat)>> {
    pad_rows(seq![pad_pairs(term_pairs(goal))] + sub.map_values(|v: Vec<TermFp>| pad_pairs(term_pairs(v@))))
}

/// The pairs of a body row of a clause.
pub open spec fn child_pairs(row: Seq<ChildSigFp>) -> Seq<(nat, nat)> {
    row.map_values(|c: ChildSigFp| (c.name@, c.arity@))
}

/// The rows of a candidate clause: the head pair of its predicate, then its
/// body rows.
pub open spec fn clause_rows(p: PredicateTemplateFp, c: ClauseTemplateFp) -> Seq<Seq<(nat, nat)>> {
    pad_rows(
        seq![pad_pairs(seq![(p.name@, p.arity@)])] + c.children@.map_values(
            |row: Vec<ChildSigFp>| pad_pairs(child_pairs(row@)),
        ),
    )
}

/// The candidate tables of every clause of every predicate, in order.
pub open spec fn pred_cands(rules: Seq<PredicateTemplateFp>) -> Seq<Seq<Seq<(nat, nat)>>>
    decreases rules.len(),
{
    if rules.len() == 0 {
        Seq::empty()
    } else {
        pred_cands(rules.drop_last()) + rules.last().clauses@.map_values(
            |c: ClauseTemplateFp| clause_rows(rules.last(), c),
        )
    }
}

/// The candidate tables padded with all-zero tables to `MAX_CANDIDATES`.
pub open spec fn candidate_rows(rules: Seq<PredicateTemplateFp>) -> Seq<Seq<Seq<(nat, nat)>>> {
    let c = pred_cands(rules);
    if c.len() >= MAX_CANDIDATES {
        c
    } else {
        c + Seq::new(
            (MAX_CANDIDATES - c.len()) as nat,
            |i: int| Seq::new(MAX_CHILDREN as nat, |j: int| zero_pairs(MAX_CHILDREN as nat)),
        )
    }
}

fn zero_pair() -> (p: (Fe, Fe))
    ensures
        pair_v(p) == (0nat, 0nat),
{
    (Fe::zero(), Fe::zero())
}

/// Pads a row with zero pairs to `MAX_CHILDREN`.
fn pad_pair_row(row: &mut Vec<(Fe, Fe)>)
    ensures
        row_v(final(row)@) == pad_pairs(row_v(old(row)@)),
{
    let ghost start = row_v(row@);
    let ghost n0 = row@.len();
    while row.len() < MAX_CHILDREN
        invariant
            n0 <= row@.len(),
            n0 >= MAX_CHILDREN ==> row@.len() == n0,
            n0 < MAX_CHILDREN ==> row@.len() <= MAX_CHILDREN,
            row_v(row@) == start + zero_pairs((row@.len() - n0) as nat),
        decreases MAX_CHILDREN - row@.len(),
    {
        let ghost before = row_v(row@);
        row.push(zero_pair());
        assert(row_v(row@) =~= before.push((0nat, 0nat)));
        assert(zero_pairs((row@.len() - n0) as nat) =~= zero_pairs((row@.len() - 1 - n0) as nat).push((0nat, 0nat)));
    }
    assert(zero_pairs(0) =~= Seq::<(nat, nat)>::empty());
    assert(start + zero_pairs(0) =~= start);
}

/// A row of `MAX_CHILDREN` zero pairs.
fn zero_row() -> (r: Vec<(Fe, Fe)>)
    ensures
        row_v(r@) == zero_pairs(MAX_CHILDREN as nat),
{
    let mut r: Vec<(Fe, Fe)> = Vec::new();
    pad_pair_row(&mut r);
    assert(row_v(Seq::<(Fe, Fe)>::empty()) =~= Seq::<(nat, nat)>::empty());
    assert(Seq::<(nat, nat)>::empty() + zero_pairs(MAX_CHILDREN as nat) =~= zero_pairs(MAX_CHILDREN as nat));
    r
}

/// Pads a table with zero rows to `MAX_CHILDREN` rows.
fn pad_pair_rows(rows: &mut Vec<Vec<(Fe, Fe)>>)
    ensures
        rows_v(final(rows)@) == pad_rows(rows_v(old(rows)@)),
{
    let ghost start = rows_v(rows@);
    let ghost n0 = rows@.len();
    while rows.len() < MAX_CHILDREN
        invariant
            n0 <= rows@.len(),
            n0 >= MAX_CHILDREN ==> rows@.len() == n0,
            n0 < MAX_CHILDREN ==> rows@.len() <= MAX_CHILDREN,
            rows_v(rows@) == start + Seq::new((rows@.len() - n0) as nat, |i: int| zero_pairs(MAX_CHILDREN as nat)),
        decreases MAX_CHILDREN - rows@.len(),
    {
        let ghost before = rows_v(rows@);
        let z = zero_row();
        rows.push(z);
        assert(rows_v(rows@) =~= before.push(zero_pairs(MAX_CHILDREN as nat)));
        assert(Seq::new((rows@.len() - n0) as nat, |i: int| zero_pairs(MAX_CHILDREN as nat)) =~= Seq::new(
            (rows@.len() - 1 - n0) as nat,
            |i: int| zero_pairs(MAX_CHILDREN as nat),
        ).push(zero_pairs(MAX_CHILDREN as nat)));
    }
    assert(start + Seq::new(0nat, |i: int| zero_pairs(MAX_CHILDREN as nat)) =~= start);
}

/// The padded pair row of a list of terms.
fn term_pair_row(ts: &[TermFp]) -> (r: Vec<(Fe, Fe)>)
    ensures
        row_v(r@) == pad_pairs(term_pairs(ts@)),
{
    let mut row: Vec<(Fe, Fe)> = Vec::new();
    let mut i: usize = 0;
    while i < ts.len()
        invariant
            i <= ts@.len(),
            row_v(row@) == term_pairs(ts@).take(i as int),
        decreases ts@.len() - i,
    {
        let ghost before = row_v(row@);
        let a = measure_arity(&ts[i].args);
        row.push((ts[i].name, a));
        assert(row_v(row@) =~= before.push((ts@[i as int].name@, leading_rows(ts@[i as int].args@))));
        assert(term_pairs(ts@).take(i + 1) =~= term_pairs(ts@).take(i as int).push(term_pairs(ts@)[i as int]));
        i = i + 1;
    }
    assert(term_pairs(ts@).take(ts@.len() as int) =~= term_pairs(ts@));
    pad_pair_row(&mut row);
    row
}

/// The proof-side pair table: the goal row, one row per subtree node, padded.
pub fn proof_sig_pairs(goal_terms: &[TermFp], subtree_terms: &[Vec<TermFp>]) -> (r: Vec<Vec<(Fe, Fe)>>)
    ensures
        rows_v(r@) == proof_rows(goal_terms@, subtree_terms@),
{
    let ghost subs = subtree_terms@.map_values(|v: Vec<TermFp>| pad_pairs(term_pairs(v@)));
    let mut rows: Vec<Vec<(Fe, Fe)>> = Vec::new();
    rows.push(term_pair_row(goal_terms));
    let ghost head = rows_v(rows@);
    assert(head =~= seq![pad_pairs(term_pairs(goal_terms@))]);
    let mut i: usize = 0;
    while i < subtree_terms.len()
        invariant
            i <= subtree_terms@.len(),
            subs == subtree_terms@.map_values(|v: Vec<TermFp>| pad_pairs(term_pairs(v@))),
            head == seq![pad_pairs(term_pairs(goal_terms@))],
            rows_v(rows@) == head + subs.take(i as int),
        decreases subtree_terms@.len() - i,
    {
        let ghost before = rows_v(rows@);
        let row = term_pair_row(subtree_terms[i].as_slice());
        rows.push(row);
        assert(rows_v(rows@) =~= before.push(subs[i as int]));
        assert(subs.take(i + 1) =~= subs.take(i as int).push(subs[i as int]));
        i = i + 1;
    }
    assert(subs.take(subtree_terms@.len() as int) =~= subs);
    pad_pair_rows(&mut rows);
    rows
}

/// The padded pair row of a body row.
fn child_pair_row(row: &Vec<ChildSigFp>) -> (r: Vec<(Fe, Fe)>)
    ensures
        row_v(r@) == pad_pairs(child_pairs(row@)),
{
    let mut out: Vec<(Fe, Fe)> = Vec::new();
    let mut i: usize = 0;
    while i < row.len()
        invariant
            i <= row@.len(),
            row_v(out@) == child_pairs(row@).take(i as int),
        decreases row@.len() - i,
    {
        let ghost before = row_v(out@);
        out.push((row[i].name, row[i].arity));
        assert(row_v(out@) =~= before.push(child_pairs(row@)[i as int]));
        assert(child_pairs(row@).take(i + 1) =~= child_pairs(row@).take(i as int).push(child_pairs(row@)[i as int]));
        i = i + 1;
    }
    assert(child_pairs(row@).take(row@.len() as int) =~= child_pairs(row@));
    pad_pair_row(&mut out);
    out
}

/// The table of one candidate clause.
fn clause_sig_rows(p: &PredicateTemplateFp, c: &ClauseTemplateFp) -> (r: Vec<Vec<(Fe, Fe)>>)
    ensures
        rows_v(r@) == clause_rows(*p, *c),
{
    let ghost body = c.children@.map_values(|row: Vec<ChildSigFp>| pad_pairs(child_pairs(row@)));
    let mut head: Vec<(Fe, Fe)> = Vec::new();
    head.push((p.name, p.arity));
    assert(row_v(head@) =~= seq![(p.name@, p.arity@)]);
    pad_pair_row(&mut head);
    let mut rows: Vec<Vec<(Fe, Fe)>> = Vec::new();
    rows.push(head);
    let ghost first = rows_v(rows@);
    assert(first =~= seq![pad_pairs(seq![(p.name@, p.arity@)])]);
    let mut i: usize = 0;
    while i < c.children.len()
        invariant
            i <= c.children@.len(),
            body == c.children@.map_values(|row: Vec<ChildSigFp>| pad_pairs(child_pairs(row@))),
            first == seq![pad_pairs(seq![(p.name@, p.arity@)])],
            rows_v(rows@) == first + body.take(i as int),
        decreases c.children@.len() - i,
    {
        let ghost before = rows_v(rows@);
        let row = child_pair_row(&c.children[i]);
        rows.push(row);
        assert(rows_v(rows@) =~= before.push(body[i as int]));
        assert(body.take(i + 1) =~= body.take(i as int).push(body[i as int]));
        i = i + 1;
    }
    assert(body.take(c.children@.len() as int) =~= body);
    pad_pair_rows(&mut rows);
    rows
}

/// An all-zero candidate table.
fn zero_table() -> (r: Vec<Vec<(Fe, Fe)>>)
    ensures
        rows_v(r@) == Seq::new(MAX_CHILDREN as nat, |j: int| zero_pairs(MAX_CHILDREN as nat)),
{
    let mut rows: Vec<Vec<(Fe, Fe)>> = Vec::new();
    pad_pair_rows(&mut rows);
    assert(rows_v(Seq::<Vec<(Fe, Fe)>>::empty()) =~= Seq::<Seq<(nat, nat)>>::empty());
    assert(Seq::<Seq<(nat, nat)>>::empty() + Seq::new(MAX_CHILDREN as nat, |i: int| zero_pairs(MAX_CHILDREN as nat))
        =~= Seq::new(MAX_CHILDREN as nat, |j: int| zero_pairs(MAX_CHILDREN as nat)));
    rows
}

/// The candidate tables of every clause of every predicate, padded to
/// `MAX_CANDIDATES`.
pub fn candidate_sig_pairs(rules: &[PredicateTemplateFp]) -> (r: Vec<Vec<Vec<(Fe, Fe)>>>)
    ensures
        cands_v(r@) == candidate_rows(rules@),
{
    let mut out: Vec<Vec<Vec<(Fe, Fe)>>> = Vec::new();
    let mut i: usize = 0;
    assert(rules@.take(0) =~= Seq::<PredicateTemplateFp>::empty());
    while i < rules.len()
        invariant
            i <= rules@.len(),
            cands_v(out@) == pred_cands(rules@.take(i as int)),
        decreases rules@.len() - i,
    {
        let p = &rules[i];
        let ghost base = cands_v(out@);
        let ghost tables = p.clauses@.map_values(|c: ClauseTemplateFp| clause_rows(*p, c));
        let mut j: usize = 0;
        while j < p.clauses.len()
            invariant
                j <= p.clauses@.len(),
                tables == p.clauses@.map_values(|c: ClauseTemplateFp| clause_rows(*p, c)),
                cands_v(out@) == base + tables.take(j as int),
            decreases p.clauses@.len() - j,
        {
            let ghost before = cands_v(out@);
            let t = clause_sig_rows(p, &p.clauses[j]);
            out.push(t);
            assert(cands_v(out@) =~= before.push(tables[j as int]));
            assert(tables.take(j + 1) =~= tables.take(j as int).push(tables[j as int]));
            j = j + 1;
        }
        assert(tables.take(p.clauses@.len() as int) =~= tables);
        assert(rules@.take(i + 1).drop_last() =~= rules@.take(i as int));
        assert(rules@.take(i + 1).last() == *p);
        i = i + 1;
    }
    assert(rules@.take(rules@.len() as int) =~= rules@);
    let ghost filled = cands_v(out@);
    let ghost n0 = out@.len();
    while out.len() < MAX_CANDIDATES
        invariant
            n0 <= out@.len(),
            n0 >= MAX_CANDIDATES ==> out@.len() == n0,
            n0 < MAX_CANDIDATES ==> out@.len() <= MAX_CANDIDATES,
            cands_v(out@) == filled + Seq::new(
                (out@.len() - n0) as nat,
                |k: int| Seq::new(MAX_CHILDREN as nat, |j: int| zero_pairs(MAX_CHILDREN as nat)),
            ),
        decreases MAX_CANDIDATES - out@.len(),
    {
        let ghost before = cands_v(out@);
        let z = zero_table();
        out.push(z);
        assert(cands_v(out@) =~= before.push(Seq::new(MAX_CHILDREN as nat, |j: int| zero_pairs(MAX_CHILDREN as nat))));
        assert(Seq::new(
            (out@.len() - n0) as nat,
            |k: int| Seq::new(MAX_CHILDREN as nat, |j: int| zero_pairs(MAX_CHILDREN as nat)),
        ) =~= Seq::new(
            (out@.len() - 1 - n0) as nat,
            |k: int| Seq::new(MAX_CHILDREN as nat, |j: int| zero_pairs(MAX_CHILDREN as nat)),
        ).push(Seq::new(MAX_CHILDREN as nat, |j: int| zero_pairs(MAX_CHILDREN as nat))));
    }
    assert(filled + Seq::new(
        0nat,
        |k: int| Seq::new(MAX_CHILDREN as nat, |j: int| zero_pairs(MAX_CHILDREN as nat)),
    ) =~= filled);
    out
}

/// The signature pairs of the proof (goal and subtree rows) and of every
/// candidate clause, as the rule-finding circuit lays them out.
pub fn bind_proof_and_candidates_sig_pairs(
    goal_terms: &[TermFp],
    subtree_terms: &[Vec<TermFp>],
    rules: &[PredicateTemplateFp],
) -> (r: (Vec<Vec<(Fe, Fe)>>, Vec<Vec<Vec<(Fe, Fe)>>>))
    ensures
        rows_v(r.0@) == proof_rows(goal_terms@, subtree_terms@),
        cands_v(r.1@) == candidate_rows(rules@),
{
    (proof_sig_pairs(goal_terms, subtree_terms), candidate_sig_pairs(rules))
}

} // verus!
