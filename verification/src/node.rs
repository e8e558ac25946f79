//! The decisions of the proof-tree check for one goal: whether it is a fact
//! leaf, which consistency statements must be proved, which clause
//! candidates pass the structural and variable checks, and which subgoals
//! are checked next. Generating the proofs themselves is left to the caller.
use vstd::prelude::*;
use crate::data::{RuleTemplateFile, ClauseTemplate, GoalEntry, ProofNode};
use crate::codec::decimal;
use crate::field::{Fe, fe_from_u64, modulus, minus_one, vals};
use crate::hashing::{str_to_fp, default_hash_of_str, fs_coeffs, fs_coeff_spec};
use crate::predicates::{
    PredicateIdMap, predicate_id, parse_predicate_call, parse_call_spec, call_slices_ok, vars_slices_ok,
    rows_structural_global, compress_rows, compress_sum, pad, pad_vals, dot, dot_vals, rows_equality_global,
    equality_pairs, pair_row_at, total_places, flatten_goal_variables_fp, flatten_spec, str_views,
    clause_has_child, local_universe, in_universe, sorted_strict, witness_subtree_presence, subtree_has,
    indicator,
};
use crate::text::{usize_decimal, string_of, seq_lt, lemma_seq_lt_trans, lemma_seq_lt_irrefl};

verus! {

/// Why a goal is rejected before any proof is generated.
#[derive(Debug, Clone, Copy, PartialEq, Eq)]
pub enum NodeError {
    /// The goal's name and arity have no identifier.
    UnknownPredicate,
    /// A fact goal has subgoals, or its text differs from its clause head.
    FactWithSubgoals,
    /// The goal text is not a predicate call.
    GoalParse,
    /// The clause head text is not a predicate call.
    UnificationGoalParse,
    /// No predicate of the rules has the goal's identifier.
    PredicateNotFound,
    /// The clause body and the subtree differ in length.
    BodySubtreeLength,
    /// A body entry is not a predicate call.
    InvalidBodyCall,
    /// No clause of a matching predicate passes both the structural and the
    /// variable check.
    NoFittingClause,
}

/// The field inputs of a consistency proof between two name/arity pairs:
/// the names through the standard library hasher, the arities as numbers.
#[derive(Debug, Clone, Copy)]
pub struct ConsistencyInputs {
    pub pub_name: Fe,
    pub pub_arity: Fe,
    pub wit_name: Fe,
    pub wit_arity: Fe,
}

/// Whether `c` holds the field inputs for the pairs `(na, aa)` and `(nb, ab)`.
pub open spec fn consistency_for(c: ConsistencyInputs, na: Seq<char>, aa: nat, nb: Seq<char>, ab: nat) -> bool {
    &&& c.pub_name@ == default_hash_of_str(na) as nat % modulus()
    &&& c.pub_arity@ == aa % modulus()
    &&& c.wit_name@ == default_hash_of_str(nb) as nat % modulus()
    &&& c.wit_arity@ == ab % modulus()
}

/// The field inputs of a consistency proof between `(name_a, arity_a)` and
/// `(name_b, arity_b)`.
pub fn consistency_inputs(name_a: &str, arity_a: usize, name_b: &str, arity_b: usize) -> (r: ConsistencyInputs)
    ensures
        consistency_for(r, name_a@, arity_a as nat, name_b@, arity_b as nat),
{
    ConsistencyInputs {
        pub_name: str_to_fp(name_a),
        pub_arity: fe_from_u64(arity_a as u64),
        wit_name: str_to_fp(name_b),
        wit_arity: fe_from_u64(arity_b as u64),
    }
}

/// The identifier of the goal's name and arity (0 when it has none).
pub open spec fn goal_id_spec(goal: GoalEntry, ids: Map<(Seq<char>, usize), i64>) -> i64 {
    let k = (goal.goal_term.name@, goal.goal_term.args@.len() as usize);
    if ids.contains_key(k) {
        ids[k]
    } else {
        0
    }
}

/// The identifier of a key in a table (0 when it has none).
pub open spec fn id_of(ids: Map<(Seq<char>, usize), i64>, name: Seq<char>, arity: usize) -> i64 {
    if ids.contains_key((name, arity)) {
        ids[(name, arity)]
    } else {
        0
    }
}

/// Whether some fact of the rules has the identifier `gid`.
pub open spec fn is_fact_spec(rules: RuleTemplateFile, ids: Map<(Seq<char>, usize), i64>, gid: i64) -> bool {
    exists|f: int| 0 <= f < rules.facts@.len() && id_of(ids, (#[trigger] rules.facts@[f]).name@, rules.facts@[f].arity) == gid
}

/// Whether a fact goal is malformed: some subtree entry is a goal node, or
/// the goal text differs from the clause head text.
pub open spec fn fact_malformed(goal: GoalEntry) -> bool {
    ||| exists|i: int| 0 <= i < goal.subtree@.len() && (#[trigger] goal.subtree@[i]) is GoalNode
    ||| goal.goal@ != goal.goal_unification.goal@
}

/// Whether the goal is a fact leaf: `Ok(true)` for a well-formed fact,
/// `Ok(false)` for a goal that no fact has the identifier of, an error for
/// a malformed fact.
pub fn is_fact_leaf(rules: &RuleTemplateFile, goal_id: i64, goal: &GoalEntry, id_map: &PredicateIdMap) -> (r: Result<bool, NodeError>)
    ensures
        r == (if is_fact_spec(*rules, id_map@, goal_id) {
            if fact_malformed(*goal) {
                Err(NodeError::FactWithSubgoals)
            } else {
                Ok(true)
            }
        } else {
            Ok(false)
        }),
{
    let mut is_fact = false;
    let mut f: usize = 0;
    while f < rules.facts.len()
        invariant
            f <= rules.facts@.len(),
            is_fact == exists|f2: int| 0 <= f2 < f && id_of(id_map@, (#[trigger] rules.facts@[f2]).name@, rules.facts@[f2].arity) == goal_id,
        decreases rules.facts@.len() - f,
    {
        let fact = &rules.facts[f];
        if predicate_id(fact.name.as_str(), fact.arity, id_map) == goal_id {
            is_fact = true;
        }
        f = f + 1;
    }
    if !is_fact {
        return Ok(false);
    }
    if goal.goal != goal.goal_unification.goal {
        return Err(NodeError::FactWithSubgoals);
    }
    let mut i: usize = 0;
    while i < goal.subtree.len()
        invariant
            i <= goal.subtree@.len(),
            goal.goal@ == goal.goal_unification.goal@,
            is_fact_spec(*rules, id_map@, goal_id),
            forall|k: int| 0 <= k < i ==> !((#[trigger] goal.subtree@[k]) is GoalNode),
        decreases goal.subtree@.len() - i,
    {
        let bad = match &goal.subtree[i] {
            ProofNode::GoalNode(_) => true,
            ProofNode::True(_) => false,
        };
        if bad {
            assert(goal.subtree@[i as int] is GoalNode);
            return Err(NodeError::FactWithSubgoals);
        }
        i = i + 1;
    }
    Ok(true)
}

/// The consistency inputs that tie the goal text to its parsed term and to
/// its clause head: `(goal name/arity, term name/arity)` and `(goal
/// name/arity, head name/arity)`, or the parse error that comes first.
pub open spec fn syntax_spec_ok(goal: GoalEntry, v: Seq<ConsistencyInputs>) -> bool {
    match (parse_call_spec(goal.goal@), parse_call_spec(goal.goal_unification.goal@)) {
        (Some((gn, ga)), Some((un, ua))) => {
            &&& v.len() == 2
            &&& consistency_for(v[0], gn, ga, goal.goal_term.name@, goal.goal_term.args@.len())
            &&& consistency_for(v[1], gn, ga, un, ua)
        },
        _ => false,
    }
}

/// The inputs of the two syntax consistency proofs of a goal.
pub fn syntax_consistency_inputs(goal: &GoalEntry) -> (r: Result<Vec<ConsistencyInputs>, NodeError>)
    requires
        call_slices_ok(goal.goal@),
        call_slices_ok(goal.goal_unification.goal@),
    ensures
        parse_call_spec(goal.goal@) is None ==> r == Err::<Vec<ConsistencyInputs>, NodeError>(NodeError::GoalParse),
        parse_call_spec(goal.goal@) is Some && parse_call_spec(goal.goal_unification.goal@) is None
            ==> r == Err::<Vec<ConsistencyInputs>, NodeError>(NodeError::UnificationGoalParse),
        parse_call_spec(goal.goal@) is Some && parse_call_spec(goal.goal_unification.goal@) is Some
            ==> (r matches Ok(v) && syntax_spec_ok(*goal, v@)),
{
    let (gn, ga) = match parse_predicate_call(goal.goal.as_str()) {
        Some(x) => x,
        None => {
            return Err(NodeError::GoalParse);
        },
    };
    let (un, ua) = match parse_predicate_call(goal.goal_unification.goal.as_str()) {
        Some(x) => x,
        None => {
            return Err(NodeError::UnificationGoalParse);
        },
    };
    let mut v: Vec<ConsistencyInputs> = Vec::new();
    v.push(consistency_inputs(gn.as_str(), ga, goal.goal_term.name.as_str(), goal.goal_term.args.len()));
    v.push(consistency_inputs(gn.as_str(), ga, un.as_str(), ua));
    Ok(v)
}

/// The positions of the predicates whose identifier is `gid`, in order.
pub open spec fn is_match(rules: RuleTemplateFile, ids: Map<(Seq<char>, usize), i64>, gid: i64, a: int) -> bool {
    id_of(ids, rules.predicates@[a].name@, rules.predicates@[a].arity) == gid
}

/// Whether `v` lists, in increasing order, exactly the positions `a` of
/// predicates with identifier `gid`.
pub open spec fn matches_spec(rules: RuleTemplateFile, ids: Map<(Seq<char>, usize), i64>, gid: i64, v: Seq<usize>) -> bool {
    &&& forall|k: int| 0 <= k < v.len() ==> (#[trigger] v[k]) < rules.predicates@.len() && is_match(rules, ids, gid, v[k] as int)
    &&& forall|k: int, l: int| 0 <= k < l < v.len() ==> (#[trigger] v[k]) < (#[trigger] v[l])
    &&& forall|a: int| 0 <= a < rules.predicates@.len() && is_match(rules, ids, gid, a) ==> (#[trigger] v.contains(a as usize))
}

/// The positions of the predicates that the goal may be an instance of:
/// those with the goal's identifier; an error when there is none.
pub fn find_predicate_matches(goal: &GoalEntry, rules: &RuleTemplateFile, id_map: &PredicateIdMap) -> (r: Result<Vec<usize>, NodeError>)
    ensures
        match r {
            Ok(v) => v@.len() > 0 && matches_spec(*rules, id_map@, goal_id_spec(*goal, id_map@), v@),
            Err(e) => e == NodeError::PredicateNotFound && forall|a: int| 0 <= a < rules.predicates@.len()
                ==> !is_match(*rules, id_map@, goal_id_spec(*goal, id_map@), a),
        },
{
    let gid = predicate_id(goal.goal_term.name.as_str(), goal.goal_term.args.len(), id_map);
    let mut v: Vec<usize> = Vec::new();
    let mut a: usize = 0;
    while a < rules.predicates.len()
        invariant
            a <= rules.predicates@.len(),
            gid == goal_id_spec(*goal, id_map@),
            forall|k: int| 0 <= k < v@.len() ==> (#[trigger] v@[k]) < a && is_match(*rules, id_map@, gid, v@[k] as int),
            forall|k: int, l: int| 0 <= k < l < v@.len() ==> (#[trigger] v@[k]) < (#[trigger] v@[l]),
            forall|a2: int| 0 <= a2 < a && is_match(*rules, id_map@, gid, a2) ==> (#[trigger] v@.contains(a2 as usize)),
        decreases rules.predicates@.len() - a,
    {
        let p = &rules.predicates[a];
        if predicate_id(p.name.as_str(), p.arity, id_map) == gid {
            let ghost old_v = v@;
            v.push(a);
            assert forall|a2: int| 0 <= a2 < a + 1 && is_match(*rules, id_map@, gid, a2) implies (#[trigger] v@.contains(a2 as usize)) by {
                if a2 < a {
                    assert(old_v.contains(a2 as usize));
                    let k = choose|k: int| 0 <= k < old_v.len() && old_v[k] == a2 as usize;
                    assert(v@[k] == a2 as usize);
                } else {
                    assert(v@[old_v.len() as int] == a2 as usize);
                }
            }
        }
        a = a + 1;
    }
    if v.len() == 0 {
        assert forall|a2: int| 0 <= a2 < rules.predicates@.len() implies !is_match(*rules, id_map@, gid, a2) by {
            if is_match(*rules, id_map@, gid, a2) {
                assert(v@.contains(a2 as usize));
            }
        }
        return Err(NodeError::PredicateNotFound);
    }
    Ok(v)
}

/// Checks that the clause body and the subtree have as many entries.
pub fn validate_body_subtree_lengths(goal: &GoalEntry) -> (r: Result<(), NodeError>)
    ensures
        r == (if goal.goal_unification.body@.len() == goal.subtree@.len() {
            Ok::<(), NodeError>(())
        } else {
            Err(NodeError::BodySubtreeLength)
        }),
{
    if goal.goal_unification.body.len() != goal.subtree.len() {
        return Err(NodeError::BodySubtreeLength);
    }
    Ok(())
}

/// The positions of the body entries that are strings.
pub open spec fn string_positions(b: Seq<Option<String>>) -> Seq<int>
    decreases b.len(),
{
    if b.len() == 0 {
        Seq::empty()
    } else {
        let r = string_positions(b.drop_last());
        if b.last() is Some {
            r.push(b.len() - 1)
        } else {
            r
        }
    }
}

/// The positions of the subtree entries that are goal nodes.
pub open spec fn goal_positions(t: Seq<ProofNode>) -> Seq<int>
    decreases t.len(),
{
    if t.len() == 0 {
        Seq::empty()
    } else {
        let r = goal_positions(t.drop_last());
        if t.last() is GoalNode {
            r.push(t.len() - 1)
        } else {
            r
        }
    }
}

pub(crate) proof fn lemma_string_positions(b: Seq<Option<String>>)
    ensures
        forall|k: int| 0 <= k < string_positions(b).len() ==> 0 <= (#[trigger] string_positions(b)[k]) < b.len()
            && b[string_positions(b)[k]] is Some,
        string_positions(b).len() <= b.len(),
    decreases b.len(),
{
    if b.len() > 0 {
        lemma_string_positions(b.drop_last());
    }
}

proof fn lemma_goal_positions(t: Seq<ProofNode>)
    ensures
        forall|k: int| 0 <= k < goal_positions(t).len() ==> 0 <= (#[trigger] goal_positions(t)[k]) < t.len()
            && t[goal_positions(t)[k]] is GoalNode,
        goal_positions(t).len() <= t.len(),
    decreases t.len(),
{
    if t.len() > 0 {
        lemma_goal_positions(t.drop_last());
    }
}

/// The positions of the string entries of a clause body.
pub fn body_string_positions(b: &Vec<Option<String>>) -> (r: Vec<usize>)
    ensures
        r@.len() == string_positions(b@).len(),
        forall|k: int| 0 <= k < r@.len() ==> (#[trigger] r@[k]) as int == string_positions(b@)[k],
{
    let mut r: Vec<usize> = Vec::new();
    let mut i: usize = 0;
    while i < b.len()
        invariant
            i <= b@.len(),
            r@.len() == string_positions(b@.take(i as int)).len(),
            forall|k: int| 0 <= k < r@.len() ==> (#[trigger] r@[k]) as int == string_positions(b@.take(i as int))[k],
        decreases b@.len() - i,
    {
        assert(b@.take(i + 1).drop_last() =~= b@.take(i as int));
        if b[i].is_some() {
            r.push(i);
        }
        i = i + 1;
    }
    assert(b@.take(b@.len() as int) =~= b@);
    r
}

/// The positions of the goal nodes of a subtree.
pub fn subtree_goal_positions(t: &Vec<ProofNode>) -> (r: Vec<usize>)
    ensures
        r@.len() == goal_positions(t@).len(),
        forall|k: int| 0 <= k < r@.len() ==> (#[trigger] r@[k]) as int == goal_positions(t@)[k],
{
    let mut r: Vec<usize> = Vec::new();
    let mut i: usize = 0;
    while i < t.len()
        invariant
            i <= t@.len(),
            r@.len() == goal_positions(t@.take(i as int)).len(),
            forall|k: int| 0 <= k < r@.len() ==> (#[trigger] r@[k]) as int == goal_positions(t@.take(i as int))[k],
        decreases t@.len() - i,
    {
        assert(t@.take(i + 1).drop_last() =~= t@.take(i as int));
        let is_goal = match &t[i] {
            ProofNode::GoalNode(_) => true,
            ProofNode::True(_) => false,
        };
        if is_goal {
            r.push(i);
        }
        i = i + 1;
    }
    assert(t@.take(t@.len() as int) =~= t@);
    r
}

/// The `k`-th string of a clause body.
pub open spec fn body_string(goal: GoalEntry, k: int) -> Seq<char> {
    goal.goal_unification.body@[string_positions(goal.goal_unification.body@)[k]]->Some_0@
}

/// The `k`-th goal node of a subtree.
pub open spec fn sub_goal(goal: GoalEntry, k: int) -> GoalEntry {
    goal.subtree@[goal_positions(goal.subtree@)[k]]->GoalNode_0
}

/// How many body strings are paired with subgoals.
pub open spec fn paired_count(goal: GoalEntry) -> nat {
    let a = string_positions(goal.goal_unification.body@).len();
    let b = goal_positions(goal.subtree@).len();
    if a < b {
        a
    } else {
        b
    }
}

/// Whether the body strings paired with subgoals all parse as calls.
pub open spec fn body_calls_parse(goal: GoalEntry) -> bool {
    forall|k: int| 0 <= k < paired_count(goal) ==> (#[trigger] parse_call_spec(body_string(goal, k))) is Some
}

/// Whether `v` holds the consistency inputs tying each paired body call to
/// its subgoal's term.
pub open spec fn body_pairs_ok(goal: GoalEntry, v: Seq<ConsistencyInputs>) -> bool {
    &&& v.len() == paired_count(goal)
    &&& forall|k: int| 0 <= k < v.len() ==> {
        let (bn, ba) = parse_call_spec(body_string(goal, k))->Some_0;
        consistency_for(#[trigger] v[k], bn, ba, sub_goal(goal, k).goal_term.name@, sub_goal(goal, k).goal_term.args@.len())
    }
}

/// The inputs of the consistency proofs between the `k`-th string of the
/// clause body and the term of the `k`-th subgoal, for as many pairs as both
/// lists have.
pub fn body_subtree_consistency_inputs(goal: &GoalEntry) -> (r: Result<Vec<ConsistencyInputs>, NodeError>)
    requires
        forall|k: int| 0 <= k < string_positions(goal.goal_unification.body@).len() ==> call_slices_ok(#[trigger] body_string(*goal, k)),
    ensures
        match r {
            Ok(v) => body_calls_parse(*goal) && body_pairs_ok(*goal, v@),
            Err(e) => e == NodeError::InvalidBodyCall && !body_calls_parse(*goal),
        },
{
    let bp = body_string_positions(&goal.goal_unification.body);
    let gp = subtree_goal_positions(&goal.subtree);
    proof {
        lemma_string_positions(goal.goal_unification.body@);
        lemma_goal_positions(goal.subtree@);
    }
    let n = if bp.len() < gp.len() { bp.len() } else { gp.len() };
    let mut v: Vec<ConsistencyInputs> = Vec::new();
    let mut k: usize = 0;
    while k < n
        invariant
            n == paired_count(*goal),
            n <= bp@.len(),
            n <= gp@.len(),
            bp@.len() == string_positions(goal.goal_unification.body@).len(),
            forall|m: int| 0 <= m < bp@.len() ==> (#[trigger] bp@[m]) as int == string_positions(goal.goal_unification.body@)[m],
            gp@.len() == goal_positions(goal.subtree@).len(),
            forall|m: int| 0 <= m < gp@.len() ==> (#[trigger] gp@[m]) as int == goal_positions(goal.subtree@)[m],
            forall|m: int| 0 <= m < string_positions(goal.goal_unification.body@).len() ==> 0 <= (#[trigger] string_positions(goal.goal_unification.body@)[m]) < goal.goal_unification.body@.len()
                && goal.goal_unification.body@[string_positions(goal.goal_unification.body@)[m]] is Some,
            forall|m: int| 0 <= m < goal_positions(goal.subtree@).len() ==> 0 <= (#[trigger] goal_positions(goal.subtree@)[m]) < goal.subtree@.len()
                && goal.subtree@[goal_positions(goal.subtree@)[m]] is GoalNode,
            forall|m: int| 0 <= m < string_positions(goal.goal_unification.body@).len() ==> call_slices_ok(#[trigger] body_string(*goal, m)),
            k <= n,
            v@.len() == k,
            forall|m: int| 0 <= m < k ==> (#[trigger] parse_call_spec(body_string(*goal, m))) is Some,
            forall|m: int| 0 <= m < k ==> {
                let (bn, ba) = parse_call_spec(body_string(*goal, m))->Some_0;
                consistency_for(#[trigger] v@[m], bn, ba, sub_goal(*goal, m).goal_term.name@, sub_goal(*goal, m).goal_term.args@.len())
            },
        decreases n - k,
    {
        let bi = bp[k];
        let gi = gp[k];
        let b_str = match &goal.goal_unification.body[bi] {
            Some(s) => s,
            None => {
                return Err(NodeError::InvalidBodyCall);
            },
        };
        let g = match &goal.subtree[gi] {
            ProofNode::GoalNode(g) => g,
            ProofNode::True(_) => {
                return Err(NodeError::InvalidBodyCall);
            },
        };
        assert(b_str@ == body_string(*goal, k as int));
        assert(*g == sub_goal(*goal, k as int));
        match parse_predicate_call(b_str.as_str()) {
            Some((bn, ba)) => {
                v.push(consistency_inputs(bn.as_str(), ba, g.goal_term.name.as_str(), g.goal_term.args.len()));
            },
            None => {
                return Err(NodeError::InvalidBodyCall);
            },
        }
        k = k + 1;
    }
    Ok(v)
}

/// The seed of the structural coefficients of a clause candidate:
/// `dotcheck:<predicate>:<goal>:<goal name>:<depth>`.
pub open spec fn dotcheck_seed(pred_name: Seq<char>, goal: GoalEntry, depth: usize) -> Seq<char> {
    seq!['d', 'o', 't', 'c', 'h', 'e', 'c', 'k', ':'] + pred_name + seq![':'] + goal.goal@ + seq![':']
        + goal.goal_term.name@ + seq![':'] + decimal(depth as nat)
}

/// Entry `j` of structural row `i` over the universe `u`.
pub open spec fn structural_entry(c: ClauseTemplate, u: Seq<Seq<char>>, i: int, j: int) -> nat {
    if j == i {
        1
    } else if j == u.len() && clause_has_child(c, u[i]) {
        minus_one()
    } else {
        0
    }
}

/// `sum_{i < k} coeff_i * row_i[j]` over the structural rows.
pub open spec fn structural_sum(c: ClauseTemplate, u: Seq<Seq<char>>, seed: Seq<char>, j: int, k: int) -> int
    decreases k,
{
    if k <= 0 {
        0
    } else {
        structural_sum(c, u, seed, j, k - 1) + fs_coeff_spec(seed, (k - 1) as usize) * structural_entry(c, u, k - 1, j)
    }
}

/// The compressed structural vector of a clause.
pub open spec fn structural_c(c: ClauseTemplate, u: Seq<Seq<char>>, seed: Seq<char>) -> Seq<nat> {
    Seq::new(u.len() + 1, |j: int| (structural_sum(c, u, seed, j, u.len() as int) % modulus() as int) as nat)
}

/// Whether the compressed structural vector has the length of the witness
/// and a zero dot product with it once both are padded.
pub open spec fn structural_pass(c: ClauseTemplate, u: Seq<Seq<char>>, seed: Seq<char>, w: Seq<nat>) -> bool {
    &&& structural_c(c, u, seed).len() == w.len()
    &&& dot_vals(pad_vals(structural_c(c, u, seed)), pad_vals(w)) % modulus() as int == 0
}

/// The values of the `k`-th equality row of a clause.
pub open spec fn eq_row_vals(c: ClauseTemplate, h: nat, k: int) -> Seq<nat> {
    Seq::new((total_places(c, h) + 1) as nat, |j: int| pair_row_at(equality_pairs(c, h)[k], j))
}

/// The string entries of a goal's clause body.
pub open spec fn goal_body_strings(goal: GoalEntry) -> Seq<Seq<char>> {
    Seq::new(string_positions(goal.goal_unification.body@).len(), |k: int| body_string(goal, k))
}

/// The flattened variables of a goal: its term's arguments, then the
/// arguments of each call of its clause body.
pub open spec fn goal_variables(goal: GoalEntry) -> Seq<Seq<char>> {
    flatten_spec(str_views(goal.goal_term.args@), goal_body_strings(goal))
}

/// The variable witness of a goal: the hashed variables and a constant 1.
pub open spec fn var_vals(goal: GoalEntry) -> Seq<nat> {
    let fl = goal_variables(goal);
    Seq::new(fl.len() + 1, |i: int| if i < fl.len() {
        default_hash_of_str(fl[i]) as nat % modulus()
    } else {
        1
    })
}

/// Whether every equality row has the length of the variable witness and a
/// zero dot product with it once both are padded.
pub open spec fn variables_pass_spec(c: ClauseTemplate, h: nat, goal: GoalEntry) -> bool {
    forall|k: int| 0 <= k < equality_pairs(c, h).len() ==> {
        &&& (#[trigger] eq_row_vals(c, h, k)).len() == var_vals(goal).len()
        &&& dot_vals(pad_vals(eq_row_vals(c, h, k)), pad_vals(var_vals(goal))) % modulus() as int == 0
    }
}

/// A clause that passed the structural check, with the vectors of the proofs
/// it still needs: the structural dot product (expected 1 in the circuit's
/// sense of a satisfied constant column) and one variable dot product per
/// equality row.
#[derive(Debug, Clone)]
pub struct ClauseCheck {
    pub predicate: usize,
    pub clause: usize,
    pub c_pad: Vec<Fe>,
    pub w_pad: Vec<Fe>,
    pub variable_rows: Vec<Vec<Fe>>,
    pub w_vars: Vec<Fe>,
    pub variables_pass: bool,
}

/// Whether `cc` holds the vectors of its clause for the goal.
pub open spec fn clause_check_ok(cc: ClauseCheck, rules: RuleTemplateFile, goal: GoalEntry, u: Seq<Seq<char>>, w: Seq<nat>, depth: usize) -> bool {
    &&& cc.predicate < rules.predicates@.len()
    &&& cc.clause < rules.predicates@[cc.predicate as int].clauses@.len()
    &&& {
        let p = rules.predicates@[cc.predicate as int];
        let c = p.clauses@[cc.clause as int];
        let seed = dotcheck_seed(p.name@, goal, depth);
        let h = goal.goal_term.args@.len();
        &&& structural_pass(c, u, seed, w)
        &&& vals(cc.c_pad@) == pad_vals(structural_c(c, u, seed))
        &&& vals(cc.w_pad@) == pad_vals(w)
        &&& cc.variable_rows@.len() == equality_pairs(c, h).len()
        &&& forall|k: int| 0 <= k < cc.variable_rows@.len() ==> vals((#[trigger] cc.variable_rows@[k])@) == pad_vals(eq_row_vals(c, h, k))
        &&& vals(cc.w_vars@) == pad_vals(var_vals(goal))
        &&& cc.variables_pass == variables_pass_spec(c, h, goal)
    }
}

/// Whether the clauses of the listed predicates can be checked without
/// leaving the arithmetic and text limits of the computation: a non-empty
/// universe when there is a clause, place counts below `usize::MAX`, and
/// body calls whose parentheses are in order.
pub open spec fn candidates_defined(rules: RuleTemplateFile, goal: GoalEntry, matches: Seq<usize>, u: Seq<Seq<char>>) -> bool {
    &&& forall|m: int| 0 <= m < matches.len() ==> (#[trigger] matches[m]) < rules.predicates@.len()
    &&& forall|m: int, b: int| 0 <= m < matches.len() && 0 <= b < rules.predicates@[matches[m] as int].clauses@.len()
        ==> clause_in_limits(#[trigger] rules.predicates@[matches[m] as int].clauses@[b], goal, u)
    &&& forall|k: int| 0 <= k < string_positions(goal.goal_unification.body@).len() ==> vars_slices_ok(#[trigger] body_string(goal, k))
}

/// Whether a clause can be checked: a non-empty universe and fewer than
/// `usize::MAX` argument places.
pub open spec fn clause_in_limits(c: ClauseTemplate, goal: GoalEntry, u: Seq<Seq<char>>) -> bool {
    &&& u.len() > 0
    &&& total_places(c, goal.goal_term.args@.len()) < usize::MAX
}

proof fn lemma_structural_sum(rows: Seq<Vec<Fe>>, r: Seq<Fe>, c: ClauseTemplate, u: Seq<Seq<char>>, seed: Seq<char>, j: int, k: int)
    requires
        0 <= k <= rows.len(),
        k <= r.len(),
        forall|i: int| 0 <= i < k ==> (#[trigger] r[i])@ == fs_coeff_spec(seed, i as usize),
        forall|i: int| 0 <= i < k ==> (#[trigger] rows[i])@[j]@ == structural_entry(c, u, i, j),
    ensures
        compress_sum(rows, r, j, k) == structural_sum(c, u, seed, j, k),
    decreases k,
{
    if k > 0 {
        lemma_structural_sum(rows, r, c, u, seed, j, k - 1);
        assert(r[k - 1]@ == fs_coeff_spec(seed, (k - 1) as usize));
        assert(rows[k - 1]@[j]@ == structural_entry(c, u, k - 1, j));
    }
}

/// The seed of a clause candidate's coefficients.
fn dotcheck_seed_exec(pred_name: &String, goal: &GoalEntry, depth: usize) -> (r: String)
    ensures
        r@ == dotcheck_seed(pred_name@, *goal, depth),
{
    let mut v: Vec<char> = Vec::new();
    v.push('d');
    v.push('o');
    v.push('t');
    v.push('c');
    v.push('h');
    v.push('e');
    v.push('c');
    v.push('k');
    v.push(':');
    let ghost s0 = v@;
    assert(s0 =~= seq!['d', 'o', 't', 'c', 'h', 'e', 'c', 'k', ':']);
    append_str(&mut v, pred_name.as_str());
    v.push(':');
    append_str(&mut v, goal.goal.as_str());
    v.push(':');
    append_str(&mut v, goal.goal_term.name.as_str());
    v.push(':');
    let d = usize_decimal(depth);
    let mut i: usize = 0;
    let ghost before = v@;
    while i < d.len()
        invariant
            i <= d@.len(),
            v@ == before + d@.take(i as int),
        decreases d@.len() - i,
    {
        v.push(d[i]);
        assert(v@ =~= before + d@.take(i + 1));
        i = i + 1;
    }
    assert(d@.take(d@.len() as int) =~= d@);
    assert(v@ =~= dotcheck_seed(pred_name@, *goal, depth));
    string_of(&v)
}

/// Appends the characters of `s`.
fn append_str(v: &mut Vec<char>, s: &str)
    ensures
        final(v)@ == old(v)@ + s@,
{
    let c = crate::text::chars_of(s);
    let mut i: usize = 0;
    while i < c.len()
        invariant
            i <= c@.len(),
            c@ == s@,
            v@ == old(v)@ + c@.take(i as int),
        decreases c@.len() - i,
    {
        v.push(c[i]);
        assert(v@ =~= old(v)@ + c@.take(i + 1));
        i = i + 1;
    }
    assert(c@.take(c@.len() as int) =~= c@);
}

/// The string entries of a goal's clause body, as strings.
fn body_strings_exec(goal: &GoalEntry) -> (r: Vec<String>)
    ensures
        str_views(r@) == goal_body_strings(*goal),
{
    let bp = body_string_positions(&goal.goal_unification.body);
    proof {
        lemma_string_positions(goal.goal_unification.body@);
    }
    let mut out: Vec<String> = Vec::new();
    let mut k: usize = 0;
    while k < bp.len()
        invariant
            bp@.len() == string_positions(goal.goal_unification.body@).len(),
            forall|m: int| 0 <= m < bp@.len() ==> (#[trigger] bp@[m]) as int == string_positions(goal.goal_unification.body@)[m],
            forall|m: int| 0 <= m < string_positions(goal.goal_unification.body@).len() ==> 0 <= (#[trigger] string_positions(goal.goal_unification.body@)[m]) < goal.goal_unification.body@.len()
                && goal.goal_unification.body@[string_positions(goal.goal_unification.body@)[m]] is Some,
            k <= bp@.len(),
            out@.len() == k,
            forall|m: int| 0 <= m < k ==> (#[trigger] out@[m])@ == body_string(*goal, m),
        decreases bp@.len() - k,
    {
        match &goal.goal_unification.body[bp[k]] {
            Some(st) => {
                out.push(st.clone());
            },
            None => {
                out.push(String::new());
            },
        }
        k = k + 1;
    }
    assert(str_views(out@) =~= goal_body_strings(*goal));
    out
}

/// Whether `r` is the list of clause checks for the listed predicates:
/// each entry is correct for its clause and belongs to a listed predicate,
/// the entries come in the order of predicates and clauses, and every
/// clause that passes the structural check has an entry.
pub open spec fn candidates_ok(
    rules: RuleTemplateFile,
    goal: GoalEntry,
    pred_matches: Seq<usize>,
    u: Seq<Seq<char>>,
    w: Seq<nat>,
    depth: usize,
    r: Seq<ClauseCheck>,
) -> bool {
    &&& forall|k: int| 0 <= k < r.len() ==> clause_check_ok(#[trigger] r[k], rules, goal, u, w, depth)
    &&& forall|k: int| 0 <= k < r.len() ==> pred_matches.contains(#[trigger] r[k].predicate)
    &&& forall|k: int, l: int| 0 <= k < l < r.len() ==> (#[trigger] r[k]).predicate < (#[trigger] r[l]).predicate
        || (r[k].predicate == r[l].predicate && r[k].clause < r[l].clause)
    &&& forall|m: int, b: int| 0 <= m < pred_matches.len() && 0 <= b < rules.predicates@[pred_matches[m] as int].clauses@.len()
        && structural_pass(
            #[trigger] rules.predicates@[pred_matches[m] as int].clauses@[b],
            u,
            dotcheck_seed(rules.predicates@[pred_matches[m] as int].name@, goal, depth),
            w,
        ) ==> listed(r, pred_matches[m], b)
}

/// Whether `out` has a check for clause `b` of predicate `a`.
pub open spec fn listed(out: Seq<ClauseCheck>, a: usize, b: int) -> bool {
    exists|k: int| 0 <= k < out.len() && (#[trigger] out[k]).predicate == a && out[k].clause == b
}

/// The check of one clause: `Some` with its vectors when it passes the
/// structural check, `None` otherwise.
fn check_clause(
    a: usize,
    b: usize,
    goal: &GoalEntry,
    rules: &RuleTemplateFile,
    universe: &Vec<String>,
    w_vec: &Vec<Fe>,
    bodies: &Vec<String>,
    depth: usize,
) -> (r: Option<ClauseCheck>)
    requires
        a < rules.predicates@.len(),
        b < rules.predicates@[a as int].clauses@.len(),
        universe@.len() > 0,
        total_places(rules.predicates@[a as int].clauses@[b as int], goal.goal_term.args@.len()) < usize::MAX,
        forall|k: int| 0 <= k < string_positions(goal.goal_unification.body@).len() ==> vars_slices_ok(#[trigger] body_string(*goal, k)),
        str_views(bodies@) == goal_body_strings(*goal),
    ensures
        match r {
            Some(cc) => cc.predicate == a && cc.clause == b
                && clause_check_ok(cc, *rules, *goal, str_views(universe@), vals(w_vec@), depth),
            None => !structural_pass(
                rules.predicates@[a as int].clauses@[b as int],
                str_views(universe@),
                dotcheck_seed(rules.predicates@[a as int].name@, *goal, depth),
                vals(w_vec@),
            ),
        },
{
    let ghost u = str_views(universe@);
    let h = goal.goal_term.args.len();
    let p = &rules.predicates[a];
    let clause = &p.clauses[b];
    let seed = dotcheck_seed_exec(&p.name, goal, depth);
    let rows = rows_structural_global(clause, universe);
    let r = fs_coeffs(seed.as_str(), rows.len());
    let c_vec = compress_rows(&rows, &r);
    proof {
        assert forall|j: int| 0 <= j < c_vec@.len() implies (#[trigger] c_vec@[j])@ == structural_c(*clause, u, seed@)[j] by {
            assert forall|i: int| 0 <= i < rows@.len() implies (#[trigger] rows@[i])@[j]@ == structural_entry(*clause, u, i, j) by {
                assert(rows@[i]@[j]@ == (if j == i {
                    1
                } else if j == universe@.len() && clause_has_child(*clause, universe@[i]@) {
                    minus_one()
                } else {
                    0
                }));
            }
            lemma_structural_sum(rows@, r@, *clause, u, seed@, j, rows@.len() as int);
        }
        assert(vals(c_vec@) =~= structural_c(*clause, u, seed@));
    }
    if c_vec.len() != w_vec.len() {
        return None;
    }
    let c_pad = pad(c_vec);
    let w_pad = pad(copy_fes(w_vec));
    let d = dot(&c_pad, &w_pad);
    if !d.is_zero() {
        return None;
    }
    let var_rows = rows_equality_global(clause, h);
    let args_s = goal.goal_term.args.as_slice();
    let bodies_s = bodies.as_slice();
    proof {
        assert(bodies_s@ == bodies@);
        assert(str_views(bodies@).len() == bodies@.len());
        assert forall|i: int| 0 <= i < bodies_s@.len() implies vars_slices_ok((#[trigger] bodies_s@[i])@) by {
            assert(str_views(bodies@)[i] == bodies@[i]@);
            assert(goal_body_strings(*goal)[i] == body_string(*goal, i));
        }
    }
    let wv = flatten_goal_variables_fp(args_s, bodies_s);
    proof {
        assert(args_s@ == goal.goal_term.args@);
        assert(bodies_s@ == bodies@);
        assert(vals(wv@) =~= var_vals(*goal));
    }
    let w_vars = pad(copy_fes(&wv));
    let mut variable_rows: Vec<Vec<Fe>> = Vec::new();
    let mut pass = true;
    let mut k: usize = 0;
    while k < var_rows.len()
        invariant
            k <= var_rows@.len(),
            var_rows@.len() == equality_pairs(*clause, h as nat).len(),
            forall|k2: int| 0 <= k2 < var_rows@.len() ==> vals((#[trigger] var_rows@[k2])@) == eq_row_vals(*clause, h as nat, k2),
            vals(wv@) == var_vals(*goal),
            vals(w_vars@) == pad_vals(var_vals(*goal)),
            variable_rows@.len() == k,
            forall|k2: int| 0 <= k2 < k ==> vals((#[trigger] variable_rows@[k2])@) == pad_vals(eq_row_vals(*clause, h as nat, k2)),
            pass == forall|k2: int| 0 <= k2 < k ==> {
                &&& (#[trigger] eq_row_vals(*clause, h as nat, k2)).len() == var_vals(*goal).len()
                &&& dot_vals(pad_vals(eq_row_vals(*clause, h as nat, k2)), pad_vals(var_vals(*goal))) % modulus() as int == 0
            },
        decreases var_rows@.len() - k,
    {
        let vr = &var_rows[k];
        let len_ok = vr.len() == wv.len();
        let vp = pad(copy_fes(vr));
        let dv = dot(&vp, &w_vars);
        let ok = len_ok && dv.is_zero();
        if !ok {
            pass = false;
        }
        variable_rows.push(vp);
        k = k + 1;
    }
    Some(ClauseCheck { predicate: a, clause: b, c_pad, w_pad, variable_rows, w_vars, variables_pass: pass })
}

/// The candidates among the clauses of the listed predicates: for each
/// clause in order, the structural rows over the universe are combined with
/// coefficients seeded by the predicate, the goal and the depth; the clause
/// is kept when the padded result has a zero dot product with the padded
/// presence witness, and comes with its padded equality rows and variable
/// witness.
pub fn dot_clause_candidates(
    pred_matches: &Vec<usize>,
    goal: &GoalEntry,
    rules: &RuleTemplateFile,
    universe: &Vec<String>,
    w_vec: &Vec<Fe>,
    depth: usize,
) -> (r: Vec<ClauseCheck>)
    requires
        candidates_defined(*rules, *goal, pred_matches@, str_views(universe@)),
        forall|k: int, l: int| 0 <= k < l < pred_matches@.len() ==> (#[trigger] pred_matches@[k]) < (#[trigger] pred_matches@[l]),
    ensures
        candidates_ok(*rules, *goal, pred_matches@, str_views(universe@), vals(w_vec@), depth, r@),
{
    let ghost u = str_views(universe@);
    let ghost w = vals(w_vec@);
    let bodies = body_strings_exec(goal);
    let mut out: Vec<ClauseCheck> = Vec::new();
    let mut m: usize = 0;
    while m < pred_matches.len()
        invariant
            u == str_views(universe@),
            w == vals(w_vec@),
            str_views(bodies@) == goal_body_strings(*goal),
            candidates_defined(*rules, *goal, pred_matches@, u),
            forall|k: int, l: int| 0 <= k < l < pred_matches@.len() ==> (#[trigger] pred_matches@[k]) < (#[trigger] pred_matches@[l]),
            m <= pred_matches@.len(),
            forall|k: int| 0 <= k < out@.len() ==> clause_check_ok(#[trigger] out@[k], *rules, *goal, u, w, depth),
            forall|k: int| 0 <= k < out@.len() ==> pred_matches@.contains(#[trigger] out@[k].predicate),
            forall|k: int, mb: int| 0 <= k < out@.len() && m <= mb < pred_matches@.len() ==> (#[trigger] out@[k]).predicate < (#[trigger] pred_matches@[mb]),
            forall|k: int, l: int| 0 <= k < l < out@.len() ==> (#[trigger] out@[k]).predicate < (#[trigger] out@[l]).predicate
                || (out@[k].predicate == out@[l].predicate && out@[k].clause < out@[l].clause),
            forall|m2: int, b2: int| 0 <= m2 < m && 0 <= b2 < rules.predicates@[pred_matches@[m2] as int].clauses@.len()
                && structural_pass(
                    #[trigger] rules.predicates@[pred_matches@[m2] as int].clauses@[b2],
                    u,
                    dotcheck_seed(rules.predicates@[pred_matches@[m2] as int].name@, *goal, depth),
                    w,
                ) ==> listed(out@, pred_matches@[m2], b2),
        decreases pred_matches@.len() - m,
    {
        let a = pred_matches[m];
        let nclauses = rules.predicates[a].clauses.len();
        let mut b: usize = 0;
        while b < nclauses
            invariant
                u == str_views(universe@),
                w == vals(w_vec@),
                str_views(bodies@) == goal_body_strings(*goal),
                candidates_defined(*rules, *goal, pred_matches@, u),
                forall|k: int, l: int| 0 <= k < l < pred_matches@.len() ==> (#[trigger] pred_matches@[k]) < (#[trigger] pred_matches@[l]),
                m < pred_matches@.len(),
                a == pred_matches@[m as int],
                a < rules.predicates@.len(),
                nclauses == rules.predicates@[a as int].clauses@.len(),
                b <= nclauses,
                forall|k: int| 0 <= k < out@.len() ==> clause_check_ok(#[trigger] out@[k], *rules, *goal, u, w, depth),
                forall|k: int| 0 <= k < out@.len() ==> pred_matches@.contains(#[trigger] out@[k].predicate),
                forall|k: int, mb: int| 0 <= k < out@.len() && m < mb < pred_matches@.len() ==> (#[trigger] out@[k]).predicate < (#[trigger] pred_matches@[mb]),
                forall|k: int| 0 <= k < out@.len() ==> (#[trigger] out@[k]).predicate < a || (out@[k].predicate == a && out@[k].clause < b),
                forall|k: int, l: int| 0 <= k < l < out@.len() ==> (#[trigger] out@[k]).predicate < (#[trigger] out@[l]).predicate
                    || (out@[k].predicate == out@[l].predicate && out@[k].clause < out@[l].clause),
                forall|m2: int, b2: int| 0 <= m2 < m && 0 <= b2 < rules.predicates@[pred_matches@[m2] as int].clauses@.len()
                    && structural_pass(
                        #[trigger] rules.predicates@[pred_matches@[m2] as int].clauses@[b2],
                        u,
                        dotcheck_seed(rules.predicates@[pred_matches@[m2] as int].name@, *goal, depth),
                        w,
                    ) ==> listed(out@, pred_matches@[m2], b2),
                forall|b2: int| 0 <= b2 < b && structural_pass(
                        #[trigger] rules.predicates@[a as int].clauses@[b2],
                        u,
                        dotcheck_seed(rules.predicates@[a as int].name@, *goal, depth),
                        w,
                    ) ==> listed(out@, a, b2),
            decreases nclauses - b,
        {
            proof {
                assert(0 <= m < pred_matches@.len() && 0 <= b < rules.predicates@[pred_matches@[m as int] as int].clauses@.len());
                assert(clause_in_limits(rules.predicates@[pred_matches@[m as int] as int].clauses@[b as int], *goal, u));
            }
            let res = check_clause(a, b, goal, rules, universe, w_vec, &bodies, depth);
            match res {
                Some(cc) => {
                    let ghost old_out = out@;
                    out.push(cc);
                    proof {
                        assert(pred_matches@[m as int] == a);
                        assert forall|x: usize, y: int| listed(old_out, x, y) implies listed(out@, x, y) by {
                            let k = choose|k: int| 0 <= k < old_out.len() && (#[trigger] old_out[k]).predicate == x && old_out[k].clause == y;
                            assert(out@[k] == old_out[k]);
                        }
                        assert(out@[old_out.len() as int] == cc);
                        assert(listed(out@, a, b as int));
                    }
                },
                None => {},
            }
            b = b + 1;
        }
        proof {
            assert forall|k: int, mb: int| 0 <= k < out@.len() && m + 1 <= mb < pred_matches@.len() implies (#[trigger] out@[k]).predicate < (#[trigger] pred_matches@[mb]) by {
                assert(pred_matches@[m as int] < pred_matches@[mb]);
            }
        }
        m = m + 1;
    }
    out
}

/// A copy of a vector of field elements.
fn copy_fes(v: &Vec<Fe>) -> (r: Vec<Fe>)
    ensures
        r@ == v@,
{
    let mut out: Vec<Fe> = Vec::new();
    let mut i: usize = 0;
    while i < v.len()
        invariant
            i <= v@.len(),
            out@ == v@.take(i as int),
        decreases v@.len() - i,
    {
        out.push(v[i]);
        assert(out@ =~= v@.take(i + 1));
        i = i + 1;
    }
    assert(v@.take(v@.len() as int) =~= v@);
    out
}


/// The structural part of the check of a goal: the matching predicates,
/// the universe of names, the presence witness, the body/subgoal
/// consistency inputs and the clause candidates.
#[derive(Debug, Clone)]
pub struct StructuralPlan {
    pub matches: Vec<usize>,
    pub universe: Vec<String>,
    pub presence: Vec<Fe>,
    pub body_pairs: Vec<ConsistencyInputs>,
    pub candidates: Vec<ClauseCheck>,
    /// The first candidate that also passes the variable check: the clause
    /// the goal fits.
    pub fit: usize,
}

/// Whether a goal can be checked without leaving the text and arithmetic
/// limits of the computation: its texts, and its body calls, have their
/// parentheses in order, and every clause of a matching predicate has a
/// non-empty universe and fewer than `usize::MAX` argument places.
pub open spec fn goal_checkable(goal: GoalEntry, rules: RuleTemplateFile, ids: Map<(Seq<char>, usize), i64>) -> bool {
    &&& call_slices_ok(goal.goal@)
    &&& call_slices_ok(goal.goal_unification.goal@)
    &&& forall|k: int| 0 <= k < string_positions(goal.goal_unification.body@).len() ==> call_slices_ok(#[trigger] body_string(goal, k))
        && vars_slices_ok(body_string(goal, k))
    &&& forall|a: int, b: int| 0 <= a < rules.predicates@.len() && is_match(rules, ids, goal_id_spec(goal, ids), a)
        && 0 <= b < rules.predicates@[a].clauses@.len() ==> {
        &&& exists|n: Seq<char>| #[trigger] in_universe(rules, goal.goal_term.name@, n)
        &&& total_places(#[trigger] rules.predicates@[a].clauses@[b], goal.goal_term.args@.len()) < usize::MAX
    }
}

/// Whether `u` is the universe of a goal's predicate name: the sorted
/// names that its clauses and the facts mention.
pub open spec fn universe_of(rules: RuleTemplateFile, name: Seq<char>, u: Seq<Seq<char>>) -> bool {
    &&& sorted_strict(u)
    &&& forall|n: Seq<char>| u.contains(n) <==> in_universe(rules, name, n)
}

/// The subtree presence vector over a universe: one entry per name, one when
/// the subtree has a goal of that name, then the constant one.
pub open spec fn presence_spec(goal: GoalEntry, u: Seq<Seq<char>>) -> Seq<nat> {
    Seq::new(u.len() + 1, |j: int| if j < u.len() { indicator(subtree_has(goal, u[j])) } else { 1 })
}

/// Whether clause `b` of predicate `a` fits the goal over the universe `u`:
/// it passes the structural check and the variable check.
pub open spec fn clause_fits(rules: RuleTemplateFile, goal: GoalEntry, u: Seq<Seq<char>>, depth: usize, a: int, b: int) -> bool {
    let p = rules.predicates@[a];
    let c = p.clauses@[b];
    &&& structural_pass(c, u, dotcheck_seed(p.name@, goal, depth), presence_spec(goal, u))
    &&& variables_pass_spec(c, goal.goal_term.args@.len(), goal)
}

/// Whether no clause of a predicate matching the goal fits it.
pub open spec fn no_clause_fits(rules: RuleTemplateFile, goal: GoalEntry, ids: Map<(Seq<char>, usize), i64>, depth: usize) -> bool {
    forall|u: Seq<Seq<char>>, a: int, b: int|
        universe_of(rules, goal.goal_term.name@, u) && 0 <= a < rules.predicates@.len() && is_match(rules, ids, goal_id_spec(goal, ids), a)
            && 0 <= b < rules.predicates@[a].clauses@.len() ==> !#[trigger] clause_fits(rules, goal, u, depth, a, b)
}

/// Two strictly sorted sequences with the same members are equal.
proof fn lemma_sorted_unique(u: Seq<Seq<char>>, v: Seq<Seq<char>>)
    requires
        sorted_strict(u),
        sorted_strict(v),
        forall|n: Seq<char>| u.contains(n) <==> v.contains(n),
    ensures
        u == v,
    decreases u.len(),
{
    if u.len() == 0 {
        if v.len() > 0 {
            assert(v.contains(v[0]));
        }
        assert(u =~= v);
    } else {
        assert(u.contains(u[0]));
        let j = choose|j: int| 0 <= j < v.len() && v[j] == u[0];
        assert(v.contains(v[0]));
        let i = choose|i: int| 0 <= i < u.len() && u[i] == v[0];
        if j > 0 {
            assert(seq_lt(v[0], v[j]));
            if i > 0 {
                assert(seq_lt(u[0], u[i]));
                lemma_seq_lt_trans(v[0], u[0], v[0]);
            }
            lemma_seq_lt_irrefl(v[0]);
        }
        assert(u[0] == v[0]);
        let u1 = u.drop_first();
        let v1 = v.drop_first();
        assert forall|n: Seq<char>| u1.contains(n) <==> v1.contains(n) by {
            if u1.contains(n) {
                let k = choose|k: int| 0 <= k < u1.len() && u1[k] == n;
                assert(u[k + 1] == n);
                assert(seq_lt(u[0], u[k + 1]));
                assert(v.contains(n));
                let l = choose|l: int| 0 <= l < v.len() && v[l] == n;
                if l == 0 {
                    lemma_seq_lt_irrefl(n);
                }
                assert(v1[l - 1] == n);
            }
            if v1.contains(n) {
                let k = choose|k: int| 0 <= k < v1.len() && v1[k] == n;
                assert(v[k + 1] == n);
                assert(seq_lt(v[0], v[k + 1]));
                assert(u.contains(n));
                let l = choose|l: int| 0 <= l < u.len() && u[l] == n;
                if l == 0 {
                    lemma_seq_lt_irrefl(n);
                }
                assert(u1[l - 1] == n);
            }
        }
        assert(sorted_strict(u1)) by {
            assert forall|x: int, y: int| 0 <= x < y < u1.len() implies seq_lt(#[trigger] u1[x], #[trigger] u1[y]) by {
                assert(u1[x] == u[x + 1] && u1[y] == u[y + 1]);
            }
        }
        assert(sorted_strict(v1)) by {
            assert forall|x: int, y: int| 0 <= x < y < v1.len() implies seq_lt(#[trigger] v1[x], #[trigger] v1[y]) by {
                assert(v1[x] == v[x + 1] && v1[y] == v[y + 1]);
            }
        }
        lemma_sorted_unique(u1, v1);
        assert(u =~= seq![u[0]] + u1);
        assert(v =~= seq![v[0]] + v1);
    }
}

/// What the structural part of the check gives for a goal.
pub open spec fn structural_result_ok(
    r: Result<StructuralPlan, NodeError>,
    goal: GoalEntry,
    rules: RuleTemplateFile,
    ids: Map<(Seq<char>, usize), i64>,
    depth: usize,
) -> bool {
    let gid = goal_id_spec(goal, ids);
    let any_match = exists|a: int| 0 <= a < rules.predicates@.len() && #[trigger] is_match(rules, ids, gid, a);
    let lengths_ok = goal.goal_unification.body@.len() == goal.subtree@.len();
    match r {
        Err(e) => {
            ||| e == NodeError::PredicateNotFound && !any_match
            ||| e == NodeError::BodySubtreeLength && any_match && !lengths_ok
            ||| e == NodeError::InvalidBodyCall && any_match && lengths_ok && !body_calls_parse(goal)
            ||| e == NodeError::NoFittingClause && any_match && lengths_ok && body_calls_parse(goal)
                && no_clause_fits(rules, goal, ids, depth)
        },
        Ok(plan) => {
            &&& any_match && lengths_ok && body_calls_parse(goal)
            &&& plan.matches@.len() > 0 && matches_spec(rules, ids, gid, plan.matches@)
            &&& sorted_strict(str_views(plan.universe@))
            &&& forall|n: Seq<char>| str_views(plan.universe@).contains(n) <==> in_universe(rules, goal.goal_term.name@, n)
            &&& plan.presence@.len() == plan.universe@.len() + 1
            &&& forall|j: int| 0 <= j < plan.universe@.len() ==> (#[trigger] plan.presence@[j])@ == indicator(subtree_has(goal, plan.universe@[j]@))
            &&& plan.presence@[plan.universe@.len() as int]@ == 1
            &&& body_pairs_ok(goal, plan.body_pairs@)
            &&& candidates_ok(rules, goal, plan.matches@, str_views(plan.universe@), vals(plan.presence@), depth, plan.candidates@)
            &&& plan.fit < plan.candidates@.len() && plan.candidates@[plan.fit as int].variables_pass
            &&& forall|k: int| 0 <= k < plan.fit ==> !(#[trigger] plan.candidates@[k]).variables_pass
            &&& !no_clause_fits(rules, goal, ids, depth)
        },
    }
}

/// The structural part of the check of a goal: its matching predicates, the
/// presence of the universe names among its subgoals, the body/subgoal
/// consistency inputs, and the clauses that pass the structural check.
pub fn structural_clause_match(goal: &GoalEntry, rules: &RuleTemplateFile, id_map: &PredicateIdMap, depth: usize) -> (r: Result<StructuralPlan, NodeError>)
    requires
        goal_checkable(*goal, *rules, id_map@),
    ensures
        structural_result_ok(r, *goal, *rules, id_map@, depth),
{
    let ghost gid = goal_id_spec(*goal, id_map@);
    let matches = match find_predicate_matches(goal, rules, id_map) {
        Ok(v) => v,
        Err(e) => {
            return Err(e);
        },
    };
    proof {
        assert(matches@.contains(matches@[0]));
        assert(is_match(*rules, id_map@, gid, matches@[0] as int));
    }
    let gname = goal.goal_term.name.as_str();
    assert(gname@ == goal.goal_term.name@);
    let universe = local_universe(rules, gname);
    let presence = witness_subtree_presence(goal, &universe);
    match validate_body_subtree_lengths(goal) {
        Ok(()) => {},
        Err(e) => {
            return Err(e);
        },
    }
    let body_pairs = match body_subtree_consistency_inputs(goal) {
        Ok(v) => v,
        Err(e) => {
            return Err(e);
        },
    };
    proof {
        assert(forall|m: int| 0 <= m < matches@.len() ==> (#[trigger] matches@[m]) < rules.predicates@.len());
        assert(forall|k: int| 0 <= k < string_positions(goal.goal_unification.body@).len() ==> vars_slices_ok(#[trigger] body_string(*goal, k)));
        assert forall|m: int, b: int| 0 <= m < matches@.len() && 0 <= b < rules.predicates@[matches@[m] as int].clauses@.len() implies
            clause_in_limits(#[trigger] rules.predicates@[matches@[m] as int].clauses@[b], *goal, str_views(universe@)) by {
            let a = matches@[m] as int;
            assert(is_match(*rules, id_map@, gid, a));
            assert(0 <= a < rules.predicates@.len());
            assert(total_places(rules.predicates@[a].clauses@[b], goal.goal_term.args@.len()) < usize::MAX);
            assert(exists|n: Seq<char>| #[trigger] in_universe(*rules, goal.goal_term.name@, n));
            let n = choose|n: Seq<char>| #[trigger] in_universe(*rules, goal.goal_term.name@, n);
            assert(str_views(universe@).contains(n));
        }
        assert(candidates_defined(*rules, *goal, matches@, str_views(universe@)));
    }
    let candidates = dot_clause_candidates(&matches, goal, rules, &universe, &presence, depth);
    let ghost u = str_views(universe@);
    let ghost w = vals(presence@);
    proof {
        assert(universe_of(*rules, goal.goal_term.name@, u));
        assert(w =~= presence_spec(*goal, u));
    }
    match fitting_clause(&candidates) {
        None => {
            proof {
                assert forall|u2: Seq<Seq<char>>, a: int, b: int|
                    universe_of(*rules, goal.goal_term.name@, u2) && 0 <= a < rules.predicates@.len() && is_match(*rules, id_map@, gid, a)
                        && 0 <= b < rules.predicates@[a].clauses@.len() implies !#[trigger] clause_fits(*rules, *goal, u2, depth, a, b) by {
                    lemma_sorted_unique(u2, u);
                    assert(rules.predicates@.len() == rules.predicates.len());
                    assert(a as usize as int == a);
                    if clause_fits(*rules, *goal, u2, depth, a, b) {
                        assert(matches@.contains(a as usize));
                        let m = choose|m: int| 0 <= m < matches@.len() && matches@[m] == a as usize;
                        assert(u2 == u);
                        assert(presence_spec(*goal, u2) == w);
                        assert(matches@[m] as int == a);
                        assert(structural_pass(rules.predicates@[a].clauses@[b], u, dotcheck_seed(rules.predicates@[a].name@, *goal, depth), w));
                        assert(structural_pass(rules.predicates@[matches@[m] as int].clauses@[b], u,
                            dotcheck_seed(rules.predicates@[matches@[m] as int].name@, *goal, depth), w));
                        assert(listed(candidates@, matches@[m], b));
                        let k = choose|k: int| 0 <= k < candidates@.len() && (#[trigger] candidates@[k]).predicate == matches@[m] && candidates@[k].clause == b;
                        assert(clause_check_ok(candidates@[k], *rules, *goal, u, w, depth));
                        assert(!candidates@[k].variables_pass);
                    }
                }
            }
            Err(NodeError::NoFittingClause)
        },
        Some(fit) => {
            proof {
                let cc = candidates@[fit as int];
                assert(clause_check_ok(cc, *rules, *goal, u, w, depth));
                assert(matches@.contains(cc.predicate));
                assert(is_match(*rules, id_map@, gid, cc.predicate as int));
                assert(clause_fits(*rules, *goal, u, depth, cc.predicate as int, cc.clause as int));
            }
            Ok(StructuralPlan { matches, universe, presence, body_pairs, candidates, fit })
        },
    }
}

/// The first candidate that passes the variable check, if any: the clause
/// that the goal fits.
pub fn fitting_clause(candidates: &Vec<ClauseCheck>) -> (r: Option<usize>)
    ensures
        r matches Some(k) ==> k < candidates@.len() && candidates@[k as int].variables_pass
            && forall|j: int| 0 <= j < k ==> !(#[trigger] candidates@[j]).variables_pass,
        r is None <==> forall|k: int| 0 <= k < candidates@.len() ==> !(#[trigger] candidates@[k]).variables_pass,
{
    let mut i: usize = 0;
    while i < candidates.len()
        invariant
            i <= candidates@.len(),
            forall|j: int| 0 <= j < i ==> !(#[trigger] candidates@[j]).variables_pass,
        decreases candidates@.len() - i,
    {
        if candidates[i].variables_pass {
            return Some(i);
        }
        i = i + 1;
    }
    None
}

/// The checks of a goal that is not a fact: the syntax consistency inputs,
/// the structural part (or the error it ends in, which counts only after the
/// syntax proofs), and the positions of the subgoals to check next.
#[derive(Debug)]
pub struct DerivedPlan {
    pub syntax: Vec<ConsistencyInputs>,
    pub structural: Result<StructuralPlan, NodeError>,
    pub subgoals: Vec<usize>,
}

/// What the check of a goal needs.
#[derive(Debug)]
pub enum NodePlan {
    /// A well-formed fact: nothing to prove here.
    FactLeaf,
    /// A derived goal.
    Derived(DerivedPlan),
}

/// Whether the check of one goal stays within its limits: only a goal with
/// a known predicate that is not a fact has its texts parsed, and only such
/// a goal must be checkable.
pub open spec fn plan_defined(goal: GoalEntry, rules: RuleTemplateFile, ids: Map<(Seq<char>, usize), i64>) -> bool {
    goal_id_spec(goal, ids) != 0 && !is_fact_spec(rules, ids, goal_id_spec(goal, ids)) ==> goal_checkable(goal, rules, ids)
}

/// The decisions of the check of one goal, in the order the checker takes
/// them: an unknown predicate, then a fact leaf (well-formed or not), then
/// the parse of the goal texts; after that the syntax consistency inputs,
/// the structural part and the subgoal positions.
pub fn plan_node(goal: &GoalEntry, rules: &RuleTemplateFile, id_map: &PredicateIdMap, depth: usize) -> (r: Result<NodePlan, NodeError>)
    requires
        plan_defined(*goal, *rules, id_map@),
    ensures
        goal_id_spec(*goal, id_map@) == 0 ==> r == Err::<NodePlan, NodeError>(NodeError::UnknownPredicate),
        goal_id_spec(*goal, id_map@) != 0 && is_fact_spec(*rules, id_map@, goal_id_spec(*goal, id_map@)) ==> (
            if fact_malformed(*goal) {
                r == Err::<NodePlan, NodeError>(NodeError::FactWithSubgoals)
            } else {
                r matches Ok(NodePlan::FactLeaf)
            }),
        goal_id_spec(*goal, id_map@) != 0 && !is_fact_spec(*rules, id_map@, goal_id_spec(*goal, id_map@)) ==> {
            &&& parse_call_spec(goal.goal@) is None ==> r == Err::<NodePlan, NodeError>(NodeError::GoalParse)
            &&& parse_call_spec(goal.goal@) is Some && parse_call_spec(goal.goal_unification.goal@) is None
                ==> r == Err::<NodePlan, NodeError>(NodeError::UnificationGoalParse)
            &&& parse_call_spec(goal.goal@) is Some && parse_call_spec(goal.goal_unification.goal@) is Some ==> (
                r matches Ok(NodePlan::Derived(d)) && {
                    &&& syntax_spec_ok(*goal, d.syntax@)
                    &&& structural_result_ok(d.structural, *goal, *rules, id_map@, depth)
                    &&& d.subgoals@.len() == goal_positions(goal.subtree@).len()
                    &&& forall|k: int| 0 <= k < d.subgoals@.len() ==> (#[trigger] d.subgoals@[k]) as int == goal_positions(goal.subtree@)[k]
                })
        },
{
    let gid = predicate_id(goal.goal_term.name.as_str(), goal.goal_term.args.len(), id_map);
    if gid == 0 {
        return Err(NodeError::UnknownPredicate);
    }
    match is_fact_leaf(rules, gid, goal, id_map) {
        Err(e) => {
            return Err(e);
        },
        Ok(true) => {
            return Ok(NodePlan::FactLeaf);
        },
        Ok(false) => {},
    }
    let syntax = match syntax_consistency_inputs(goal) {
        Ok(v) => v,
        Err(e) => {
            return Err(e);
        },
    };
    let structural = structural_clause_match(goal, rules, id_map, depth);
    let subgoals = subtree_goal_positions(&goal.subtree);
    Ok(NodePlan::Derived(DerivedPlan { syntax, structural, subgoals }))
}

} // verus!
