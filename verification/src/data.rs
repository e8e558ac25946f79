//! The rule templates, proof trees and fact entries that the prover reads,
//! and their field-element counterparts.
use vstd::prelude::*;
use crate::field::{Fe, fe_from_u64, modulus};
use crate::hashing::{to_fp_value, to_fp_spec};
use crate::params::{MAX_ARITY, MAX_PRED_LIST};

verus! {

/// A rule file: the predicates defined by clauses, and the fact signatures.
#[derive(Debug, Clone)]
pub struct RuleTemplateFile {
    pub predicates: Vec<PredicateTemplate>,
    pub facts: Vec<FactTemplate>,
}

/// A predicate with its clauses.
#[derive(Debug, Clone)]
pub struct PredicateTemplate {
    pub name: String,
    pub arity: usize,
    pub clauses: Vec<ClauseTemplate>,
}

/// A clause: its body rows (each a list of predicate signatures) and the
/// equalities between argument positions and literals.
#[derive(Debug, Clone)]
pub struct ClauseTemplate {
    pub children: Vec<Vec<ChildSig>>,
    pub equalities: Vec<Equality>,
}

/// One side of an equality: an argument position or a literal.
#[derive(Debug, Clone)]
pub enum TermSide {
    Ref(TermRefComplex),
    Value(String),
}

/// An equality between two sides.
#[derive(Debug, Clone)]
pub struct Equality {
    pub left: TermSide,
    pub right: TermSide,
}

/// An argument position: the node list (0 is the head, `k` the `k`-th body
/// row), the predicate within the list, the argument, and the position
/// within a flattened list or tuple argument.
#[derive(Debug, Clone, Copy, PartialEq, Eq)]
pub struct TermRefComplex {
    pub children_node_list: usize,
    pub predicate: usize,
    pub arg: usize,
    pub list_index: usize,
}

/// The signature of a body predicate.
#[derive(Debug, Clone)]
pub struct ChildSig {
    pub name: String,
    pub arity: usize,
}

/// The signature of a fact.
#[derive(Debug, Clone)]
pub struct FactTemplate {
    pub name: String,
    pub arity: usize,
}

/// A node of a proof tree: a proved goal, or a `true` leaf.
#[derive(Debug)]
pub enum ProofNode {
    GoalNode(GoalEntry),
    True(bool),
}

/// A goal as its text, its parsed head term, the clause instance used to
/// prove it, the substitution, and the proofs of the body goals.
#[derive(Debug)]
pub struct GoalEntry {
    pub goal: String,
    pub goal_term: Term,
    pub goal_unification: Unification,
    pub substitution: Vec<String>,
    pub subtree: Vec<ProofNode>,
}

/// A term as a name with argument texts.
#[derive(Debug, Clone)]
pub struct Term {
    pub name: String,
    pub args: Vec<String>,
}

/// The clause instance used for a goal: its head text and its body entries
/// (`None` for a body entry that is not a string).
#[derive(Debug, Clone)]
pub struct Unification {
    pub goal: String,
    pub body: Vec<Option<String>>,
}

/// A fact with its salt, as the issuer lists them.
#[derive(Debug, Clone)]
pub struct FactEntry {
    pub predicate: String,
    pub args: Vec<Vec<String>>,
    pub salt: String,
}

/// A stored proof: the proof bytes and the public inputs (one list per
/// instance column, each value a decimal numeral), all as text.
#[derive(Debug, Clone)]
pub struct ProofEntry {
    pub proof_b64: String,
    pub inputs_b64: Vec<Vec<String>>,
}

/// A term as field elements: the name, a `MAX_ARITY` by `MAX_PRED_LIST`
/// argument matrix, and the salt of the fact it stands for.
#[derive(Debug, Clone)]
pub struct TermFp {
    pub name: Fe,
    pub args: Vec<Vec<Fe>>,
    pub fact_hashes: Fe,
}

/// The input of the unification circuit: the goal terms and, for each body
/// goal, its terms.
#[derive(Debug, Clone)]
pub struct UnificationInputFp {
    pub goal_name: Vec<TermFp>,
    pub subtree_goals: Vec<Vec<TermFp>>,
}

/// A rule file as field elements.
#[derive(Debug, Clone)]
pub struct RuleTemplateFileFp {
    pub predicates: Vec<PredicateTemplateFp>,
}

/// A predicate as field elements.
#[derive(Debug, Clone)]
pub struct PredicateTemplateFp {
    pub name: Fe,
    pub arity: Fe,
    pub clauses: Vec<ClauseTemplateFp>,
}

/// A clause as field elements.
#[derive(Debug, Clone)]
pub struct ClauseTemplateFp {
    pub children: Vec<Vec<ChildSigFp>>,
    pub equalities: Vec<EqualityFp>,
}

/// A body signature as field elements.
#[derive(Debug, Clone)]
pub struct ChildSigFp {
    pub name: Fe,
    pub arity: Fe,
}

/// An equality as field elements.
#[derive(Debug, Clone)]
pub struct EqualityFp {
    pub left: TermSideFp,
    pub right: TermSideFp,
}

/// One side of an equality as field elements.
#[derive(Debug, Clone)]
pub enum TermSideFp {
    Ref(TermRefFp),
    Value(Fe),
}

/// An argument position as field elements.
#[derive(Debug, Clone)]
pub struct TermRefFp {
    pub children_node_list: Fe,
    pub predicate: Fe,
    pub arg: Fe,
    pub list_index: Fe,
}

/// Whether `m` is a `MAX_ARITY` by `MAX_PRED_LIST` matrix of zeros.
pub open spec fn is_zero_matrix(m: Seq<Vec<Fe>>) -> bool {
    &&& m.len() == MAX_ARITY
    &&& forall|i: int| 0 <= i < MAX_ARITY ==> (#[trigger] m[i]).len() == MAX_PRED_LIST
    &&& forall|i: int, j: int| 0 <= i < MAX_ARITY && 0 <= j < MAX_PRED_LIST ==> (#[trigger] m[i]@[j])@ == 0
}

/// A `MAX_ARITY` by `MAX_PRED_LIST` matrix of zeros.
pub fn zero_matrix() -> (r: Vec<Vec<Fe>>)
    ensures
        is_zero_matrix(r@),
{
    let mut m: Vec<Vec<Fe>> = Vec::new();
    let mut i: usize = 0;
    while i < MAX_ARITY
        invariant
            i <= MAX_ARITY,
            m.len() == i,
            forall|a: int| 0 <= a < i ==> (#[trigger] m@[a]).len() == MAX_PRED_LIST,
            forall|a: int, b: int| 0 <= a < i && 0 <= b < MAX_PRED_LIST ==> (#[trigger] m@[a]@[b])@ == 0,
        decreases MAX_ARITY - i,
    {
        let mut row: Vec<Fe> = Vec::new();
        let mut j: usize = 0;
        while j < MAX_PRED_LIST
            invariant
                j <= MAX_PRED_LIST,
                row.len() == j,
                forall|b: int| 0 <= b < j ==> (#[trigger] row@[b])@ == 0,
            decreases MAX_PRED_LIST - j,
        {
            row.push(Fe::zero());
            j = j + 1;
        }
        m.push(row);
        i = i + 1;
    }
    m
}

impl TermFp {
    /// The empty term: zero name and salt, and a zero argument matrix.
    pub fn default_term() -> (r: TermFp)
        ensures
            r.name@ == 0,
            r.fact_hashes@ == 0,
            is_zero_matrix(r.args@),
    {
        TermFp { name: Fe::zero(), args: zero_matrix(), fact_hashes: Fe::zero() }
    }
}

/// Whether every term of `v` is the empty term.
pub open spec fn all_default_terms(v: Seq<TermFp>) -> bool {
    forall|i: int|
        0 <= i < v.len() ==> (#[trigger] v[i]).name@ == 0 && v[i].fact_hashes@ == 0
            && is_zero_matrix(v[i].args@)
}

/// `MAX_PRED_LIST` empty terms.
fn default_terms() -> (r: Vec<TermFp>)
    ensures
        r.len() == MAX_PRED_LIST,
        all_default_terms(r@),
{
    let mut v: Vec<TermFp> = Vec::new();
    let mut i: usize = 0;
    while i < MAX_PRED_LIST
        invariant
            i <= MAX_PRED_LIST,
            v.len() == i,
            all_default_terms(v@),
        decreases MAX_PRED_LIST - i,
    {
        v.push(TermFp::default_term());
        i = i + 1;
    }
    v
}

impl UnificationInputFp {
    /// The input used to lay out the circuit before witnesses are known:
    /// `MAX_PRED_LIST` empty goal terms and `MAX_ARITY` lists of as many.
    pub fn default_input() -> (r: UnificationInputFp)
        ensures
            r.goal_name.len() == MAX_PRED_LIST,
            all_default_terms(r.goal_name@),
            r.subtree_goals.len() == MAX_ARITY,
            forall|i: int|
                0 <= i < MAX_ARITY ==> (#[trigger] r.subtree_goals@[i]).len() == MAX_PRED_LIST
                    && all_default_terms(r.subtree_goals@[i]@),
    {
        let goal_name = default_terms();
        let mut subtree_goals: Vec<Vec<TermFp>> = Vec::new();
        let mut i: usize = 0;
        while i < MAX_ARITY
            invariant
                i <= MAX_ARITY,
                subtree_goals.len() == i,
                forall|k: int|
                    0 <= k < i ==> (#[trigger] subtree_goals@[k]).len() == MAX_PRED_LIST
                        && all_default_terms(subtree_goals@[k]@),
            decreases MAX_ARITY - i,
        {
            subtree_goals.push(default_terms());
            i = i + 1;
        }
        UnificationInputFp { goal_name, subtree_goals }
    }
}

impl PredicateTemplateFp {
    /// The empty predicate: zero name and arity, no clauses.
    pub fn default_predicate() -> (r: PredicateTemplateFp)
        ensures
            r.name@ == 0,
            r.arity@ == 0,
            r.clauses.len() == 0,
    {
        PredicateTemplateFp { name: Fe::zero(), arity: Fe::zero(), clauses: Vec::new() }
    }
}

/// The field value of a count.
pub open spec fn count_value(n: usize) -> nat {
    n as nat % modulus()
}

/// Whether `f` is the field form of the side `s`.
pub open spec fn side_encodes(f: TermSideFp, s: TermSide) -> bool {
    match (f, s) {
        (TermSideFp::Ref(a), TermSide::Ref(b)) => {
            &&& a.children_node_list@ == count_value(b.children_node_list)
            &&& a.predicate@ == count_value(b.predicate)
            &&& a.arg@ == count_value(b.arg)
            &&& a.list_index@ == count_value(b.list_index)
        },
        (TermSideFp::Value(x), TermSide::Value(v)) => x@ == to_fp_spec(v@),
        _ => false,
    }
}

/// Whether `f` is the field form of the clause `c`.
pub open spec fn clause_encodes(f: ClauseTemplateFp, c: ClauseTemplate) -> bool {
    &&& f.children.len() == c.children.len()
    &&& forall|i: int|
        0 <= i < c.children.len() ==> {
            &&& (#[trigger] f.children@[i]).len() == c.children@[i].len()
            &&& forall|j: int|
                0 <= j < c.children@[i].len() ==> {
                    &&& (#[trigger] f.children@[i]@[j]).name@ == to_fp_spec(
                        c.children@[i]@[j].name@,
                    )
                    &&& f.children@[i]@[j].arity@ == count_value(c.children@[i]@[j].arity)
                }
        }
    &&& f.equalities.len() == c.equalities.len()
    &&& forall|i: int|
        0 <= i < c.equalities.len() ==> side_encodes((#[trigger] f.equalities@[i]).left, c.equalities@[i].left)
            && side_encodes(f.equalities@[i].right, c.equalities@[i].right)
}

/// Whether `f` is the field form of the rule file `r`.
pub open spec fn rules_encode(f: RuleTemplateFileFp, r: RuleTemplateFile) -> bool {
    &&& f.predicates.len() == r.predicates.len()
    &&& forall|i: int|
        0 <= i < r.predicates.len() ==> {
            let p = r.predicates@[i];
            let q = #[trigger] f.predicates@[i];
            &&& q.name@ == to_fp_spec(p.name@)
            &&& q.arity@ == count_value(p.arity)
            &&& q.clauses.len() == p.clauses.len()
            &&& forall|j: int|
                0 <= j < p.clauses.len() ==> clause_encodes(#[trigger] q.clauses@[j], p.clauses@[j])
        }
}

impl TermSideFp {
    /// The field form of an equality side.
    pub fn from_side(ts: &TermSide) -> (r: TermSideFp)
        ensures
            side_encodes(r, *ts),
    {
        match ts {
            TermSide::Ref(x) => TermSideFp::Ref(
                TermRefFp {
                    children_node_list: fe_from_u64(x.children_node_list as u64),
                    predicate: fe_from_u64(x.predicate as u64),
                    arg: fe_from_u64(x.arg as u64),
                    list_index: fe_from_u64(x.list_index as u64),
                },
            ),
            TermSide::Value(v) => TermSideFp::Value(to_fp_value(v.as_str())),
        }
    }
}

impl ClauseTemplateFp {
    /// The field form of a clause.
    pub fn from_clause(c: &ClauseTemplate) -> (r: ClauseTemplateFp)
        ensures
            clause_encodes(r, *c),
    {
        let mut children: Vec<Vec<ChildSigFp>> = Vec::new();
        let mut i: usize = 0;
        while i < c.children.len()
            invariant
                i <= c.children.len(),
                children.len() == i,
                forall|a: int|
                    0 <= a < i ==> {
                        &&& (#[trigger] children@[a]).len() == c.children@[a].len()
                        &&& forall|j: int|
                            0 <= j < c.children@[a].len() ==> {
                                &&& (#[trigger] children@[a]@[j]).name@ == to_fp_spec(
                                    c.children@[a]@[j].name@,
                                )
                                &&& children@[a]@[j].arity@ == count_value(c.children@[a]@[j].arity)
                            }
                    },
            decreases c.children.len() - i,
        {
            let row = &c.children[i];
            let mut out: Vec<ChildSigFp> = Vec::new();
            let mut j: usize = 0;
            while j < row.len()
                invariant
                    j <= row.len(),
                    out.len() == j,
                    forall|b: int|
                        0 <= b < j ==> (#[trigger] out@[b]).name@ == to_fp_spec(row@[b].name@)
                            && out@[b].arity@ == count_value(row@[b].arity),
                decreases row.len() - j,
            {
                out.push(
                    ChildSigFp {
                        name: to_fp_value(row[j].name.as_str()),
                        arity: fe_from_u64(row[j].arity as u64),
                    },
                );
                j = j + 1;
            }
            children.push(out);
            i = i + 1;
        }
        let mut equalities: Vec<EqualityFp> = Vec::new();
        let mut k: usize = 0;
        while k < c.equalities.len()
            invariant
                k <= c.equalities.len(),
                equalities.len() == k,
                forall|a: int|
                    0 <= a < k ==> side_encodes((#[trigger] equalities@[a]).left, c.equalities@[a].left)
                        && side_encodes(equalities@[a].right, c.equalities@[a].right),
            decreases c.equalities.len() - k,
        {
            let eq = &c.equalities[k];
            equalities.push(
                EqualityFp {
                    left: TermSideFp::from_side(&eq.left),
                    right: TermSideFp::from_side(&eq.right),
                },
            );
            k = k + 1;
        }
        ClauseTemplateFp { children, equalities }
    }
}

impl RuleTemplateFileFp {
    /// The field form of a rule file (its facts are not part of it).
    pub fn from_rules(r: &RuleTemplateFile) -> (f: RuleTemplateFileFp)
        ensures
            rules_encode(f, *r),
    {
        let mut predicates: Vec<PredicateTemplateFp> = Vec::new();
        let mut i: usize = 0;
        while i < r.predicates.len()
            invariant
                i <= r.predicates.len(),
                predicates.len() == i,
                forall|a: int|
                    0 <= a < i ==> {
                        let p = r.predicates@[a];
                        let q = #[trigger] predicates@[a];
                        &&& q.name@ == to_fp_spec(p.name@)
                        &&& q.arity@ == count_value(p.arity)
                        &&& q.clauses.len() == p.clauses.len()
                        &&& forall|j: int|
                            0 <= j < p.clauses.len() ==> clause_encodes(
                                #[trigger] q.clauses@[j],
                                p.clauses@[j],
                            )
                    },
            decreases r.predicates.len() - i,
        {
            let p = &r.predicates[i];
            let mut clauses: Vec<ClauseTemplateFp> = Vec::new();
            let mut j: usize = 0;
            while j < p.clauses.len()
                invariant
                    j <= p.clauses.len(),
                    clauses.len() == j,
                    forall|b: int|
                        0 <= b < j ==> clause_encodes(#[trigger] clauses@[b], p.clauses@[b]),
                decreases p.clauses.len() - j,
            {
                clauses.push(ClauseTemplateFp::from_clause(&p.clauses[j]));
                j = j + 1;
            }
            predicates.push(
                PredicateTemplateFp {
                    name: to_fp_value(p.name.as_str()),
                    arity: fe_from_u64(p.arity as u64),
                    clauses,
                },
            );
            i = i + 1;
        }
        RuleTemplateFileFp { predicates }
    }
}

} // verus!
