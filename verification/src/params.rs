//! Fixed dimensions of the circuits and of the encodings that feed them.
use vstd::prelude::*;

verus! {

/// Entries per argument list (and predicates per body row).
pub const MAX_PRED_LIST: usize = 4;

/// Clauses per predicate.
pub const MAX_CLAUSES_PER_PREDICATE: usize = 4;

/// Predicates in a rule file.
pub const MAX_PREDICATES_OVERALL: usize = 12;

/// Candidate clauses: predicates times clauses per predicate.
pub const MAX_CANDIDATES: usize = 48;

/// Arguments per predicate.
pub const MAX_ARITY: usize = 4;

/// Public fact hashes.
pub const MAX_FACTS_HASHES: usize = 33;

/// Rows and columns of a signature matrix.
pub const MAX_CHILDREN: usize = 11;

/// Equalities per clause.
pub const MAX_EQUALITIES: usize = 6;

/// Components of a flattened rule.
pub const MAX_RULE_COMPONENTS: usize = 30;

/// Tokens of a signature fold: `MAX_PRED_LIST * (1 + MAX_ARITY) * (1 + MAX_CHILDREN)`.
pub const MAX_SIG_TOKENS: usize = 240;

/// Width of the dot-product circuit of the prover and checker.
pub const MAX_DOT_DIM: usize = 7;

/// Width of the dot-product check inside the unification circuit.
pub const UNIF_MAX_DOT_DIM: usize = 10;

/// Nodes of a clause in the flat value layout: the head and the body rows.
pub const MAX_NODES: usize = 11;

/// Flat positions per term: `MAX_ARITY` argument lists of `MAX_PRED_LIST`.
pub const PER_TERM: usize = 16;

/// Flat positions per node: `MAX_PRED_LIST` terms.
pub const PER_NODE: usize = 64;

/// Body and subtree terms laid out per goal.
pub const MAX_PAIRS: usize = 4;

} // verus!
