//! The consistency pairs of a batch of proof-tree roots: for each root goal
//! whose clause head is a call, the goal term's name and arity against the
//! head's name and number of non-blank arguments, names taken as the byte
//! sums of their UTF-8 text.
use vstd::prelude::*;
use crate::data::{ProofNode, GoalEntry};
use crate::field::{Fe, modulus, fe_from_u64};
use crate::hashing::{byte_sum, str_to_fp_bytesum};
use crate::node::ConsistencyInputs;
use crate::predicates::{parse_vars_spec, parse_predicate_call_for_variables, vars_slices_ok, str_views};
use crate::text::chars_of;
use vstd::utf8::encode_utf8;

verus! {

/// The number of non-empty texts.
pub open spec fn count_nonempty(v: Seq<Seq<char>>) -> nat
    decreases v.len(),
{
    if v.len() == 0 {
        0
    } else {
        count_nonempty(v.drop_last()) + if v.last().len() > 0 { 1nat } else { 0 }
    }
}

/// The name before the first `(` and the number of non-blank
/// comma-separated arguments between it and the first `)`.
pub open spec fn counted_call_spec(s: Seq<char>) -> Option<(Seq<char>, nat)> {
    match parse_vars_spec(s) {
        Some((n, a)) => Some((n, count_nonempty(a))),
        None => None,
    }
}

/// Splits `name(a, b, ...)` into its trimmed name and the number of its
/// non-blank arguments.
pub fn parse_predicate_call_counted(s: &str) -> (r: Option<(String, usize)>)
    requires
        vars_slices_ok(s@),
    ensures
        match counted_call_spec(s@) {
            Some((n, k)) => r matches Some((rn, rk)) && rn@ == n && rk == k,
            None => r is None,
        },
{
    match parse_predicate_call_for_variables(s) {
        Some((name, args)) => {
            let ghost av = str_views(args@);
            let mut count: usize = 0;
            let mut i: usize = 0;
            while i < args.len()
                invariant
                    i <= args@.len(),
                    av == str_views(args@),
                    count == count_nonempty(av.take(i as int)),
                    count <= i,
                decreases args@.len() - i,
            {
                assert(av.take(i + 1).drop_last() =~= av.take(i as int));
                assert(args@[i as int]@ == av[i as int]);
                if chars_of(args[i].as_str()).len() > 0 {
                    count = count + 1;
                }
                i = i + 1;
            }
            assert(av.take(args@.len() as int) =~= av);
            Some((name, count))
        },
        None => None,
    }
}

/// Whether every root goal's clause head has its parentheses in order.
pub open spec fn batch_readable(tree: Seq<ProofNode>) -> bool {
    forall|i: int| 0 <= i < tree.len() && (#[trigger] tree[i]) is GoalNode ==> vars_slices_ok(
        tree[i]->GoalNode_0.goal_unification.goal@,
    )
}

/// The pair of a root goal whose clause head is a call.
pub open spec fn batch_pair_of(g: GoalEntry) -> Option<(nat, nat, nat, nat)> {
    match counted_call_spec(g.goal_unification.goal@) {
        Some((n, k)) => Some((
            byte_sum(encode_utf8(g.goal_term.name@)) % modulus(),
            g.goal_term.args@.len() % modulus(),
            byte_sum(encode_utf8(n)) % modulus(),
            k % modulus(),
        )),
        None => None,
    }
}

/// The pairs of the first `k` roots, in order.
pub open spec fn batch_pairs(tree: Seq<ProofNode>, k: int) -> Seq<(nat, nat, nat, nat)>
    decreases k,
{
    if k <= 0 {
        Seq::empty()
    } else {
        let prev = batch_pairs(tree, k - 1);
        match tree[k - 1] {
            ProofNode::GoalNode(g) => match batch_pair_of(g) {
                Some(p) => prev.push(p),
                None => prev,
            },
            ProofNode::True(_) => prev,
        }
    }
}

/// The values of consistency inputs.
pub open spec fn inputs_view(c: ConsistencyInputs) -> (nat, nat, nat, nat) {
    (c.pub_name@, c.pub_arity@, c.wit_name@, c.wit_arity@)
}

/// The consistency pairs of the root goals of a proof tree, in order; a
/// root that is not a goal, or whose clause head is not a call, gives none.
pub fn batch_consistency_pairs(tree: &Vec<ProofNode>) -> (r: Vec<ConsistencyInputs>)
    requires
        batch_readable(tree@),
    ensures
        r@.map_values(|c: ConsistencyInputs| inputs_view(c)) == batch_pairs(tree@, tree@.len() as int),
{
    let mut out: Vec<ConsistencyInputs> = Vec::new();
    let mut i: usize = 0;
    while i < tree.len()
        invariant
            i <= tree@.len(),
            batch_readable(tree@),
            out@.map_values(|c: ConsistencyInputs| inputs_view(c)) == batch_pairs(tree@, i as int),
        decreases tree@.len() - i,
    {
        let ghost before = out@.map_values(|c: ConsistencyInputs| inputs_view(c));
        match &tree[i] {
            ProofNode::GoalNode(g) => {
                assert(vars_slices_ok(g.goal_unification.goal@));
                match parse_predicate_call_counted(g.goal_unification.goal.as_str()) {
                    Some((wn, wa)) => {
                        let c = ConsistencyInputs {
                            pub_name: str_to_fp_bytesum(g.goal_term.name.as_str()),
                            pub_arity: fe_from_u64(g.goal_term.args.len() as u64),
                            wit_name: str_to_fp_bytesum(wn.as_str()),
                            wit_arity: fe_from_u64(wa as u64),
                        };
                        out.push(c);
                        assert(out@.map_values(|c: ConsistencyInputs| inputs_view(c)) =~= before.push(inputs_view(c)));
                    },
                    None => {},
                }
            },
            ProofNode::True(_) => {},
        }
        i = i + 1;
    }
    out
}

} // verus!
