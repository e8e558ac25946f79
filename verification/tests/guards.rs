use zkpolicy::batch::{batch_consistency_pairs, parse_predicate_call_counted};
use zkpolicy::builtin::chain_input_valid;
use zkpolicy::data::{
    ChildSig, ClauseTemplate, FactTemplate, GoalEntry, PredicateTemplate, ProofNode, RuleTemplateFile, Term, Unification,
};
use zkpolicy::field::Fe;
use zkpolicy::guard::{
    call_slices_ok_exec, clause_is_readable, goal_is_checkable, goal_is_encodable, is_ascii_exec,
    places_fit, row_is_readable, vars_slices_ok_exec,
};
use zkpolicy::predicates::build_predicate_id_map;
use zkpolicy::templates;
use zkpolicy::templates::Term as T;

fn sig(n: &str, a: usize) -> ChildSig {
    ChildSig { name: n.to_string(), arity: a }
}

fn rules() -> RuleTemplateFile {
    RuleTemplateFile {
        predicates: vec![PredicateTemplate {
            name: "ancestor".to_string(),
            arity: 2,
            clauses: vec![ClauseTemplate { children: vec![vec![sig("parent", 2)]], equalities: Vec::new() }],
        }],
        facts: vec![FactTemplate { name: "parent".to_string(), arity: 2 }],
    }
}

fn goal(text: &str, head: &str, body: Vec<Option<&str>>) -> GoalEntry {
    GoalEntry {
        goal: text.to_string(),
        goal_term: Term { name: "ancestor".to_string(), args: vec!["a".to_string(), "b".to_string()] },
        goal_unification: Unification {
            goal: head.to_string(),
            body: body.into_iter().map(|b| b.map(|s| s.to_string())).collect(),
        },
        substitution: Vec::new(),
        subtree: vec![ProofNode::True(true)],
    }
}

#[test]
fn call_slices_of_predicate_calls() {
    assert!(call_slices_ok_exec("p(a)"));
    assert!(call_slices_ok_exec("abc"));
    assert!(!call_slices_ok_exec("p("));
    assert!(!call_slices_ok_exec("p(aé"));
}

#[test]
fn variable_slices_need_parentheses_in_order() {
    assert!(vars_slices_ok_exec("p(X, Y)"));
    assert!(vars_slices_ok_exec("plain"));
    assert!(vars_slices_ok_exec("p(X"));
    assert!(!vars_slices_ok_exec("p)X("));
}

#[test]
fn argument_places_must_fit() {
    let c = ClauseTemplate { children: vec![vec![sig("parent", 2)], vec![sig("q", 3)]], equalities: Vec::new() };
    assert!(places_fit(&c, 2));
    assert!(!places_fit(&c, usize::MAX));
    let big = ClauseTemplate { children: vec![vec![sig("q", usize::MAX - 1)]], equalities: Vec::new() };
    assert!(!places_fit(&big, 1));
    assert!(places_fit(&big, 0));
}

#[test]
fn checkable_goals() {
    let rf = rules();
    let ids = build_predicate_id_map(&rf);
    let good = goal("ancestor(a,b)", "ancestor(a,b)", vec![Some("parent(a,b)")]);
    assert!(goal_is_checkable(&good, &rf, &ids));
    let open_goal = goal("ancestor(", "ancestor(a,b)", vec![Some("parent(a,b)")]);
    assert!(!goal_is_checkable(&open_goal, &rf, &ids));
    let bad_body = goal("ancestor(a,b)", "ancestor(a,b)", vec![None, Some("parent)a,b(")]);
    assert!(!goal_is_checkable(&bad_body, &rf, &ids));
    let mut no_universe = rules();
    no_universe.predicates[0].clauses[0].children = Vec::new();
    no_universe.facts.clear();
    let ids2 = build_predicate_id_map(&no_universe);
    assert!(!goal_is_checkable(&good, &no_universe, &ids2));
}

#[test]
fn chain_inputs() {
    let z = Fe::zero();
    let one = Fe::one();
    let m = vec![vec![one, z], vec![one, z]];
    assert!(chain_input_valid(&[one], &[m.clone()]));
    assert!(!chain_input_valid(&[], &[]));
    assert!(!chain_input_valid(&[one], &[vec![vec![one]]]));
    let mut bytes = [0u8; 32];
    bytes[16] = 1;
    let two_128 = Fe::from_bytes(bytes).unwrap();
    let step = vec![vec![two_128]];
    assert!(!chain_input_valid(&[one, one], &[m.clone(), step]));
    assert!(chain_input_valid(&[one, one], &[m.clone(), vec![vec![z]]]));
    assert!(chain_input_valid(&[one, one], &[m, vec![vec![Fe::from_u64(3)]]]));
}

#[test]
fn encodable_goals() {
    assert!(goal_is_encodable("parent(a,b)"));
    assert!(!goal_is_encodable("p(a,b,c,d,e)"));
    assert!(!goal_is_encodable("consumptionClass(x)"));
    assert!(goal_is_encodable("consumptionClass(x, low)"));
    assert!(goal_is_encodable("X is 3 + 4"));
    assert!(!goal_is_encodable("X = "));
    assert!(goal_is_encodable("sumOfMonthlyConsumptions([1,2,3], S)"));
    assert!(goal_is_encodable("p([1,2,3,4], S)"));
    assert!(!goal_is_encodable("p([1,2,3,4,5], S)"));
    assert!(!goal_is_encodable("p([é], S)"));
    assert!(!goal_is_encodable("p[1]"));
}

#[test]
fn ascii_text() {
    assert!(is_ascii_exec(&"abc".chars().collect()));
    assert!(!is_ascii_exec(&"aé".chars().collect()));
}

#[test]
fn readable_clauses() {
    let list = |h: &str| T::ListCell { head: Box::new(T::Atom(h.to_string())), tail: Box::new(T::EmptyList) };
    let call = |args: Vec<T>| T::Predicate { name: "p".to_string(), args };
    assert!(row_is_readable(&call(vec![list("a")])));
    assert!(row_is_readable(&call(vec![list("(é, a)")])));
    let eq = T::Predicate { name: "=".to_string(), args: vec![T::Var("X".to_string())] };
    assert!(!row_is_readable(&eq));
    let cl = templates::Clause { head: call(vec![list("(é, a)")]), body: vec![call(vec![T::Var("X".to_string())])] };
    assert!(clause_is_readable(&cl));
    let bad = templates::Clause { head: call(vec![list("a")]), body: vec![eq] };
    assert!(!clause_is_readable(&bad));
}

#[test]
fn counted_calls() {
    assert_eq!(parse_predicate_call_counted("p(a, ,b)"), Some(("p".to_string(), 2)));
    assert_eq!(parse_predicate_call_counted(" q ()"), Some(("q".to_string(), 0)));
    assert_eq!(parse_predicate_call_counted("atom"), None);
}

#[test]
fn batch_pairs_of_root_goals() {
    let g = goal("ancestor(a,b)", "ancestor(a, b)", vec![Some("parent(a,b)")]);
    let tree = vec![ProofNode::GoalNode(g), ProofNode::True(true)];
    let pairs = batch_consistency_pairs(&tree);
    assert_eq!(pairs.len(), 1);
    let sum: u64 = "ancestor".bytes().map(|b| b as u64).sum();
    assert!(pairs[0].pub_name.equals(&Fe::from_u64(sum)));
    assert!(pairs[0].wit_name.equals(&Fe::from_u64(sum)));
    assert!(pairs[0].pub_arity.equals(&Fe::from_u64(2)));
    assert!(pairs[0].wit_arity.equals(&Fe::from_u64(2)));
    let plain = goal("ancestor(a,b)", "ancestor", vec![]);
    assert!(batch_consistency_pairs(&vec![ProofNode::GoalNode(plain)]).is_empty());
}
