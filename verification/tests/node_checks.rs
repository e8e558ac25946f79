use zkpolicy::data::{
    ChildSig, ClauseTemplate, Equality, FactTemplate, GoalEntry, PredicateTemplate, ProofNode, RuleTemplateFile, Term,
    TermRefComplex, TermSide, Unification,
};
use zkpolicy::node::{
    find_predicate_matches, fitting_clause, is_fact_leaf, plan_node, validate_body_subtree_lengths, ClauseCheck, NodeError,
    NodePlan,
};
use zkpolicy::predicates::{build_predicate_id_map, local_universe, predicate_id};

fn r(l: usize, p: usize, a: usize) -> TermSide {
    TermSide::Ref(TermRefComplex { children_node_list: l, predicate: p, arg: a, list_index: 0 })
}

fn eq(a: TermSide, b: TermSide) -> Equality {
    Equality { left: a, right: b }
}

fn sig(n: &str, a: usize) -> ChildSig {
    ChildSig { name: n.to_string(), arity: a }
}

/// ancestor(X,Y) :- parent(X,Y).
/// ancestor(X,Y) :- parent(X,Z), ancestor(Z,Y).
/// parent/2 is a fact.
fn rules() -> RuleTemplateFile {
    RuleTemplateFile {
        predicates: vec![PredicateTemplate {
            name: "ancestor".to_string(),
            arity: 2,
            clauses: vec![
                ClauseTemplate {
                    children: vec![vec![sig("parent", 2)]],
                    equalities: vec![eq(r(0, 0, 0), r(1, 0, 0)), eq(r(0, 0, 1), r(1, 0, 1))],
                },
                ClauseTemplate {
                    children: vec![vec![sig("parent", 2)], vec![sig("ancestor", 2)]],
                    equalities: vec![
                        eq(r(0, 0, 0), r(1, 0, 0)),
                        eq(r(0, 0, 1), r(2, 0, 1)),
                        eq(r(1, 0, 1), r(2, 0, 0)),
                    ],
                },
            ],
        }],
        facts: vec![FactTemplate { name: "parent".to_string(), arity: 2 }],
    }
}

fn goal(text: &str, name: &str, args: &[&str], head: &str, body: Vec<Option<&str>>, subtree: Vec<ProofNode>) -> GoalEntry {
    GoalEntry {
        goal: text.to_string(),
        goal_term: Term { name: name.to_string(), args: args.iter().map(|s| s.to_string()).collect() },
        goal_unification: Unification {
            goal: head.to_string(),
            body: body.into_iter().map(|b| b.map(|s| s.to_string())).collect(),
        },
        substitution: Vec::new(),
        subtree,
    }
}

fn leaf_fact(text: &str, name: &str, args: &[&str]) -> ProofNode {
    ProofNode::GoalNode(goal(text, name, args, text, vec![Some("true")], vec![ProofNode::True(true)]))
}

#[test]
fn identifiers_are_sequential_and_distinct() {
    let rf = rules();
    let m = build_predicate_id_map(&rf);
    assert_eq!(predicate_id("ancestor", 2, &m), 1);
    assert_eq!(predicate_id("parent", 2, &m), 2);
    assert_eq!(predicate_id("parent", 3, &m), 0);
    let mut rf2 = rules();
    rf2.facts.push(FactTemplate { name: "ancestor".to_string(), arity: 2 });
    rf2.facts.push(FactTemplate { name: "sibling".to_string(), arity: 2 });
    let m2 = build_predicate_id_map(&rf2);
    assert_eq!(predicate_id("ancestor", 2, &m2), 1);
    assert_eq!(predicate_id("sibling", 2, &m2), 3);
}

#[test]
fn universe_of_a_predicate() {
    let u = local_universe(&rules(), "ancestor");
    assert_eq!(u, vec!["ancestor".to_string(), "parent".to_string()]);
    assert_eq!(local_universe(&rules(), "nothing"), vec!["parent".to_string()]);
}

#[test]
fn unknown_predicate_is_refused() {
    let rf = rules();
    let m = build_predicate_id_map(&rf);
    let g = goal("cousin(a,b)", "cousin", &["a", "b"], "cousin(a,b)", vec![], vec![]);
    assert_eq!(plan_node(&g, &rf, &m, 0).unwrap_err(), NodeError::UnknownPredicate);
}

#[test]
fn well_formed_fact_is_a_leaf() {
    let rf = rules();
    let m = build_predicate_id_map(&rf);
    let g = goal("parent(alice,bob)", "parent", &["alice", "bob"], "parent(alice,bob)", vec![Some("true")], vec![
        ProofNode::True(true),
    ]);
    assert!(matches!(plan_node(&g, &rf, &m, 0), Ok(NodePlan::FactLeaf)));
    assert_eq!(is_fact_leaf(&rf, 2, &g, &m), Ok(true));
    assert_eq!(is_fact_leaf(&rf, 1, &g, &m), Ok(false));
}

#[test]
fn fact_with_subgoals_is_refused() {
    let rf = rules();
    let m = build_predicate_id_map(&rf);
    let child = leaf_fact("parent(bob,carl)", "parent", &["bob", "carl"]);
    let g = goal("parent(alice,bob)", "parent", &["alice", "bob"], "parent(alice,bob)", vec![Some("x(y)")], vec![child]);
    assert_eq!(plan_node(&g, &rf, &m, 0).unwrap_err(), NodeError::FactWithSubgoals);
    let g2 = goal("parent(alice,bob)", "parent", &["alice", "bob"], "parent(bob,alice)", vec![], vec![ProofNode::True(true)]);
    assert_eq!(plan_node(&g2, &rf, &m, 0).unwrap_err(), NodeError::FactWithSubgoals);
    let g3 = goal("parent(alice,bob)", "parent", &["alice", "bob"], "parent(bob,alice)", vec![], vec![]);
    assert_eq!(plan_node(&g3, &rf, &m, 0).unwrap_err(), NodeError::FactWithSubgoals);
    // an unknown predicate is refused before its texts are read
    let g4 = goal("zzz(", "zzz", &["a"], "zzz(", vec![], vec![]);
    assert_eq!(plan_node(&g4, &rf, &m, 0).unwrap_err(), NodeError::UnknownPredicate);
}

#[test]
fn goal_text_must_be_a_call() {
    let rf = rules();
    let m = build_predicate_id_map(&rf);
    let g = goal("ancestor", "ancestor", &["a", "b"], "ancestor(a,b)", vec![], vec![]);
    assert_eq!(plan_node(&g, &rf, &m, 0).unwrap_err(), NodeError::GoalParse);
    let g2 = goal("ancestor(a,b)", "ancestor", &["a", "b"], "ancestor", vec![], vec![]);
    assert_eq!(plan_node(&g2, &rf, &m, 0).unwrap_err(), NodeError::UnificationGoalParse);
}

#[test]
fn body_and_subtree_lengths_must_agree() {
    let rf = rules();
    let m = build_predicate_id_map(&rf);
    let g = goal(
        "ancestor(alice,bob)",
        "ancestor",
        &["alice", "bob"],
        "ancestor(alice,bob)",
        vec![Some("parent(alice,bob)")],
        vec![],
    );
    assert_eq!(validate_body_subtree_lengths(&g), Err(NodeError::BodySubtreeLength));
    match plan_node(&g, &rf, &m, 0) {
        Ok(NodePlan::Derived(d)) => {
            assert_eq!(d.syntax.len(), 2);
            assert_eq!(d.structural.unwrap_err(), NodeError::BodySubtreeLength);
        },
        other => panic!("unexpected {:?}", other),
    }
}

#[test]
fn body_entries_must_be_calls() {
    let rf = rules();
    let m = build_predicate_id_map(&rf);
    let g = goal(
        "ancestor(alice,bob)",
        "ancestor",
        &["alice", "bob"],
        "ancestor(alice,bob)",
        vec![Some("notacall")],
        vec![leaf_fact("parent(alice,bob)", "parent", &["alice", "bob"])],
    );
    match plan_node(&g, &rf, &m, 0) {
        Ok(NodePlan::Derived(d)) => assert_eq!(d.structural.unwrap_err(), NodeError::InvalidBodyCall),
        other => panic!("unexpected {:?}", other),
    }
}

#[test]
fn predicate_without_clauses_for_the_identifier() {
    let rf = rules();
    let m = build_predicate_id_map(&rf);
    let only_facts = RuleTemplateFile { predicates: vec![], facts: rf.facts.clone() };
    let g = goal("ancestor(a,b)", "ancestor", &["a", "b"], "ancestor(a,b)", vec![], vec![]);
    assert_eq!(find_predicate_matches(&g, &only_facts, &m), Err(NodeError::PredicateNotFound));
    assert_eq!(find_predicate_matches(&g, &rf, &m), Ok(vec![0]));
}

#[test]
fn recursive_goal_plan() {
    let rf = rules();
    let m = build_predicate_id_map(&rf);
    let inner = ProofNode::GoalNode(goal(
        "ancestor(bob,john)",
        "ancestor",
        &["bob", "john"],
        "ancestor(bob,john)",
        vec![Some("parent(bob,john)")],
        vec![leaf_fact("parent(bob,john)", "parent", &["bob", "john"])],
    ));
    let g = goal(
        "ancestor(alice,john)",
        "ancestor",
        &["alice", "john"],
        "ancestor(alice,john)",
        vec![Some("parent(alice,bob)"), Some("ancestor(bob,john)")],
        vec![leaf_fact("parent(alice,bob)", "parent", &["alice", "bob"]), inner],
    );
    match plan_node(&g, &rf, &m, 0) {
        Ok(NodePlan::Derived(d)) => {
            assert_eq!(d.subgoals, vec![0, 1]);
            let s = d.structural.unwrap();
            assert_eq!(s.matches, vec![0]);
            assert_eq!(s.universe, vec!["ancestor".to_string(), "parent".to_string()]);
            assert_eq!(s.body_pairs.len(), 2);
            let recursive: Vec<_> = s.candidates.iter().filter(|c| c.clause == 1).collect();
            assert_eq!(recursive.len(), 1);
            assert!(recursive[0].variables_pass);
            assert_eq!(s.candidates[s.fit].clause, 1);
            assert!(s.candidates[..s.fit].iter().all(|c| !c.variables_pass));
        },
        other => panic!("unexpected {:?}", other),
    }
}

#[test]
fn goal_breaking_variable_equalities_fits_no_clause() {
    let rf = rules();
    let m = build_predicate_id_map(&rf);
    let inner = ProofNode::GoalNode(goal(
        "ancestor(carol,john)",
        "ancestor",
        &["carol", "john"],
        "ancestor(carol,john)",
        vec![Some("parent(carol,john)")],
        vec![leaf_fact("parent(carol,john)", "parent", &["carol", "john"])],
    ));
    // parent(alice, bob), ancestor(carol, john): Z would be both bob and carol
    let g = goal(
        "ancestor(alice,john)",
        "ancestor",
        &["alice", "john"],
        "ancestor(alice,john)",
        vec![Some("parent(alice,bob)"), Some("ancestor(carol,john)")],
        vec![leaf_fact("parent(alice,bob)", "parent", &["alice", "bob"]), inner],
    );
    match plan_node(&g, &rf, &m, 0) {
        Ok(NodePlan::Derived(d)) => assert_eq!(d.structural.unwrap_err(), NodeError::NoFittingClause),
        other => panic!("unexpected {:?}", other),
    }
}

#[test]
fn first_fitting_candidate_is_chosen() {
    let cc = |clause: usize, pass: bool| ClauseCheck {
        predicate: 0,
        clause,
        c_pad: vec![],
        w_pad: vec![],
        variable_rows: vec![],
        w_vars: vec![],
        variables_pass: pass,
    };
    assert_eq!(fitting_clause(&vec![cc(0, false), cc(1, true), cc(2, true)]), Some(1));
    assert_eq!(fitting_clause(&vec![cc(0, false)]), None);
    assert_eq!(fitting_clause(&vec![]), None);
}
