use zkpolicy::data::{FactEntry, GoalEntry, ProofNode, Term, TermFp, Unification};
use zkpolicy::field::Fe;
use zkpolicy::goal_encoding::{
    build_fact_map, encode_proofnode_to_termfp, encode_str_to_termfp, encode_str_to_termfp_og,
    parse_tuple_fields_keep_all, split_top_level_commas, unification_input_from_goal_and_facts, FactMap,
};
use zkpolicy::hashing::to_fp_value;

fn v(s: &str) -> Fe {
    to_fp_value(s)
}

fn fact(p: &str, args: &[&[&str]], salt: &str) -> FactEntry {
    FactEntry {
        predicate: p.to_string(),
        args: args.iter().map(|l| l.iter().map(|s| s.to_string()).collect()).collect(),
        salt: salt.to_string(),
    }
}

/// Asserts that a term has the given name, salt and argument cells (row,
/// column, text); every other cell is zero.
fn check_term(t: &TermFp, name: &str, salt: &Fe, cells: &[(usize, usize, &str)]) {
    assert!(t.name.equals(&v(name)), "name of {name}");
    assert!(t.fact_hashes.equals(salt), "salt of {name}");
    assert_eq!(t.args.len(), 4);
    for i in 0..4 {
        assert_eq!(t.args[i].len(), 4);
        for j in 0..4 {
            let expected = match cells.iter().find(|c| c.0 == i && c.1 == j) {
                Some(c) => v(c.2),
                None => Fe::zero(),
            };
            assert!(t.args[i][j].equals(&expected), "cell ({i},{j}) of {name}");
        }
    }
}

fn empty_facts() -> FactMap {
    build_fact_map(&[])
}

#[test]
fn fact_map_keys_and_salts() {
    let facts = vec![
        fact("parent", &[&["alice"], &["bob"]], "11"),
        fact("flag", &[], "12"),
        fact("pair", &[&["a", "b"], &["c"]], "13"),
        fact("parent", &[&["alice"], &["bob"]], "14"),
    ];
    let m = build_fact_map(&facts);
    assert!(m.get(&"parent(alice,bob)".to_string()).unwrap().equals(&Fe::from_u64(14)));
    assert!(m.get(&"flag".to_string()).unwrap().equals(&Fe::from_u64(12)));
    assert!(m.get(&"pair(a,b,c)".to_string()).unwrap().equals(&Fe::from_u64(13)));
    assert!(m.get(&"parent(bob,alice)".to_string()).is_none());
}

#[test]
fn plain_goal_with_salt() {
    let m = build_fact_map(&[fact("parent", &[&["alice"], &["bob"]], "77")]);
    let t = encode_str_to_termfp_og("parent(alice, bob)", &m);
    check_term(&t, "parent", &Fe::from_u64(77), &[(0, 0, "alice"), (1, 0, "bob")]);
    let t2 = encode_str_to_termfp_og("parent(bob,alice)", &m);
    check_term(&t2, "parent", &Fe::zero(), &[(0, 0, "bob"), (1, 0, "alice")]);
}

#[test]
fn plain_goal_without_arguments() {
    let m = build_fact_map(&[fact("sunny", &[], "5")]);
    let t = encode_str_to_termfp_og("sunny", &m);
    check_term(&t, "sunny", &Fe::zero(), &[]);
    let t2 = encode_str_to_termfp_og("sunny()", &m);
    check_term(&t2, "sunny", &Fe::zero(), &[]);
}

#[test]
fn low_consumption_class_reads_anonymous_first_argument() {
    let m = build_fact_map(&[fact("consumptionClass", &[&["_"], &["low"]], "9")]);
    let t = encode_str_to_termfp_og("consumptionClass(house1, low)", &m);
    check_term(&t, "consumptionClass", &Fe::from_u64(9), &[(0, 0, "_"), (1, 0, "low")]);
    let t2 = encode_str_to_termfp_og("consumptionClass(house1, high)", &m);
    check_term(&t2, "consumptionClass", &Fe::zero(), &[(0, 0, "house1"), (1, 0, "high")]);
}

#[test]
fn arithmetic_goal_chain() {
    let terms = encode_str_to_termfp("X is Y + 3", &empty_facts());
    assert_eq!(terms.len(), 2);
    check_term(&terms[0], "is", &Fe::zero(), &[(0, 0, "X"), (1, 0, "Y")]);
    check_term(&terms[1], "+", &Fe::zero(), &[(0, 0, "3")]);
}

#[test]
fn chain_operators_are_taken_left_to_right() {
    // After the first operator, every remaining operator is kept, in the
    // order it occurs.
    let terms = encode_str_to_termfp("X is Y + 3 * Z", &empty_facts());
    assert_eq!(terms.len(), 3);
    check_term(&terms[0], "is", &Fe::zero(), &[(0, 0, "X"), (1, 0, "Y")]);
    check_term(&terms[1], "+", &Fe::zero(), &[(0, 0, "3")]);
    check_term(&terms[2], "*", &Fe::zero(), &[(0, 0, "Z")]);
    let terms = encode_str_to_termfp("X is A - B + C", &empty_facts());
    assert_eq!(terms.len(), 3);
    check_term(&terms[0], "is", &Fe::zero(), &[(0, 0, "X"), (1, 0, "A")]);
    check_term(&terms[1], "-", &Fe::zero(), &[(0, 0, "B")]);
    check_term(&terms[2], "+", &Fe::zero(), &[(0, 0, "C")]);
}

#[test]
fn comparison_goal() {
    let terms = encode_str_to_termfp("Total > 100", &empty_facts());
    assert_eq!(terms.len(), 1);
    check_term(&terms[0], ">", &Fe::zero(), &[(0, 0, "Total"), (1, 0, "100")]);
}

#[test]
fn division_goal() {
    let terms = encode_str_to_termfp("Avg is Sum div 12", &empty_facts());
    assert_eq!(terms.len(), 2);
    check_term(&terms[0], "is", &Fe::zero(), &[(0, 0, "Avg"), (1, 0, "Sum")]);
    check_term(&terms[1], "div", &Fe::zero(), &[(0, 0, "12")]);
}

#[test]
fn plain_goal_through_the_dispatcher() {
    let m = build_fact_map(&[fact("parent", &[&["alice"], &["bob"]], "3")]);
    let terms = encode_str_to_termfp("parent(alice,bob)", &m);
    assert_eq!(terms.len(), 1);
    check_term(&terms[0], "parent", &Fe::from_u64(3), &[(0, 0, "alice"), (1, 0, "bob")]);
}

#[test]
fn list_goal_with_tuples() {
    let terms = encode_str_to_termfp("credentials(user1, [('A', 1), b], x)", &empty_facts());
    assert_eq!(terms.len(), 1);
    check_term(
        &terms[0],
        "credentials",
        &Fe::zero(),
        &[(0, 0, "user1"), (1, 0, "'A'"), (1, 1, "1"), (1, 2, "b"), (2, 0, "x")],
    );
}

#[test]
fn empty_list_argument_is_zero() {
    let terms = encode_str_to_termfp("holds([], y)", &empty_facts());
    check_term(&terms[0], "holds", &Fe::zero(), &[(1, 0, "y")]);
}

#[test]
fn social_supports_goal() {
    let terms = encode_str_to_termfp("applySocialSupports(100, [(disabled, 20, yes), other], R)", &empty_facts());
    check_term(
        &terms[0],
        "applySocialSupports",
        &Fe::zero(),
        &[(0, 0, "100"), (1, 0, "disabled"), (1, 1, "20"), (1, 2, "yes"), (2, 0, "R")],
    );
    let short = encode_str_to_termfp("applySocialSupports(100, [a])", &empty_facts());
    check_term(&short[0], "applySocialSupports", &Fe::zero(), &[]);
}

#[test]
fn monthly_consumptions_goal() {
    let terms = encode_str_to_termfp("monthlyConsumptions([10,20,30])", &empty_facts());
    check_term(&terms[0], "monthlyConsumptions", &Fe::zero(), &[(0, 0, "10,20,30")]);
}

#[test]
fn sum_of_monthly_consumptions_goal() {
    let terms = encode_str_to_termfp("sumOfMonthlyConsumptions([10, 20, 30], S)", &empty_facts());
    check_term(
        &terms[0],
        "sumOfMonthlyConsumptions",
        &Fe::zero(),
        &[(0, 0, "10"), (0, 1, "20,30"), (1, 0, "S")],
    );
    let single = encode_str_to_termfp("sumOfMonthlyConsumptions([10], S)", &empty_facts());
    check_term(&single[0], "sumOfMonthlyConsumptions", &Fe::zero(), &[(0, 0, "10"), (1, 0, "S")]);
}

#[test]
fn sum_of_monthly_consumptions_of_empty_list_is_plain() {
    let m = build_fact_map(&[fact("sumOfMonthlyConsumptions", &[&["[]"], &["0"]], "8")]);
    let terms = encode_str_to_termfp("sumOfMonthlyConsumptions([],0)", &m);
    check_term(&terms[0], "sumOfMonthlyConsumptions", &Fe::from_u64(8), &[(0, 0, "[]"), (1, 0, "0")]);
}

#[test]
fn top_level_commas_outside_brackets() {
    assert_eq!(split_top_level_commas("a,[b,c],(d,e),f"), vec!["a", "[b,c]", "(d,e)", "f"]);
    assert_eq!(split_top_level_commas(""), vec![""]);
    assert_eq!(split_top_level_commas("a,"), vec!["a", ""]);
    assert_eq!(split_top_level_commas("]a,b"), vec!["]a", "b"]);
}

#[test]
fn tuple_fields_keep_empty_fields() {
    assert_eq!(parse_tuple_fields_keep_all(" ('A', [1,2], ) "), vec!["'A'", "[1,2]", ""]);
    assert_eq!(parse_tuple_fields_keep_all(" plain "), vec!["plain"]);
}

fn goal(text: &str, subtree: Vec<ProofNode>) -> GoalEntry {
    GoalEntry {
        goal: text.to_string(),
        goal_term: Term { name: String::new(), args: Vec::new() },
        goal_unification: Unification { goal: text.to_string(), body: Vec::new() },
        substitution: Vec::new(),
        subtree,
    }
}

#[test]
fn proof_nodes_and_unification_input() {
    let m = build_fact_map(&[fact("parent", &[&["alice"], &["bob"]], "4")]);
    let leaf = encode_proofnode_to_termfp(&ProofNode::True(true), &m);
    assert_eq!(leaf.len(), 1);
    check_term(&leaf[0], "0", &Fe::zero(), &[]);
    let child = ProofNode::GoalNode(goal("parent(alice,bob)", vec![ProofNode::True(true)]));
    let g = goal("ancestor(alice,bob)", vec![child, ProofNode::True(true)]);
    let input = unification_input_from_goal_and_facts(&g, &m);
    assert_eq!(input.goal_name.len(), 1);
    check_term(&input.goal_name[0], "ancestor", &Fe::zero(), &[(0, 0, "alice"), (1, 0, "bob")]);
    assert_eq!(input.subtree_goals.len(), 2);
    check_term(&input.subtree_goals[0][0], "parent", &Fe::from_u64(4), &[(0, 0, "alice"), (1, 0, "bob")]);
    check_term(&input.subtree_goals[1][0], "0", &Fe::zero(), &[]);
}

#[test]
fn issued_hash_equals_hash_of_encoded_goal() {
    let f = fact("parent", &[&["alice"], &["bob"]], "77");
    let m = build_fact_map(&[f.clone()]);
    let t = encode_str_to_termfp_og("parent(alice, bob)", &m);
    let mut tokens = vec![t.name];
    for row in &t.args {
        for x in row {
            tokens.push(*x);
        }
    }
    tokens.push(t.fact_hashes);
    let checked = zkpolicy::hashing::poseidon_hash_list_native(&tokens);
    let issued = zkpolicy::hashing::fact_hash_native_salted("parent", &f.args, "77");
    assert!(checked.equals(&issued));
}
