use zkpolicy::templates::{
    chainable_op, collect_right_args_inorder, is_builtin_op, is_var_name, leftmost_leaf, parse_list, parse_term_str,
    parse_tuple_fields_keep_all, split_top_level_commas, term_as_string, to_output, Clause, NodeArgRef4, RightSide,
    Term,
};

fn atom(s: &str) -> Term {
    Term::Atom(s.to_string())
}

fn var(s: &str) -> Term {
    Term::Var(s.to_string())
}

fn pred(n: &str, args: Vec<Term>) -> Term {
    Term::Predicate { name: n.to_string(), args }
}

fn at(l: usize, p: usize, a: usize, li: usize) -> NodeArgRef4 {
    NodeArgRef4 { children_node_list: l, predicate: p, arg: a, list_index: li }
}

#[test]
fn variable_names() {
    assert!(is_var_name("X"));
    assert!(is_var_name("_Tmp"));
    assert!(is_var_name("Total2"));
    assert!(!is_var_name("_"));
    assert!(!is_var_name("alice"));
    assert!(!is_var_name(""));
}

#[test]
fn operator_tables() {
    assert!(is_builtin_op("is"));
    assert!(is_builtin_op("=<"));
    assert!(is_builtin_op("\\+"));
    assert!(!is_builtin_op("parent"));
    assert!(chainable_op("+"));
    assert!(chainable_op(">="));
    assert!(!chainable_op("is"));
    assert!(!chainable_op(","));
}

#[test]
fn top_level_commas_outside_parentheses() {
    assert_eq!(split_top_level_commas("a,(b,c),d"), vec!["a", "(b,c)", "d"]);
    assert_eq!(split_top_level_commas("[a,b],c"), vec!["[a", "b]", "c"]);
    assert_eq!(split_top_level_commas(""), vec![""]);
}

#[test]
fn tuple_fields() {
    assert_eq!(parse_tuple_fields_keep_all("( a , b,c )"), vec!["a", "b", "c"]);
    assert_eq!(parse_tuple_fields_keep_all("(a,,b)"), vec!["a", "", "b"]);
    assert_eq!(parse_tuple_fields_keep_all(" x "), vec!["x"]);
}

#[test]
fn term_texts() {
    let t = pred("parent", vec![atom("alice"), var("X")]);
    assert_eq!(term_as_string(&t), "parent(alice, X)");
    let l = parse_list("[a, b]");
    assert_eq!(term_as_string(&l), "[a,b]");
    assert_eq!(term_as_string(&parse_term_str("[]")), "[]");
    assert_eq!(term_as_string(&parse_term_str("bob")), "bob");
    let tail = parse_list("[H|T]");
    match &tail {
        Term::ListCell { head, tail } => {
            assert_eq!(term_as_string(head), "H");
            assert_eq!(term_as_string(tail), "T");
        },
        _ => panic!("not a list"),
    }
}

#[test]
fn operator_trees() {
    // 1 + 2 * 3 as +(1, *(2, 3))
    let t = pred("+", vec![atom("1"), pred("*", vec![atom("2"), atom("3")])]);
    assert_eq!(term_as_string(leftmost_leaf(&t)), "1");
    let mut acc = Vec::new();
    collect_right_args_inorder(&t, &mut acc);
    let names: Vec<String> = acc.iter().map(|(n, _)| n.clone()).collect();
    assert_eq!(names, vec!["+", "*"]);
    // Each operator comes with its whole right operand.
    assert_eq!(term_as_string(acc[0].1), "*(2, 3)");
    assert_eq!(term_as_string(acc[1].1), "3");
}

#[test]
fn rule_templates_group_and_order_clauses() {
    let rule = Clause {
        head: pred("ancestor", vec![var("X"), var("Y")]),
        body: vec![pred("parent", vec![var("X"), var("Z")]), pred("ancestor", vec![var("Z"), var("Y")])],
    };
    let fact = Clause { head: pred("parent", vec![atom("alice"), atom("bob")]), body: vec![] };
    let base = Clause {
        head: pred("ancestor", vec![var("X"), var("Y")]),
        body: vec![pred("parent", vec![var("X"), var("Y")])],
    };
    let out = to_output(vec![fact, rule, base]);
    assert_eq!(out.predicates.len(), 2);
    assert_eq!(out.predicates[0].name, "ancestor");
    assert_eq!(out.predicates[0].arity, 2);
    assert_eq!(out.predicates[1].name, "parent");
    let anc = &out.predicates[0].clauses;
    assert_eq!(anc.len(), 2);
    let rec = &anc[0];
    assert_eq!(rec.children.len(), 2);
    assert_eq!(rec.children[0][0].name, "parent");
    assert_eq!(rec.children[0][0].arity, 2);
    assert_eq!(rec.children[1][0].name, "ancestor");
    let pairs: Vec<(NodeArgRef4, NodeArgRef4)> = rec
        .equalities
        .iter()
        .map(|e| match &e.right {
            RightSide::Ref(r) => (e.left, *r),
            RightSide::Atom(_) => panic!("unexpected literal"),
        })
        .collect();
    assert_eq!(pairs, vec![
        (at(0, 0, 0, 0), at(1, 0, 0, 0)),
        (at(0, 0, 1, 0), at(2, 0, 1, 0)),
        (at(1, 0, 1, 0), at(2, 0, 0, 0)),
    ]);
    let parent = &out.predicates[1].clauses[0];
    assert!(parent.children.is_empty());
    assert_eq!(parent.equalities.len(), 2);
    assert_eq!(parent.equalities[0].left, at(0, 0, 0, 0));
    assert!(matches!(&parent.equalities[0].right, RightSide::Atom(a) if a == "alice"));
    assert!(matches!(&parent.equalities[1].right, RightSide::Atom(a) if a == "bob"));
}

#[test]
fn builtin_body_row() {
    // total(T) :- T is A + B, a(A), b(B).
    let cl = Clause {
        head: pred("total", vec![var("T")]),
        body: vec![
            pred("is", vec![var("T"), pred("+", vec![var("A"), var("B")])]),
            pred("a", vec![var("A")]),
            pred("b", vec![var("B")]),
        ],
    };
    let out = to_output(vec![cl]);
    let c = &out.predicates[0].clauses[0];
    let row: Vec<(String, usize)> = c.children[0].iter().map(|p| (p.name.clone(), p.arity)).collect();
    assert_eq!(row, vec![("is".to_string(), 2), ("+".to_string(), 1)]);
    assert_eq!(c.children.len(), 3);
}

#[test]
fn default_clause_keeps_head_equalities_only() {
    // c(_R, Class) :- Class = low.
    let cl = Clause {
        head: pred("c", vec![var("_R"), var("Class")]),
        body: vec![pred("=", vec![var("Class"), atom("low")])],
    };
    let out = to_output(vec![cl]);
    let c = &out.predicates[0].clauses[0];
    assert!(c.children.is_empty());
    assert!(c.equalities.is_empty());
    // d(x, Y) :- Y = low. keeps the head literal x
    let cl2 = Clause {
        head: pred("d", vec![atom("x"), var("Y")]),
        body: vec![pred("=", vec![var("Y"), atom("low")])],
    };
    let out2 = to_output(vec![cl2]);
    let d = &out2.predicates[0].clauses[0];
    assert_eq!(d.equalities.len(), 1);
    assert_eq!(d.equalities[0].left, at(0, 0, 0, 0));
    assert!(matches!(&d.equalities[0].right, RightSide::Atom(a) if a == "x"));
}

#[test]
fn printed_list_reads_back() {
    let t = Term::ListCell {
        head: Box::new(atom("a")),
        tail: Box::new(Term::ListCell { head: Box::new(atom("read")), tail: Box::new(Term::EmptyList) }),
    };
    let text = term_as_string(&t);
    assert_eq!(text, "[a,read]");
    assert_eq!(format!("{:?}", parse_list(&text)), format!("{:?}", t));
}

#[test]
fn split_pieces_join_back() {
    let s = "a, f(b,c) ,d";
    let parts = split_top_level_commas(s);
    assert_eq!(parts, vec!["a".to_string(), " f(b,c) ".to_string(), "d".to_string()]);
    assert_eq!(parts.join(","), s);
}

#[test]
fn chainable_operators_are_builtin() {
    for op in ["+", "-", "*", "/", "div", "mod", "//", "rem", "**", "^", "<<", ">>", "<", ">", ">=", "=<", "=:=", "=\\=", "=", "\\=", "==", "\\=="] {
        assert!(chainable_op(op));
        assert!(is_builtin_op(op));
    }
    assert!(is_builtin_op("is"));
    assert!(!chainable_op("is"));
}

#[test]
fn non_ascii_list_element_is_read() {
    // e([é]). keeps the literal é at field 0 of the list
    let list = Term::ListCell { head: Box::new(atom("é")), tail: Box::new(Term::EmptyList) };
    let cl = Clause { head: pred("e", vec![list]), body: vec![] };
    let out = to_output(vec![cl]);
    let c = &out.predicates[0].clauses[0];
    assert_eq!(c.equalities.len(), 2);
    assert_eq!(c.equalities[0].left, at(0, 0, 0, 0));
    assert!(matches!(&c.equalities[0].right, RightSide::Atom(a) if a == "é"));
}

#[test]
fn non_ascii_tuple_fields_are_split_by_characters() {
    // f([(é, a)]). gives the literal é at field 0 and a at field 1
    let list = Term::ListCell { head: Box::new(atom("(é, a)")), tail: Box::new(Term::EmptyList) };
    let out = to_output(vec![Clause { head: pred("f", vec![list]), body: vec![] }]);
    let c = &out.predicates[0].clauses[0];
    assert!(matches!(&c.equalities[0].right, RightSide::Atom(a) if a == "é"));
    assert_eq!(c.equalities[1].left, at(0, 0, 0, 1));
    assert!(matches!(&c.equalities[1].right, RightSide::Atom(a) if a == "a"));
    assert_eq!(split_top_level_commas("é,b"), vec!["é".to_string(), "b".to_string()]);
}

#[test]
fn list_text_prints_back() {
    for s in ["[a,f(b,c)|T]", "[x]", "[p(q(r,s)),t,u]", "[]"] {
        assert_eq!(term_as_string(&parse_list(s)), s);
    }
    assert_eq!(split_top_level_commas("a,f(b,c),d").len(), 3);
    assert_eq!(split_top_level_commas("a),b").len(), 2);
}

#[test]
fn list_with_open_parenthesis_prints_back() {
    for s in ["[f(,a]", "[g(a,b),h(|T]", "[x),y]"] {
        assert_eq!(term_as_string(&parse_list(s)), s);
    }
}
