use zkpolicy::prolog::{parse_program, ParseError};
use zkpolicy::templates::{Clause, Term};

fn atom(s: &str) -> Term {
    Term::Atom(s.to_string())
}

fn var(s: &str) -> Term {
    Term::Var(s.to_string())
}

fn pred(n: &str, args: Vec<Term>) -> Term {
    Term::Predicate { name: n.to_string(), args }
}

fn cell(h: Term, t: Term) -> Term {
    Term::ListCell { head: Box::new(h), tail: Box::new(t) }
}

fn show(cs: &[Clause]) -> String {
    format!("{:?}", cs)
}

fn clause(head: Term, body: Vec<Term>) -> Clause {
    Clause { head, body }
}

#[test]
fn parses_facts_and_rules_in_order() {
    let text = "parent(tom, bob).\nancestor(X, Y) :- parent(X, Z), ancestor(Z, Y).\n";
    let cs = parse_program(text).unwrap();
    let expected = vec![
        clause(pred("parent", vec![atom("tom"), atom("bob")]), vec![]),
        clause(
            pred("ancestor", vec![var("X"), var("Y")]),
            vec![
                pred("parent", vec![var("X"), var("Z")]),
                pred("ancestor", vec![var("Z"), var("Y")]),
            ],
        ),
    ];
    assert_eq!(show(&cs), show(&expected));
}

#[test]
fn arithmetic_is_left_associative() {
    let cs = parse_program("r(X, A, B, C) :- X is A - B + C.").unwrap();
    let goal = pred(
        "is",
        vec![var("X"), pred("+", vec![pred("-", vec![var("A"), var("B")]), var("C")])],
    );
    let expected = vec![clause(pred("r", vec![var("X"), var("A"), var("B"), var("C")]), vec![goal])];
    assert_eq!(show(&cs), show(&expected));
}

#[test]
fn products_bind_tighter_than_sums() {
    let cs = parse_program("r(X, Y, Z) :- X is Y + 3 * Z.").unwrap();
    let goal = pred("is", vec![var("X"), pred("+", vec![var("Y"), pred("*", vec![atom("3"), var("Z")])])]);
    assert_eq!(format!("{:?}", cs[0].body), format!("{:?}", vec![goal]));
}

#[test]
fn comparisons_and_negation() {
    let cs = parse_program("ok(A, B) :- A >= 10, B =< -2, \\+ blocked(A).").unwrap();
    let expected = vec![
        pred(">=", vec![var("A"), atom("10")]),
        pred("=<", vec![var("B"), atom("-2")]),
        pred("\\+", vec![pred("blocked", vec![var("A")])]),
    ];
    assert_eq!(format!("{:?}", cs[0].body), format!("{:?}", expected));
}

#[test]
fn list_elements_are_atoms_of_their_text() {
    let cs = parse_program("p([a, f(b, c) | T]).").unwrap();
    let list = cell(atom("a"), cell(atom("f(b,c)"), atom("T")));
    assert_eq!(format!("{:?}", cs[0].head), format!("{:?}", pred("p", vec![list])));
    let cs = parse_program("q([X, Y], []).").unwrap();
    let list = cell(atom("X"), cell(atom("Y"), Term::EmptyList));
    assert_eq!(format!("{:?}", cs[0].head), format!("{:?}", pred("q", vec![list, Term::EmptyList])));
}

#[test]
fn parenthesized_groups_are_atoms() {
    let cs = parse_program("t([('A', B, c)]).").unwrap();
    let list = cell(atom("('A',B,c)"), Term::EmptyList);
    assert_eq!(format!("{:?}", cs[0].head), format!("{:?}", pred("t", vec![list])));
}

#[test]
fn quoted_atoms_keep_quotes_and_spaces() {
    let cs = parse_program("name('Hello World').").unwrap();
    assert_eq!(format!("{:?}", cs[0].head), format!("{:?}", pred("name", vec![atom("'Hello World'")])));
}

#[test]
fn comments_and_directives_give_no_clause() {
    let text = "% a policy\n:- dynamic(p/1).\nallowed(alice). % trailing\n";
    let cs = parse_program(text).unwrap();
    assert_eq!(show(&cs), show(&[clause(pred("allowed", vec![atom("alice")]), vec![])]));
}

#[test]
fn default_clause_with_equality() {
    let cs = parse_program("c(_R, Class) :- Class = low.").unwrap();
    let expected = vec![clause(
        pred("c", vec![var("_R"), var("Class")]),
        vec![pred("=", vec![var("Class"), atom("low")])],
    )];
    assert_eq!(show(&cs), show(&expected));
}

#[test]
fn empty_program_has_no_clauses() {
    assert_eq!(parse_program("").unwrap().len(), 0);
    assert_eq!(parse_program("  % only a comment\n").unwrap().len(), 0);
}

#[test]
fn malformed_text_is_refused() {
    assert_eq!(parse_program("p(a").unwrap_err(), ParseError::Syntax);
    assert_eq!(parse_program("p(a) :- .").unwrap_err(), ParseError::Syntax);
    assert_eq!(parse_program("p(a)").unwrap_err(), ParseError::Syntax);
    assert_eq!(parse_program("p(a) q(b).").unwrap_err(), ParseError::Syntax);
}

#[test]
fn body_alternatives_give_one_clause_each() {
    let cs = parse_program("h(X) :- a(X), b ; c(X).").unwrap();
    let expected = vec![
        clause(pred("h", vec![var("X")]), vec![pred("a", vec![var("X")]), atom("b")]),
        clause(pred("h", vec![var("X")]), vec![pred("c", vec![var("X")])]),
    ];
    assert_eq!(show(&cs), show(&expected));
}

#[test]
fn more_operators() {
    let cs = parse_program("t(T, L, X) :- T =.. L, X is 7 rem 2 << 1.").unwrap();
    let expected = vec![
        pred("=..", vec![var("T"), var("L")]),
        pred("is", vec![var("X"), pred("<<", vec![pred("rem", vec![atom("7"), atom("2")]), atom("1")])]),
    ];
    assert_eq!(format!("{:?}", cs[0].body), format!("{:?}", expected));
}
