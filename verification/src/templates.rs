//! Prolog clauses as terms, and how they become rule templates: the
//! predicates each body row calls, and the equalities between argument
//! positions and with literals.
use vstd::prelude::*;
use crate::text::{
    split_top_state, is_ws, trim_start, chars_of, string_of, subvec, trim, trim_exec, find_char, find_char_exec, split_top, split_top_exec,
    starts_with_char, ends_with_char, chars_equal, lemma_split_top_pieces, lemma_trim_len_ascii,
    seq_lt, lex_less, join, lemma_split_top_join, top_commas, lemma_split_top_count, lemma_seq_lt_trans, lemma_seq_lt_total, lemma_seq_lt_irrefl,
};

verus! {

/// A Prolog term.
#[derive(Debug)]
pub enum Term {
    Atom(String),
    Var(String),
    Predicate { name: String, args: Vec<Term> },
    ListCell { head: Box<Term>, tail: Box<Term> },
    EmptyList,
}

impl Term {
    /// The number of arguments of a compound term (0 for the others).
    pub fn arity(&self) -> (r: usize)
        ensures
            r == (match self {
                Term::Predicate { args, .. } => args@.len(),
                _ => 0,
            }),
    {
        match self {
            Term::Predicate { args, .. } => args.len(),
            _ => 0,
        }
    }
}

/// A clause: its head and the terms of one body alternative, each a row.
#[derive(Debug)]
pub struct Clause {
    pub head: Term,
    pub body: Vec<Term>,
}

/// Whether two strings hold the same characters.
pub fn str_eq(a: &str, b: &str) -> (r: bool)
    ensures
        r == (a@ == b@),
{
    chars_equal(&chars_of(a), &chars_of(b))
}

/// Whether `s` names a variable: it starts with an uppercase ASCII letter
/// or an underscore, and is not `_` alone.
pub open spec fn is_var_name_spec(s: Seq<char>) -> bool {
    &&& s != seq!['_']
    &&& s.len() > 0
    &&& (('A' <= s[0] && s[0] <= 'Z') || s[0] == '_')
}

/// Whether `s` names a variable (the anonymous `_` does not).
pub fn is_var_name(s: &str) -> (r: bool)
    ensures
        r == is_var_name_spec(s@),
{
    let v = chars_of(s);
    if v.len() == 0 {
        return false;
    }
    if v.len() == 1 && v[0] == '_' {
        assert(v@ =~= seq!['_']);
        return false;
    }
    if v.len() == 1 {
        assert(v@ != seq!['_']) by {
            if v@ == seq!['_'] {
                assert(v@[0] == '_');
            }
        }
    }
    let first = v[0];
    ('A' <= first && first <= 'Z') || first == '_'
}

/// The operators and control constructs that a rule body treats as
/// built-in.
pub open spec fn builtin_ops_spec() -> Seq<Seq<char>> {
    seq![
        seq!['i', 's'], seq!['+'], seq!['-'], seq!['*'], seq!['/'], seq!['d', 'i', 'v'], seq!['m', 'o', 'd'],
        seq!['/', '/'], seq!['r', 'e', 'm'], seq!['*', '*'], seq!['^'], seq!['<', '<'], seq!['>', '>'],
        seq!['<'], seq!['>'], seq!['>', '='], seq!['=', '<'], seq!['=', ':', '='], seq!['=', '\\', '='],
        seq!['='], seq!['\\', '='], seq!['=', '='], seq!['\\', '=', '='], seq!['=', '.', '.'],
        seq!['@', '<'], seq!['@', '>'], seq!['@', '>', '='], seq!['@', '=', '<'],
        seq!['-', '>'], seq![','], seq![';'], seq!['\\', '+'],
    ]
}

/// The operators that chain in arithmetic and relational expressions (all
/// but `is`).
pub open spec fn chainable_spec() -> Seq<Seq<char>> {
    seq![
        seq!['+'], seq!['-'], seq!['*'], seq!['/'], seq!['d', 'i', 'v'], seq!['m', 'o', 'd'], seq!['/', '/'],
        seq!['r', 'e', 'm'], seq!['*', '*'], seq!['^'], seq!['<', '<'], seq!['>', '>'], seq!['<'], seq!['>'],
        seq!['>', '='], seq!['=', '<'], seq!['=', ':', '='], seq!['=', '\\', '='], seq!['='], seq!['\\', '='],
        seq!['=', '='], seq!['\\', '=', '='],
    ]
}

/// Every operator that chains is a built-in operator, and `is` is the one
/// built-in arithmetic operator that does not chain.
pub proof fn law_chainable_ops_are_builtin(name: Seq<char>)
    ensures
        chainable_spec().contains(name) ==> builtin_ops_spec().contains(name),
        builtin_ops_spec().contains(seq!['i', 's']),
        !chainable_spec().contains(seq!['i', 's']),
{
    assert(chainable_spec() =~= builtin_ops_spec().subrange(1, 23));
    if chainable_spec().contains(name) {
        let i = choose|i: int| 0 <= i < chainable_spec().len() && chainable_spec()[i] == name;
        assert(builtin_ops_spec()[i + 1] == name);
    }
    assert(builtin_ops_spec()[0] == seq!['i', 's']);
    assert forall|i: int| 0 <= i < chainable_spec().len() implies #[trigger] chainable_spec()[i] != seq!['i', 's'] by {
        assert(chainable_spec()[i][0] != 'i');
        assert(seq!['i', 's'][0] == 'i');
    }
}

/// A vector of the characters of a short literal.
fn lit(c: &[char]) -> (r: Vec<char>)
    ensures
        r@ == c@,
{
    let mut v: Vec<char> = Vec::new();
    let mut i: usize = 0;
    while i < c.len()
        invariant
            i <= c@.len(),
            v@ == c@.take(i as int),
        decreases c@.len() - i,
    {
        v.push(c[i]);
        assert(v@ =~= c@.take(i + 1));
        i = i + 1;
    }
    assert(c@.take(c@.len() as int) =~= c@);
    v
}

/// The names of the built-in operators, as character vectors.
pub fn builtin_ops_set() -> (r: Vec<Vec<char>>)
    ensures
        r@.len() == builtin_ops_spec().len(),
        forall|i: int| 0 <= i < r@.len() ==> (#[trigger] r@[i])@ == builtin_ops_spec()[i],
{
    let mut v: Vec<Vec<char>> = Vec::new();
    v.push(lit(&['i', 's']));
    v.push(lit(&['+']));
    v.push(lit(&['-']));
    v.push(lit(&['*']));
    v.push(lit(&['/']));
    v.push(lit(&['d', 'i', 'v']));
    v.push(lit(&['m', 'o', 'd']));
    v.push(lit(&['/', '/']));
    v.push(lit(&['r', 'e', 'm']));
    v.push(lit(&['*', '*']));
    v.push(lit(&['^']));
    v.push(lit(&['<', '<']));
    v.push(lit(&['>', '>']));
    v.push(lit(&['<']));
    v.push(lit(&['>']));
    v.push(lit(&['>', '=']));
    v.push(lit(&['=', '<']));
    v.push(lit(&['=', ':', '=']));
    v.push(lit(&['=', '\\', '=']));
    v.push(lit(&['=']));
    v.push(lit(&['\\', '=']));
    v.push(lit(&['=', '=']));
    v.push(lit(&['\\', '=', '=']));
    v.push(lit(&['=', '.', '.']));
    v.push(lit(&['@', '<']));
    v.push(lit(&['@', '>']));
    v.push(lit(&['@', '>', '=']));
    v.push(lit(&['@', '=', '<']));
    v.push(lit(&['-', '>']));
    v.push(lit(&[',']));
    v.push(lit(&[';']));
    v.push(lit(&['\\', '+']));
    v
}

/// The names of the chainable operators, as character vectors.
fn chainable_ops() -> (r: Vec<Vec<char>>)
    ensures
        r@.len() == chainable_spec().len(),
        forall|i: int| 0 <= i < r@.len() ==> (#[trigger] r@[i])@ == chainable_spec()[i],
{
    let mut v: Vec<Vec<char>> = Vec::new();
    v.push(lit(&['+']));
    v.push(lit(&['-']));
    v.push(lit(&['*']));
    v.push(lit(&['/']));
    v.push(lit(&['d', 'i', 'v']));
    v.push(lit(&['m', 'o', 'd']));
    v.push(lit(&['/', '/']));
    v.push(lit(&['r', 'e', 'm']));
    v.push(lit(&['*', '*']));
    v.push(lit(&['^']));
    v.push(lit(&['<', '<']));
    v.push(lit(&['>', '>']));
    v.push(lit(&['<']));
    v.push(lit(&['>']));
    v.push(lit(&['>', '=']));
    v.push(lit(&['=', '<']));
    v.push(lit(&['=', ':', '=']));
    v.push(lit(&['=', '\\', '=']));
    v.push(lit(&['=']));
    v.push(lit(&['\\', '=']));
    v.push(lit(&['=', '=']));
    v.push(lit(&['\\', '=', '=']));
    v
}

/// Whether `s` is one of the names in `table`.
fn in_table(table: &Vec<Vec<char>>, s: &Vec<char>) -> (r: bool)
    ensures
        r == exists|i: int| 0 <= i < table@.len() && (#[trigger] table@[i])@ == s@,
{
    let mut i: usize = 0;
    while i < table.len()
        invariant
            i <= table@.len(),
            forall|k: int| 0 <= k < i ==> (#[trigger] table@[k])@ != s@,
        decreases table@.len() - i,
    {
        if chars_equal(&table[i], s) {
            return true;
        }
        i = i + 1;
    }
    false
}

/// Whether `name` is a built-in operator.
pub fn is_builtin_op(name: &str) -> (r: bool)
    ensures
        r == builtin_ops_spec().contains(name@),
{
    let t = builtin_ops_set();
    let r = in_table(&t, &chars_of(name));
    proof {
        if builtin_ops_spec().contains(name@) {
            let i = choose|i: int| 0 <= i < builtin_ops_spec().len() && builtin_ops_spec()[i] == name@;
            assert(t@[i]@ == name@);
        }
    }
    r
}

/// Whether `name` is an operator that chains in arithmetic and relational
/// expressions.
pub fn chainable_op(name: &str) -> (r: bool)
    ensures
        r == chainable_spec().contains(name@),
{
    let t = chainable_ops();
    let r = in_table(&t, &chars_of(name));
    proof {
        if chainable_spec().contains(name@) {
            let i = choose|i: int| 0 <= i < chainable_spec().len() && chainable_spec()[i] == name@;
            assert(t@[i]@ == name@);
        }
    }
    r
}

/// The pieces of `s` between the commas outside parentheses.
pub fn split_top_level_commas(s: &str) -> (r: Vec<String>)
    ensures
        r@.len() == split_top(s@, false).len(),
        forall|i: int| 0 <= i < r@.len() ==> (#[trigger] r@[i])@ == split_top(s@, false)[i],
{
    let parts = split_top_exec(&chars_of(s), false);
    strings_of(&parts)
}

/// The pieces of a top-level comma split, joined again with commas, give
/// back the text, and there is one piece more than there are commas at
/// parenthesis depth zero.
pub proof fn law_split_top_level_commas_joins_back(s: Seq<char>)
    ensures
        join(split_top(s, false), seq![',']) == s,
        split_top(s, false).len() == 1 + top_commas(s, s.len() as int),
{
    lemma_split_top_join(s, false);
    lemma_split_top_count(s);
}

/// The strings of character vectors.
pub fn strings_of(v: &Vec<Vec<char>>) -> (r: Vec<String>)
    ensures
        r@.len() == v@.len(),
        forall|i: int| 0 <= i < r@.len() ==> (#[trigger] r@[i])@ == v@[i]@,
{
    let mut out: Vec<String> = Vec::new();
    let mut i: usize = 0;
    while i < v.len()
        invariant
            i <= v@.len(),
            out@.len() == i,
            forall|k: int| 0 <= k < i ==> (#[trigger] out@[k])@ == v@[k]@,
        decreases v@.len() - i,
    {
        out.push(string_of(&v[i]));
        i = i + 1;
    }
    out
}

/// The fields of a tuple text `(a, b, ...)`, trimmed; any other text is a
/// single field (trimmed). Anonymous fields stay, so positions count.
pub open spec fn tuple_fields_spec(s: Seq<char>) -> Seq<Seq<char>> {
    let t = trim(s);
    if starts_with_char(t, '(') && ends_with_char(t, ')') {
        split_top(t.subrange(1, t.len() - 1), false).map_values(|x: Seq<char>| trim(x))
    } else {
        seq![t]
    }
}

/// The fields of a tuple text, or the text itself.
pub fn parse_tuple_fields_keep_all(atom_str: &str) -> (r: Vec<String>)
    ensures
        r@.len() == tuple_fields_spec(atom_str@).len(),
        forall|i: int| 0 <= i < r@.len() ==> (#[trigger] r@[i])@ == tuple_fields_spec(atom_str@)[i],
{
    let t = trim_exec(&chars_of(atom_str));
    if !(t.len() > 0 && t[0] == '(' && t[t.len() - 1] == ')') {
        let mut out: Vec<String> = Vec::new();
        out.push(string_of(&t));
        return out;
    }
    assert(t@.len() >= 2) by {
        if t@.len() == 1 {
            assert(t@[0] == '(' && t@[0] == ')');
        }
    }
    let inner = subvec(&t, 1, t.len() - 1);
    let parts = split_top_exec(&inner, false);
    let mut out: Vec<String> = Vec::new();
    let mut i: usize = 0;
    while i < parts.len()
        invariant
            i <= parts@.len(),
            parts@.len() == split_top(inner@, false).len(),
            forall|k: int| 0 <= k < parts@.len() ==> (#[trigger] parts@[k])@ == split_top(inner@, false)[k],
            out@.len() == i,
            forall|k: int| 0 <= k < i ==> (#[trigger] out@[k])@ == trim(split_top(inner@, false)[k]),
        decreases parts@.len() - i,
    {
        out.push(string_of(&trim_exec(&parts[i])));
        i = i + 1;
    }
    out
}

/// The text of a term: atoms and variables as written, `[]` for the empty
/// list, `name(a, b)` for compound terms, and `[a,b|T]` for lists (at most
/// 1026 elements are written out before the rest is shown as a tail).
pub open spec fn term_string(t: Term) -> Seq<char>
    decreases t, 0nat,
{
    match t {
        Term::Atom(s) => s@,
        Term::Var(v) => v@,
        Term::EmptyList => seq!['[', ']'],
        Term::Predicate { name, args } => name@ + seq!['('] + args_string(args@, args@.len()) + seq![')'],
        Term::ListCell { head, tail } => seq!['['] + term_string(*head) + list_rest(*tail, 1025) + seq![']'],
    }
}

/// The texts of the first `k` arguments, separated by `, `.
pub open spec fn args_string(args: Seq<Term>, k: nat) -> Seq<char>
    decreases args, k,
{
    if k == 0 || k > args.len() {
        Seq::empty()
    } else if k == 1 {
        term_string(args[0])
    } else {
        args_string(args, (k - 1) as nat) + seq![',', ' '] + term_string(args[k - 1])
    }
}

/// The rest of a list's text after its first element: `,x` for each further
/// element (at most `g` of them), then nothing for the empty list or `|T`
/// for another tail.
pub open spec fn list_rest(t: Term, g: nat) -> Seq<char>
    decreases t, 1nat,
{
    match t {
        Term::ListCell { head, tail } => if g > 0 {
            seq![','] + term_string(*head) + list_rest(*tail, (g - 1) as nat)
        } else {
            seq!['|'] + term_string(t)
        },
        Term::EmptyList => Seq::empty(),
        _ => seq!['|'] + term_string(t),
    }
}

/// Appends the characters of `b` to `a`.
fn append_chars(a: &mut Vec<char>, b: &Vec<char>)
    ensures
        final(a)@ == old(a)@ + b@,
{
    let mut i: usize = 0;
    while i < b.len()
        invariant
            i <= b@.len(),
            a@ == old(a)@ + b@.take(i as int),
        decreases b@.len() - i,
    {
        a.push(b[i]);
        assert(a@ =~= old(a)@ + b@.take(i + 1));
        i = i + 1;
    }
    assert(b@.take(b@.len() as int) =~= b@);
}

/// The text of a term, as characters.
fn term_chars(t: &Term) -> (r: Vec<char>)
    ensures
        r@ == term_string(*t),
    decreases t, 0nat,
{
    match t {
        Term::Atom(s) => chars_of(s.as_str()),
        Term::Var(v) => chars_of(v.as_str()),
        Term::EmptyList => lit(&['[', ']']),
        Term::Predicate { name, args } => {
            let mut out = chars_of(name.as_str());
            out.push('(');
            let inner = args_chars(args, args.len());
            append_chars(&mut out, &inner);
            out.push(')');
            out
        },
        Term::ListCell { head, tail } => {
            let mut out: Vec<char> = Vec::new();
            out.push('[');
            let h = term_chars(head);
            append_chars(&mut out, &h);
            let rest = list_rest_chars(tail, 1025);
            append_chars(&mut out, &rest);
            out.push(']');
            out
        },
    }
}

/// The texts of the first `k` arguments, separated by `, `.
fn args_chars(args: &Vec<Term>, k: usize) -> (r: Vec<char>)
    ensures
        r@ == args_string(args@, k as nat),
    decreases args@, k,
{
    if k == 0 || k > args.len() {
        Vec::new()
    } else if k == 1 {
        term_chars(&args[0])
    } else {
        let mut out = args_chars(args, k - 1);
        out.push(',');
        out.push(' ');
        let last = term_chars(&args[k - 1]);
        append_chars(&mut out, &last);
        out
    }
}

/// The rest of a list's text after its first element.
fn list_rest_chars(t: &Term, g: usize) -> (r: Vec<char>)
    ensures
        r@ == list_rest(*t, g as nat),
    decreases t, 1nat,
{
    match t {
        Term::ListCell { head, tail } => {
            if g > 0 {
                let mut out: Vec<char> = Vec::new();
                out.push(',');
                let h = term_chars(head);
                append_chars(&mut out, &h);
                let rest = list_rest_chars(tail, g - 1);
                append_chars(&mut out, &rest);
                out
            } else {
                let mut out: Vec<char> = Vec::new();
                out.push('|');
                let whole = term_chars(t);
                append_chars(&mut out, &whole);
                out
            }
        },
        Term::EmptyList => Vec::new(),
        _ => {
            let mut out: Vec<char> = Vec::new();
            out.push('|');
            let whole = term_chars(t);
            append_chars(&mut out, &whole);
            out
        },
    }
}

/// The text of a term.
pub fn term_as_string(t: &Term) -> (r: String)
    ensures
        r@ == term_string(*t),
{
    string_of(&term_chars(t))
}

/// Whether `t` is a chainable operator applied to two arguments.
pub open spec fn is_chain_node(t: Term) -> bool {
    t matches Term::Predicate { name, args } && args@.len() == 2 && chainable_spec().contains(name@)
}

/// The leftmost leaf of an operator chain: the first argument, followed as
/// long as it is a chain node.
pub open spec fn leftmost_spec(t: Term) -> Term
    decreases t,
{
    match t {
        Term::Predicate { name, args } => if args@.len() == 2 && chainable_spec().contains(name@) {
            leftmost_spec(args@[0])
        } else {
            t
        },
        _ => t,
    }
}

/// The leftmost leaf of an operator tree.
pub fn leftmost_leaf(term: &Term) -> (r: &Term)
    ensures
        *r == leftmost_spec(*term),
    decreases term,
{
    match term {
        Term::Predicate { name, args } => {
            if args.len() == 2 && chainable_op(name.as_str()) {
                leftmost_leaf(&args[0])
            } else {
                term
            }
        },
        _ => term,
    }
}

/// The in-order walk of an operator chain: for each chain node, the walk of
/// its left argument, the node's operator with its right argument, then the
/// walk of its right argument.
pub open spec fn chain_spec(t: Term) -> Seq<(Seq<char>, Term)>
    decreases t,
{
    match t {
        Term::Predicate { name, args } => if args@.len() == 2 && chainable_spec().contains(name@) {
            chain_spec(args@[0]) + seq![(name@, args@[1])] + chain_spec(args@[1])
        } else {
            Seq::empty()
        },
        _ => Seq::empty(),
    }
}

/// Appends the in-order walk of an operator chain: each operator with its
/// right argument.
pub fn collect_right_args_inorder<'a>(term: &'a Term, acc: &mut Vec<(String, &'a Term)>)
    ensures
        final(acc)@.len() == old(acc)@.len() + chain_spec(*term).len(),
        forall|i: int| 0 <= i < old(acc)@.len() ==> (#[trigger] final(acc)@[i]) == old(acc)@[i],
        forall|i: int| 0 <= i < chain_spec(*term).len() ==> {
            &&& (#[trigger] final(acc)@[old(acc)@.len() + i]).0@ == chain_spec(*term)[i].0
            &&& *final(acc)@[old(acc)@.len() + i].1 == chain_spec(*term)[i].1
        },
    decreases term,
{
    match term {
        Term::Predicate { name, args } => {
            if args.len() == 2 && chainable_op(name.as_str()) {
                let ghost a0 = acc@;
                collect_right_args_inorder(&args[0], acc);
                let ghost a1 = acc@;
                let nm = name.clone();
                assert(nm@ == name@);
                acc.push((nm, &args[1]));
                let ghost a2 = acc@;
                collect_right_args_inorder(&args[1], acc);
                proof {
                    let c0 = chain_spec(args@[0]);
                    let c1 = chain_spec(args@[1]);
                    assert(chain_spec(*term) == c0 + seq![(name@, args@[1])] + c1);
                    assert forall|i: int| 0 <= i < chain_spec(*term).len() implies {
                        &&& (#[trigger] acc@[a0.len() + i]).0@ == chain_spec(*term)[i].0
                        &&& *acc@[a0.len() + i].1 == chain_spec(*term)[i].1
                    } by {
                        let whole = c0 + seq![(name@, args@[1])] + c1;
                        if i < c0.len() {
                            assert(acc@[a0.len() + i] == a2[a0.len() + i]);
                            assert(a2[a0.len() + i] == a1[a0.len() + i]);
                            assert(whole[i] == c0[i]);
                        } else if i == c0.len() {
                            assert(acc@[a0.len() + i] == a2[a1.len() as int]);
                            assert(whole[i] == (name@, args@[1]));
                        } else {
                            let k = i - c0.len() - 1;
                            assert(a2.len() == a0.len() + c0.len() + 1);
                            assert(acc@[a2.len() + k] == acc@[a0.len() + i]);
                            assert(whole[i] == c1[k]);
                        }
                    }
                }
            }
        },
        _ => {},
    }
}

/// Whether `t` is the term read from the text `s` (with at most `n` levels
/// of nesting): a bracketed text is a list, anything else an atom.
pub open spec fn term_from_text(t: Term, s: Seq<char>, n: nat) -> bool
    decreases n, 2nat, 0int,
{
    if starts_with_char(s, '[') && ends_with_char(s, ']') {
        list_from_text(t, s, n)
    } else {
        t matches Term::Atom(a) && a@ == s
    }
}

/// The elements and the optional tail text of the inside of a list text.
pub open spec fn list_parts(inner: Seq<char>) -> (Seq<Seq<char>>, Option<Seq<char>>) {
    let (left, tail) = match find_char(inner, '|') {
        Some(p) => (trim(inner.subrange(0, p as int)), Some(trim(inner.subrange(p as int + 1, inner.len() as int)))),
        None => (trim(inner), None),
    };
    (split_top(left, false).map_values(|x: Seq<char>| trim(x)), tail)
}

/// Whether `t` is the list read from the text `s = [...]`: empty when the
/// inside is blank; otherwise the top-level comma-separated elements before
/// the first `|`, ending in the term after it (or the empty list).
pub open spec fn list_from_text(t: Term, s: Seq<char>, n: nat) -> bool
    decreases n, 1nat, 0int,
{
    if n == 0 || s.len() < 2 {
        false
    } else {
        let inner = s.subrange(1, s.len() - 1);
        if trim(inner).len() == 0 {
            t is EmptyList
        } else {
            let (parts, tail) = list_parts(inner);
            cells_from(t, parts, 0, tail, (n - 1) as nat)
        }
    }
}

/// Whether `t` is the list of the elements `parts[i..]` followed by the tail.
pub open spec fn cells_from(t: Term, parts: Seq<Seq<char>>, i: int, tail: Option<Seq<char>>, n: nat) -> bool
    decreases n, 3nat, parts.len() - i,
{
    if i < 0 {
        false
    } else if i >= parts.len() {
        match tail {
            Some(ts) => term_from_text(t, ts, n),
            None => t is EmptyList,
        }
    } else {
        t matches Term::ListCell { head, tail: rest } && term_from_text(*head, parts[i], n) && cells_from(*rest, parts, i + 1, tail, n)
    }
}

/// Reads a term from text with at most `n` levels of nesting.
fn parse_term_chars(s: &Vec<char>, n: usize) -> (t: Term)
    requires
        s@.len() <= n,
    ensures
        term_from_text(t, s@, n as nat),
    decreases n, 2usize,
{
    if s.len() > 0 && s[0] == '[' && s[s.len() - 1] == ']' {
        assert(s@.len() >= 2) by {
            if s@.len() == 1 {
                assert(s@[0] == '[' && s@[0] == ']');
            }
        }
        parse_list_chars(s, n)
    } else {
        Term::Atom(string_of(s))
    }
}

/// Reads a list from a bracketed text.
fn parse_list_chars(s: &Vec<char>, n: usize) -> (t: Term)
    requires
        s@.len() <= n,
        s@.len() >= 2,
    ensures
        list_from_text(t, s@, n as nat),
    decreases n, 1usize,
{
    let inner = subvec(s, 1, s.len() - 1);
    proof {
        lemma_trim_len_ascii(inner@);
    }
    let tr = trim_exec(&inner);
    if tr.len() == 0 {
        return Term::EmptyList;
    }
    let m = n - 1;
    let (left, tail) = match find_char_exec(&inner, '|') {
        Some(p) => {
            proof {
                crate::text::lemma_find_some_occurs(inner@, seq!['|'], p as nat);
                lemma_trim_len_ascii(inner@.subrange(0, p as int));
                lemma_trim_len_ascii(inner@.subrange(p + 1, inner@.len() as int));
            }
            (trim_exec(&subvec(&inner, 0, p)), Some(trim_exec(&subvec(&inner, p + 1, inner.len()))))
        },
        None => (tr, None),
    };
    let ghost (parts_v, tail_v) = list_parts(inner@);
    assert(left@ == trim(if tail_v is Some { inner@.subrange(0, find_char(inner@, '|')->Some_0 as int) } else { inner@ }));
    proof {
        lemma_split_top_pieces(left@, false);
    }
    let pieces = split_top_exec(&left, false);
    let mut parts: Vec<Vec<char>> = Vec::new();
    let mut i: usize = 0;
    while i < pieces.len()
        invariant
            i <= pieces@.len(),
            pieces@.len() == split_top(left@, false).len(),
            forall|k: int| 0 <= k < pieces@.len() ==> (#[trigger] pieces@[k])@ == split_top(left@, false)[k],
            parts@.len() == i,
            forall|k: int| 0 <= k < i ==> (#[trigger] parts@[k])@ == trim(split_top(left@, false)[k]),
        decreases pieces@.len() - i,
    {
        parts.push(trim_exec(&pieces[i]));
        i = i + 1;
    }
    assert(parts_v.len() == parts@.len());
    assert forall|k: int| 0 <= k < parts@.len() implies (#[trigger] parts@[k])@ == parts_v[k] && parts_v[k].len() <= m by {
        lemma_trim_len_ascii(split_top(left@, false)[k]);
    }
    let mut t = match &tail {
        Some(ts) => parse_term_chars(ts, m),
        None => Term::EmptyList,
    };
    let mut k = parts.len();
    while k > 0
        invariant
            m < n,
            k <= parts@.len(),
            parts_v.len() == parts@.len(),
            forall|q: int| 0 <= q < parts@.len() ==> (#[trigger] parts@[q])@ == parts_v[q] && parts_v[q].len() <= m,
            cells_from(t, parts_v, k as int, tail_v, m as nat),
        decreases k,
    {
        k = k - 1;
        let h = parse_term_chars(&parts[k], m);
        t = Term::ListCell { head: Box::new(h), tail: Box::new(t) };
    }
    t
}

/// Reads a list from a bracketed text `[a, b | T]`: the text between its
/// first and last characters.
pub fn parse_list(s: &str) -> (t: Term)
    requires
        s@.len() >= 2,
    ensures
        list_from_text(t, s@, s@.len()),
{
    let v = chars_of(s);
    parse_list_chars(&v, v.len())
}

/// Whether `x` is a plain element text: not empty, no whitespace at its
/// ends, and none of `,`, `|`, `(`, `)`, `[`, `]` in it.
pub open spec fn plain_text(x: Seq<char>) -> bool {
    &&& x.len() > 0
    &&& !is_ws(x[0])
    &&& !is_ws(x.last())
    &&& forall|k: int|
        0 <= k < x.len() ==> #[trigger] x[k] != ',' && x[k] != '|' && x[k] != '(' && x[k] != ')' && x[k] != '['
            && x[k] != ']'
}

/// Whether `t` is a proper list whose elements are atoms of plain text.
pub open spec fn plain_list(t: Term) -> bool
    decreases t,
{
    match t {
        Term::EmptyList => true,
        Term::ListCell { head, tail } => (*head matches Term::Atom(a) && plain_text(a@)) && plain_list(*tail),
        _ => false,
    }
}

/// The element texts of a list.
pub open spec fn list_texts(t: Term) -> Seq<Seq<char>>
    decreases t,
{
    match t {
        Term::ListCell { head, tail } => seq![head_text(*head)] + list_texts(*tail),
        _ => Seq::empty(),
    }
}

/// Joining pieces with one more piece at the front.
proof fn lemma_join_prepend(h: Seq<char>, ys: Seq<Seq<char>>, sep: Seq<char>)
    ensures
        join(seq![h] + ys, sep) == if ys.len() == 0 { h } else { h + sep + join(ys, sep) },
    decreases ys.len(),
{
    let all = seq![h] + ys;
    if ys.len() == 0 {
        assert(all.len() == 1 && all[0] == h);
    } else {
        lemma_join_prepend(h, ys.drop_last(), sep);
        assert(all.drop_last() =~= seq![h] + ys.drop_last());
        assert(all.last() == ys.last());
        if ys.len() == 1 {
            assert(ys.drop_last().len() == 0);
            assert(join(ys, sep) == ys[0]);
        }
    }
}

/// The text after the first element of a plain list.
proof fn lemma_list_rest_plain(t: Term, g: nat)
    requires
        plain_list(t),
        list_texts(t).len() <= g,
    ensures
        list_rest(t, g) == if list_texts(t).len() == 0 { Seq::<char>::empty() } else { seq![','] + join(list_texts(t), seq![',']) },
    decreases t,
{
    match t {
        Term::ListCell { head, tail } => {
            lemma_list_rest_plain(*tail, (g - 1) as nat);
            lemma_join_prepend(head_text(*head), list_texts(*tail), seq![',']);
            assert(term_string(*head) == head_text(*head));
            if list_texts(*tail).len() == 0 {
                assert(list_rest(t, g) =~= seq![','] + join(list_texts(t), seq![',']));
            } else {
                assert(list_rest(t, g) =~= seq![','] + join(list_texts(t), seq![',']));
            }
        },
        _ => {},
    }
}

/// Every element text of a plain list is plain.
proof fn lemma_list_texts_plain(t: Term)
    requires
        plain_list(t),
    ensures
        forall|i: int| 0 <= i < list_texts(t).len() ==> plain_text(#[trigger] list_texts(t)[i]),
    decreases t,
{
    match t {
        Term::ListCell { head, tail } => {
            lemma_list_texts_plain(*tail);
            assert forall|i: int| 0 <= i < list_texts(t).len() implies plain_text(#[trigger] list_texts(t)[i]) by {
                if i > 0 {
                    assert(list_texts(t)[i] == list_texts(*tail)[i - 1]);
                }
            }
        },
        _ => {},
    }
}

/// No `|` in pieces of plain text joined with commas.
proof fn lemma_join_plain_no_bar(xs: Seq<Seq<char>>)
    requires
        forall|i: int| 0 <= i < xs.len() ==> plain_text(#[trigger] xs[i]),
    ensures
        forall|k: int| 0 <= k < join(xs, seq![',']).len() ==> #[trigger] join(xs, seq![','])[k] != '|',
    decreases xs.len(),
{
    if xs.len() == 1 {
        assert(plain_text(xs[0]));
    } else if xs.len() > 1 {
        let ys = xs.drop_last();
        assert forall|i: int| 0 <= i < ys.len() implies plain_text(#[trigger] ys[i]) by {
            assert(ys[i] == xs[i]);
        }
        lemma_join_plain_no_bar(ys);
        let a = join(ys, seq![',']);
        let x = xs.last();
        assert(plain_text(xs[xs.len() - 1]));
        assert forall|k: int| 0 <= k < join(xs, seq![',']).len() implies #[trigger] join(xs, seq![','])[k] != '|' by {
            if k < a.len() {
                assert(join(xs, seq![','])[k] == a[k]);
            } else if k > a.len() {
                assert(join(xs, seq![','])[k] == x[k - a.len() - 1]);
            }
        }
    }
}

/// A text with no whitespace at its ends is its own trim.
proof fn lemma_trim_plain_ends(x: Seq<char>)
    requires
        x.len() > 0,
        !is_ws(x[0]),
        !is_ws(x.last()),
    ensures
        trim(x) == x,
{
    assert(trim_start(x) == x);
}

/// A plain list read from `parts[i..]` with no tail.
proof fn lemma_cells_plain(t: Term, parts: Seq<Seq<char>>, i: int, n: nat)
    requires
        plain_list(t),
        0 <= i <= parts.len(),
        list_texts(t) == parts.subrange(i, parts.len() as int),
    ensures
        cells_from(t, parts, i, None, n),
    decreases t,
{
    match t {
        Term::ListCell { head, tail } => {
            assert(list_texts(t) == seq![head_text(*head)] + list_texts(*tail));
            assert(list_texts(t)[0] == head_text(*head));
            assert(list_texts(t).len() >= 1);
            assert(i < parts.len());
            assert(parts.subrange(i, parts.len() as int)[0] == parts[i]);
            assert(parts[i] == head_text(*head));
            assert(list_texts(*tail) =~= list_texts(t).drop_first());
            assert(list_texts(*tail) =~= parts.subrange(i + 1, parts.len() as int));
            lemma_cells_plain(*tail, parts, i + 1, n);
            let a = head_text(*head);
            assert(a[0] != '[');
            assert(!starts_with_char(parts[i], '['));
            assert(term_from_text(*head, parts[i], n));
        },
        _ => {
            assert(list_texts(t).len() == 0);
        },
    }
}

/// A printed list of plain atoms reads back as itself: the list it came
/// from meets the specification of what `parse_list` returns on its text.
pub proof fn law_parse_list_reads_printed_list(t: Term)
    requires
        t is ListCell,
        plain_list(t),
        list_texts(t).len() <= 1026,
    ensures
        list_from_text(t, term_string(t), term_string(t).len()),
{
    let xs = list_texts(t);
    let s = term_string(t);
    lemma_list_texts_plain(t);
    match t {
        Term::ListCell { head, tail } => {
            lemma_list_rest_plain(*tail, 1025);
            lemma_join_prepend(head_text(*head), list_texts(*tail), seq![',']);
            assert(term_string(*head) == head_text(*head));
            let js = join(xs, seq![',']);
            assert(s =~= seq!['['] + js + seq![']']);
            let inner = s.subrange(1, s.len() - 1);
            assert(inner =~= js);
            assert(crate::text::closed_pieces(xs)) by {
                assert forall|i: int| 0 <= i < xs.len() implies crate::text::top_commas(#[trigger] xs[i], xs[i].len() as int) == 0
                    && crate::text::paren_depth(xs[i], xs[i].len() as int) == 0 by {
                    assert(plain_text(xs[i]));
                    crate::text::lemma_plain_depth(xs[i], xs[i].len() as int);
                }
            }
            crate::text::lemma_split_top_of_join(xs);
            lemma_join_plain_no_bar(xs);
            assert forall|j: int| 0 <= j && j + seq!['|'].len() <= inner.len() implies !crate::text::occurs_at(inner, seq!['|'], j) by {
                if crate::text::occurs_at(inner, seq!['|'], j) {
                    assert(inner.subrange(j, j + 1)[0] == inner[j]);
                    assert(inner[j] == js[j]);
                }
            }
            crate::text::lemma_find_from_none(inner, seq!['|'], 0);
            assert(find_char(inner, '|') is None);
            assert(plain_text(xs[0]));
            assert(plain_text(xs[xs.len() - 1]));
            lemma_join_prepend(xs[0], xs.drop_first(), seq![',']);
            assert(seq![xs[0]] + xs.drop_first() =~= xs);
            assert(js[0] == xs[0][0]);
            if xs.len() > 1 {
                assert(js.last() == xs.last().last());
            } else {
                assert(js == xs[0]);
            }
            lemma_trim_plain_ends(js);
            let parts = split_top(js, false).map_values(|x: Seq<char>| trim(x));
            assert forall|i: int| 0 <= i < xs.len() implies trim(#[trigger] xs[i]) == xs[i] by {
                assert(plain_text(xs[i]));
                lemma_trim_plain_ends(xs[i]);
            }
            assert(parts =~= xs);
            assert(list_parts(inner) == (parts, None::<Seq<char>>));
            assert(xs.subrange(0, xs.len() as int) =~= xs);
            lemma_cells_plain(t, xs, 0, (s.len() - 1) as nat);
        },
        _ => {},
    }
}

/// Whether `x` can stand as a list element or tail in a list text that
/// reads back as written: not empty, no whitespace and none of `[`, `]`,
/// `|` in it, and no comma outside its parentheses (which need not close).
pub open spec fn elem_text(x: Seq<char>) -> bool {
    &&& x.len() > 0
    &&& forall|k: int| 0 <= k < x.len() ==> list_char(#[trigger] x[k])
    &&& top_commas(x, x.len() as int) == 0
}

/// A character that may stand in an element of a list text that reads back
/// as written.
pub open spec fn list_char(c: char) -> bool {
    !is_ws(c) && c != '[' && c != ']' && c != '|'
}

/// The tail part of a list text: `|t`, or nothing.
pub open spec fn tail_part(tail: Option<Seq<char>>) -> Seq<char> {
    match tail {
        Some(x) => seq!['|'] + x,
        None => Seq::empty(),
    }
}

/// The list text `[e1,...,ek]` or `[e1,...,ek|t]`.
pub open spec fn list_text(es: Seq<Seq<char>>, tail: Option<Seq<char>>) -> Seq<char> {
    seq!['['] + join(es, seq![',']) + tail_part(tail) + seq![']']
}

/// The text after element `i - 1`: `,e` for each further element, then the
/// tail part.
pub open spec fn rest_text(es: Seq<Seq<char>>, i: int, tail: Option<Seq<char>>) -> Seq<char>
    decreases es.len() - i,
{
    if i < 0 || i >= es.len() {
        tail_part(tail)
    } else {
        seq![','] + es[i] + rest_text(es, i + 1, tail)
    }
}

/// An element followed by the rest text is the joined elements from it on,
/// followed by the tail part.
proof fn lemma_join_rest(es: Seq<Seq<char>>, i: int, tail: Option<Seq<char>>)
    requires
        0 <= i < es.len(),
    ensures
        es[i] + rest_text(es, i + 1, tail) == join(es.subrange(i, es.len() as int), seq![',']) + tail_part(tail),
    decreases es.len() - i,
{
    let sub = es.subrange(i, es.len() as int);
    if i == es.len() - 1 {
        assert(sub.len() == 1 && sub[0] == es[i]);
        assert(join(sub, seq![',']) == es[i]);
    } else {
        lemma_join_rest(es, i + 1, tail);
        let rest = es.subrange(i + 1, es.len() as int);
        assert(sub =~= seq![es[i]] + rest);
        lemma_join_prepend(es[i], rest, seq![',']);
        assert(rest_text(es, i + 1, tail) == seq![','] + es[i + 1] + rest_text(es, i + 2, tail));
        assert(join(sub, seq![',']) == es[i] + seq![','] + join(rest, seq![',']));
        let r2 = rest_text(es, i + 2, tail);
        assert(es[i + 1] + r2 == join(rest, seq![',']) + tail_part(tail));
        assert(seq![','] + es[i + 1] + r2 =~= seq![','] + (es[i + 1] + r2));
        assert(es[i] + (seq![','] + (join(rest, seq![',']) + tail_part(tail))) =~= es[i] + seq![','] + join(rest, seq![',']) + tail_part(tail));
        assert(es[i] + rest_text(es, i + 1, tail) =~= join(sub, seq![',']) + tail_part(tail));
    }
}

/// What the list reader gives for the elements from `i` on prints as the
/// rest text.
proof fn lemma_cells_print(t: Term, es: Seq<Seq<char>>, i: int, tail: Option<Seq<char>>, m: nat, g: nat)
    requires
        0 <= i <= es.len(),
        es.len() - i <= g,
        forall|k: int| 0 <= k < es.len() ==> !starts_with_char(#[trigger] es[k], '['),
        tail matches Some(x) ==> !starts_with_char(x, '['),
        cells_from(t, es, i, tail, m),
    ensures
        list_rest(t, g) == rest_text(es, i, tail),
    decreases es.len() - i,
{
    if i >= es.len() {
        assert(rest_text(es, i, tail) == tail_part(tail));
        match tail {
            Some(x) => {
                assert(!starts_with_char(x, '['));
                assert(term_from_text(t, x, m));
                match t {
                    Term::Atom(a) => {
                        assert(a@ == x);
                        assert(list_rest(t, g) == seq!['|'] + term_string(t));
                    },
                    _ => {},
                }
            },
            None => {
                assert(t is EmptyList);
            },
        }
    } else {
        assert(rest_text(es, i, tail) == seq![','] + es[i] + rest_text(es, i + 1, tail));
        match t {
            Term::ListCell { head, tail: rest } => {
                assert(!starts_with_char(es[i], '['));
                assert(term_from_text(*head, es[i], m));
                assert(term_string(*head) == es[i]);
                lemma_cells_print(*rest, es, i + 1, tail, m, (g - 1) as nat);
                assert(list_rest(t, g) == seq![','] + term_string(*head) + list_rest(*rest, (g - 1) as nat));
            },
            _ => {},
        }
    }
}

/// Every character of pieces joined with commas satisfies what the comma
/// and every character of the pieces do.
proof fn lemma_join_chars(xs: Seq<Seq<char>>, p: spec_fn(char) -> bool)
    requires
        p(','),
        forall|i: int, k: int| 0 <= i < xs.len() && 0 <= k < xs[i].len() ==> p(#[trigger] xs[i][k]),
    ensures
        forall|k: int| 0 <= k < join(xs, seq![',']).len() ==> p(#[trigger] join(xs, seq![','])[k]),
    decreases xs.len(),
{
    if xs.len() == 1 {
        assert(join(xs, seq![',']) == xs[0]);
        assert forall|k: int| 0 <= k < join(xs, seq![',']).len() implies p(#[trigger] join(xs, seq![','])[k]) by {
            assert(p(xs[0][k]));
        }
    } else if xs.len() > 1 {
        let ys = xs.drop_last();
        assert forall|i: int, k: int| 0 <= i < ys.len() && 0 <= k < ys[i].len() implies p(#[trigger] ys[i][k]) by {
            assert(ys[i] == xs[i]);
            assert(p(xs[i][k]));
        }
        lemma_join_chars(ys, p);
        let a = join(ys, seq![',']);
        let x = xs.last();
        assert forall|k: int| 0 <= k < join(xs, seq![',']).len() implies p(#[trigger] join(xs, seq![','])[k]) by {
            if k < a.len() {
                assert(join(xs, seq![','])[k] == a[k]);
            } else if k > a.len() {
                assert(join(xs, seq![','])[k] == x[k - a.len() - 1]);
                assert(p(xs[xs.len() - 1][k - a.len() - 1]));
            }
        }
    }
}

/// Text with no whitespace is its own trim.
proof fn lemma_trim_no_ws(x: Seq<char>)
    requires
        forall|k: int| 0 <= k < x.len() ==> !is_ws(#[trigger] x[k]),
    ensures
        trim(x) == x,
{
    if x.len() > 0 {
        lemma_trim_plain_ends(x);
    } else {
        assert(trim_start(x) == x);
        assert(crate::text::trim_end(x) == x);
    }
}

/// A list text of elements that read back as written prints back: the list
/// that `parse_list` returns on it is printed as the same text. Elements
/// whose parentheses stay open may be read together with the next ones, and
/// still print back.
pub proof fn law_parse_list_prints_back(t: Term, es: Seq<Seq<char>>, tail: Option<Seq<char>>)
    requires
        1 <= es.len() <= 1026,
        forall|k: int| 0 <= k < es.len() ==> elem_text(#[trigger] es[k]),
        tail matches Some(x) ==> elem_text(x),
        list_from_text(t, list_text(es, tail), list_text(es, tail).len()),
    ensures
        term_string(t) == list_text(es, tail),
{
    let s = list_text(es, tail);
    let n = s.len();
    let js = join(es, seq![',']);
    let inner = s.subrange(1, s.len() - 1);
    assert(inner =~= js + tail_part(tail));
    let pc = |c: char| list_char(c);
    // the characters of the joined elements
    assert forall|i: int, k: int| 0 <= i < es.len() && 0 <= k < es[i].len() implies pc(#[trigger] es[i][k]) by {
        assert(elem_text(es[i]));
    }
    lemma_join_chars(es, pc);
    lemma_join_prepend(es[0], es.drop_first(), seq![',']);
    assert(seq![es[0]] + es.drop_first() =~= es);
    assert(elem_text(es[0]));
    assert(js.len() > 0 && js[0] == es[0][0]);
    assert(forall|k: int| 0 <= k < js.len() ==> !is_ws(#[trigger] js[k])) by {
        assert forall|k: int| 0 <= k < js.len() implies !is_ws(#[trigger] js[k]) by {
            assert(pc(js[k]));
        }
    }
    lemma_trim_no_ws(js);
    // the pieces of the split
    let d = split_top_state(js, js.len() as int, false).0;
    let c = split_top_state(js, js.len() as int, false).1;
    crate::text::lemma_split_top_state_chars(js, js.len() as int, false, pc);
    let pieces = split_top(js, false);
    assert(pieces == d.push(c));
    assert forall|i: int| 0 <= i < pieces.len() implies trim(#[trigger] pieces[i]) == pieces[i]
        && !starts_with_char(pieces[i], '[') by {
        assert forall|m: int| 0 <= m < pieces[i].len() implies pc(#[trigger] pieces[i][m]) by {
            if i < d.len() {
                assert(pieces[i] == d[i]);
            } else {
                assert(pieces[i] == c);
            }
        }
        assert forall|m: int| 0 <= m < pieces[i].len() implies !is_ws(#[trigger] pieces[i][m]) by {
            assert(pc(pieces[i][m]));
        }
        lemma_trim_no_ws(pieces[i]);
        if pieces[i].len() > 0 {
            assert(pc(pieces[i][0]));
        }
    }
    let parts = pieces.map_values(|x: Seq<char>| trim(x));
    assert(parts =~= pieces);
    crate::text::lemma_split_top_count(js);
    assert forall|i: int| 0 <= i < es.len() implies top_commas(#[trigger] es[i], es[i].len() as int) == 0 by {
        assert(elem_text(es[i]));
    }
    crate::text::lemma_top_commas_of_join(es);
    assert(pieces.len() <= es.len());
    crate::text::lemma_split_top_join(js, false);
    // no `|` before the tail
    assert forall|j: int| 0 <= j < js.len() implies js[j] != '|' by {
        assert(pc(js[j]));
    }
    match tail {
        Some(x) => {
            assert(elem_text(x));
            assert forall|k: int| 0 <= k < x.len() implies !is_ws(#[trigger] x[k]) by {
                assert(list_char(x[k]));
            }
            lemma_trim_no_ws(x);
            assert(list_char(x[0]));
            assert forall|k: int| 0 <= k < inner.len() implies !is_ws(#[trigger] inner[k]) by {
                if k < js.len() {
                    assert(inner[k] == js[k]);
                } else if k > js.len() {
                    assert(inner[k] == x[k - js.len() - 1]);
                }
            }
            lemma_trim_no_ws(inner);
            let p = js.len();
            assert(inner[p as int] == '|');
            assert forall|j: int| 0 <= j < p implies !crate::text::occurs_at(inner, seq!['|'], j) by {
                if crate::text::occurs_at(inner, seq!['|'], j) {
                    assert(inner.subrange(j, j + 1)[0] == inner[j]);
                    assert(inner[j] == js[j]);
                }
            }
            assert(inner.subrange(p as int, p as int + 1) =~= seq!['|']);
            crate::text::lemma_find_from_some(inner, seq!['|'], 0, p);
            assert(inner.subrange(0, p as int) =~= js);
            assert(inner.subrange(p as int + 1, inner.len() as int) =~= x);
            assert(list_parts(inner) == (parts, Some(x)));
            assert(!starts_with_char(x, '['));
        },
        None => {
            assert(inner =~= js);
            assert forall|j: int| 0 <= j && j + seq!['|'].len() <= inner.len() implies !crate::text::occurs_at(inner, seq!['|'], j) by {
                if crate::text::occurs_at(inner, seq!['|'], j) {
                    assert(inner.subrange(j, j + 1)[0] == inner[j]);
                }
            }
            crate::text::lemma_find_from_none(inner, seq!['|'], 0);
            assert(list_parts(inner) == (parts, None::<Seq<char>>));
        },
    }
    assert(trim(inner).len() > 0);
    assert(cells_from(t, pieces, 0, tail, (n - 1) as nat));
    match t {
        Term::ListCell { head, tail: rest } => {
            assert(!starts_with_char(pieces[0], '['));
            assert(term_string(*head) == pieces[0]);
            lemma_cells_print(*rest, pieces, 1, tail, (n - 1) as nat, 1025);
            lemma_join_rest(pieces, 0, tail);
            assert(pieces.subrange(0, pieces.len() as int) =~= pieces);
            assert(term_string(t) =~= list_text(es, tail));
        },
        _ => {},
    }
}

/// The text `[]` reads as the empty list, which prints as `[]`.
pub proof fn law_parse_list_empty(t: Term)
    requires
        list_from_text(t, seq!['[', ']'], 2),
    ensures
        t is EmptyList,
        term_string(t) == seq!['[', ']'],
{
    let inner = seq!['[', ']'].subrange(1, 1);
    assert(inner =~= Seq::<char>::empty());
    assert(trim(inner) =~= Seq::<char>::empty()) by {
        assert(crate::text::trim_start(inner) == inner);
        assert(crate::text::trim_end(inner) == inner);
    }
}

/// Reads a term from text: a bracketed text is a list, anything else an
/// atom.
pub fn parse_term_str(s: &str) -> (t: Term)
    ensures
        term_from_text(t, s@, s@.len()),
{
    let v = chars_of(s);
    parse_term_chars(&v, v.len())
}

// ---------------------------------------------------------------------------
// Rule templates
// ---------------------------------------------------------------------------

/// A body predicate of a rule template: its name and arity.
#[derive(Debug, Clone)]
pub struct ChildPred {
    pub name: String,
    pub arity: usize,
}

/// An argument position: the node list (0 is the head, `k` the `k`-th body
/// row), the predicate within the list, its argument, and the field within
/// a list or tuple argument (its tail counts as the field after the last).
#[derive(Debug, Clone, Copy, PartialEq, Eq, Structural)]
pub struct NodeArgRef4 {
    pub children_node_list: usize,
    pub predicate: usize,
    pub arg: usize,
    pub list_index: usize,
}

/// The right side of a template equality: a position or a literal.
#[derive(Debug, Clone)]
pub enum RightSide {
    Ref(NodeArgRef4),
    Atom(String),
}

/// A template equality.
#[derive(Debug, Clone)]
pub struct Equality {
    pub left: NodeArgRef4,
    pub right: RightSide,
}

/// The template of one clause: its body rows and its equalities.
#[derive(Debug, Clone)]
pub struct OutClause {
    pub children: Vec<Vec<ChildPred>>,
    pub equalities: Vec<Equality>,
}

/// A predicate with the templates of its clauses.
#[derive(Debug, Clone)]
pub struct OutPredicate {
    pub name: String,
    pub arity: usize,
    pub clauses: Vec<OutClause>,
}

/// The rule templates of a program.
#[derive(Debug, Clone)]
pub struct OutRoot {
    pub predicates: Vec<OutPredicate>,
}

/// An occurrence found while reading an argument: a variable at a position,
/// or a literal at a position.
#[derive(Debug, Clone)]
pub enum Occurrence {
    Var { name: String, at: NodeArgRef4 },
    Lit { at: NodeArgRef4, text: String },
}

/// The meaning of an occurrence.
pub enum Ev {
    Var(Seq<char>, NodeArgRef4),
    Lit(NodeArgRef4, Seq<char>),
}

/// The meaning of an occurrence.
pub open spec fn ev_of(o: Occurrence) -> Ev {
    match o {
        Occurrence::Var { name, at } => Ev::Var(name@, at),
        Occurrence::Lit { at, text } => Ev::Lit(at, text@),
    }
}

/// The meanings of a list of occurrences.
pub open spec fn evs_of(v: Seq<Occurrence>) -> Seq<Ev> {
    v.map_values(|o: Occurrence| ev_of(o))
}

/// A position.
pub open spec fn pos(l: usize, p: usize, a: usize, li: usize) -> NodeArgRef4 {
    NodeArgRef4 { children_node_list: l, predicate: p, arg: a, list_index: li }
}

/// A position.
fn mk_pos(l: usize, p: usize, a: usize, li: usize) -> (r: NodeArgRef4)
    ensures
        r == pos(l, p, a, li),
{
    NodeArgRef4 { children_node_list: l, predicate: p, arg: a, list_index: li }
}

/// The occurrence of a field text at a position: none for `_`, a variable
/// for a variable name, a literal otherwise.
pub open spec fn field_event(f: Seq<char>, at: NodeArgRef4) -> Seq<Ev> {
    if f == seq!['_'] {
        Seq::empty()
    } else if is_var_name_spec(f) {
        seq![Ev::Var(f, at)]
    } else {
        seq![Ev::Lit(at, f)]
    }
}

/// The occurrences of the first `k` fields.
pub open spec fn fields_events(fields: Seq<Seq<char>>, k: int, l: usize, p: usize, a: usize) -> Seq<Ev>
    decreases k,
{
    if k <= 0 {
        Seq::empty()
    } else {
        fields_events(fields, k - 1, l, p, a) + field_event(fields[k - 1], pos(l, p, a, (k - 1) as usize))
    }
}

/// The text of a list element as read for its fields.
pub open spec fn head_text(t: Term) -> Seq<char> {
    match t {
        Term::Atom(s) => s@,
        Term::Var(v) => v@,
        _ => term_string(t),
    }
}

/// The text of a list tail.
pub open spec fn tail_text(t: Term) -> Seq<char> {
    match t {
        Term::Var(v) => v@,
        _ => term_string(t),
    }
}

/// The occurrences in an argument at `(l, p, a)`: for a list, the fields of
/// its first element (a tuple gives several) and then its tail, each at its
/// field index; a variable at field 0 unless it starts with `_`; an atom
/// as a literal; nothing for other terms.
pub open spec fn arg_events(t: Term, l: usize, p: usize, a: usize) -> Seq<Ev> {
    match t {
        Term::ListCell { head, tail } => {
            let fields = tuple_fields_spec(head_text(*head));
            fields_events(fields, fields.len() as int, l, p, a) + field_event(tail_text(*tail), pos(l, p, a, fields.len() as usize))
        },
        Term::Var(v) => if v@.len() > 0 && v@[0] == '_' {
            Seq::empty()
        } else {
            seq![Ev::Var(v@, pos(l, p, a, 0))]
        },
        Term::Atom(s) => seq![Ev::Lit(pos(l, p, a, 0), s@)],
        _ => Seq::empty(),
    }
}

/// Appends the occurrence of a field text at a position.
fn push_field(out: &mut Vec<Occurrence>, f: &String, at: NodeArgRef4)
    ensures
        evs_of(final(out)@) == evs_of(old(out)@) + field_event(f@, at),
{
    let fv = chars_of(f.as_str());
    if fv.len() == 1 && fv[0] == '_' {
        assert(f@ =~= seq!['_']);
        assert(evs_of(out@) =~= evs_of(out@) + Seq::<Ev>::empty());
        return;
    }
    assert(f@ != seq!['_']) by {
        if f@ == seq!['_'] {
            assert(fv@.len() == 1 && fv@[0] == '_');
        }
    }
    let ghost before = out@;
    if is_var_name(f.as_str()) {
        out.push(Occurrence::Var { name: f.clone(), at });
    } else {
        out.push(Occurrence::Lit { at, text: f.clone() });
    }
    assert(evs_of(out@) =~= evs_of(before) + field_event(f@, at));
}

/// Appends the occurrences in an argument at `(l, p, a)`.
pub fn flatten_arg_collect(term: &Term, l: usize, p: usize, a: usize, out: &mut Vec<Occurrence>)
    ensures
        evs_of(final(out)@) == evs_of(old(out)@) + arg_events(*term, l, p, a),
{
    let ghost before = out@;
    match term {
        Term::ListCell { head, tail } => {
            let head_str = match &**head {
                Term::Atom(s) => s.clone(),
                Term::Var(v) => v.clone(),
                other => term_as_string(other),
            };
            assert(head_str@ == head_text(**head));
            let fields = parse_tuple_fields_keep_all(head_str.as_str());
            let ghost fv = tuple_fields_spec(head_str@);
            let mut idx: usize = 0;
            while idx < fields.len()
                invariant
                    idx <= fields@.len(),
                    fields@.len() == fv.len(),
                    forall|k: int| 0 <= k < fields@.len() ==> (#[trigger] fields@[k])@ == fv[k],
                    evs_of(out@) == evs_of(before) + fields_events(fv, idx as int, l, p, a),
                decreases fields@.len() - idx,
            {
                push_field(out, &fields[idx], mk_pos(l, p, a, idx));
                assert(evs_of(before) + fields_events(fv, idx as int, l, p, a) + field_event(fv[idx as int], pos(l, p, a, idx))
                    =~= evs_of(before) + fields_events(fv, idx + 1, l, p, a));
                idx = idx + 1;
            }
            let tail_str = match &**tail {
                Term::Var(v) => v.clone(),
                other => term_as_string(other),
            };
            assert(tail_str@ == tail_text(**tail));
            push_field(out, &tail_str, mk_pos(l, p, a, idx));
            assert(evs_of(out@) =~= evs_of(before) + arg_events(*term, l, p, a));
        },
        Term::Var(v) => {
            let vv = chars_of(v.as_str());
            if vv.len() > 0 && vv[0] == '_' {
                assert(evs_of(out@) =~= evs_of(before) + arg_events(*term, l, p, a));
                return;
            }
            out.push(Occurrence::Var { name: v.clone(), at: mk_pos(l, p, a, 0) });
            assert(evs_of(out@) =~= evs_of(before) + arg_events(*term, l, p, a));
        },
        Term::Atom(s) => {
            out.push(Occurrence::Lit { at: mk_pos(l, p, a, 0), text: s.clone() });
            assert(evs_of(out@) =~= evs_of(before) + arg_events(*term, l, p, a));
        },
        _ => {
            assert(evs_of(out@) =~= evs_of(before) + arg_events(*term, l, p, a));
        },
    }
}

/// The name of a clause head.
pub open spec fn head_name(t: Term) -> Seq<char> {
    match t {
        Term::Predicate { name, .. } => name@,
        Term::Atom(a) => a@,
        Term::Var(v) => v@,
        _ => Seq::empty(),
    }
}

/// The arguments of a clause head.
pub open spec fn head_args(t: Term) -> Seq<Term> {
    match t {
        Term::Predicate { args, .. } => args@,
        _ => Seq::empty(),
    }
}

/// Whether a term is a call of `=`.
pub open spec fn is_eq_call(t: Term) -> bool {
    t matches Term::Predicate { name, .. } && name@ == seq!['=']
}

/// Whether a clause is a default clause: its body is a single `=` call.
pub open spec fn is_default_clause(cl: Clause) -> bool {
    cl.body@.len() == 1 && is_eq_call(cl.body@[0])
}

/// The occurrences in the first `k` arguments, at `(l, p, i)` for the
/// `i`-th.
pub open spec fn args_events(args: Seq<Term>, k: int, l: usize, p: usize) -> Seq<Ev>
    decreases k,
{
    if k <= 0 {
        Seq::empty()
    } else {
        args_events(args, k - 1, l, p) + arg_events(args[k - 1], l, p, (k - 1) as usize)
    }
}

/// The occurrences in the right operands of an operator chain, the `k`-th at
/// predicate `1 + k` of row `l`.
pub open spec fn chain_events(chain: Seq<(Seq<char>, Term)>, k: int, l: usize) -> Seq<Ev>
    decreases k,
{
    if k <= 0 {
        Seq::empty()
    } else {
        chain_events(chain, k - 1, l) + arg_events(chain[k - 1].1, l, k as usize, 0)
    }
}

/// The body predicates of the chain operators, each of arity 1.
pub open spec fn chain_row(chain: Seq<(Seq<char>, Term)>) -> Seq<(Seq<char>, usize)> {
    Seq::new(chain.len(), |k: int| (chain[k].0, 1usize))
}

/// The right operand of a built-in call: the second of two arguments, the
/// only one of one, none otherwise (an empty literal stands for it).
pub open spec fn builtin_right(args: Seq<Term>) -> Option<Term> {
    if args.len() == 2 {
        Some(args[1])
    } else if args.len() == 1 {
        Some(args[0])
    } else {
        None
    }
}

/// The occurrences and the body row of the `l`-th body term.
///
/// - `A = B`: when the clause is a default clause, or both sides have the
///   same non-variable text, the sides are read at `(l, 0, 0)` and the term
///   gives no row; otherwise they are read at `(l, 0, 0)` and `(l, 0, 1)`
///   and the row is `=`/2.
/// - another built-in: the row is the operator (arity 2) followed by the
///   operators of the chain in its right operand (arity 1 each); the left
///   operand is read at `(l, 0, 0)`, the right one (its leftmost leaf when it
///   is a chain) at `(l, 0, 1)`, and the `k`-th chain operand at
///   `(l, 1 + k, 0)`.
/// - another call: the row is its name and arity, argument `i` read at
///   `(l, 0, i)`.
/// - anything else: an empty row.
pub open spec fn row_out(t: Term, l: usize, default: bool) -> (Seq<Ev>, Option<Seq<(Seq<char>, usize)>>) {
    match t {
        Term::Predicate { name, args } => if name@ == seq!['='] {
            let same = term_string(args@[0]) == term_string(args@[1]) && !is_var_name_spec(term_string(args@[0]));
            if default || same {
                (arg_events(args@[0], l, 0, 0) + arg_events(args@[1], l, 0, 0), None)
            } else {
                (arg_events(args@[0], l, 0, 0) + arg_events(args@[1], l, 0, 1), Some(seq![(name@, 2usize)]))
            }
        } else if builtin_ops_spec().contains(name@) {
            let left_ev = if args@.len() == 2 {
                arg_events(args@[0], l, 0, 0)
            } else {
                seq![Ev::Lit(pos(l, 0, 0, 0), Seq::empty())]
            };
            let (right_ev, chain) = match builtin_right(args@) {
                Some(r) => (
                    if is_chain_node(r) { arg_events(leftmost_spec(r), l, 0, 1) } else { arg_events(r, l, 0, 1) },
                    chain_spec(r),
                ),
                None => (seq![Ev::Lit(pos(l, 0, 1, 0), Seq::empty())], Seq::empty()),
            };
            (left_ev + right_ev + chain_events(chain, chain.len() as int, l), Some(seq![(name@, 2usize)] + chain_row(chain)))
        } else {
            (args_events(args@, args@.len() as int, l, 0), Some(seq![(name@, args@.len() as usize)]))
        },
        _ => (Seq::empty(), Some(Seq::empty())),
    }
}

/// Whether a body term can be read: an `=` call has two arguments.
pub open spec fn row_readable(t: Term) -> bool {
    match t {
        Term::Predicate { name, args } => name@ == seq!['='] ==> args@.len() >= 2,
        _ => true,
    }
}

/// The occurrences and body rows of the first `k` body terms.
pub open spec fn body_out(body: Seq<Term>, k: int, default: bool) -> (Seq<Ev>, Seq<Seq<(Seq<char>, usize)>>)
    decreases k,
{
    if k <= 0 {
        (Seq::empty(), Seq::empty())
    } else {
        let (e, rows) = body_out(body, k - 1, default);
        let (e2, row) = row_out(body[k - 1], k as usize, default);
        (e + e2, match row {
            Some(r) => rows.push(r),
            None => rows,
        })
    }
}

/// All occurrences of a clause: those of the head's arguments (list 0,
/// predicate 0), then those of the body terms.
pub open spec fn clause_events(cl: Clause) -> Seq<Ev> {
    let ghost ha = head_args(cl.head);
    args_events(ha, ha.len() as int, 0, 0) + body_out(cl.body@, cl.body@.len() as int, is_default_clause(cl)).0
}

/// Whether a clause can be read: its body terms are readable, and it has
/// fewer than `usize::MAX` body terms.
pub open spec fn clause_readable(cl: Clause) -> bool {
    &&& forall|i: int| 0 <= i < cl.body@.len() ==> row_readable(#[trigger] cl.body@[i])
    &&& cl.body@.len() < usize::MAX
}

/// The views of a row of body predicates.
pub open spec fn row_view(r: Seq<ChildPred>) -> Seq<(Seq<char>, usize)> {
    r.map_values(|c: ChildPred| (c.name@, c.arity))
}

/// Appends the occurrences in the first arguments `args[..]` at `(l, p, i)`.
fn collect_args(args: &Vec<Term>, l: usize, p: usize, out: &mut Vec<Occurrence>)
    ensures
        evs_of(final(out)@) == evs_of(old(out)@) + args_events(args@, args@.len() as int, l, p),
{
    let mut i: usize = 0;
    while i < args.len()
        invariant
            i <= args@.len(),
            evs_of(out@) == evs_of(old(out)@) + args_events(args@, i as int, l, p),
        decreases args@.len() - i,
    {
        flatten_arg_collect(&args[i], l, p, i, out);
        assert(evs_of(old(out)@) + args_events(args@, i as int, l, p) + arg_events(args@[i as int], l, p, i)
            =~= evs_of(old(out)@) + args_events(args@, i + 1, l, p));
        i = i + 1;
    }
}

/// Whether `name` is `=`.
pub(crate) fn is_eq_name(name: &String) -> (r: bool)
    ensures
        r == (name@ == seq!['=']),
{
    let v = chars_of(name.as_str());
    let r = v.len() == 1 && v[0] == '=';
    proof {
        if r {
            assert(v@ =~= seq!['=']);
        }
        if name@ == seq!['='] {
            assert(v@[0] == '=');
        }
    }
    r
}

/// Reads an `=` body term.
fn read_eq_row(name: &String, args: &Vec<Term>, l: usize, default: bool, out: &mut Vec<Occurrence>) -> (r: Option<Vec<ChildPred>>)
    requires
        name@ == seq!['='],
        args@.len() >= 2,
    ensures
        ({
            let t = Term::Predicate { name: *name, args: *args };
            &&& evs_of(final(out)@) == evs_of(old(out)@) + row_out(t, l, default).0
            &&& match row_out(t, l, default).1 {
                Some(rv) => r matches Some(row) && row_view(row@) == rv,
                None => r is None,
            }
        }),
{
    let ghost before = out@;
    let ghost t = Term::Predicate { name: *name, args: *args };
    let ls = term_as_string(&args[0]);
    let rs = term_as_string(&args[1]);
    let same = str_eq(ls.as_str(), rs.as_str()) && !is_var_name(ls.as_str());
    if default || same {
        flatten_arg_collect(&args[0], l, 0, 0, out);
        flatten_arg_collect(&args[1], l, 0, 0, out);
        assert(evs_of(out@) =~= evs_of(before) + row_out(t, l, default).0);
        None
    } else {
        flatten_arg_collect(&args[0], l, 0, 0, out);
        flatten_arg_collect(&args[1], l, 0, 1, out);
        assert(evs_of(out@) =~= evs_of(before) + row_out(t, l, default).0);
        let mut row: Vec<ChildPred> = Vec::new();
        row.push(ChildPred { name: name.clone(), arity: 2 });
        assert(row_view(row@) =~= seq![(name@, 2usize)]);
        Some(row)
    }
}

/// The occurrences of the right operand of a built-in call and of its
/// chain.
pub open spec fn builtin_right_events(r: Term, l: usize) -> Seq<Ev> {
    (if is_chain_node(r) {
        arg_events(leftmost_spec(r), l, 0, 1)
    } else {
        arg_events(r, l, 0, 1)
    }) + chain_events(chain_spec(r), chain_spec(r).len() as int, l)
}

/// Reads the right operand of a built-in call: appends its occurrences and
/// the chain operators to the row.
fn read_builtin_right(r: &Term, l: usize, out: &mut Vec<Occurrence>, row: &mut Vec<ChildPred>)
    ensures
        evs_of(final(out)@) == evs_of(old(out)@) + builtin_right_events(*r, l),
        row_view(final(row)@) == row_view(old(row)@) + chain_row(chain_spec(*r)),
{
    let root = match r {
        Term::Predicate { name: rn, args: ra } => ra.len() == 2 && chainable_op(rn.as_str()),
        _ => false,
    };
    assert(root == is_chain_node(*r));
    let ghost before = out@;
    let ghost right_ev = if is_chain_node(*r) {
        arg_events(leftmost_spec(*r), l, 0, 1)
    } else {
        arg_events(*r, l, 0, 1)
    };
    if root {
        let leaf = leftmost_leaf(r);
        flatten_arg_collect(leaf, l, 0, 1, out);
    } else {
        flatten_arg_collect(r, l, 0, 1, out);
    }
    let ghost after_right = out@;
    let mut chain: Vec<(String, &Term)> = Vec::new();
    collect_right_args_inorder(r, &mut chain);
    let ghost cs = chain_spec(*r);
    assert forall|q: int| 0 <= q < cs.len() implies (#[trigger] chain@[q]).0@ == cs[q].0 && *chain@[q].1 == cs[q].1 by {
        assert(chain@[0 + q] == chain@[q]);
    }
    let ghost row0 = row_view(row@);
    let mut k: usize = 0;
    while k < chain.len()
        invariant
            k <= chain@.len(),
            chain@.len() == cs.len(),
            forall|q: int| 0 <= q < cs.len() ==> (#[trigger] chain@[q]).0@ == cs[q].0 && *chain@[q].1 == cs[q].1,
            evs_of(out@) == evs_of(after_right) + chain_events(cs, k as int, l),
            chain_row(cs).len() == cs.len(),
            row_view(row@) == row0 + chain_row(cs).take(k as int),
        decreases chain@.len() - k,
    {
        let (op, operand) = (&chain[k].0, chain[k].1);
        flatten_arg_collect(operand, l, k + 1, 0, out);
        assert(evs_of(after_right) + chain_events(cs, k as int, l) + arg_events(cs[k as int].1, l, (k + 1) as usize, 0)
            =~= evs_of(after_right) + chain_events(cs, k + 1, l));
        let ghost rb = row@;
        row.push(ChildPred { name: op.clone(), arity: 1 });
        assert(row_view(row@) =~= row_view(rb).push((cs[k as int].0, 1usize)));
        assert(row0 + chain_row(cs).take(k + 1) =~= (row0 + chain_row(cs).take(k as int)).push((cs[k as int].0, 1usize)));
        k = k + 1;
    }
    assert(chain_row(cs).take(cs.len() as int) =~= chain_row(cs));
    assert(evs_of(out@) =~= evs_of(before) + builtin_right_events(*r, l));
}

/// Reads a built-in body term other than `=`.
fn read_builtin_row(name: &String, args: &Vec<Term>, l: usize, default: bool, out: &mut Vec<Occurrence>) -> (r: Vec<ChildPred>)
    requires
        name@ != seq!['='],
        builtin_ops_spec().contains(name@),
    ensures
        ({
            let t = Term::Predicate { name: *name, args: *args };
            &&& evs_of(final(out)@) == evs_of(old(out)@) + row_out(t, l, default).0
            &&& row_out(t, l, default).1 matches Some(rv) && row_view(r@) == rv
        }),
{
    let ghost before = out@;
    let ghost t = Term::Predicate { name: *name, args: *args };
    let mut row: Vec<ChildPred> = Vec::new();
    row.push(ChildPred { name: name.clone(), arity: 2 });
    assert(row_view(row@) =~= seq![(name@, 2usize)]);
    if args.len() == 2 {
        flatten_arg_collect(&args[0], l, 0, 0, out);
    } else {
        out.push(Occurrence::Lit { at: mk_pos(l, 0, 0, 0), text: String::new() });
    }
    let ghost after_left = out@;
    let ghost left_ev = if args@.len() == 2 {
        arg_events(args@[0], l, 0, 0)
    } else {
        seq![Ev::Lit(pos(l, 0, 0, 0), Seq::empty())]
    };
    assert(evs_of(after_left) =~= evs_of(before) + left_ev);
    if args.len() == 2 || args.len() == 1 {
        let r: &Term = if args.len() == 2 { &args[1] } else { &args[0] };
        assert(builtin_right(args@) == Some(*r));
        read_builtin_right(r, l, out, &mut row);
        assert(row_out(t, l, default).0 =~= left_ev + builtin_right_events(*r, l));
        assert(evs_of(out@) =~= evs_of(before) + row_out(t, l, default).0);
    } else {
        out.push(Occurrence::Lit { at: mk_pos(l, 0, 1, 0), text: String::new() });
        assert(chain_row(Seq::<(Seq<char>, Term)>::empty()) =~= Seq::<(Seq<char>, usize)>::empty());
        assert(row_view(row@) =~= seq![(name@, 2usize)] + chain_row(Seq::<(Seq<char>, Term)>::empty()));
        assert(evs_of(out@) =~= evs_of(before) + row_out(t, l, default).0);
    }
    row
}

/// Reads one body term: appends its occurrences and returns its row.
fn read_row(t: &Term, l: usize, default: bool, out: &mut Vec<Occurrence>) -> (r: Option<Vec<ChildPred>>)
    requires
        row_readable(*t),
    ensures
        evs_of(final(out)@) == evs_of(old(out)@) + row_out(*t, l, default).0,
        match row_out(*t, l, default).1 {
            Some(rv) => r matches Some(row) && row_view(row@) == rv,
            None => r is None,
        },
{
    let ghost before = out@;
    match t {
        Term::Predicate { name, args } => {
            if is_eq_name(name) {
                read_eq_row(name, args, l, default, out)
            } else if is_builtin_op(name.as_str()) {
                Some(read_builtin_row(name, args, l, default, out))
            } else {
                collect_args(args, l, 0, out);
                let mut row: Vec<ChildPred> = Vec::new();
                row.push(ChildPred { name: name.clone(), arity: args.len() });
                assert(row_view(row@) =~= seq![(name@, args@.len() as usize)]);
                Some(row)
            }
        },
        _ => {
            assert(evs_of(out@) =~= evs_of(before) + row_out(*t, l, default).0);
            let row: Vec<ChildPred> = Vec::new();
            assert(row_view(row@) =~= Seq::<(Seq<char>, usize)>::empty());
            Some(row)
        },
    }
}

// ---------------------------------------------------------------------------
// Equalities
// ---------------------------------------------------------------------------

/// The positions of the occurrences of the variable `name`, in order.
pub open spec fn var_occs(evs: Seq<Ev>, name: Seq<char>) -> Seq<NodeArgRef4>
    decreases evs.len(),
{
    if evs.len() == 0 {
        Seq::empty()
    } else {
        let r = var_occs(evs.drop_last(), name);
        match evs.last() {
            Ev::Var(n, at) => if n == name {
                r.push(at)
            } else {
                r
            },
            _ => r,
        }
    }
}

/// The variables in the order of their first occurrence.
pub open spec fn var_names(evs: Seq<Ev>) -> Seq<Seq<char>>
    decreases evs.len(),
{
    if evs.len() == 0 {
        Seq::empty()
    } else {
        let r = var_names(evs.drop_last());
        match evs.last() {
            Ev::Var(n, _) => if r.contains(n) {
                r
            } else {
                r.push(n)
            },
            _ => r,
        }
    }
}

/// The literal occurrences whose text does not start with `_`, in order; in
/// a default clause only those in the head.
pub open spec fn lit_events(evs: Seq<Ev>, default: bool) -> Seq<(NodeArgRef4, Seq<char>)>
    decreases evs.len(),
{
    if evs.len() == 0 {
        Seq::empty()
    } else {
        let r = lit_events(evs.drop_last(), default);
        match evs.last() {
            Ev::Lit(at, t) => if (t.len() > 0 && t[0] == '_') || (default && at.children_node_list != 0) {
                r
            } else {
                r.push((at, t))
            },
            _ => r,
        }
    }
}

/// The pairs that tie the first occurrence of a variable to its later ones
/// `1..j`; in a default clause only head occurrences are tied, and only when
/// the first occurrence is in the head.
pub open spec fn group_pairs(occs: Seq<NodeArgRef4>, j: int, default: bool) -> Seq<(NodeArgRef4, NodeArgRef4)>
    decreases j,
{
    if j <= 1 {
        Seq::empty()
    } else {
        let r = group_pairs(occs, j - 1, default);
        if default && (occs[0].children_node_list != 0 || occs[j - 1].children_node_list != 0) {
            r
        } else {
            r.push((occs[0], occs[j - 1]))
        }
    }
}

/// The tying pairs of the first `k` variables.
pub open spec fn ref_cands(evs: Seq<Ev>, names: Seq<Seq<char>>, k: int, default: bool) -> Seq<(NodeArgRef4, NodeArgRef4)>
    decreases k,
{
    if k <= 0 {
        Seq::empty()
    } else {
        let occs = var_occs(evs, names[k - 1]);
        ref_cands(evs, names, k - 1, default) + group_pairs(occs, occs.len() as int, default)
    }
}

/// The order of positions: by list, predicate, argument, then field.
pub open spec fn ref_le(a: NodeArgRef4, b: NodeArgRef4) -> bool {
    ||| a.children_node_list < b.children_node_list
    ||| a.children_node_list == b.children_node_list && a.predicate < b.predicate
    ||| a.children_node_list == b.children_node_list && a.predicate == b.predicate && a.arg < b.arg
    ||| a.children_node_list == b.children_node_list && a.predicate == b.predicate && a.arg == b.arg
        && a.list_index <= b.list_index
}

/// A pair of positions, smaller first.
pub open spec fn ordered(a: NodeArgRef4, b: NodeArgRef4) -> (NodeArgRef4, NodeArgRef4) {
    if ref_le(a, b) {
        (a, b)
    } else {
        (b, a)
    }
}

/// The equalities of the first `k` pairs: a pair of equal positions gives
/// none, the others give their ordered pair, once each when `dedupe` is set.
pub open spec fn dedupe_refs(cands: Seq<(NodeArgRef4, NodeArgRef4)>, k: int, dedupe: bool) -> Seq<(NodeArgRef4, NodeArgRef4)>
    decreases k,
{
    if k <= 0 {
        Seq::empty()
    } else {
        let r = dedupe_refs(cands, k - 1, dedupe);
        let (a, b) = cands[k - 1];
        if a == b {
            r
        } else if dedupe && r.contains(ordered(a, b)) {
            r
        } else {
            r.push(ordered(a, b))
        }
    }
}

/// The literal equalities of the first `k` literal occurrences, once each
/// when `dedupe` is set.
pub open spec fn dedupe_lits(lits: Seq<(NodeArgRef4, Seq<char>)>, k: int, dedupe: bool) -> Seq<(NodeArgRef4, Seq<char>)>
    decreases k,
{
    if k <= 0 {
        Seq::empty()
    } else {
        let r = dedupe_lits(lits, k - 1, dedupe);
        if dedupe && r.contains(lits[k - 1]) {
            r
        } else {
            r.push(lits[k - 1])
        }
    }
}

/// The meaning of a template equality's right side.
pub enum RightV {
    Ref(NodeArgRef4),
    Atom(Seq<char>),
}

/// The meaning of a template equality.
pub open spec fn eq_view(e: Equality) -> (NodeArgRef4, RightV) {
    match e.right {
        RightSide::Ref(b) => (e.left, RightV::Ref(b)),
        RightSide::Atom(s) => (e.left, RightV::Atom(s@)),
    }
}

/// The equalities of a clause with the given occurrences: the variable
/// equalities (each variable's first occurrence tied to the later ones), then
/// the literal ones. A default clause keeps only head equalities (variable
/// and literal) and does not drop repeated equalities.
pub open spec fn equalities_spec(evs: Seq<Ev>, default: bool) -> Seq<(NodeArgRef4, RightV)> {
    let names = var_names(evs);
    let cands = ref_cands(evs, names, names.len() as int, default);
    let refs = dedupe_refs(cands, cands.len() as int, !default);
    let lits = lit_events(evs, default);
    let ls = dedupe_lits(lits, lits.len() as int, !default);
    refs.map_values(|p: (NodeArgRef4, NodeArgRef4)| (p.0, RightV::Ref(p.1)))
        + ls.map_values(|p: (NodeArgRef4, Seq<char>)| (p.0, RightV::Atom(p.1)))
}

/// Outside a default clause, the pairs of a variable tie its first
/// occurrence to every later one.
proof fn lemma_group_pairs_ties_all(occs: Seq<NodeArgRef4>, j: int, m: int)
    requires
        1 <= m < j <= occs.len(),
    ensures
        group_pairs(occs, j, false).contains((occs[0], occs[m])),
    decreases j,
{
    let r = group_pairs(occs, j - 1, false);
    assert(group_pairs(occs, j, false) == r.push((occs[0], occs[j - 1])));
    if m < j - 1 {
        lemma_group_pairs_ties_all(occs, j - 1, m);
        let q = choose|q: int| 0 <= q < r.len() && r[q] == (occs[0], occs[m]);
        assert(r.push((occs[0], occs[j - 1]))[q] == (occs[0], occs[m]));
    } else {
        assert(r.push((occs[0], occs[j - 1]))[r.len() as int] == (occs[0], occs[m]));
    }
}

/// The tying pairs of the first `k` variables hold those of each of them.
proof fn lemma_ref_cands_holds(evs: Seq<Ev>, names: Seq<Seq<char>>, k: int, i: int, pair: (NodeArgRef4, NodeArgRef4))
    requires
        0 <= i < k <= names.len(),
        group_pairs(var_occs(evs, names[i]), var_occs(evs, names[i]).len() as int, false).contains(pair),
    ensures
        ref_cands(evs, names, k, false).contains(pair),
    decreases k,
{
    let occs = var_occs(evs, names[k - 1]);
    let prev = ref_cands(evs, names, k - 1, false);
    let g = group_pairs(occs, occs.len() as int, false);
    assert(ref_cands(evs, names, k, false) == prev + g);
    if i < k - 1 {
        lemma_ref_cands_holds(evs, names, k - 1, i, pair);
        let q = choose|q: int| 0 <= q < prev.len() && prev[q] == pair;
        assert((prev + g)[q] == pair);
    } else {
        let q = choose|q: int| 0 <= q < g.len() && g[q] == pair;
        assert((prev + g)[prev.len() + q] == pair);
    }
}

/// A variable that occurs is one of the variables.
proof fn lemma_var_names_has(evs: Seq<Ev>, name: Seq<char>)
    requires
        var_occs(evs, name).len() > 0,
    ensures
        var_names(evs).contains(name),
    decreases evs.len(),
{
    let prev = evs.drop_last();
    if var_occs(prev, name).len() > 0 {
        lemma_var_names_has(prev, name);
        let q = choose|q: int| 0 <= q < var_names(prev).len() && var_names(prev)[q] == name;
        match evs.last() {
            Ev::Var(n, _) => if !var_names(prev).contains(n) {
                assert(var_names(prev).push(n)[q] == name);
            },
            _ => {},
        }
    } else {
        match evs.last() {
            Ev::Var(n, _) => {
                assert(n == name);
                if !var_names(prev).contains(n) {
                    assert(var_names(prev).push(n)[var_names(prev).len() as int] == name);
                }
            },
            _ => {},
        }
    }
}

/// Kept equalities hold every pair of distinct positions among the candidates.
proof fn lemma_dedupe_refs_holds(cands: Seq<(NodeArgRef4, NodeArgRef4)>, k: int, i: int)
    requires
        0 <= i < k <= cands.len(),
        cands[i].0 != cands[i].1,
    ensures
        dedupe_refs(cands, k, true).contains(ordered(cands[i].0, cands[i].1)),
    decreases k,
{
    let r = dedupe_refs(cands, k - 1, true);
    let (a, b) = cands[k - 1];
    if i < k - 1 {
        lemma_dedupe_refs_holds(cands, k - 1, i);
        if !(a == b || r.contains(ordered(a, b))) {
            let q = choose|q: int| 0 <= q < r.len() && r[q] == ordered(cands[i].0, cands[i].1);
            assert(r.push(ordered(a, b))[q] == ordered(cands[i].0, cands[i].1));
        }
    } else {
        if !r.contains(ordered(a, b)) {
            assert(r.push(ordered(a, b))[r.len() as int] == ordered(a, b));
        }
    }
}

/// Outside a default clause, every occurrence of a variable after its first
/// is tied by an equality to the first: for the variable `name` with
/// occurrences `occs` (in the order the clause is read), and each later
/// occurrence at another position, the clause's equalities hold the pair of
/// the two positions, smaller first.
pub proof fn law_variable_occurrences_tied_to_first(cl: Clause, name: Seq<char>, m: int)
    requires
        !is_default_clause(cl),
        1 <= m < var_occs(clause_events(cl), name).len(),
        var_occs(clause_events(cl), name)[m] != var_occs(clause_events(cl), name)[0],
    ensures
        ({
            let occs = var_occs(clause_events(cl), name);
            let p = ordered(occs[0], occs[m]);
            clause_out_spec(cl).1.contains((p.0, RightV::Ref(p.1)))
        }),
{
    let evs = clause_events(cl);
    let occs = var_occs(evs, name);
    let names = var_names(evs);
    lemma_group_pairs_ties_all(occs, occs.len() as int, m);
    lemma_var_names_has(evs, name);
    let i = choose|i: int| 0 <= i < names.len() && names[i] == name;
    lemma_ref_cands_holds(evs, names, names.len() as int, i, (occs[0], occs[m]));
    let cands = ref_cands(evs, names, names.len() as int, false);
    let q = choose|q: int| 0 <= q < cands.len() && cands[q] == (occs[0], occs[m]);
    lemma_dedupe_refs_holds(cands, cands.len() as int, q);
    let refs = dedupe_refs(cands, cands.len() as int, true);
    let pr = ordered(occs[0], occs[m]);
    let x = choose|x: int| 0 <= x < refs.len() && refs[x] == pr;
    let mapped = refs.map_values(|p: (NodeArgRef4, NodeArgRef4)| (p.0, RightV::Ref(p.1)));
    let lits = lit_events(evs, false);
    let ls = dedupe_lits(lits, lits.len() as int, true);
    let all = mapped + ls.map_values(|p: (NodeArgRef4, Seq<char>)| (p.0, RightV::Atom(p.1)));
    assert(all[x] == (pr.0, RightV::Ref(pr.1)));
    assert(clause_out_spec(cl).1 == all);
}

/// Whether two positions are in order.
fn ref_le_exec(a: NodeArgRef4, b: NodeArgRef4) -> (r: bool)
    ensures
        r == ref_le(a, b),
{
    a.children_node_list < b.children_node_list
        || (a.children_node_list == b.children_node_list && a.predicate < b.predicate)
        || (a.children_node_list == b.children_node_list && a.predicate == b.predicate && a.arg < b.arg)
        || (a.children_node_list == b.children_node_list && a.predicate == b.predicate && a.arg == b.arg
            && a.list_index <= b.list_index)
}

/// The variables in the order of their first occurrence.
fn var_names_exec(occ: &Vec<Occurrence>) -> (r: Vec<String>)
    ensures
        r@.map_values(|s: String| s@) == var_names(evs_of(occ@)),
{
    let ghost evs = evs_of(occ@);
    let mut names: Vec<String> = Vec::new();
    let mut i: usize = 0;
    while i < occ.len()
        invariant
            i <= occ@.len(),
            evs == evs_of(occ@),
            names@.map_values(|s: String| s@) == var_names(evs.take(i as int)),
        decreases occ@.len() - i,
    {
        assert(evs.take(i + 1).drop_last() =~= evs.take(i as int));
        assert(evs.take(i + 1).last() == ev_of(occ@[i as int]));
        match &occ[i] {
            Occurrence::Var { name, .. } => {
                let mut found = false;
                let mut k: usize = 0;
                while k < names.len()
                    invariant
                        k <= names@.len(),
                        found == exists|q: int| 0 <= q < k && (#[trigger] names@[q])@ == name@,
                    decreases names@.len() - k,
                {
                    if names[k] == *name {
                        found = true;
                    }
                    k = k + 1;
                }
                let ghost nv = names@.map_values(|s: String| s@);
                assert(found == nv.contains(name@)) by {
                    if nv.contains(name@) {
                        let q = choose|q: int| 0 <= q < nv.len() && nv[q] == name@;
                        assert(names@[q]@ == name@);
                    }
                    if found {
                        let q = choose|q: int| 0 <= q < names@.len() && (#[trigger] names@[q])@ == name@;
                        assert(nv[q] == name@);
                    }
                }
                if !found {
                    names.push(name.clone());
                    assert(names@.map_values(|s: String| s@) =~= nv.push(name@));
                }
            },
            Occurrence::Lit { .. } => {},
        }
        i = i + 1;
    }
    assert(evs.take(occ@.len() as int) =~= evs);
    names
}

/// The positions of the occurrences of a variable.
fn var_occs_exec(occ: &Vec<Occurrence>, name: &String) -> (r: Vec<NodeArgRef4>)
    ensures
        r@ == var_occs(evs_of(occ@), name@),
{
    let ghost evs = evs_of(occ@);
    let mut out: Vec<NodeArgRef4> = Vec::new();
    let mut i: usize = 0;
    while i < occ.len()
        invariant
            i <= occ@.len(),
            evs == evs_of(occ@),
            out@ == var_occs(evs.take(i as int), name@),
        decreases occ@.len() - i,
    {
        assert(evs.take(i + 1).drop_last() =~= evs.take(i as int));
        assert(evs.take(i + 1).last() == ev_of(occ@[i as int]));
        match &occ[i] {
            Occurrence::Var { name: n, at } => {
                if *n == *name {
                    out.push(*at);
                }
            },
            Occurrence::Lit { .. } => {},
        }
        i = i + 1;
    }
    assert(evs.take(occ@.len() as int) =~= evs);
    out
}

/// The tying pairs of all variables.
fn ref_cands_exec(occ: &Vec<Occurrence>, names: &Vec<String>, default: bool) -> (r: Vec<(NodeArgRef4, NodeArgRef4)>)
    ensures
        r@ == ref_cands(evs_of(occ@), names@.map_values(|s: String| s@), names@.len() as int, default),
{
    let ghost evs = evs_of(occ@);
    let ghost nv = names@.map_values(|s: String| s@);
    let mut out: Vec<(NodeArgRef4, NodeArgRef4)> = Vec::new();
    let mut k: usize = 0;
    while k < names.len()
        invariant
            k <= names@.len(),
            evs == evs_of(occ@),
            nv == names@.map_values(|s: String| s@),
            out@ == ref_cands(evs, nv, k as int, default),
        decreases names@.len() - k,
    {
        let occs = var_occs_exec(occ, &names[k]);
        let ghost before = out@;
        if occs.len() > 1 {
            let base = occs[0];
            let mut j: usize = 1;
            while j < occs.len()
                invariant
                    1 <= j <= occs@.len(),
                    base == occs@[0],
                    out@ == before + group_pairs(occs@, j as int, default),
                decreases occs@.len() - j,
            {
                let o = occs[j];
                if !(default && (base.children_node_list != 0 || o.children_node_list != 0)) {
                    out.push((base, o));
                }
                assert(out@ =~= before + group_pairs(occs@, j + 1, default));
                j = j + 1;
            }
        } else {
            assert(out@ =~= before + group_pairs(occs@, occs@.len() as int, default));
        }
        assert(occs@ == var_occs(evs, nv[k as int]));
        k = k + 1;
    }
    out
}

/// The equalities of position pairs.
fn dedupe_refs_exec(cands: &Vec<(NodeArgRef4, NodeArgRef4)>, dedupe: bool) -> (r: Vec<(NodeArgRef4, NodeArgRef4)>)
    ensures
        r@ == dedupe_refs(cands@, cands@.len() as int, dedupe),
{
    let mut out: Vec<(NodeArgRef4, NodeArgRef4)> = Vec::new();
    let mut k: usize = 0;
    while k < cands.len()
        invariant
            k <= cands@.len(),
            out@ == dedupe_refs(cands@, k as int, dedupe),
        decreases cands@.len() - k,
    {
        let (a, b) = cands[k];
        if a != b {
            let key = if ref_le_exec(a, b) { (a, b) } else { (b, a) };
            let mut seen = false;
            if dedupe {
                let mut q: usize = 0;
                while q < out.len()
                    invariant
                        q <= out@.len(),
                        seen == exists|q2: int| 0 <= q2 < q && out@[q2] == key,
                    decreases out@.len() - q,
                {
                    if out[q].0 == key.0 && out[q].1 == key.1 {
                        seen = true;
                    }
                    q = q + 1;
                }
            }
            if !seen {
                out.push(key);
            }
        }
        k = k + 1;
    }
    out
}

/// The literal occurrences whose text does not start with `_` (in a default
/// clause, only those in the head).
fn lit_events_exec(occ: &Vec<Occurrence>, default: bool) -> (r: Vec<(NodeArgRef4, String)>)
    ensures
        r@.map_values(|p: (NodeArgRef4, String)| (p.0, p.1@)) == lit_events(evs_of(occ@), default),
{
    let ghost evs = evs_of(occ@);
    let mut out: Vec<(NodeArgRef4, String)> = Vec::new();
    let mut i: usize = 0;
    while i < occ.len()
        invariant
            i <= occ@.len(),
            evs == evs_of(occ@),
            out@.map_values(|p: (NodeArgRef4, String)| (p.0, p.1@)) == lit_events(evs.take(i as int), default),
        decreases occ@.len() - i,
    {
        assert(evs.take(i + 1).drop_last() =~= evs.take(i as int));
        assert(evs.take(i + 1).last() == ev_of(occ@[i as int]));
        match &occ[i] {
            Occurrence::Lit { at, text } => {
                let tv = chars_of(text.as_str());
                if !(tv.len() > 0 && tv[0] == '_') && !(default && at.children_node_list != 0) {
                    let ghost before = out@;
                    out.push((*at, text.clone()));
                    assert(out@.map_values(|p: (NodeArgRef4, String)| (p.0, p.1@))
                        =~= before.map_values(|p: (NodeArgRef4, String)| (p.0, p.1@)).push((*at, text@)));
                }
            },
            Occurrence::Var { .. } => {},
        }
        i = i + 1;
    }
    assert(evs.take(occ@.len() as int) =~= evs);
    out
}

/// The literal equalities.
fn dedupe_lits_exec(lits: &Vec<(NodeArgRef4, String)>, dedupe: bool) -> (r: Vec<(NodeArgRef4, String)>)
    ensures
        r@.map_values(|p: (NodeArgRef4, String)| (p.0, p.1@))
            == dedupe_lits(lits@.map_values(|p: (NodeArgRef4, String)| (p.0, p.1@)), lits@.len() as int, dedupe),
{
    let ghost lv = lits@.map_values(|p: (NodeArgRef4, String)| (p.0, p.1@));
    let mut out: Vec<(NodeArgRef4, String)> = Vec::new();
    let mut k: usize = 0;
    while k < lits.len()
        invariant
            k <= lits@.len(),
            lv == lits@.map_values(|p: (NodeArgRef4, String)| (p.0, p.1@)),
            out@.map_values(|p: (NodeArgRef4, String)| (p.0, p.1@)) == dedupe_lits(lv, k as int, dedupe),
        decreases lits@.len() - k,
    {
        let ghost ov = out@.map_values(|p: (NodeArgRef4, String)| (p.0, p.1@));
        let (at, text) = (lits[k].0, &lits[k].1);
        let mut seen = false;
        if dedupe {
            let mut q: usize = 0;
            while q < out.len()
                invariant
                    q <= out@.len(),
                    ov == out@.map_values(|p: (NodeArgRef4, String)| (p.0, p.1@)),
                    seen == exists|q2: int| 0 <= q2 < q && ov[q2] == (at, text@),
                decreases out@.len() - q,
            {
                assert(ov[q as int] == (out@[q as int].0, out@[q as int].1@));
                if out[q].0 == at && out[q].1 == *text {
                    seen = true;
                }
                q = q + 1;
            }
            assert(seen == ov.contains(lv[k as int])) by {
                if ov.contains(lv[k as int]) {
                    let q2 = choose|q2: int| 0 <= q2 < ov.len() && ov[q2] == lv[k as int];
                    assert(ov[q2] == (at, text@));
                }
            }
        }
        if !seen {
            out.push((at, text.clone()));
            assert(out@.map_values(|p: (NodeArgRef4, String)| (p.0, p.1@)) =~= ov.push((at, text@)));
        }
        k = k + 1;
    }
    out
}

/// The equalities of a clause from its occurrences.
fn build_equalities(occ: &Vec<Occurrence>, default: bool) -> (r: Vec<Equality>)
    ensures
        r@.map_values(|e: Equality| eq_view(e)) == equalities_spec(evs_of(occ@), default),
{
    let names = var_names_exec(occ);
    let cands = ref_cands_exec(occ, &names, default);
    let refs = dedupe_refs_exec(&cands, !default);
    let lits = lit_events_exec(occ, default);
    let ls = dedupe_lits_exec(&lits, !default);
    let mut out: Vec<Equality> = Vec::new();
    let mut i: usize = 0;
    while i < refs.len()
        invariant
            i <= refs@.len(),
            out@.map_values(|e: Equality| eq_view(e))
                == refs@.take(i as int).map_values(|p: (NodeArgRef4, NodeArgRef4)| (p.0, RightV::Ref(p.1))),
        decreases refs@.len() - i,
    {
        let (a, b) = refs[i];
        let ghost before = out@;
        let e = Equality { left: a, right: RightSide::Ref(b) };
        assert(eq_view(e) == (a, RightV::Ref(b)));
        out.push(e);
        assert(out@.map_values(|e: Equality| eq_view(e)) =~= before.map_values(|e: Equality| eq_view(e)).push((a, RightV::Ref(b))));
        assert(refs@.take(i + 1).map_values(|p: (NodeArgRef4, NodeArgRef4)| (p.0, RightV::Ref(p.1)))
            =~= refs@.take(i as int).map_values(|p: (NodeArgRef4, NodeArgRef4)| (p.0, RightV::Ref(p.1))).push((a, RightV::Ref(b))));
        i = i + 1;
    }
    assert(refs@.take(refs@.len() as int) =~= refs@);
    let ghost mid = out@.map_values(|e: Equality| eq_view(e));
    let ghost lsv = ls@.map_values(|p: (NodeArgRef4, String)| (p.0, p.1@));
    let mut k: usize = 0;
    while k < ls.len()
        invariant
            k <= ls@.len(),
            lsv == ls@.map_values(|p: (NodeArgRef4, String)| (p.0, p.1@)),
            out@.map_values(|e: Equality| eq_view(e))
                == mid + lsv.take(k as int).map_values(|p: (NodeArgRef4, Seq<char>)| (p.0, RightV::Atom(p.1))),
        decreases ls@.len() - k,
    {
        let ghost before = out@;
        let txt = ls[k].1.clone();
        let e = Equality { left: ls[k].0, right: RightSide::Atom(txt) };
        assert(eq_view(e) == (lsv[k as int].0, RightV::Atom(lsv[k as int].1)));
        out.push(e);
        assert(out@.map_values(|e: Equality| eq_view(e)) =~= before.map_values(|e: Equality| eq_view(e)).push(eq_view(e)));
        assert(lsv.take(k + 1).map_values(|p: (NodeArgRef4, Seq<char>)| (p.0, RightV::Atom(p.1)))
            =~= lsv.take(k as int).map_values(|p: (NodeArgRef4, Seq<char>)| (p.0, RightV::Atom(p.1))).push(eq_view(e)));
        assert(out@.map_values(|e: Equality| eq_view(e))
            =~= mid + lsv.take(k + 1).map_values(|p: (NodeArgRef4, Seq<char>)| (p.0, RightV::Atom(p.1))));
        k = k + 1;
    }
    assert(lsv.take(lsv.len() as int) =~= lsv);
    out
}

// ---------------------------------------------------------------------------
// Clause and program templates
// ---------------------------------------------------------------------------

/// The meaning of a clause template: its rows and its equalities.
pub open spec fn out_clause_view(c: OutClause) -> (Seq<Seq<(Seq<char>, usize)>>, Seq<(NodeArgRef4, RightV)>) {
    (c.children@.map_values(|r: Vec<ChildPred>| row_view(r@)), c.equalities@.map_values(|e: Equality| eq_view(e)))
}

/// The template of a clause: no rows for a default clause, the body rows
/// otherwise, and the equalities of its occurrences.
pub open spec fn clause_out_spec(cl: Clause) -> (Seq<Seq<(Seq<char>, usize)>>, Seq<(NodeArgRef4, RightV)>) {
    let default = is_default_clause(cl);
    (
        if default { Seq::empty() } else { body_out(cl.body@, cl.body@.len() as int, default).1 },
        equalities_spec(clause_events(cl), default),
    )
}

/// The key of a clause: its head's name and arity.
pub open spec fn clause_key(cl: Clause) -> (Seq<char>, usize) {
    (head_name(cl.head), head_args(cl.head).len() as usize)
}

/// The template of a clause, with the name and arity of its head.
pub fn clause_template(cl: &Clause) -> (r: (String, usize, OutClause))
    requires
        clause_readable(*cl),
    ensures
        (r.0@, r.1) == clause_key(*cl),
        out_clause_view(r.2) == clause_out_spec(*cl),
{
    let (hname, hargs): (String, Option<&Vec<Term>>) = match &cl.head {
        Term::Predicate { name, args } => (name.clone(), Some(args)),
        Term::Atom(a) => (a.clone(), None),
        Term::Var(v) => (v.clone(), None),
        _ => (String::new(), None),
    };
    let harity = match hargs {
        Some(a) => a.len(),
        None => 0,
    };
    let default = cl.body.len() == 1 && match &cl.body[0] {
        Term::Predicate { name, .. } => is_eq_name(name),
        _ => false,
    };
    assert(default == is_default_clause(*cl));
    let mut occ: Vec<Occurrence> = Vec::new();
    match &cl.head {
        Term::Predicate { args, .. } => {
            assert(args@ == head_args(cl.head));
            collect_args(args, 0, 0, &mut occ);
        },
        _ => {
            assert(args_events(head_args(cl.head), 0, 0, 0) =~= Seq::<Ev>::empty());
        },
    }
    let ghost head_ev = evs_of(occ@);
    let ghost ha = head_args(cl.head);
    assert(head_ev == args_events(ha, ha.len() as int, 0, 0));
    let mut children: Vec<Vec<ChildPred>> = Vec::new();
    let mut idx: usize = 0;
    while idx < cl.body.len()
        invariant
            idx <= cl.body@.len(),
            cl.body@.len() < usize::MAX,
            forall|i: int| 0 <= i < cl.body@.len() ==> row_readable(#[trigger] cl.body@[i]),
            evs_of(occ@) == head_ev + body_out(cl.body@, idx as int, default).0,
            children@.map_values(|r: Vec<ChildPred>| row_view(r@)) == body_out(cl.body@, idx as int, default).1,
        decreases cl.body@.len() - idx,
    {
        let ghost before_rows = children@.map_values(|r: Vec<ChildPred>| row_view(r@));
        let ghost before_ev = evs_of(occ@);
        let row = read_row(&cl.body[idx], idx + 1, default, &mut occ);
        match row {
            Some(rw) => {
                children.push(rw);
                assert(children@.map_values(|r: Vec<ChildPred>| row_view(r@)) =~= before_rows.push(row_view(rw@)));
            },
            None => {},
        }
        assert(evs_of(occ@) =~= head_ev + body_out(cl.body@, idx + 1, default).0);
        idx = idx + 1;
    }
    let equalities = build_equalities(&occ, default);
    assert(evs_of(occ@) == clause_events(*cl));
    let out = OutClause { children: if default { Vec::new() } else { children }, equalities };
    assert(out_clause_view(out).0 =~= clause_out_spec(*cl).0);
    (hname, harity, out)
}

/// The order of predicate keys: by name, then by arity.
pub open spec fn key_lt(a: (Seq<char>, usize), b: (Seq<char>, usize)) -> bool {
    seq_lt(a.0, b.0) || (a.0 == b.0 && a.1 < b.1)
}

/// The key of a predicate template.
pub open spec fn pred_key(p: OutPredicate) -> (Seq<char>, usize) {
    (p.name@, p.arity)
}

/// The templates of the first `k` clauses whose key is `key`, in order.
pub open spec fn clauses_with_key(cls: Seq<Clause>, key: (Seq<char>, usize), k: int) -> Seq<(Seq<Seq<(Seq<char>, usize)>>, Seq<(NodeArgRef4, RightV)>)>
    decreases k,
{
    if k <= 0 {
        Seq::empty()
    } else {
        let r = clauses_with_key(cls, key, k - 1);
        if clause_key(cls[k - 1]) == key {
            r.push(clause_out_spec(cls[k - 1]))
        } else {
            r
        }
    }
}

/// Whether `preds` are the templates of the first `k` clauses: one
/// predicate per key, in increasing key order, each with the templates of
/// its clauses in order.
pub open spec fn grouped(preds: Seq<OutPredicate>, cls: Seq<Clause>, k: int) -> bool {
    &&& forall|i: int, j: int| 0 <= i < j < preds.len() ==> key_lt(pred_key(#[trigger] preds[i]), pred_key(#[trigger] preds[j]))
    &&& forall|i: int| 0 <= i < preds.len() ==> (exists|c: int| 0 <= c < k && clause_key(cls[c]) == pred_key(#[trigger] preds[i]))
    &&& forall|i: int| 0 <= i < preds.len() ==> (#[trigger] preds[i]).clauses@.map_values(|c: OutClause| out_clause_view(c))
        == clauses_with_key(cls, pred_key(preds[i]), k)
    &&& forall|c: int| 0 <= c < k ==> #[trigger] has_pred_for(preds, clause_key(cls[c]))
}

/// Whether some predicate template has the key.
pub open spec fn has_pred_for(preds: Seq<OutPredicate>, key: (Seq<char>, usize)) -> bool {
    exists|i: int| 0 <= i < preds.len() && pred_key(#[trigger] preds[i]) == key
}

proof fn lemma_key_lt_trans(a: (Seq<char>, usize), b: (Seq<char>, usize), c: (Seq<char>, usize))
    requires
        key_lt(a, b),
        key_lt(b, c),
    ensures
        key_lt(a, c),
{
    if seq_lt(a.0, b.0) && seq_lt(b.0, c.0) {
        lemma_seq_lt_trans(a.0, b.0, c.0);
    }
}

proof fn lemma_key_lt_total(a: (Seq<char>, usize), b: (Seq<char>, usize))
    requires
        a != b,
    ensures
        key_lt(a, b) || key_lt(b, a),
{
    if a.0 != b.0 {
        lemma_seq_lt_total(a.0, b.0);
    }
}

proof fn lemma_key_lt_irrefl(a: (Seq<char>, usize))
    ensures
        !key_lt(a, a),
{
    lemma_seq_lt_irrefl(a.0);
}

proof fn lemma_cwk_empty(cls: Seq<Clause>, key: (Seq<char>, usize), k: int)
    requires
        forall|c: int| 0 <= c < k ==> clause_key(cls[c]) != key,
    ensures
        clauses_with_key(cls, key, k) == Seq::<(Seq<Seq<(Seq<char>, usize)>>, Seq<(NodeArgRef4, RightV)>)>::empty(),
    decreases k,
{
    if k > 0 {
        lemma_cwk_empty(cls, key, k - 1);
    }
}

/// The first position whose key does not come before `(n, a)`.
fn find_slot(preds: &Vec<OutPredicate>, n: &String, a: usize) -> (i: usize)
    ensures
        i <= preds@.len(),
        forall|j: int| 0 <= j < i ==> key_lt(pred_key(#[trigger] preds@[j]), (n@, a)),
        i < preds@.len() ==> !key_lt(pred_key(preds@[i as int]), (n@, a)),
{
    let mut i: usize = 0;
    while i < preds.len()
        invariant
            i <= preds@.len(),
            forall|j: int| 0 <= j < i ==> key_lt(pred_key(#[trigger] preds@[j]), (n@, a)),
        decreases preds@.len() - i,
    {
        if !key_less(&preds[i].name, preds[i].arity, n, a) {
            return i;
        }
        i = i + 1;
    }
    i
}

/// Whether one key comes before another.
fn key_less(an: &String, aa: usize, bn: &String, ba: usize) -> (r: bool)
    ensures
        r == key_lt((an@, aa), (bn@, ba)),
{
    let av = chars_of(an.as_str());
    let bv = chars_of(bn.as_str());
    lex_less(&av, &bv) || (chars_equal(&av, &bv) && aa < ba)
}

/// The rule templates of the clauses: one predicate per head name and
/// arity, in increasing order of name and then arity, each with the
/// templates of its clauses in the order they come.
#[verifier::rlimit(30)]
#[verifier::spinoff_prover]
pub fn to_output(clauses: Vec<Clause>) -> (r: OutRoot)
    requires
        forall|i: int| 0 <= i < clauses@.len() ==> clause_readable(#[trigger] clauses@[i]),
    ensures
        grouped(r.predicates@, clauses@, clauses@.len() as int),
{
    let ghost cls = clauses@;
    let mut preds: Vec<OutPredicate> = Vec::new();
    let mut k: usize = 0;
    while k < clauses.len()
        invariant
            k <= cls.len(),
            cls == clauses@,
            forall|i: int| 0 <= i < cls.len() ==> clause_readable(#[trigger] cls[i]),
            grouped(preds@, cls, k as int),
        decreases cls.len() - k,
    {
        let (n, a, oc) = clause_template(&clauses[k]);
        let ghost key = (n@, a);
        let ghost ocv = out_clause_view(oc);
        assert(key == clause_key(cls[k as int]));
        assert(ocv == clause_out_spec(cls[k as int]));
        let i = find_slot(&preds, &n, a);
        let ghost old_p = preds@;
        let same = i < preds.len() && chars_equal(&chars_of(preds[i].name.as_str()), &chars_of(n.as_str())) && preds[i].arity == a;
        if same {
            assert(pred_key(old_p[i as int]) == key);
            let mut pr = preds.remove(i);
            let ghost before_cl = pr.clauses@.map_values(|c: OutClause| out_clause_view(c));
            pr.clauses.push(oc);
            assert(pr.clauses@.map_values(|c: OutClause| out_clause_view(c)) =~= before_cl.push(ocv));
            preds.insert(i, pr);
            assert(preds@ =~= old_p.update(i as int, pr));
            proof {
                assert forall|j: int| 0 <= j < preds@.len() implies (#[trigger] preds@[j]).clauses@.map_values(|c: OutClause| out_clause_view(c))
                    == clauses_with_key(cls, pred_key(preds@[j]), k + 1) by {
                    if j != i {
                        assert(preds@[j] == old_p[j]);
                        if pred_key(old_p[j]) == key {
                            lemma_key_lt_irrefl(key);
                            if j < i {
                                assert(key_lt(pred_key(old_p[j]), pred_key(old_p[i as int])));
                            } else {
                                assert(key_lt(pred_key(old_p[i as int]), pred_key(old_p[j])));
                            }
                        }
                    }
                }
                assert forall|c: int| 0 <= c < k + 1 implies #[trigger] has_pred_for(preds@, clause_key(cls[c])) by {
                    if c == k {
                        assert(pred_key(preds@[i as int]) == clause_key(cls[c]));
                    } else {
                        assert(has_pred_for(old_p, clause_key(cls[c])));
                        let j = choose|j: int| 0 <= j < old_p.len() && pred_key(#[trigger] old_p[j]) == clause_key(cls[c]);
                        assert(pred_key(preds@[j]) == clause_key(cls[c]));
                    }
                }
                assert forall|j: int| 0 <= j < preds@.len() implies (exists|c: int| 0 <= c < k + 1 && clause_key(cls[c]) == pred_key(#[trigger] preds@[j])) by {
                    assert(pred_key(preds@[j]) == pred_key(old_p[j]));
                    let c = choose|c: int| 0 <= c < k && clause_key(cls[c]) == pred_key(old_p[j]);
                }
                assert forall|x: int, y: int| 0 <= x < y < preds@.len() implies key_lt(pred_key(#[trigger] preds@[x]), pred_key(#[trigger] preds@[y])) by {
                    assert(pred_key(preds@[x]) == pred_key(old_p[x]));
                    assert(pred_key(preds@[y]) == pred_key(old_p[y]));
                }
            }
        } else {
            let mut cl_vec: Vec<OutClause> = Vec::new();
            cl_vec.push(oc);
            let np = OutPredicate { name: n, arity: a, clauses: cl_vec };
            assert(np.clauses@.map_values(|c: OutClause| out_clause_view(c)) =~= seq![ocv]);
            preds.insert(i, np);
            assert(preds@ =~= old_p.insert(i as int, np));
            proof {
                assert(pred_key(np) == key);
                if i < old_p.len() {
                    assert(pred_key(old_p[i as int]) != key);
                    lemma_key_lt_total(pred_key(old_p[i as int]), key);
                }
                assert forall|c: int| 0 <= c < k implies clause_key(cls[c]) != key by {
                    if clause_key(cls[c]) == key {
                        assert(has_pred_for(old_p, clause_key(cls[c])));
                        let j = choose|j: int| 0 <= j < old_p.len() && pred_key(#[trigger] old_p[j]) == clause_key(cls[c]);
                        if j < i {
                            lemma_key_lt_irrefl(key);
                        } else if j > i {
                            lemma_key_lt_trans(key, pred_key(old_p[i as int]), pred_key(old_p[j]));
                            lemma_key_lt_irrefl(key);
                        }
                    }
                }
                assert(clauses_with_key(cls, key, k as int) =~= Seq::empty()) by {
                    lemma_cwk_empty(cls, key, k as int);
                }
                assert forall|x: int, y: int| 0 <= x < y < preds@.len() implies key_lt(pred_key(#[trigger] preds@[x]), pred_key(#[trigger] preds@[y])) by {
                    if y < i {
                        assert(preds@[x] == old_p[x]);
                        assert(preds@[y] == old_p[y]);
                    } else if x < i && y == i {
                    } else if x < i && y > i {
                        assert(preds@[y] == old_p[y - 1]);
                    } else if x == i && y > i {
                        assert(preds@[y] == old_p[y - 1]);
                        if y - 1 > i {
                            lemma_key_lt_trans(key, pred_key(old_p[i as int]), pred_key(old_p[y - 1]));
                        }
                    } else {
                        assert(preds@[x] == old_p[x - 1]);
                        assert(preds@[y] == old_p[y - 1]);
                    }
                }
                assert forall|j: int| 0 <= j < preds@.len() implies (#[trigger] preds@[j]).clauses@.map_values(|c: OutClause| out_clause_view(c))
                    == clauses_with_key(cls, pred_key(preds@[j]), k + 1) by {
                    if j < i {
                        assert(preds@[j] == old_p[j]);
                    } else if j > i {
                        assert(preds@[j] == old_p[j - 1]);
                    }
                }
                assert forall|c: int| 0 <= c < k + 1 implies #[trigger] has_pred_for(preds@, clause_key(cls[c])) by {
                    if c == k {
                        assert(pred_key(preds@[i as int]) == clause_key(cls[c]));
                    } else {
                        assert(has_pred_for(old_p, clause_key(cls[c])));
                        let j = choose|j: int| 0 <= j < old_p.len() && pred_key(#[trigger] old_p[j]) == clause_key(cls[c]);
                        if j < i {
                            assert(pred_key(preds@[j]) == clause_key(cls[c]));
                        } else {
                            assert(pred_key(preds@[j + 1]) == clause_key(cls[c]));
                        }
                    }
                }
                assert forall|j: int| 0 <= j < preds@.len() implies (exists|c: int| 0 <= c < k + 1 && clause_key(cls[c]) == pred_key(#[trigger] preds@[j])) by {
                    if j == i {
                        assert(clause_key(cls[k as int]) == pred_key(preds@[j]));
                    } else {
                        let oj = if j < i { j } else { j - 1 };
                        assert(preds@[j] == old_p[oj]);
                        let c = choose|c: int| 0 <= c < k && clause_key(cls[c]) == pred_key(old_p[oj]);
                    }
                }
            }
        }
        k = k + 1;
    }
    OutRoot { predicates: preds }
}

} // verus!
