//! Reading a Prolog policy program into clauses.
//!
//! The grammar, on characters:
//! - layout: whitespace and `%` comments up to the end of the line;
//! - program: clauses and directives (`:- body.`, which give no clause);
//! - clause: `head.` or `head :- body.`, where the body is alternatives
//!   `goal, ..., goal` separated by `;`; each alternative gives a clause
//!   with the same head;
//! - goal and head: an expression;
//! - expression: `a op b` with `op` one of `=:=`, `=\=`, `\==`, `=..`, `@=<`,
//!   `@>=`, `@<`, `@>`, `=<`, `>=`, `==`, `\=`, `<`, `>`, `=`, `is` (not
//!   chained), over sums;
//! - sum: products joined left to right by `+` or `-`;
//! - product: primaries joined left to right by `*`, `//`, `/`, `<<`, `>>`,
//!   `div`, `mod`, `rem`;
//! - primary: a number (digits, optionally `.` and digits, optionally after
//!   `-`), a quoted atom (kept with its quotes), `[]`, a list `[e, ..., e]`
//!   or `[e, ... | t]`, `\+` followed by a primary, a parenthesized group
//!   `(e)` or `(e, ..., e)`, a name starting with a lower-case letter (an
//!   atom, or a compound when `(` follows at once), a variable (upper-case
//!   letter or `_` first), or `!`.
//!
//! An operator `a op b` reads as the compound `op(a, b)`, `\+ p` as
//! `\+(p)`. Word operators (`is`, `div`, `mod`, `rem`) need a character that is
//! not a letter, digit or `_` after them. A parenthesized group reads as the
//! atom of its text, and so does a list element or tail that is not itself
//! a list; such text is taken as its tokens spell it, without layout or
//! comments outside quotes.
use vstd::prelude::*;
use crate::templates::{Term, Clause};
use crate::text::{string_of, subvec, chars_from_slice, chars_of};

verus! {

/// The meaning of a term, over character sequences.
pub enum TermV {
    Atom(Seq<char>),
    Var(Seq<char>),
    Pred(Seq<char>, Seq<TermV>),
    Cell(Box<TermV>, Box<TermV>),
    Nil,
}

/// The meaning of a term.
pub open spec fn term_v(t: Term) -> TermV
    decreases t, 0nat,
{
    match t {
        Term::Atom(s) => TermV::Atom(s@),
        Term::Var(v) => TermV::Var(v@),
        Term::Predicate { name, args } => TermV::Pred(name@, terms_v(args@, args@.len())),
        Term::ListCell { head, tail } => TermV::Cell(Box::new(term_v(*head)), Box::new(term_v(*tail))),
        Term::EmptyList => TermV::Nil,
    }
}

/// The meanings of the first `k` terms.
pub open spec fn terms_v(ts: Seq<Term>, k: nat) -> Seq<TermV>
    decreases ts, k,
{
    if k == 0 || k > ts.len() {
        Seq::empty()
    } else {
        terms_v(ts, (k - 1) as nat).push(term_v(ts[k - 1]))
    }
}

/// The meaning of a clause: its head and its body goals.
pub open spec fn clause_v(c: Clause) -> (TermV, Seq<TermV>) {
    (term_v(c.head), terms_v(c.body@, c.body@.len()))
}

/// The meanings of clauses.
pub open spec fn clauses_v(cs: Seq<Clause>) -> Seq<(TermV, Seq<TermV>)> {
    cs.map_values(|c: Clause| clause_v(c))
}

// ---------------------------------------------------------------------------
// Characters
// ---------------------------------------------------------------------------

/// A layout character.
pub open spec fn is_layout(c: char) -> bool {
    c == ' ' || c == '\t' || c == '\n' || c == '\r'
}

/// A letter, digit or `_`.
pub open spec fn is_ident_char(c: char) -> bool {
    ('a' <= c <= 'z') || ('A' <= c <= 'Z') || ('0' <= c <= '9') || c == '_'
}

/// The character at `i`, or a space past the end.
pub open spec fn at(s: Seq<char>, i: int) -> char {
    if 0 <= i < s.len() {
        s[i]
    } else {
        ' '
    }
}

/// Whether `p` occurs at `i`.
pub open spec fn has_at(s: Seq<char>, i: int, p: Seq<char>) -> bool {
    0 <= i && i + p.len() <= s.len() && s.subrange(i, i + p.len()) == p
}

/// Whether the word `w` occurs at `i` and no identifier character follows.
pub open spec fn word_at(s: Seq<char>, i: int, w: Seq<char>) -> bool {
    has_at(s, i, w) && !is_ident_char(at(s, i + w.len()))
}

/// The end of the line that starts at or after `i` (its `\n`, or the end).
pub open spec fn line_end(s: Seq<char>, i: int) -> int
    decreases s.len() - i,
{
    if i < 0 || i >= s.len() || s[i] == '\n' {
        i
    } else {
        line_end(s, i + 1)
    }
}

/// The first position at or after `i` that is not layout or comment.
pub open spec fn skip(s: Seq<char>, i: int) -> int
    decreases s.len() - i,
{
    if i < 0 || i >= s.len() {
        i
    } else if is_layout(s[i]) {
        skip(s, i + 1)
    } else if s[i] == '%' {
        let j = line_end(s, i + 1);
        if i < j <= s.len() {
            skip(s, j)
        } else {
            i
        }
    } else {
        i
    }
}

/// The end of the identifier characters from `i`.
pub open spec fn ident_end(s: Seq<char>, i: int) -> int
    decreases s.len() - i,
{
    if 0 <= i < s.len() && is_ident_char(s[i]) {
        ident_end(s, i + 1)
    } else {
        i
    }
}

/// The end of the digits from `i`.
pub open spec fn digits_end(s: Seq<char>, i: int) -> int
    decreases s.len() - i,
{
    if 0 <= i < s.len() && '0' <= s[i] <= '9' {
        digits_end(s, i + 1)
    } else {
        i
    }
}

/// The position of the first `'` at or after `i`, if any.
pub open spec fn quote_end(s: Seq<char>, i: int) -> Option<int>
    decreases s.len() - i,
{
    if i < 0 || i >= s.len() {
        None
    } else if s[i] == '\'' {
        Some(i)
    } else {
        quote_end(s, i + 1)
    }
}

/// The position of the `)` that closes a group whose inside starts at `i`
/// with `d` groups open.
pub open spec fn close_paren(s: Seq<char>, i: int, d: nat) -> Option<int>
    decreases s.len() - i,
{
    if i < 0 || i >= s.len() {
        None
    } else if s[i] == '(' {
        close_paren(s, i + 1, d + 1)
    } else if s[i] == ')' {
        if d == 0 {
            Some(i)
        } else {
            close_paren(s, i + 1, (d - 1) as nat)
        }
    } else {
        close_paren(s, i + 1, d)
    }
}

/// The text of `s[i..]` as its tokens spell it: layout and comments outside
/// quotes left out; `q` says whether `i` is inside a quoted atom.
pub open spec fn compact_from(s: Seq<char>, i: int, q: bool) -> Seq<char>
    decreases s.len() - i,
{
    if i < 0 || i >= s.len() {
        Seq::empty()
    } else {
        let c = s[i];
        if q {
            seq![c] + compact_from(s, i + 1, c != '\'')
        } else if c == '\'' {
            seq![c] + compact_from(s, i + 1, true)
        } else if is_layout(c) {
            compact_from(s, i + 1, false)
        } else if c == '%' {
            let j = line_end(s, i + 1);
            if i < j <= s.len() {
                compact_from(s, j, false)
            } else {
                Seq::empty()
            }
        } else {
            seq![c] + compact_from(s, i + 1, false)
        }
    }
}

/// The text of `t` as its tokens spell it.
pub open spec fn compact(t: Seq<char>) -> Seq<char> {
    compact_from(t, 0, false)
}

/// A list element or tail read from `i` to `j` as `e`: a nested list keeps
/// its structure, anything else is the atom of its text.
pub open spec fn item_v(s: Seq<char>, i: int, e: TermV, j: int) -> TermV {
    if at(s, i) == '[' {
        e
    } else {
        TermV::Atom(compact(s.subrange(i, j)))
    }
}

// ---------------------------------------------------------------------------
// The grammar
// ---------------------------------------------------------------------------

/// The comparison operator at `k`, if any (longest first).
pub open spec fn op700_at(s: Seq<char>, k: int) -> Option<Seq<char>> {
    if has_at(s, k, seq!['=', ':', '=']) {
        Some(seq!['=', ':', '='])
    } else if has_at(s, k, seq!['=', '\\', '=']) {
        Some(seq!['=', '\\', '='])
    } else if has_at(s, k, seq!['\\', '=', '=']) {
        Some(seq!['\\', '=', '='])
    } else if has_at(s, k, seq!['=', '.', '.']) {
        Some(seq!['=', '.', '.'])
    } else if has_at(s, k, seq!['@', '=', '<']) {
        Some(seq!['@', '=', '<'])
    } else if has_at(s, k, seq!['@', '>', '=']) {
        Some(seq!['@', '>', '='])
    } else if has_at(s, k, seq!['@', '<']) {
        Some(seq!['@', '<'])
    } else if has_at(s, k, seq!['@', '>']) {
        Some(seq!['@', '>'])
    } else if has_at(s, k, seq!['=', '<']) {
        Some(seq!['=', '<'])
    } else if has_at(s, k, seq!['>', '=']) {
        Some(seq!['>', '='])
    } else if has_at(s, k, seq!['=', '=']) {
        Some(seq!['=', '='])
    } else if has_at(s, k, seq!['\\', '=']) {
        Some(seq!['\\', '='])
    } else if has_at(s, k, seq!['<']) {
        Some(seq!['<'])
    } else if has_at(s, k, seq!['>']) {
        Some(seq!['>'])
    } else if has_at(s, k, seq!['=']) {
        Some(seq!['='])
    } else if word_at(s, k, seq!['i', 's']) {
        Some(seq!['i', 's'])
    } else {
        None
    }
}

/// The additive operator at `k`, if any.
pub open spec fn add_op_at(s: Seq<char>, k: int) -> Option<Seq<char>> {
    if has_at(s, k, seq!['+']) {
        Some(seq!['+'])
    } else if has_at(s, k, seq!['-']) {
        Some(seq!['-'])
    } else {
        None
    }
}

/// The multiplicative operator at `k`, if any.
pub open spec fn mul_op_at(s: Seq<char>, k: int) -> Option<Seq<char>> {
    if has_at(s, k, seq!['/', '/']) {
        Some(seq!['/', '/'])
    } else if has_at(s, k, seq!['/']) {
        Some(seq!['/'])
    } else if has_at(s, k, seq!['*']) {
        Some(seq!['*'])
    } else if has_at(s, k, seq!['<', '<']) {
        Some(seq!['<', '<'])
    } else if has_at(s, k, seq!['>', '>']) {
        Some(seq!['>', '>'])
    } else if word_at(s, k, seq!['d', 'i', 'v']) {
        Some(seq!['d', 'i', 'v'])
    } else if word_at(s, k, seq!['m', 'o', 'd']) {
        Some(seq!['m', 'o', 'd'])
    } else if word_at(s, k, seq!['r', 'e', 'm']) {
        Some(seq!['r', 'e', 'm'])
    } else {
        None
    }
}

/// The comparison operator read at `k` is exactly the text standing there:
/// a non-empty operator spelled by the characters at `k`.
pub proof fn law_comparison_operator_is_its_text(s: Seq<char>, k: int)
    ensures
        op700_at(s, k) matches Some(p) ==> p.len() > 0 && has_at(s, k, p) && s[k] == p[0],
{
    if let Some(p) = op700_at(s, k) {
        assert(has_at(s, k, p));
        assert(s.subrange(k, k + p.len())[0] == s[k]);
    }
}

/// The additive operator read at `k` is exactly the text standing there.
pub proof fn law_additive_operator_is_its_text(s: Seq<char>, k: int)
    ensures
        add_op_at(s, k) matches Some(p) ==> p.len() > 0 && has_at(s, k, p) && s[k] == p[0],
{
    if let Some(p) = add_op_at(s, k) {
        assert(has_at(s, k, p));
        assert(s.subrange(k, k + p.len())[0] == s[k]);
    }
}

/// The multiplicative operator read at `k` is exactly the text standing
/// there.
pub proof fn law_multiplicative_operator_is_its_text(s: Seq<char>, k: int)
    ensures
        mul_op_at(s, k) matches Some(p) ==> p.len() > 0 && has_at(s, k, p) && s[k] == p[0],
{
    if let Some(p) = mul_op_at(s, k) {
        assert(has_at(s, k, p));
        assert(s.subrange(k, k + p.len())[0] == s[k]);
    }
}

/// A comparison `l op r` reads as the compound named by the operator text
/// that follows `l`: when the sum `l` ends at `j` and an operator stands
/// after it, the expression is `op(l, r)` with `op` spelled there.
pub proof fn law_comparison_named_by_its_text(s: Seq<char>, i: int)
    ensures
        read_sum(s, i) matches Some((l, j)) ==> (op700_at(s, skip(s, j)) matches Some(op) ==> (read_expr(s, i) matches Some((v, e))
            ==> v matches TermV::Pred(name, args) && name == op && has_at(s, skip(s, j), name) && args.len() == 2 && args[0] == l)),
{
    if let Some((l, j)) = read_sum(s, i) {
        law_comparison_operator_is_its_text(s, skip(s, j));
    }
}

/// A binary compound.
pub open spec fn bin(op: Seq<char>, l: TermV, r: TermV) -> TermV {
    TermV::Pred(op, seq![l, r])
}

/// Whether `c` is a decimal digit.
pub open spec fn digit(c: char) -> bool {
    '0' <= c <= '9'
}

/// A number from `i` (its digits start at `d`): digits, then `.` and digits
/// when a digit follows the `.`.
pub open spec fn number_end(s: Seq<char>, d: int) -> int {
    let e = digits_end(s, d);
    if at(s, e) == '.' && digit(at(s, e + 1)) {
        digits_end(s, e + 1)
    } else {
        e
    }
}

/// An expression from `i`: a sum, or two sums around a comparison.
pub open spec fn read_expr(s: Seq<char>, i: int) -> Option<(TermV, int)>
    decreases s.len() - i, 5int,
{
    if i < 0 || i > s.len() {
        None
    } else {
        match read_sum(s, i) {
            None => None,
            Some((l, j)) => {
                let k = skip(s, j);
                match op700_at(s, k) {
                    None => Some((l, j)),
                    Some(op) => {
                        let m = skip(s, k + op.len());
                        if i < m <= s.len() {
                            match read_sum(s, m) {
                                None => None,
                                Some((r, e)) => Some((bin(op, l, r), e)),
                            }
                        } else {
                            None
                        }
                    },
                }
            },
        }
    }
}

/// A sum from `i`.
pub open spec fn read_sum(s: Seq<char>, i: int) -> Option<(TermV, int)>
    decreases s.len() - i, 4int,
{
    if i < 0 || i > s.len() {
        None
    } else {
        match read_prod(s, i) {
            None => None,
            Some((l, j)) => if i < j <= s.len() {
                sum_rest(s, l, j)
            } else {
                None
            },
        }
    }
}

/// The rest of a sum whose left part `l` ends at `j`.
pub open spec fn sum_rest(s: Seq<char>, l: TermV, j: int) -> Option<(TermV, int)>
    decreases s.len() - j, 4int,
{
    if j < 0 || j > s.len() {
        None
    } else {
        let k = skip(s, j);
        match add_op_at(s, k) {
            None => Some((l, j)),
            Some(op) => {
                let m = skip(s, k + op.len());
                if j < m <= s.len() {
                    match read_prod(s, m) {
                        None => None,
                        Some((r, e)) => if m < e <= s.len() {
                            sum_rest(s, bin(op, l, r), e)
                        } else {
                            None
                        },
                    }
                } else {
                    None
                }
            },
        }
    }
}

/// A product from `i`.
pub open spec fn read_prod(s: Seq<char>, i: int) -> Option<(TermV, int)>
    decreases s.len() - i, 3int,
{
    if i < 0 || i > s.len() {
        None
    } else {
        match read_prim(s, i) {
            None => None,
            Some((l, j)) => if i < j <= s.len() {
                prod_rest(s, l, j)
            } else {
                None
            },
        }
    }
}

/// The rest of a product whose left part `l` ends at `j`.
pub open spec fn prod_rest(s: Seq<char>, l: TermV, j: int) -> Option<(TermV, int)>
    decreases s.len() - j, 3int,
{
    if j < 0 || j > s.len() {
        None
    } else {
        let k = skip(s, j);
        match mul_op_at(s, k) {
            None => Some((l, j)),
            Some(op) => {
                let m = skip(s, k + op.len());
                if j < m <= s.len() {
                    match read_prim(s, m) {
                        None => None,
                        Some((r, e)) => if m < e <= s.len() {
                            prod_rest(s, bin(op, l, r), e)
                        } else {
                            None
                        },
                    }
                } else {
                    None
                }
            },
        }
    }
}

/// A primary from `i`.
pub open spec fn read_prim(s: Seq<char>, i: int) -> Option<(TermV, int)>
    decreases s.len() - i, 2int,
{
    if i < 0 || i >= s.len() {
        None
    } else {
        let c = s[i];
        if c == '(' {
            let a = skip(s, i + 1);
            if i < a <= s.len() {
                match read_expr(s, a) {
                    None => None,
                    Some((e, j)) => {
                        let k = skip(s, j);
                        if at(s, k) == ')' {
                            Some((TermV::Atom(compact(s.subrange(i, k + 1))), k + 1))
                        } else if at(s, k) == ',' {
                            match close_paren(s, i + 1, 0) {
                                Some(m) => Some((TermV::Atom(compact(s.subrange(i, m + 1))), m + 1)),
                                None => None,
                            }
                        } else {
                            None
                        }
                    },
                }
            } else {
                None
            }
        } else if c == '[' {
            let a = skip(s, i + 1);
            if at(s, a) == ']' {
                Some((TermV::Nil, a + 1))
            } else if i < a <= s.len() {
                read_items(s, a)
            } else {
                None
            }
        } else if c == '\'' {
            match quote_end(s, i + 1) {
                Some(q) => Some((TermV::Atom(s.subrange(i, q + 1)), q + 1)),
                None => None,
            }
        } else if digit(c) {
            let e = number_end(s, i);
            Some((TermV::Atom(s.subrange(i, e)), e))
        } else if c == '-' && digit(at(s, i + 1)) {
            let e = number_end(s, i + 1);
            Some((TermV::Atom(s.subrange(i, e)), e))
        } else if 'a' <= c <= 'z' {
            let e = ident_end(s, i);
            let name = s.subrange(i, e);
            if at(s, e) == '(' {
                let a = skip(s, e + 1);
                if i < a <= s.len() {
                    match read_args(s, a) {
                        None => None,
                        Some((args, j)) => Some((TermV::Pred(name, args), j)),
                    }
                } else {
                    None
                }
            } else {
                Some((TermV::Atom(name), e))
            }
        } else if ('A' <= c <= 'Z') || c == '_' {
            let e = ident_end(s, i);
            Some((TermV::Var(s.subrange(i, e)), e))
        } else if c == '!' {
            Some((TermV::Atom(seq!['!']), i + 1))
        } else if has_at(s, i, seq!['\\', '+']) {
            let a = skip(s, i + 2);
            if i < a <= s.len() {
                match read_prim(s, a) {
                    None => None,
                    Some((p, j)) => Some((TermV::Pred(seq!['\\', '+'], seq![p]), j)),
                }
            } else {
                None
            }
        } else {
            None
        }
    }
}

/// The arguments of a compound from `i` up to and past its `)`.
pub open spec fn read_args(s: Seq<char>, i: int) -> Option<(Seq<TermV>, int)>
    decreases s.len() - i, 6int,
{
    if i < 0 || i > s.len() {
        None
    } else {
        match read_expr(s, i) {
            None => None,
            Some((e, j)) => {
                let k = skip(s, j);
                if at(s, k) == ',' {
                    let m = skip(s, k + 1);
                    if i < m <= s.len() {
                        match read_args(s, m) {
                            None => None,
                            Some((rest, e2)) => Some((seq![e] + rest, e2)),
                        }
                    } else {
                        None
                    }
                } else if at(s, k) == ')' {
                    Some((seq![e], k + 1))
                } else {
                    None
                }
            },
        }
    }
}

/// The elements of a non-empty list from `i` up to and past its `]`.
pub open spec fn read_items(s: Seq<char>, i: int) -> Option<(TermV, int)>
    decreases s.len() - i, 6int,
{
    if i < 0 || i > s.len() {
        None
    } else {
        match read_expr(s, i) {
            None => None,
            Some((e, j)) => {
                let k = skip(s, j);
                if at(s, k) == ',' {
                    let m = skip(s, k + 1);
                    if i < m <= s.len() {
                        match read_items(s, m) {
                            None => None,
                            Some((rest, e2)) => Some((TermV::Cell(Box::new(item_v(s, i, e, j)), Box::new(rest)), e2)),
                        }
                    } else {
                        None
                    }
                } else if at(s, k) == '|' {
                    let m = skip(s, k + 1);
                    if i < m <= s.len() {
                        match read_expr(s, m) {
                            None => None,
                            Some((t, e2)) => {
                                let k2 = skip(s, e2);
                                if at(s, k2) == ']' {
                                    Some((TermV::Cell(Box::new(item_v(s, i, e, j)), Box::new(item_v(s, m, t, e2))), k2 + 1))
                                } else {
                                    None
                                }
                            },
                        }
                    } else {
                        None
                    }
                } else if at(s, k) == ']' {
                    Some((TermV::Cell(Box::new(item_v(s, i, e, j)), Box::new(TermV::Nil)), k + 1))
                } else {
                    None
                }
            },
        }
    }
}

/// The goals of one body alternative from `i`: the goals, the position
/// after its `;` (past layout) or `.`, and whether a `;` ended it.
pub open spec fn read_goals(s: Seq<char>, i: int) -> Option<(Seq<TermV>, int, bool)>
    decreases s.len() - i,
{
    if i < 0 || i > s.len() {
        None
    } else {
        match read_expr(s, i) {
            None => None,
            Some((g, j)) => {
                let k = skip(s, j);
                if at(s, k) == ',' {
                    let m = skip(s, k + 1);
                    if i < m <= s.len() {
                        match read_goals(s, m) {
                            None => None,
                            Some((rest, e, more)) => Some((seq![g] + rest, e, more)),
                        }
                    } else {
                        None
                    }
                } else if at(s, k) == ';' {
                    Some((seq![g], skip(s, k + 1), true))
                } else if at(s, k) == '.' {
                    Some((seq![g], k + 1, false))
                } else {
                    None
                }
            },
        }
    }
}

/// The alternatives of a body (`;` between them) from `i` up to and past
/// its `.`.
pub open spec fn read_body(s: Seq<char>, i: int) -> Option<(Seq<Seq<TermV>>, int)>
    decreases s.len() - i,
{
    if i < 0 || i > s.len() {
        None
    } else {
        match read_goals(s, i) {
            None => None,
            Some((gs, e, more)) => if !more {
                Some((seq![gs], e))
            } else if i < e <= s.len() {
                match read_body(s, e) {
                    None => None,
                    Some((rest, e2)) => Some((seq![gs] + rest, e2)),
                }
            } else {
                None
            },
        }
    }
}

/// The term read by `read_expr` from `i`, if any.
pub open spec fn expr_value(s: Seq<char>, i: int) -> TermV {
    match read_expr(s, i) {
        Some((v, _)) => v,
        None => TermV::Nil,
    }
}

/// The alternatives read by `read_body` from `i`, if any.
pub open spec fn body_value(s: Seq<char>, i: int) -> Seq<Seq<TermV>> {
    match read_body(s, i) {
        Some((a, _)) => a,
        None => Seq::empty(),
    }
}

/// The clauses of a head and body alternatives: one per alternative.
pub open spec fn with_head(h: TermV, alts: Seq<Seq<TermV>>) -> Seq<(TermV, Seq<TermV>)> {
    alts.map_values(|b: Seq<TermV>| (h, b))
}

/// A clause or a directive from `i` up to and past its `.`: the clauses it
/// gives (one per body alternative; none for a directive).
pub open spec fn read_clause(s: Seq<char>, i: int) -> Option<(Seq<(TermV, Seq<TermV>)>, int)> {
    if i < 0 || i > s.len() {
        None
    } else if has_at(s, i, seq![':', '-']) {
        match read_body(s, skip(s, i + 2)) {
            None => None,
            Some((_, e)) => Some((Seq::empty(), e)),
        }
    } else {
        match read_expr(s, i) {
            None => None,
            Some((h, j)) => {
                let k = skip(s, j);
                if has_at(s, k, seq![':', '-']) {
                    match read_body(s, skip(s, k + 2)) {
                        None => None,
                        Some((alts, e)) => Some((with_head(h, alts), e)),
                    }
                } else if at(s, k) == '.' {
                    Some((seq![(h, Seq::empty())], k + 1))
                } else {
                    None
                }
            },
        }
    }
}

/// The clauses of a program from `i` to its end, directives left out.
pub open spec fn read_program(s: Seq<char>, i: int) -> Option<Seq<(TermV, Seq<TermV>)>>
    decreases s.len() - i,
{
    if i < 0 || i > s.len() {
        None
    } else {
        let a = skip(s, i);
        if a >= s.len() {
            Some(Seq::empty())
        } else {
            match read_clause(s, a) {
                None => None,
                Some((cs, e)) => if i < e <= s.len() {
                    match read_program(s, e) {
                        None => None,
                        Some(rest) => Some(cs + rest),
                    }
                } else {
                    None
                },
            }
        }
    }
}

/// The clauses of a program text, or `None` where it does not follow the
/// grammar.
pub open spec fn program_spec(text: Seq<char>) -> Option<Seq<(TermV, Seq<TermV>)>> {
    read_program(text, 0)
}

// ---------------------------------------------------------------------------
// Executable scanners
// ---------------------------------------------------------------------------

fn line_end_exec(s: &Vec<char>, i: usize) -> (r: usize)
    requires
        i <= s@.len(),
    ensures
        r as int == line_end(s@, i as int),
        i <= r <= s@.len(),
    decreases s@.len() - i,
{
    if i >= s.len() || s[i] == '\n' {
        i
    } else {
        line_end_exec(s, i + 1)
    }
}

fn skip_exec(s: &Vec<char>, i: usize) -> (r: usize)
    requires
        i <= s@.len(),
    ensures
        r as int == skip(s@, i as int),
        i <= r <= s@.len(),
    decreases s@.len() - i,
{
    if i >= s.len() {
        i
    } else {
        let c = s[i];
        if c == ' ' || c == '\t' || c == '\n' || c == '\r' {
            skip_exec(s, i + 1)
        } else if c == '%' {
            let j = line_end_exec(s, i + 1);
            skip_exec(s, j)
        } else {
            i
        }
    }
}

fn ident_char_exec(c: char) -> (r: bool)
    ensures
        r == is_ident_char(c),
{
    ('a' <= c && c <= 'z') || ('A' <= c && c <= 'Z') || ('0' <= c && c <= '9') || c == '_'
}

fn ident_end_exec(s: &Vec<char>, i: usize) -> (r: usize)
    requires
        i <= s@.len(),
    ensures
        r as int == ident_end(s@, i as int),
        i <= r <= s@.len(),
        (i < s@.len() && is_ident_char(s@[i as int])) ==> i < r,
    decreases s@.len() - i,
{
    if i < s.len() && ident_char_exec(s[i]) {
        ident_end_exec(s, i + 1)
    } else {
        i
    }
}

fn digits_end_exec(s: &Vec<char>, i: usize) -> (r: usize)
    requires
        i <= s@.len(),
    ensures
        r as int == digits_end(s@, i as int),
        i <= r <= s@.len(),
        (i < s@.len() && digit(s@[i as int])) ==> i < r,
    decreases s@.len() - i,
{
    if i < s.len() && '0' <= s[i] && s[i] <= '9' {
        digits_end_exec(s, i + 1)
    } else {
        i
    }
}

fn quote_end_exec(s: &Vec<char>, i: usize) -> (r: Option<usize>)
    requires
        i <= s@.len(),
    ensures
        match quote_end(s@, i as int) {
            Some(j) => r == Some(j as usize) && i <= j < s@.len(),
            None => r is None,
        },
    decreases s@.len() - i,
{
    if i >= s.len() {
        None
    } else if s[i] == '\'' {
        Some(i)
    } else {
        quote_end_exec(s, i + 1)
    }
}

fn close_paren_exec(s: &Vec<char>, i: usize, d: usize) -> (r: Option<usize>)
    requires
        i <= s@.len(),
        d <= i,
    ensures
        match close_paren(s@, i as int, d as nat) {
            Some(j) => r == Some(j as usize) && i <= j < s@.len(),
            None => r is None,
        },
    decreases s@.len() - i,
{
    if i >= s.len() {
        None
    } else if s[i] == '(' {
        close_paren_exec(s, i + 1, d + 1)
    } else if s[i] == ')' {
        if d == 0 {
            Some(i)
        } else {
            close_paren_exec(s, i + 1, d - 1)
        }
    } else {
        close_paren_exec(s, i + 1, d)
    }
}

fn char_at(s: &Vec<char>, i: usize) -> (r: char)
    ensures
        r == at(s@, i as int),
        r != ' ' ==> i < s@.len(),
{
    if i < s.len() {
        s[i]
    } else {
        ' '
    }
}

fn has_at_exec(s: &Vec<char>, i: usize, p: &Vec<char>) -> (r: bool)
    ensures
        r == has_at(s@, i as int, p@),
{
    if p.len() > s.len() || i > s.len() - p.len() {
        return false;
    }
    let mut k: usize = 0;
    while k < p.len()
        invariant
            i + p@.len() <= s@.len(),
            s@.len() == s.len(),
            p@.len() == p.len(),
            k <= p@.len(),
            forall|m: int| 0 <= m < k ==> s@[i + m] == p@[m],
        decreases p@.len() - k,
    {
        assert(i + k < s.len());
        if s[i + k] != p[k] {
            assert(s@.subrange(i as int, i + p@.len())[k as int] != p@[k as int]);
            return false;
        }
        k = k + 1;
    }
    assert(s@.subrange(i as int, i + p@.len()) =~= p@);
    true
}

fn word_at_exec(s: &Vec<char>, i: usize, w: &Vec<char>) -> (r: bool)
    ensures
        r == word_at(s@, i as int, w@),
{
    if has_at_exec(s, i, w) {
        assert(i + w@.len() <= s@.len());
        assert(s@.len() == s.len() && w@.len() == w.len());
        !ident_char_exec(char_at(s, i + w.len()))
    } else {
        false
    }
}


// ---------------------------------------------------------------------------
// Building terms
// ---------------------------------------------------------------------------

/// Putting a term in front of a sequence puts its meaning in front.
proof fn lemma_terms_v_prepend(t: Term, ts: Seq<Term>, n: nat)
    requires
        n <= ts.len(),
    ensures
        terms_v(seq![t] + ts, n + 1) == seq![term_v(t)] + terms_v(ts, n),
    decreases n,
{
    let all = seq![t] + ts;
    if n == 0 {
        assert(terms_v(all, 0) =~= Seq::<TermV>::empty());
        assert(terms_v(ts, 0) =~= Seq::<TermV>::empty());
        assert(terms_v(all, 1) =~= seq![term_v(t)] + terms_v(ts, 0));
    } else {
        lemma_terms_v_prepend(t, ts, (n - 1) as nat);
        assert(all[n as int] == ts[n - 1]);
        assert(terms_v(all, n + 1) == terms_v(all, n).push(term_v(all[n as int])));
        assert(terms_v(ts, n) == terms_v(ts, (n - 1) as nat).push(term_v(ts[n - 1])));
        assert(terms_v(all, n + 1) =~= seq![term_v(t)] + terms_v(ts, n));
    }
}

/// A vector holding one term.
fn one_term(t: Term) -> (r: Vec<Term>)
    ensures
        r@ == seq![t],
        terms_v(r@, r@.len()) == seq![term_v(t)],
{
    let mut v: Vec<Term> = Vec::new();
    v.push(t);
    proof {
        assert(v@ =~= seq![t] + Seq::<Term>::empty());
        lemma_terms_v_prepend(t, Seq::<Term>::empty(), 0);
        assert(terms_v(Seq::<Term>::empty(), 0) =~= Seq::<TermV>::empty());
        assert(seq![term_v(t)] + Seq::<TermV>::empty() =~= seq![term_v(t)]);
    }
    v
}

/// A term in front of a vector of terms.
fn cons_terms(t: Term, rest: Vec<Term>) -> (r: Vec<Term>)
    ensures
        terms_v(r@, r@.len()) == seq![term_v(t)] + terms_v(rest@, rest@.len()),
{
    let ghost before = rest@;
    let mut rest = rest;
    let mut v: Vec<Term> = Vec::new();
    v.push(t);
    v.append(&mut rest);
    proof {
        assert(v@ =~= seq![t] + before);
        lemma_terms_v_prepend(t, before, before.len());
    }
    v
}

/// The compound `op(l, r)`.
fn bin_exec(op: &Vec<char>, l: Term, r: Term) -> (t: Term)
    ensures
        term_v(t) == bin(op@, term_v(l), term_v(r)),
{
    let tail = one_term(r);
    let args = cons_terms(l, tail);
    proof {
        assert(seq![term_v(l)] + seq![term_v(r)] =~= seq![term_v(l), term_v(r)]);
    }
    Term::Predicate { name: string_of(op), args }
}

/// An atom whose text is `s[a..b]`.
fn atom_of(s: &Vec<char>, a: usize, b: usize) -> (t: Term)
    requires
        a <= b <= s@.len(),
    ensures
        term_v(t) == TermV::Atom(s@.subrange(a as int, b as int)),
{
    Term::Atom(string_of(&subvec(s, a, b)))
}

// ---------------------------------------------------------------------------
// Executable operators
// ---------------------------------------------------------------------------

fn op700_exec(s: &Vec<char>, k: usize) -> (r: Option<Vec<char>>)
    ensures
        match op700_at(s@, k as int) {
            Some(op) => r matches Some(v) && v@ == op && 1 <= op.len() && k + op.len() <= s@.len(),
            None => r is None,
        },
        r matches Some(v) ==> 1 <= v@.len() && k + v@.len() <= s@.len(),
{
    let p = chars_from_slice(&['=', ':', '=']);
    assert(p@ == seq!['=', ':', '=']);
    if has_at_exec(s, k, &p) {
        return Some(p);
    }
    let p = chars_from_slice(&['=', '\\', '=']);
    assert(p@ == seq!['=', '\\', '=']);
    if has_at_exec(s, k, &p) {
        return Some(p);
    }
    let p = chars_from_slice(&['\\', '=', '=']);
    assert(p@ == seq!['\\', '=', '=']);
    if has_at_exec(s, k, &p) {
        return Some(p);
    }
    let p = chars_from_slice(&['=', '.', '.']);
    assert(p@ == seq!['=', '.', '.']);
    if has_at_exec(s, k, &p) {
        return Some(p);
    }
    let p = chars_from_slice(&['@', '=', '<']);
    assert(p@ == seq!['@', '=', '<']);
    if has_at_exec(s, k, &p) {
        return Some(p);
    }
    let p = chars_from_slice(&['@', '>', '=']);
    assert(p@ == seq!['@', '>', '=']);
    if has_at_exec(s, k, &p) {
        return Some(p);
    }
    let p = chars_from_slice(&['@', '<']);
    assert(p@ == seq!['@', '<']);
    if has_at_exec(s, k, &p) {
        return Some(p);
    }
    let p = chars_from_slice(&['@', '>']);
    assert(p@ == seq!['@', '>']);
    if has_at_exec(s, k, &p) {
        return Some(p);
    }
    let p = chars_from_slice(&['=', '<']);
    assert(p@ == seq!['=', '<']);
    if has_at_exec(s, k, &p) {
        return Some(p);
    }
    let p = chars_from_slice(&['>', '=']);
    assert(p@ == seq!['>', '=']);
    if has_at_exec(s, k, &p) {
        return Some(p);
    }
    let p = chars_from_slice(&['=', '=']);
    assert(p@ == seq!['=', '=']);
    if has_at_exec(s, k, &p) {
        return Some(p);
    }
    let p = chars_from_slice(&['\\', '=']);
    assert(p@ == seq!['\\', '=']);
    if has_at_exec(s, k, &p) {
        return Some(p);
    }
    let p = chars_from_slice(&['<']);
    assert(p@ == seq!['<']);
    if has_at_exec(s, k, &p) {
        return Some(p);
    }
    let p = chars_from_slice(&['>']);
    assert(p@ == seq!['>']);
    if has_at_exec(s, k, &p) {
        return Some(p);
    }
    let p = chars_from_slice(&['=']);
    assert(p@ == seq!['=']);
    if has_at_exec(s, k, &p) {
        return Some(p);
    }
    let p = chars_from_slice(&['i', 's']);
    assert(p@ == seq!['i', 's']);
    if word_at_exec(s, k, &p) {
        return Some(p);
    }
    None
}

fn add_op_exec(s: &Vec<char>, k: usize) -> (r: Option<Vec<char>>)
    ensures
        match add_op_at(s@, k as int) {
            Some(op) => r matches Some(v) && v@ == op && 1 <= op.len() && k + op.len() <= s@.len(),
            None => r is None,
        },
        r matches Some(v) ==> 1 <= v@.len() && k + v@.len() <= s@.len(),
{
    let p = chars_from_slice(&['+']);
    assert(p@ == seq!['+']);
    if has_at_exec(s, k, &p) {
        return Some(p);
    }
    let p = chars_from_slice(&['-']);
    assert(p@ == seq!['-']);
    if has_at_exec(s, k, &p) {
        return Some(p);
    }
    None
}

fn mul_op_exec(s: &Vec<char>, k: usize) -> (r: Option<Vec<char>>)
    ensures
        match mul_op_at(s@, k as int) {
            Some(op) => r matches Some(v) && v@ == op && 1 <= op.len() && k + op.len() <= s@.len(),
            None => r is None,
        },
        r matches Some(v) ==> 1 <= v@.len() && k + v@.len() <= s@.len(),
{
    let p = chars_from_slice(&['/', '/']);
    assert(p@ == seq!['/', '/']);
    if has_at_exec(s, k, &p) {
        return Some(p);
    }
    let p = chars_from_slice(&['/']);
    assert(p@ == seq!['/']);
    if has_at_exec(s, k, &p) {
        return Some(p);
    }
    let p = chars_from_slice(&['*']);
    assert(p@ == seq!['*']);
    if has_at_exec(s, k, &p) {
        return Some(p);
    }
    let p = chars_from_slice(&['<', '<']);
    assert(p@ == seq!['<', '<']);
    if has_at_exec(s, k, &p) {
        return Some(p);
    }
    let p = chars_from_slice(&['>', '>']);
    assert(p@ == seq!['>', '>']);
    if has_at_exec(s, k, &p) {
        return Some(p);
    }
    let p = chars_from_slice(&['d', 'i', 'v']);
    assert(p@ == seq!['d', 'i', 'v']);
    if word_at_exec(s, k, &p) {
        return Some(p);
    }
    let p = chars_from_slice(&['m', 'o', 'd']);
    assert(p@ == seq!['m', 'o', 'd']);
    if word_at_exec(s, k, &p) {
        return Some(p);
    }
    let p = chars_from_slice(&['r', 'e', 'm']);
    assert(p@ == seq!['r', 'e', 'm']);
    if word_at_exec(s, k, &p) {
        return Some(p);
    }
    None
}

fn number_end_exec(s: &Vec<char>, d: usize) -> (r: usize)
    requires
        d <= s@.len(),
    ensures
        r as int == number_end(s@, d as int),
        d <= r <= s@.len(),
        (d < s@.len() && digit(s@[d as int])) ==> d < r,
{
    let e = digits_end_exec(s, d);
    if e < s.len() && char_at(s, e) == '.' && '0' <= char_at(s, e + 1) && char_at(s, e + 1) <= '9' {
        digits_end_exec(s, e + 1)
    } else {
        e
    }
}

// ---------------------------------------------------------------------------
// Executable grammar
// ---------------------------------------------------------------------------

/// Whether an executable reading agrees with a reading of the grammar.
pub open spec fn reads_as(r: Option<(Term, usize)>, g: Option<(TermV, int)>) -> bool {
    match g {
        Some((v, j)) => r matches Some((t, rj)) && term_v(t) == v && rj as int == j,
        None => r is None,
    }
}

/// Whether executable terms agree with a reading of the grammar.
pub open spec fn reads_terms_as(r: Option<(Vec<Term>, usize)>, g: Option<(Seq<TermV>, int)>) -> bool {
    match g {
        Some((v, j)) => r matches Some((ts, rj)) && terms_v(ts@, ts@.len()) == v && rj as int == j,
        None => r is None,
    }
}

fn read_expr_exec(s: &Vec<char>, i: usize) -> (r: Option<(Term, usize)>)
    requires
        i <= s@.len(),
    ensures
        reads_as(r, read_expr(s@, i as int)),
        r matches Some((_, j)) ==> i < j <= s@.len(),
    decreases s@.len() - i, 5int,
{
    assert(s@.len() == s.len());
    match read_sum_exec(s, i) {
        None => None,
        Some((l, j)) => {
            let k = skip_exec(s, j);
            match op700_exec(s, k) {
                None => Some((l, j)),
                Some(op) => {
                    let m = skip_exec(s, k + op.len());
                    match read_sum_exec(s, m) {
                        None => None,
                        Some((r, e)) => Some((bin_exec(&op, l, r), e)),
                    }
                },
            }
        },
    }
}

fn read_sum_exec(s: &Vec<char>, i: usize) -> (r: Option<(Term, usize)>)
    requires
        i <= s@.len(),
    ensures
        reads_as(r, read_sum(s@, i as int)),
        r matches Some((_, j)) ==> i < j <= s@.len(),
    decreases s@.len() - i, 4int,
{
    match read_prod_exec(s, i) {
        None => None,
        Some((l, j)) => sum_rest_exec(s, l, j),
    }
}

fn sum_rest_exec(s: &Vec<char>, l: Term, j: usize) -> (r: Option<(Term, usize)>)
    requires
        j <= s@.len(),
    ensures
        reads_as(r, sum_rest(s@, term_v(l), j as int)),
        r matches Some((_, e)) ==> j <= e <= s@.len(),
    decreases s@.len() - j, 4int,
{
    assert(s@.len() == s.len());
    let k = skip_exec(s, j);
    match add_op_exec(s, k) {
        None => Some((l, j)),
        Some(op) => {
            let m = skip_exec(s, k + op.len());
            match read_prod_exec(s, m) {
                None => None,
                Some((r, e)) => {
                    let t = bin_exec(&op, l, r);
                    sum_rest_exec(s, t, e)
                },
            }
        },
    }
}

fn read_prod_exec(s: &Vec<char>, i: usize) -> (r: Option<(Term, usize)>)
    requires
        i <= s@.len(),
    ensures
        reads_as(r, read_prod(s@, i as int)),
        r matches Some((_, j)) ==> i < j <= s@.len(),
    decreases s@.len() - i, 3int,
{
    match read_prim_exec(s, i) {
        None => None,
        Some((l, j)) => prod_rest_exec(s, l, j),
    }
}

fn prod_rest_exec(s: &Vec<char>, l: Term, j: usize) -> (r: Option<(Term, usize)>)
    requires
        j <= s@.len(),
    ensures
        reads_as(r, prod_rest(s@, term_v(l), j as int)),
        r matches Some((_, e)) ==> j <= e <= s@.len(),
    decreases s@.len() - j, 3int,
{
    assert(s@.len() == s.len());
    let k = skip_exec(s, j);
    match mul_op_exec(s, k) {
        None => Some((l, j)),
        Some(op) => {
            let m = skip_exec(s, k + op.len());
            match read_prim_exec(s, m) {
                None => None,
                Some((r, e)) => {
                    let t = bin_exec(&op, l, r);
                    prod_rest_exec(s, t, e)
                },
            }
        },
    }
}

fn read_prim_exec(s: &Vec<char>, i: usize) -> (r: Option<(Term, usize)>)
    requires
        i <= s@.len(),
    ensures
        reads_as(r, read_prim(s@, i as int)),
        r matches Some((_, j)) ==> i < j <= s@.len(),
    decreases s@.len() - i, 2int,
{
    if i >= s.len() {
        return None;
    }
    let c = s[i];
    if c == '(' {
        let a = skip_exec(s, i + 1);
        match read_expr_exec(s, a) {
            None => None,
            Some((e, j)) => {
                let k = skip_exec(s, j);
                let ck = char_at(s, k);
                if ck == ')' {
                    Some((compact_atom(s, i, k + 1), k + 1))
                } else if ck == ',' {
                    match close_paren_exec(s, i + 1, 0) {
                        Some(m) => Some((compact_atom(s, i, m + 1), m + 1)),
                        None => None,
                    }
                } else {
                    None
                }
            },
        }
    } else if c == '[' {
        let a = skip_exec(s, i + 1);
        if char_at(s, a) == ']' {
            Some((Term::EmptyList, a + 1))
        } else {
            read_items_exec(s, a)
        }
    } else if c == '\'' {
        match quote_end_exec(s, i + 1) {
            Some(q) => Some((atom_of(s, i, q + 1), q + 1)),
            None => None,
        }
    } else if '0' <= c && c <= '9' {
        let e = number_end_exec(s, i);
        Some((atom_of(s, i, e), e))
    } else if c == '-' && '0' <= char_at(s, i + 1) && char_at(s, i + 1) <= '9' {
        let e = number_end_exec(s, i + 1);
        Some((atom_of(s, i, e), e))
    } else if 'a' <= c && c <= 'z' {
        let e = ident_end_exec(s, i);
        let name = subvec(s, i, e);
        if char_at(s, e) == '(' {
            let a = skip_exec(s, e + 1);
            match read_args_exec(s, a) {
                None => None,
                Some((args, j)) => Some((Term::Predicate { name: string_of(&name), args }, j)),
            }
        } else {
            Some((Term::Atom(string_of(&name)), e))
        }
    } else if ('A' <= c && c <= 'Z') || c == '_' {
        let e = ident_end_exec(s, i);
        Some((atom_var(s, i, e), e))
    } else if c == '!' {
        let bang = chars_from_slice(&['!']);
        assert(bang@ == seq!['!']);
        Some((Term::Atom(string_of(&bang)), i + 1))
    } else {
        let neg = chars_from_slice(&['\\', '+']);
        assert(neg@ == seq!['\\', '+']);
        if has_at_exec(s, i, &neg) {
            let a = skip_exec(s, i + 2);
            match read_prim_exec(s, a) {
                None => None,
                Some((p, j)) => {
                    let args = one_term(p);
                    Some((Term::Predicate { name: string_of(&neg), args }, j))
                },
            }
        } else {
            None
        }
    }
}

/// A variable whose name is `s[a..b]`.
fn atom_var(s: &Vec<char>, a: usize, b: usize) -> (t: Term)
    requires
        a <= b <= s@.len(),
    ensures
        term_v(t) == TermV::Var(s@.subrange(a as int, b as int)),
{
    Term::Var(string_of(&subvec(s, a, b)))
}

fn read_args_exec(s: &Vec<char>, i: usize) -> (r: Option<(Vec<Term>, usize)>)
    requires
        i <= s@.len(),
    ensures
        reads_terms_as(r, read_args(s@, i as int)),
        r matches Some((_, j)) ==> i < j <= s@.len(),
    decreases s@.len() - i, 6int,
{
    assert(s@.len() == s.len());
    match read_expr_exec(s, i) {
        None => None,
        Some((e, j)) => {
            let k = skip_exec(s, j);
            let ck = char_at(s, k);
            if ck == ',' {
                let m = skip_exec(s, k + 1);
                match read_args_exec(s, m) {
                    None => None,
                    Some((rest, e2)) => Some((cons_terms(e, rest), e2)),
                }
            } else if ck == ')' {
                Some((one_term(e), k + 1))
            } else {
                None
            }
        },
    }
}

/// The text of `t` as its tokens spell it.
fn compact_exec(t: &Vec<char>) -> (r: Vec<char>)
    ensures
        r@ == compact(t@),
{
    let mut out: Vec<char> = Vec::new();
    let mut i: usize = 0;
    let mut q = false;
    while i < t.len()
        invariant
            i <= t@.len(),
            out@ + compact_from(t@, i as int, q) == compact(t@),
        decreases t@.len() - i,
    {
        let c = t[i];
        if q {
            out.push(c);
            q = c != '\'';
            i = i + 1;
        } else if c == '\'' {
            out.push(c);
            q = true;
            i = i + 1;
        } else if c == ' ' || c == '\t' || c == '\n' || c == '\r' {
            i = i + 1;
        } else if c == '%' {
            let j = line_end_exec(t, i + 1);
            i = j;
        } else {
            out.push(c);
            i = i + 1;
        }
        proof {
            assert(out@ + compact_from(t@, i as int, q) == compact(t@)) by {
                assert(out@ + compact_from(t@, i as int, q) =~= compact(t@));
            }
        }
    }
    assert(compact_from(t@, i as int, q) =~= Seq::<char>::empty());
    assert(out@ + Seq::<char>::empty() =~= out@);
    out
}

/// The atom of the text `s[a..b]` as its tokens spell it.
fn compact_atom(s: &Vec<char>, a: usize, b: usize) -> (t: Term)
    requires
        a <= b <= s@.len(),
    ensures
        term_v(t) == TermV::Atom(compact(s@.subrange(a as int, b as int))),
{
    Term::Atom(string_of(&compact_exec(&subvec(s, a, b))))
}

/// A list element or tail read from `i` to `j` as `e`.
fn item_exec(s: &Vec<char>, i: usize, e: Term, j: usize) -> (t: Term)
    requires
        i <= j <= s@.len(),
    ensures
        term_v(t) == item_v(s@, i as int, term_v(e), j as int),
{
    if char_at(s, i) == '[' {
        e
    } else {
        compact_atom(s, i, j)
    }
}

/// The list cell `[h | t]`.
fn cell(h: Term, t: Term) -> (r: Term)
    ensures
        term_v(r) == TermV::Cell(Box::new(term_v(h)), Box::new(term_v(t))),
{
    Term::ListCell { head: Box::new(h), tail: Box::new(t) }
}

fn read_items_exec(s: &Vec<char>, i: usize) -> (r: Option<(Term, usize)>)
    requires
        i <= s@.len(),
    ensures
        reads_as(r, read_items(s@, i as int)),
        r matches Some((_, j)) ==> i < j <= s@.len(),
    decreases s@.len() - i, 6int,
{
    assert(s@.len() == s.len());
    match read_expr_exec(s, i) {
        None => None,
        Some((e, j)) => {
            let k = skip_exec(s, j);
            let ck = char_at(s, k);
            if ck == ',' {
                let m = skip_exec(s, k + 1);
                match read_items_exec(s, m) {
                    None => None,
                    Some((rest, e2)) => Some((cell(item_exec(s, i, e, j), rest), e2)),
                }
            } else if ck == '|' {
                let m = skip_exec(s, k + 1);
                match read_expr_exec(s, m) {
                    None => None,
                    Some((t, e2)) => {
                        let k2 = skip_exec(s, e2);
                        if char_at(s, k2) == ']' {
                            Some((cell(item_exec(s, i, e, j), item_exec(s, m, t, e2)), k2 + 1))
                        } else {
                            None
                        }
                    },
                }
            } else if ck == ']' {
                Some((cell(item_exec(s, i, e, j), Term::EmptyList), k + 1))
            } else {
                None
            }
        },
    }
}

fn read_goals_exec(s: &Vec<char>, i: usize) -> (r: Option<(Vec<Term>, usize, bool)>)
    requires
        i <= s@.len(),
    ensures
        match read_goals(s@, i as int) {
            Some((v, j, more)) => r matches Some((ts, rj, rmore)) && terms_v(ts@, ts@.len()) == v && rj as int == j
                && rmore == more,
            None => r is None,
        },
        r matches Some((_, j, _)) ==> i < j <= s@.len(),
    decreases s@.len() - i,
{
    assert(s@.len() == s.len());
    match read_expr_exec(s, i) {
        None => None,
        Some((g, j)) => {
            let k = skip_exec(s, j);
            let ck = char_at(s, k);
            if ck == ',' {
                let m = skip_exec(s, k + 1);
                match read_goals_exec(s, m) {
                    None => None,
                    Some((rest, e, more)) => Some((cons_terms(g, rest), e, more)),
                }
            } else if ck == ';' {
                Some((one_term(g), skip_exec(s, k + 1), true))
            } else if ck == '.' {
                Some((one_term(g), k + 1, false))
            } else {
                None
            }
        },
    }
}

/// The clauses that the head read at `h` and the body alternatives from `i`
/// give, and the position past the body.
fn read_body_exec(s: &Vec<char>, h: usize, i: usize) -> (r: Option<(Vec<Clause>, usize)>)
    requires
        h <= s@.len(),
        i <= s@.len(),
        read_expr(s@, h as int) is Some,
    ensures
        match read_body(s@, i as int) {
            Some((alts, e)) => r matches Some((cs, re)) && clauses_v(cs@) == with_head(expr_value(s@, h as int), alts)
                && re as int == e,
            None => r is None,
        },
        r matches Some((_, e)) ==> i < e <= s@.len(),
    decreases s@.len() - i,
{
    let ghost hv = expr_value(s@, h as int);
    match read_goals_exec(s, i) {
        None => None,
        Some((gs, e, more)) => {
            let head = match read_expr_exec(s, h) {
                Some((t, _)) => t,
                None => {
                    assert(false);
                    Term::EmptyList
                },
            };
            let cl = Clause { head, body: gs };
            assert(clause_v(cl) == (hv, terms_v(gs@, gs@.len())));
            if !more {
                let mut v: Vec<Clause> = Vec::new();
                v.push(cl);
                proof {
                    let alts = body_value(s@, i as int);
                    assert(alts =~= seq![terms_v(gs@, gs@.len())]);
                    assert(clauses_v(v@) =~= with_head(hv, alts));
                }
                Some((v, e))
            } else {
                match read_body_exec(s, h, e) {
                    None => None,
                    Some((rest, e2)) => {
                        let ghost before = rest@;
                        let mut rest = rest;
                        let mut v: Vec<Clause> = Vec::new();
                        v.push(cl);
                        v.append(&mut rest);
                        proof {
                            let alts = body_value(s@, i as int);
                            let ralts = body_value(s@, e as int);
                            assert(alts =~= seq![terms_v(gs@, gs@.len())] + ralts);
                            assert(v@ =~= seq![cl] + before);
                            assert(clauses_v(v@) =~= seq![clause_v(cl)] + clauses_v(before));
                            assert(with_head(hv, alts) =~= seq![(hv, terms_v(gs@, gs@.len()))] + with_head(hv, ralts));
                        }
                        Some((v, e2))
                    },
                }
            }
        },
    }
}

fn read_clause_exec(s: &Vec<char>, i: usize) -> (r: Option<(Vec<Clause>, usize)>)
    requires
        i <= s@.len(),
    ensures
        match read_clause(s@, i as int) {
            Some((cs, j)) => r matches Some((v, rj)) && clauses_v(v@) == cs && rj as int == j,
            None => r is None,
        },
        r matches Some((_, j)) ==> i < j <= s@.len(),
{
    assert(s@.len() == s.len());
    let neck = chars_from_slice(&[':', '-']);
    assert(neck@ == seq![':', '-']);
    if has_at_exec(s, i, &neck) {
        match skip_body_exec(s, skip_exec(s, i + 2)) {
            None => None,
            Some(e) => {
                let v: Vec<Clause> = Vec::new();
                assert(clauses_v(v@) =~= Seq::<(TermV, Seq<TermV>)>::empty());
                Some((v, e))
            },
        }
    } else {
        match read_expr_exec(s, i) {
            None => None,
            Some((h, j)) => {
                let k = skip_exec(s, j);
                if has_at_exec(s, k, &neck) {
                    read_body_exec(s, i, skip_exec(s, k + 2))
                } else if char_at(s, k) == '.' {
                    let b: Vec<Term> = Vec::new();
                    assert(terms_v(b@, 0) =~= Seq::<TermV>::empty());
                    let cl = Clause { head: h, body: b };
                    let mut v: Vec<Clause> = Vec::new();
                    v.push(cl);
                    assert(clauses_v(v@) =~= seq![clause_v(cl)]);
                    Some((v, k + 1))
                } else {
                    None
                }
            },
        }
    }
}

/// The position past the body alternatives from `i`, where they follow the
/// grammar.
fn skip_body_exec(s: &Vec<char>, i: usize) -> (r: Option<usize>)
    requires
        i <= s@.len(),
    ensures
        match read_body(s@, i as int) {
            Some((_, e)) => r == Some(e as usize) && i < e <= s@.len(),
            None => r is None,
        },
    decreases s@.len() - i,
{
    match read_goals_exec(s, i) {
        None => None,
        Some((_, e, more)) => if !more {
            Some(e)
        } else {
            skip_body_exec(s, e)
        },
    }
}

fn read_program_exec(s: &Vec<char>, i: usize) -> (r: Option<Vec<Clause>>)
    requires
        i <= s@.len(),
    ensures
        match read_program(s@, i as int) {
            Some(cs) => r matches Some(v) && clauses_v(v@) == cs,
            None => r is None,
        },
    decreases s@.len() - i,
{
    let a = skip_exec(s, i);
    if a >= s.len() {
        let v: Vec<Clause> = Vec::new();
        assert(clauses_v(v@) =~= Seq::<(TermV, Seq<TermV>)>::empty());
        return Some(v);
    }
    match read_clause_exec(s, a) {
        None => None,
        Some((cs, e)) => match read_program_exec(s, e) {
            None => None,
            Some(rest) => {
                let ghost c0 = cs@;
                let ghost r0 = rest@;
                let mut cs = cs;
                let mut rest = rest;
                cs.append(&mut rest);
                assert(cs@ =~= c0 + r0);
                assert(clauses_v(cs@) =~= clauses_v(c0) + clauses_v(r0));
                Some(cs)
            },
        },
    }
}

/// Why a program text could not be read.
#[derive(Debug, Clone, Copy, PartialEq, Eq)]
pub enum ParseError {
    /// The text does not follow the grammar.
    Syntax,
}

/// Reads a Prolog policy program into its clauses, in order; directives
/// (`:- ...`) give no clause.
pub fn parse_program(text: &str) -> (r: Result<Vec<Clause>, ParseError>)
    ensures
        r matches Ok(cs) ==> program_spec(text@) == Some(clauses_v(cs@)),
        r is Err <==> program_spec(text@) is None,
{
    let s = chars_of(text);
    match read_program_exec(&s, 0) {
        Some(v) => Ok(v),
        None => Err(ParseError::Syntax),
    }
}

} // verus!
