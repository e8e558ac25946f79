//! Whether a goal stays within the text and arithmetic limits of the check
//! of one goal, decided before the check is run.
use vstd::prelude::*;
use crate::data::{RuleTemplateFile, ClauseTemplate, GoalEntry};
use crate::node::{goal_checkable, goal_id_spec, is_match, body_string, string_positions, lemma_string_positions, plan_defined, is_fact_leaf};
use crate::predicates::{
    PredicateIdMap, predicate_id, call_slices_ok, vars_slices_ok, total_places, rows_width, row_width,
    local_universe, in_universe, str_views, lemma_row_width_mono, lemma_rows_width_mono,
};
use crate::text::{
    chars_of, find_char, find_char_exec, rfind_char_exec, find_exec, subvec, trim_exec, chars_equal,
    chars_from_slice, is_ascii_text, lemma_find_some_occurs,
};
use crate::params::{MAX_ARITY, MAX_PRED_LIST};
use crate::goal_encoding::{
    og_parts, op_list_exec, first_op_exec, replace_div_exec, first_token_exec, is_list_exec, top_items_exec,
    list_row_exec, og_encodable, og_name, og_raw_args, consumption_class_name, goal_encodable, op_goal_encodable,
    list_goal_encodable, first_op_in, og_open, og_close, list_args_text, sum_name, social_name, monthly_name,
    generic_fits, list_row, row_written, top_items, sum_elems, is_list_text, char_views, lemma_op_progress,
};
use crate::templates::{Term, Clause, row_readable, clause_readable, is_eq_name};

verus! {

/// Whether the slicing of a predicate call stays inside `s`.
pub fn call_slices_ok_exec(s: &str) -> (r: bool)
    ensures
        r == call_slices_ok(s@),
{
    let v = chars_of(s);
    match find_char_exec(&v, '(') {
        Some(p) => {
            if p + 1 < v.len() {
                let last = v[v.len() - 1];
                (last as u32) < 128
            } else {
                false
            }
        },
        None => true,
    }
}

/// Whether the first `(` of `s` comes before its first `)`, when it has both.
pub fn vars_slices_ok_exec(s: &str) -> (r: bool)
    ensures
        r == vars_slices_ok(s@),
{
    let v = chars_of(s);
    match (find_char_exec(&v, '('), find_char_exec(&v, ')')) {
        (Some(o), Some(c)) => o < c,
        _ => true,
    }
}

/// Every string entry of a body has a place among the string positions.
proof fn lemma_string_positions_cover(b: Seq<Option<String>>, j: int)
    requires
        0 <= j < b.len(),
        b[j] is Some,
    ensures
        exists|k: int| 0 <= k < string_positions(b).len() && #[trigger] string_positions(b)[k] == j,
    decreases b.len(),
{
    if j == b.len() - 1 {
        let k = string_positions(b.drop_last()).len() as int;
        assert(string_positions(b)[k] == j);
    } else {
        lemma_string_positions_cover(b.drop_last(), j);
        let k = choose|k: int| 0 <= k < string_positions(b.drop_last()).len() && #[trigger] string_positions(b.drop_last())[k] == j;
        assert(string_positions(b)[k] == j);
    }
}

/// Whether a clause whose head has `h` arguments has fewer than
/// `usize::MAX` argument places.
pub fn places_fit(c: &ClauseTemplate, h: usize) -> (r: bool)
    ensures
        r == (total_places(*c, h as nat) < usize::MAX),
{
    if h == usize::MAX {
        proof {
            lemma_rows_width_mono(c.children@, 0, c.children@.len() as int);
        }
        return false;
    }
    let rows = &c.children;
    let mut acc: usize = h;
    let mut k: usize = 0;
    while k < rows.len()
        invariant
            k <= rows@.len(),
            rows@ == c.children@,
            acc as int == h + rows_width(rows@, k as int),
            acc < usize::MAX,
        decreases rows@.len() - k,
    {
        let row = &rows[k];
        let mut p: usize = 0;
        while p < row.len()
            invariant
                p <= row@.len(),
                k < rows@.len(),
                row@ == rows@[k as int]@,
                rows@ == c.children@,
                acc as int == h + rows_width(rows@, k as int) + row_width(row@, p as int),
                acc < usize::MAX,
            decreases row@.len() - p,
        {
            let a = row[p].arity;
            if acc >= usize::MAX - a {
                proof {
                    assert(row_width(row@, p + 1) == row_width(row@, p as int) + a);
                    lemma_row_width_mono(row@, p + 1, row@.len() as int);
                    assert(rows_width(rows@, k + 1) == rows_width(rows@, k as int) + row_width(rows@[k as int]@, rows@[k as int]@.len() as int));
                    lemma_rows_width_mono(rows@, k + 1, rows@.len() as int);
                }
                return false;
            }
            acc = acc + a;
            p = p + 1;
        }
        assert(rows_width(rows@, k + 1) == rows_width(rows@, k as int) + row_width(rows@[k as int]@, rows@[k as int]@.len() as int));
        k = k + 1;
    }
    true
}

/// Whether the check of one goal can be run on `goal`: its texts and body
/// calls have their parentheses in order, and every clause of a matching
/// predicate has a non-empty universe and fewer than `usize::MAX` argument
/// places.
pub fn goal_is_checkable(goal: &GoalEntry, rules: &RuleTemplateFile, id_map: &PredicateIdMap) -> (r: bool)
    ensures
        r == goal_checkable(*goal, *rules, id_map@),
{
    if !call_slices_ok_exec(goal.goal.as_str()) {
        return false;
    }
    if !call_slices_ok_exec(goal.goal_unification.goal.as_str()) {
        return false;
    }
    let body = &goal.goal_unification.body;
    let ghost b = body@;
    proof {
        lemma_string_positions(b);
    }
    let mut i: usize = 0;
    while i < body.len()
        invariant
            i <= b.len(),
            b == body@,
            b == goal.goal_unification.body@,
            forall|j: int| 0 <= j < i && (#[trigger] b[j]) is Some ==> call_slices_ok(b[j]->Some_0@) && vars_slices_ok(b[j]->Some_0@),
        decreases b.len() - i,
    {
        match &body[i] {
            Some(s) => {
                let ok = call_slices_ok_exec(s.as_str()) && vars_slices_ok_exec(s.as_str());
                if !ok {
                    proof {
                        lemma_string_positions_cover(b, i as int);
                        let k = choose|k: int| 0 <= k < string_positions(b).len() && #[trigger] string_positions(b)[k] == i;
                        assert(body_string(*goal, k) == s@);
                    }
                    return false;
                }
            },
            None => {},
        }
        i = i + 1;
    }
    assert forall|k: int| 0 <= k < string_positions(goal.goal_unification.body@).len() implies call_slices_ok(
        #[trigger] body_string(*goal, k),
    ) && vars_slices_ok(body_string(*goal, k)) by {
        let j = string_positions(b)[k];
        assert(b[j] is Some);
    }
    let h = goal.goal_term.args.len();
    let gid = predicate_id(goal.goal_term.name.as_str(), h, id_map);
    assert(gid == goal_id_spec(*goal, id_map@));
    let universe = local_universe(rules, goal.goal_term.name.as_str());
    let has_name = universe.len() > 0;
    proof {
        if has_name {
            assert(str_views(universe@).contains(str_views(universe@)[0]));
            assert(in_universe(*rules, goal.goal_term.name@, str_views(universe@)[0]));
        } else {
            assert forall|n: Seq<char>| !in_universe(*rules, goal.goal_term.name@, n) by {
                if in_universe(*rules, goal.goal_term.name@, n) {
                    assert(str_views(universe@).contains(n));
                }
            }
        }
    }
    let ps = &rules.predicates;
    let mut a: usize = 0;
    while a < ps.len()
        invariant
            a <= ps@.len(),
            ps@ == rules.predicates@,
            gid == goal_id_spec(*goal, id_map@),
            h == goal.goal_term.args@.len(),
            has_name <==> exists|n: Seq<char>| #[trigger] in_universe(*rules, goal.goal_term.name@, n),
            forall|x: int, y: int| 0 <= x < a && is_match(*rules, id_map@, gid, x) && 0 <= y < ps@[x].clauses@.len() ==> {
                &&& exists|n: Seq<char>| #[trigger] in_universe(*rules, goal.goal_term.name@, n)
                &&& total_places(#[trigger] ps@[x].clauses@[y], h as nat) < usize::MAX
            },
        decreases ps@.len() - a,
    {
        let p = &ps[a];
        if predicate_id(p.name.as_str(), p.arity, id_map) == gid {
            let cs = &p.clauses;
            let mut y: usize = 0;
            while y < cs.len()
                invariant
                    y <= cs@.len(),
                    a < ps@.len(),
                    cs@ == ps@[a as int].clauses@,
                    ps@ == rules.predicates@,
                    is_match(*rules, id_map@, gid, a as int),
                    gid == goal_id_spec(*goal, id_map@),
                    h == goal.goal_term.args@.len(),
                    has_name <==> exists|n: Seq<char>| #[trigger] in_universe(*rules, goal.goal_term.name@, n),
                    forall|z: int| 0 <= z < y ==> {
                        &&& exists|n: Seq<char>| #[trigger] in_universe(*rules, goal.goal_term.name@, n)
                        &&& total_places(#[trigger] cs@[z], h as nat) < usize::MAX
                    },
                decreases cs@.len() - y,
            {
                if !has_name || !places_fit(&cs[y], h) {
                    proof {
                        assert(rules.predicates@[a as int].clauses@[y as int] == cs@[y as int]);
                        assert(0 <= a < rules.predicates@.len() && is_match(*rules, id_map@, goal_id_spec(*goal, id_map@), a as int)
                            && 0 <= y < rules.predicates@[a as int].clauses@.len());
                    }
                    return false;
                }
                y = y + 1;
            }
        }
        a = a + 1;
    }
    true
}

/// Whether the check of one goal can be run on `goal`: it has an unknown
/// predicate, or it is a fact, or it is checkable.
pub fn goal_is_plannable(goal: &GoalEntry, rules: &RuleTemplateFile, id_map: &PredicateIdMap) -> (r: bool)
    ensures
        r == plan_defined(*goal, *rules, id_map@),
{
    let gid = predicate_id(goal.goal_term.name.as_str(), goal.goal_term.args.len(), id_map);
    if gid == 0 {
        return true;
    }
    match is_fact_leaf(rules, gid, goal, id_map) {
        Ok(false) => goal_is_checkable(goal, rules, id_map),
        _ => true,
    }
}

/// Whether every character is ASCII.
pub fn is_ascii_exec(v: &Vec<char>) -> (r: bool)
    ensures
        r == is_ascii_text(v@),
{
    let mut i: usize = 0;
    while i < v.len()
        invariant
            i <= v@.len(),
            forall|j: int| 0 <= j < i ==> (#[trigger] v@[j] as u32) < 128,
        decreases v@.len() - i,
    {
        if (v[i] as u32) >= 128 {
            return false;
        }
        i = i + 1;
    }
    true
}

/// Whether a plain goal text can be encoded.
fn og_is_encodable(s: &Vec<char>) -> (r: bool)
    ensures
        r == og_encodable(s@),
{
    let (name, args) = og_parts(s);
    let cc = chars_from_slice(&['c', 'o', 'n', 's', 'u', 'm', 'p', 't', 'i', 'o', 'n', 'C', 'l', 'a', 's', 's']);
    assert(cc@ =~= consumption_class_name());
    assert(args@.len() == og_raw_args(s@).len());
    if chars_equal(&name, &cc) && args.len() < 2 {
        return false;
    }
    args.len() <= MAX_ARITY
}

/// Whether the arguments of a goal with lists fit the matrix.
fn generic_fits_exec(a: &Vec<char>, sum: bool) -> (r: bool)
    ensures
        r == generic_fits(a@, sum),
{
    let args = top_items_exec(a);
    let ghost av = top_items(a@);
    let mut i: usize = 0;
    while i < args.len()
        invariant
            i <= args@.len(),
            av == top_items(a@),
            char_views(args@) == av,
            forall|j: int|
                0 <= j < i ==> (j >= MAX_ARITY ==> !row_written(#[trigger] av[j], sum)) && list_row(av[j], sum).len()
                    <= MAX_PRED_LIST,
        decreases args@.len() - i,
    {
        assert(args@[i as int]@ == av[i as int]);
        let row = list_row_exec(&args[i], sum);
        assert(row@.len() == list_row(av[i as int], sum).len());
        if row.len() > MAX_PRED_LIST {
            return false;
        }
        let written = !(sum && is_list_exec(&args[i]) && row.len() == 0);
        assert(written == row_written(av[i as int], sum));
        if i >= MAX_ARITY && written {
            return false;
        }
        i = i + 1;
    }
    true
}

/// Whether a goal text with lists and no operator can be encoded.
fn list_is_encodable(s: &Vec<char>) -> (r: bool)
    ensures
        r == list_goal_encodable(s@),
{
    let open = match find_char_exec(s, '(') {
        Some(p) => p,
        None => s.len(),
    };
    let close = match rfind_char_exec(s, ')') {
        Some(p) => p,
        None => s.len(),
    };
    proof {
        match find_char(s@, '(') {
            Some(p) => {
                lemma_find_some_occurs(s@, seq!['('], p);
            },
            None => {},
        }
    }
    assert(open as int == og_open(s@) && close as int == og_close(s@));
    if open >= close {
        return false;
    }
    let name = trim_exec(&subvec(s, 0, open));
    assert(name@ == og_name(s@));
    let a = subvec(s, open + 1, close);
    assert(a@ == list_args_text(s@));
    let sumc = chars_from_slice(&[
        's', 'u', 'm', 'O', 'f', 'M', 'o', 'n', 't', 'h', 'l', 'y', 'C', 'o', 'n', 's', 'u', 'm', 'p', 't', 'i', 'o', 'n', 's',
    ]);
    let social = chars_from_slice(&[
        'a', 'p', 'p', 'l', 'y', 'S', 'o', 'c', 'i', 'a', 'l', 'S', 'u', 'p', 'p', 'o', 'r', 't', 's',
    ]);
    let monthly = chars_from_slice(&[
        'm', 'o', 'n', 't', 'h', 'l', 'y', 'C', 'o', 'n', 's', 'u', 'm', 'p', 't', 'i', 'o', 'n', 's',
    ]);
    assert(sumc@ =~= sum_name());
    assert(social@ =~= social_name());
    assert(monthly@ =~= monthly_name());
    let is_sum = chars_equal(&name, &sumc);
    let empty_list = chars_from_slice(&['[', ']']);
    assert(empty_list@ =~= seq!['[', ']']);
    if is_sum && find_exec(&a, &empty_list).is_some() {
        return og_is_encodable(s);
    }
    if chars_equal(&name, &social) {
        return is_ascii_exec(&a);
    }
    if chars_equal(&name, &monthly) {
        return true;
    }
    is_ascii_exec(&a) && generic_fits_exec(&a, is_sum)
}

/// Whether a goal text can be encoded as the terms of the unification
/// circuit.
pub fn goal_is_encodable(input: &str) -> (r: bool)
    ensures
        r == goal_encodable(input@),
{
    let s = chars_of(input);
    let ops = op_list_exec();
    match first_op_exec(&s, &ops) {
        Some((k, p)) => {
            proof {
                lemma_op_progress(s@);
            }
            let opl = ops[k].len();
            let n = s.len();
            let rhs = trim_exec(&subvec(&s, p + opl, n));
            let clean = replace_div_exec(&rhs);
            first_token_exec(&clean).is_some()
        },
        None => {
            let open_bracket = chars_from_slice(&['[']);
            assert(open_bracket@ =~= seq!['[']);
            match find_exec(&s, &open_bracket) {
                Some(_) => list_is_encodable(&s),
                None => og_is_encodable(&s),
            }
        },
    }
}

/// Whether a body term can be read into a rule template.
pub fn row_is_readable(t: &Term) -> (r: bool)
    ensures
        r == row_readable(*t),
{
    match t {
        Term::Predicate { name, args } => !is_eq_name(name) || args.len() >= 2,
        _ => true,
    }
}

/// Whether a clause can be read into a rule template.
pub fn clause_is_readable(cl: &Clause) -> (r: bool)
    ensures
        r == clause_readable(*cl),
{
    let body = &cl.body;
    let mut i: usize = 0;
    while i < body.len()
        invariant
            i <= body@.len(),
            body@ == cl.body@,
            forall|j: int| 0 <= j < i ==> row_readable(#[trigger] body@[j]),
        decreases body@.len() - i,
    {
        if !row_is_readable(&body[i]) {
            return false;
        }
        i = i + 1;
    }
    body.len() < usize::MAX
}

} // verus!
