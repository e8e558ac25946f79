//! Predicate identifiers, predicate-call parsing, and the structural rows of
//! the clause check together with the witness vectors they are checked
//! against.
use vstd::prelude::*;
use crate::data::{RuleTemplateFile, PredicateTemplate, FactTemplate, ClauseTemplate, GoalEntry, ProofNode, ChildSig, TermSide, TermRefComplex, Equality};
use crate::field::{Fe, fe_add, fe_mul, modulus, minus_one, fe_minus_one, lemma_mod_accumulate, vals};
use crate::hashing::{str_to_fp, default_hash_of_str, fs_coeff_spec, fs_coeffs};
use crate::params::MAX_DOT_DIM;
use crate::text::{
    find_char, split_char, trim, chars_of, string_of, subvec, trim_exec, find_char_exec,
    split_char_exec, seq_lt, lex_less, chars_equal, lemma_seq_lt_irrefl, lemma_seq_lt_trans,
    lemma_seq_lt_total, lemma_split_char_nonempty, split_top, split_top_exec,
};

verus! {

// ---------------------------------------------------------------------------
// Predicate identifiers
// ---------------------------------------------------------------------------

/// One entry of an identifier table: a predicate key and its identifier.
#[derive(Debug, Clone)]
pub struct IdEntry {
    pub name: String,
    pub arity: usize,
    pub id: i64,
}

/// The key of an entry.
pub open spec fn entry_key(e: IdEntry) -> (Seq<char>, usize) {
    (e.name@, e.arity)
}

/// The map that a list of entries stands for (a later entry wins).
pub open spec fn entries_map(e: Seq<IdEntry>) -> Map<(Seq<char>, usize), i64>
    decreases e.len(),
{
    if e.len() == 0 {
        Map::empty()
    } else {
        entries_map(e.drop_last()).insert(entry_key(e.last()), e.last().id)
    }
}

/// Whether no key occurs twice among the entries.
pub open spec fn keys_distinct(e: Seq<IdEntry>) -> bool {
    forall|i: int, j: int| 0 <= i < j < e.len() ==> entry_key(e[i]) != entry_key(e[j])
}

/// The identifiers of the predicates, keyed by name and arity.
#[derive(Debug)]
pub struct PredicateIdMap {
    entries: Vec<IdEntry>,
}

impl View for PredicateIdMap {
    type V = Map<(Seq<char>, usize), i64>;

    closed spec fn view(&self) -> Map<(Seq<char>, usize), i64> {
        entries_map(self.entries@)
    }
}

proof fn lemma_entries_map_at(e: Seq<IdEntry>, j: int)
    requires
        keys_distinct(e),
        0 <= j < e.len(),
    ensures
        entries_map(e).contains_key(entry_key(e[j])),
        entries_map(e)[entry_key(e[j])] == e[j].id,
    decreases e.len(),
{
    if j < e.len() - 1 {
        lemma_entries_map_at(e.drop_last(), j);
    }
}

proof fn lemma_entries_map_absent(e: Seq<IdEntry>, k: (Seq<char>, usize))
    requires
        forall|j: int| 0 <= j < e.len() ==> entry_key(#[trigger] e[j]) != k,
    ensures
        !entries_map(e).contains_key(k),
    decreases e.len(),
{
    if e.len() > 0 {
        lemma_entries_map_absent(e.drop_last(), k);
    }
}

proof fn lemma_entries_map_update(e: Seq<IdEntry>, j: int, x: IdEntry)
    requires
        keys_distinct(e),
        0 <= j < e.len(),
        entry_key(x) == entry_key(e[j]),
    ensures
        entries_map(e.update(j, x)) == entries_map(e).insert(entry_key(x), x.id),
    decreases e.len(),
{
    let u = e.update(j, x);
    if j == e.len() - 1 {
        assert(u.drop_last() =~= e.drop_last());
        assert(entries_map(u) =~= entries_map(e).insert(entry_key(x), x.id));
    } else {
        assert(u.drop_last() =~= e.drop_last().update(j, x));
        lemma_entries_map_update(e.drop_last(), j, x);
        assert(entries_map(u) =~= entries_map(e).insert(entry_key(x), x.id));
    }
}

impl PredicateIdMap {
    #[verifier::type_invariant]
    spec fn well_formed(self) -> bool {
        keys_distinct(self.entries@)
    }

    /// The empty table.
    pub fn new() -> (r: PredicateIdMap)
        ensures
            r@ == Map::<(Seq<char>, usize), i64>::empty(),
    {
        let r = PredicateIdMap { entries: Vec::new() };
        assert(r@ =~= Map::<(Seq<char>, usize), i64>::empty());
        r
    }

    fn position(&self, name: &String, arity: usize) -> (r: Option<usize>)
        ensures
            match r {
                Some(j) => j < self.entries@.len() && entry_key(self.entries@[j as int]) == (name@, arity),
                None => forall|j: int| 0 <= j < self.entries@.len() ==> entry_key(#[trigger] self.entries@[j]) != (name@, arity),
            },
    {
        let mut j: usize = 0;
        while j < self.entries.len()
            invariant
                j <= self.entries@.len(),
                forall|k: int| 0 <= k < j ==> entry_key(#[trigger] self.entries@[k]) != (name@, arity),
            decreases self.entries@.len() - j,
        {
            if self.entries[j].arity == arity && self.entries[j].name == *name {
                return Some(j);
            }
            j = j + 1;
        }
        None
    }

    /// The identifier of a key, if it has one.
    pub fn get(&self, name: &String, arity: usize) -> (r: Option<i64>)
        ensures
            r == (if self@.contains_key((name@, arity)) {
                Some(self@[(name@, arity)])
            } else {
                None
            }),
    {
        proof {
            use_type_invariant(self);
        }
        match self.position(name, arity) {
            Some(j) => {
                proof {
                    lemma_entries_map_at(self.entries@, j as int);
                }
                Some(self.entries[j].id)
            },
            None => {
                proof {
                    lemma_entries_map_absent(self.entries@, (name@, arity));
                }
                None
            },
        }
    }

    /// Gives a key an identifier, replacing the one it had.
    pub fn insert(&mut self, name: &String, arity: usize, id: i64)
        ensures
            final(self)@ == old(self)@.insert((name@, arity), id),
    {
        proof {
            use_type_invariant(&*self);
        }
        let e = IdEntry { name: name.clone(), arity, id };
        let pos = self.position(name, arity);
        let mut es: Vec<IdEntry> = Vec::new();
        std::mem::swap(&mut es, &mut self.entries);
        match pos {
            Some(j) => {
                proof {
                    lemma_entries_map_update(es@, j as int, e);
                }
                es.set(j, e);
            },
            None => {
                es.push(e);
                assert(es@.drop_last() == old(self).entries@);
            },
        }
        assert(keys_distinct(es@));
        self.entries = es;
    }
}

/// The identifiers given to the predicates: `1, 2, ...` in order, a later
/// predicate with the same key replacing the identifier of an earlier one.
pub open spec fn ids_after_predicates(ps: Seq<PredicateTemplate>) -> Map<(Seq<char>, usize), i64>
    decreases ps.len(),
{
    if ps.len() == 0 {
        Map::empty()
    } else {
        ids_after_predicates(ps.drop_last()).insert((ps.last().name@, ps.last().arity), ps.len() as i64)
    }
}

/// The identifiers after the facts: each fact whose key has none yet gets
/// the next free number. The second component is that next number.
pub open spec fn ids_with_facts(ps: Seq<PredicateTemplate>, fs: Seq<FactTemplate>) -> (Map<(Seq<char>, usize), i64>, int)
    decreases fs.len(),
{
    if fs.len() == 0 {
        (ids_after_predicates(ps), ps.len() as int + 1)
    } else {
        let prev = ids_with_facts(ps, fs.drop_last());
        let k = (fs.last().name@, fs.last().arity);
        if prev.0.contains_key(k) {
            prev
        } else {
            (prev.0.insert(k, prev.1 as i64), prev.1 + 1)
        }
    }
}

/// The identifier table of a rule file.
pub open spec fn predicate_ids(r: RuleTemplateFile) -> Map<(Seq<char>, usize), i64> {
    ids_with_facts(r.predicates@, r.facts@).0
}

proof fn lemma_ids_counter(ps: Seq<PredicateTemplate>, fs: Seq<FactTemplate>)
    ensures
        ps.len() + 1 <= ids_with_facts(ps, fs).1 <= ps.len() + fs.len() + 1,
    decreases fs.len(),
{
    if fs.len() > 0 {
        lemma_ids_counter(ps, fs.drop_last());
    }
}

/// Whether the identifiers of a table are distinct and lie in `[1, bound)`.
pub open spec fn ids_distinct_below(m: Map<(Seq<char>, usize), i64>, bound: int) -> bool {
    &&& forall|k: (Seq<char>, usize)| #[trigger] m.contains_key(k) ==> 1 <= m[k] < bound
    &&& forall|k1: (Seq<char>, usize), k2: (Seq<char>, usize)|
        #[trigger] m.contains_key(k1) && #[trigger] m.contains_key(k2) && k1 != k2 ==> m[k1] != m[k2]
}

proof fn lemma_ids_after_predicates(ps: Seq<PredicateTemplate>)
    requires
        ps.len() < i64::MAX,
    ensures
        ids_distinct_below(ids_after_predicates(ps), (ps.len() + 1) as int),
        forall|i: int| 0 <= i < ps.len() ==> ids_after_predicates(ps).contains_key((#[trigger] ps[i].name@, ps[i].arity)),
    decreases ps.len(),
{
    if ps.len() > 0 {
        lemma_ids_after_predicates(ps.drop_last());
        let prev = ids_after_predicates(ps.drop_last());
        let k = (ps.last().name@, ps.last().arity);
        let m = prev.insert(k, ps.len() as i64);
        assert((ps.len() as i64) as int == ps.len());
        assert forall|k1: (Seq<char>, usize), k2: (Seq<char>, usize)|
            #[trigger] m.contains_key(k1) && #[trigger] m.contains_key(k2) && k1 != k2 implies m[k1] != m[k2] by {
            if k1 != k && k2 != k {
                assert(prev.contains_key(k1) && prev.contains_key(k2));
            }
        }
        assert forall|i: int| 0 <= i < ps.len() implies m.contains_key((#[trigger] ps[i].name@, ps[i].arity)) by {
            if i < ps.len() - 1 {
                assert(ps.drop_last()[i] == ps[i]);
            }
        }
    }
}

proof fn lemma_ids_with_facts(ps: Seq<PredicateTemplate>, fs: Seq<FactTemplate>)
    requires
        ps.len() + fs.len() < i64::MAX,
    ensures
        ids_distinct_below(ids_with_facts(ps, fs).0, ids_with_facts(ps, fs).1),
        forall|i: int| 0 <= i < ps.len() ==> ids_with_facts(ps, fs).0.contains_key((#[trigger] ps[i].name@, ps[i].arity)),
        forall|i: int| 0 <= i < fs.len() ==> ids_with_facts(ps, fs).0.contains_key((#[trigger] fs[i].name@, fs[i].arity)),
    decreases fs.len(),
{
    if fs.len() == 0 {
        lemma_ids_after_predicates(ps);
    } else {
        lemma_ids_with_facts(ps, fs.drop_last());
        let prev = ids_with_facts(ps, fs.drop_last());
        let k = (fs.last().name@, fs.last().arity);
        lemma_ids_counter(ps, fs.drop_last());
        if !prev.0.contains_key(k) {
            let m = prev.0.insert(k, prev.1 as i64);
            assert((prev.1 as i64) as int == prev.1);
            assert forall|k1: (Seq<char>, usize), k2: (Seq<char>, usize)|
                #[trigger] m.contains_key(k1) && #[trigger] m.contains_key(k2) && k1 != k2 implies m[k1] != m[k2] by {
                if k1 != k && k2 != k {
                    assert(prev.0.contains_key(k1) && prev.0.contains_key(k2));
                } else if k1 == k {
                    assert(prev.0.contains_key(k2));
                } else {
                    assert(prev.0.contains_key(k1));
                }
            }
            assert forall|k1: (Seq<char>, usize)| #[trigger] m.contains_key(k1) implies 1 <= m[k1] < prev.1 + 1 by {
                if k1 != k {
                    assert(prev.0.contains_key(k1));
                }
                lemma_ids_counter(ps, fs.drop_last());
            }
        }
        assert forall|i: int| 0 <= i < fs.len() implies ids_with_facts(ps, fs).0.contains_key((#[trigger] fs[i].name@, fs[i].arity)) by {
            if i < fs.len() - 1 {
                assert(fs.drop_last()[i] == fs[i]);
            }
        }
    }
}

/// Every predicate and every fact of a rule file gets an identifier, the
/// identifiers are positive, and different (name, arity) keys get different
/// identifiers.
pub proof fn law_predicate_ids_distinct(r: RuleTemplateFile)
    requires
        r.predicates@.len() + r.facts@.len() < i64::MAX,
    ensures
        forall|i: int|
            0 <= i < r.predicates@.len() ==> predicate_ids(r).contains_key(
                (#[trigger] r.predicates@[i].name@, r.predicates@[i].arity),
            ),
        forall|i: int| 0 <= i < r.facts@.len() ==> predicate_ids(r).contains_key((#[trigger] r.facts@[i].name@, r.facts@[i].arity)),
        forall|k: (Seq<char>, usize)| #[trigger] predicate_ids(r).contains_key(k) ==> predicate_ids(r)[k] >= 1,
        forall|k1: (Seq<char>, usize), k2: (Seq<char>, usize)|
            #[trigger] predicate_ids(r).contains_key(k1) && #[trigger] predicate_ids(r).contains_key(k2) && k1 != k2
                ==> predicate_ids(r)[k1] != predicate_ids(r)[k2],
{
    lemma_ids_with_facts(r.predicates@, r.facts@);
}

/// Every key of the table after the predicates is the key of a predicate.
proof fn lemma_ids_after_predicates_keys(ps: Seq<PredicateTemplate>, k: (Seq<char>, usize))
    requires
        ids_after_predicates(ps).contains_key(k),
    ensures
        exists|i: int| 0 <= i < ps.len() && (#[trigger] ps[i].name@, ps[i].arity) == k,
    decreases ps.len(),
{
    if ps.len() > 0 {
        let last = ps.len() - 1;
        if (ps[last].name@, ps[last].arity) != k {
            lemma_ids_after_predicates_keys(ps.drop_last(), k);
            let i = choose|i: int| 0 <= i < ps.drop_last().len() && (#[trigger] ps.drop_last()[i].name@, ps.drop_last()[i].arity) == k;
            assert(ps.drop_last()[i] == ps[i]);
        }
    }
}

/// Every key of the table after the facts is the key of a predicate or of
/// a fact.
proof fn lemma_ids_with_facts_keys(ps: Seq<PredicateTemplate>, fs: Seq<FactTemplate>, k: (Seq<char>, usize))
    requires
        ids_with_facts(ps, fs).0.contains_key(k),
    ensures
        (exists|i: int| 0 <= i < ps.len() && (#[trigger] ps[i].name@, ps[i].arity) == k)
            || (exists|i: int| 0 <= i < fs.len() && (#[trigger] fs[i].name@, fs[i].arity) == k),
    decreases fs.len(),
{
    if fs.len() == 0 {
        lemma_ids_after_predicates_keys(ps, k);
    } else {
        let last = fs.len() - 1;
        if (fs[last].name@, fs[last].arity) != k {
            lemma_ids_with_facts_keys(ps, fs.drop_last(), k);
            if exists|i: int| 0 <= i < fs.drop_last().len() && (#[trigger] fs.drop_last()[i].name@, fs.drop_last()[i].arity) == k {
                let i = choose|i: int| 0 <= i < fs.drop_last().len() && (#[trigger] fs.drop_last()[i].name@, fs.drop_last()[i].arity) == k;
                assert(fs.drop_last()[i] == fs[i]);
            }
        }
    }
}

/// A (name, arity) pair that is neither a predicate's nor a fact's has no
/// identifier, so `predicate_id` gives 0 for it.
pub proof fn law_unknown_pair_has_id_zero(r: RuleTemplateFile, name: Seq<char>, arity: usize)
    requires
        forall|i: int| 0 <= i < r.predicates@.len() ==> (#[trigger] r.predicates@[i].name@, r.predicates@[i].arity) != (name, arity),
        forall|i: int| 0 <= i < r.facts@.len() ==> (#[trigger] r.facts@[i].name@, r.facts@[i].arity) != (name, arity),
    ensures
        !predicate_ids(r).contains_key((name, arity)),
        (if predicate_ids(r).contains_key((name, arity)) { predicate_ids(r)[(name, arity)] } else { 0 }) == 0,
{
    if predicate_ids(r).contains_key((name, arity)) {
        lemma_ids_with_facts_keys(r.predicates@, r.facts@, (name, arity));
    }
}

/// Numbers the predicates, then the facts whose key is not a predicate's.
pub fn build_predicate_id_map(rules: &RuleTemplateFile) -> (r: PredicateIdMap)
    requires
        rules.predicates.len() + rules.facts.len() < i64::MAX,
    ensures
        r@ == predicate_ids(*rules),
{
    let ghost ps = rules.predicates@;
    let ghost fs = rules.facts@;
    let mut map = PredicateIdMap::new();
    let mut counter: i64 = 1;
    let mut i: usize = 0;
    while i < rules.predicates.len()
        invariant
            i <= ps.len(),
            ps == rules.predicates@,
            ps.len() + fs.len() < i64::MAX,
            counter == i + 1,
            map@ == ids_after_predicates(ps.take(i as int)),
        decreases ps.len() - i,
    {
        let p = &rules.predicates[i];
        map.insert(&p.name, p.arity, counter);
        assert(ps.take(i + 1).drop_last() == ps.take(i as int));
        counter = counter + 1;
        i = i + 1;
    }
    assert(ps.take(ps.len() as int) == ps);
    let mut k: usize = 0;
    while k < rules.facts.len()
        invariant
            k <= fs.len(),
            fs == rules.facts@,
            ps == rules.predicates@,
            ps.len() + fs.len() < i64::MAX,
            counter == ids_with_facts(ps, fs.take(k as int)).1,
            map@ == ids_with_facts(ps, fs.take(k as int)).0,
        decreases fs.len() - k,
    {
        proof {
            lemma_ids_counter(ps, fs.take(k as int));
            assert(fs.take(k + 1).drop_last() == fs.take(k as int));
        }
        let f = &rules.facts[k];
        match map.get(&f.name, f.arity) {
            Some(_) => {},
            None => {
                map.insert(&f.name, f.arity, counter);
                counter = counter + 1;
            },
        }
        k = k + 1;
    }
    assert(fs.take(fs.len() as int) == fs);
    map
}

/// The identifier of a predicate, or 0 when it has none.
pub fn predicate_id(name: &str, arity: usize, id_map: &PredicateIdMap) -> (r: i64)
    ensures
        r == (if id_map@.contains_key((name@, arity)) {
            id_map@[(name@, arity)]
        } else {
            0
        }),
{
    let key = string_of(&chars_of(name));
    match id_map.get(&key, arity) {
        Some(v) => v,
        None => 0,
    }
}

// ---------------------------------------------------------------------------
// Predicate calls
// ---------------------------------------------------------------------------

/// Whether the slicing of `parse_predicate_call` stays inside `s`: when `s`
/// has a `(`, it is not the last character, and the last character is one
/// byte long.
pub open spec fn call_slices_ok(s: Seq<char>) -> bool {
    match find_char(s, '(') {
        Some(p) => p + 1 < s.len() && (s.last() as u32) < 128,
        None => true,
    }
}

/// The number of arguments in the text between the parentheses: the pieces
/// between the commas outside nested parentheses and brackets (none when the
/// text is blank).
pub open spec fn arg_count(inside: Seq<char>) -> nat {
    if trim(inside).len() == 0 {
        0
    } else {
        split_top(inside, true).len()
    }
}

/// The name before the first `(`, and the argument count of the text between
/// it and the last character.
pub open spec fn parse_call_spec(s: Seq<char>) -> Option<(Seq<char>, nat)> {
    match find_char(s, '(') {
        Some(p) => Some((s.subrange(0, p as int), arg_count(s.subrange(p as int + 1, s.len() - 1)))),
        None => None,
    }
}

/// Splits `name(a, b, ...)` into its name and number of arguments.
pub fn parse_predicate_call(s: &str) -> (r: Option<(String, usize)>)
    requires
        call_slices_ok(s@),
    ensures
        match parse_call_spec(s@) {
            Some((n, c)) => r matches Some((rn, rc)) && rn@ == n && rc == c,
            None => r is None,
        },
{
    let v = chars_of(s);
    match find_char_exec(&v, '(') {
        None => None,
        Some(p) => {
            let name = string_of(&subvec(&v, 0, p));
            let inside = subvec(&v, p + 1, v.len() - 1);
            let t = trim_exec(&inside);
            let argc = if t.len() == 0 {
                0
            } else {
                split_top_exec(&inside, true).len()
            };
            Some((name, argc))
        },
    }
}


// ---------------------------------------------------------------------------
// The local universe and the structural rows
// ---------------------------------------------------------------------------

/// Whether `n` names a predicate in one of the body rows of `c`.
pub open spec fn clause_has_child(c: ClauseTemplate, n: Seq<char>) -> bool {
    exists|i: int, j: int|
        0 <= i < c.children@.len() && 0 <= j < c.children@[i]@.len() && (#[trigger] c.children@[i]@[j]).name@ == n
}

/// Whether `n` belongs to the universe of `pred`: a body predicate of one
/// of the clauses of a predicate named `pred`, or the name of a fact.
pub open spec fn in_universe(r: RuleTemplateFile, pred: Seq<char>, n: Seq<char>) -> bool {
    ||| exists|a: int, b: int|
        0 <= a < r.predicates@.len() && r.predicates@[a].name@ == pred && 0 <= b < r.predicates@[a].clauses@.len()
            && clause_has_child(#[trigger] r.predicates@[a].clauses@[b], n)
    ||| exists|f: int| 0 <= f < r.facts@.len() && (#[trigger] r.facts@[f]).name@ == n
}

/// The characters of each string.
pub open spec fn str_views(v: Seq<String>) -> Seq<Seq<char>> {
    v.map_values(|s: String| s@)
}

/// Whether the strings are in strictly increasing order.
pub open spec fn sorted_strict(v: Seq<Seq<char>>) -> bool {
    forall|i: int, j: int| 0 <= i < j < v.len() ==> seq_lt(#[trigger] v[i], #[trigger] v[j])
}

/// The first position whose string does not come before `x`.
fn lower_bound(v: &Vec<String>, x: &Vec<char>) -> (k: usize)
    ensures
        k <= v@.len(),
        forall|j: int| 0 <= j < k ==> seq_lt((#[trigger] v@[j])@, x@),
        k < v@.len() ==> !seq_lt(v@[k as int]@, x@),
{
    let mut k: usize = 0;
    while k < v.len()
        invariant
            k <= v@.len(),
            forall|j: int| 0 <= j < k ==> seq_lt((#[trigger] v@[j])@, x@),
        decreases v@.len() - k,
    {
        let vc = chars_of(v[k].as_str());
        if !lex_less(&vc, x) {
            return k;
        }
        k = k + 1;
    }
    k
}

/// Adds `x` to a strictly increasing list of strings, unless it is there.
fn insert_sorted_unique(v: &mut Vec<String>, x: String)
    requires
        sorted_strict(str_views(old(v)@)),
    ensures
        sorted_strict(str_views(final(v)@)),
        forall|y: Seq<char>| str_views(final(v)@).contains(y) <==> (str_views(old(v)@).contains(y) || y == x@),
{
    let xc = chars_of(x.as_str());
    let k = lower_bound(v, &xc);
    let ghost old_v = str_views(v@);
    if k < v.len() {
        let vc = chars_of(v[k].as_str());
        if chars_equal(&vc, &xc) {
            assert(old_v[k as int] == x@);
            return;
        }
    }
    v.insert(k, x);
    let ghost new_v = str_views(v@);
    assert(new_v =~= old_v.insert(k as int, x@));
    assert forall|i: int, j: int| 0 <= i < j < new_v.len() implies seq_lt(#[trigger] new_v[i], #[trigger] new_v[j]) by {
        if k < old_v.len() {
            lemma_seq_lt_total(old_v[k as int], x@);
        }
        if i < k && j == k {
        } else if i < k && j > k {
            if j - 1 > i {
            }
        } else if i == k && j > k {
            if j - 1 > k {
                lemma_seq_lt_trans(x@, old_v[k as int], old_v[j - 1]);
            }
        } else {
        }
    }
    assert forall|y: Seq<char>| new_v.contains(y) <==> (old_v.contains(y) || y == x@) by {
        if new_v.contains(y) {
            let i = choose|i: int| 0 <= i < new_v.len() && new_v[i] == y;
            if i < k {
                assert(old_v[i] == y);
            } else if i > k {
                assert(old_v[i - 1] == y);
            }
        }
        if old_v.contains(y) {
            let i = choose|i: int| 0 <= i < old_v.len() && old_v[i] == y;
            if i < k {
                assert(new_v[i] == y);
            } else {
                assert(new_v[i + 1] == y);
            }
        }
        if y == x@ {
            assert(new_v[k as int] == y);
        }
    }
}

/// The sorted names that the clauses of `pred_name` call in their bodies,
/// together with the names of the facts, each once.
pub fn local_universe(rules: &RuleTemplateFile, pred_name: &str) -> (r: Vec<String>)
    ensures
        sorted_strict(str_views(r@)),
        forall|n: Seq<char>| str_views(r@).contains(n) <==> in_universe(*rules, pred_name@, n),
{
    let pn = string_of(&chars_of(pred_name));
    let mut out: Vec<String> = Vec::new();
    let ghost ps = rules.predicates@;
    let mut a: usize = 0;
    while a < rules.predicates.len()
        invariant
            a <= ps.len(),
            ps == rules.predicates@,
            pn@ == pred_name@,
            sorted_strict(str_views(out@)),
            forall|n: Seq<char>| str_views(out@).contains(n) <==> exists|a2: int, b: int|
                0 <= a2 < a && ps[a2].name@ == pred_name@ && 0 <= b < ps[a2].clauses@.len()
                    && clause_has_child(#[trigger] ps[a2].clauses@[b], n),
        decreases ps.len() - a,
    {
        let p = &rules.predicates[a];
        if p.name == pn {
            let mut b: usize = 0;
            while b < p.clauses.len()
                invariant
                    a < ps.len(),
                    ps == rules.predicates@,
                    *p == ps[a as int],
                    p.name@ == pred_name@,
                    b <= p.clauses@.len(),
                    sorted_strict(str_views(out@)),
                    forall|n: Seq<char>| str_views(out@).contains(n) <==> (
                        (exists|a2: int, b2: int|
                            0 <= a2 < a && ps[a2].name@ == pred_name@ && 0 <= b2 < ps[a2].clauses@.len()
                                && clause_has_child(#[trigger] ps[a2].clauses@[b2], n))
                        || (exists|b2: int| 0 <= b2 < b && clause_has_child(#[trigger] p.clauses@[b2], n))),
                decreases p.clauses@.len() - b,
            {
                let cl = &p.clauses[b];
                let mut i: usize = 0;
                while i < cl.children.len()
                    invariant
                        a < ps.len(),
                        ps == rules.predicates@,
                        *p == ps[a as int],
                        p.name@ == pred_name@,
                        b < p.clauses@.len(),
                        *cl == p.clauses@[b as int],
                        i <= cl.children@.len(),
                        sorted_strict(str_views(out@)),
                        forall|n: Seq<char>| str_views(out@).contains(n) <==> (
                            (exists|a2: int, b2: int|
                                0 <= a2 < a && ps[a2].name@ == pred_name@ && 0 <= b2 < ps[a2].clauses@.len()
                                    && clause_has_child(#[trigger] ps[a2].clauses@[b2], n))
                            || (exists|b2: int| 0 <= b2 < b && clause_has_child(#[trigger] p.clauses@[b2], n))
                            || (exists|i2: int, j2: int| 0 <= i2 < i && 0 <= j2 < cl.children@[i2]@.len()
                                && (#[trigger] cl.children@[i2]@[j2]).name@ == n)),
                    decreases cl.children@.len() - i,
                {
                    let row = &cl.children[i];
                    let mut j: usize = 0;
                    while j < row.len()
                        invariant
                            a < ps.len(),
                            ps == rules.predicates@,
                            *p == ps[a as int],
                            p.name@ == pred_name@,
                            b < p.clauses@.len(),
                            *cl == p.clauses@[b as int],
                            i < cl.children@.len(),
                            *row == cl.children@[i as int],
                            j <= row@.len(),
                            sorted_strict(str_views(out@)),
                            forall|n: Seq<char>| str_views(out@).contains(n) <==> (
                                (exists|a2: int, b2: int|
                                    0 <= a2 < a && ps[a2].name@ == pred_name@ && 0 <= b2 < ps[a2].clauses@.len()
                                        && clause_has_child(#[trigger] ps[a2].clauses@[b2], n))
                                || (exists|b2: int| 0 <= b2 < b && clause_has_child(#[trigger] p.clauses@[b2], n))
                                || (exists|i2: int, j2: int| 0 <= i2 < i && 0 <= j2 < cl.children@[i2]@.len()
                                    && (#[trigger] cl.children@[i2]@[j2]).name@ == n)
                                || (exists|j2: int| 0 <= j2 < j && (#[trigger] row@[j2]).name@ == n)),
                        decreases row@.len() - j,
                    {
                        insert_sorted_unique(&mut out, row[j].name.clone());
                        j = j + 1;
                    }
                    i = i + 1;
                }
                b = b + 1;
            }
        }
        a = a + 1;
    }
    let ghost fs = rules.facts@;
    let mut f: usize = 0;
    while f < rules.facts.len()
        invariant
            f <= fs.len(),
            fs == rules.facts@,
            ps == rules.predicates@,
            sorted_strict(str_views(out@)),
            forall|n: Seq<char>| str_views(out@).contains(n) <==> (
                (exists|a2: int, b: int|
                    0 <= a2 < ps.len() && ps[a2].name@ == pred_name@ && 0 <= b < ps[a2].clauses@.len()
                        && clause_has_child(#[trigger] ps[a2].clauses@[b], n))
                || (exists|f2: int| 0 <= f2 < f && (#[trigger] fs[f2]).name@ == n)),
        decreases fs.len() - f,
    {
        insert_sorted_unique(&mut out, rules.facts[f].name.clone());
        f = f + 1;
    }
    out
}


/// Whether `node` is a goal node whose goal is named `n`.
pub open spec fn node_named(node: ProofNode, n: Seq<char>) -> bool {
    match node {
        ProofNode::GoalNode(g) => g.goal_term.name@ == n,
        ProofNode::True(_) => false,
    }
}

/// Whether a goal node of the subtree proves a goal named `n`.
pub open spec fn subtree_has(goal: GoalEntry, n: Seq<char>) -> bool {
    exists|i: int| 0 <= i < goal.subtree@.len() && node_named(#[trigger] goal.subtree@[i], n)
}

/// 1 for true, 0 for false.
pub open spec fn indicator(b: bool) -> nat {
    if b {
        1
    } else {
        0
    }
}

/// The presence vector of a goal: 1 for each name of the universe that a
/// subtree goal carries, 0 for the others, then a constant 1.
pub fn witness_subtree_presence(goal: &GoalEntry, universe: &Vec<String>) -> (r: Vec<Fe>)
    ensures
        r@.len() == universe@.len() + 1,
        forall|j: int| 0 <= j < universe@.len() ==> (#[trigger] r@[j])@ == indicator(subtree_has(*goal, universe@[j]@)),
        r@[universe@.len() as int]@ == 1,
{
    let mut w: Vec<Fe> = Vec::new();
    let mut j: usize = 0;
    while j < universe.len()
        invariant
            j <= universe@.len(),
            w@.len() == j,
            forall|k: int| 0 <= k < j ==> (#[trigger] w@[k])@ == indicator(subtree_has(*goal, universe@[k]@)),
        decreases universe@.len() - j,
    {
        let u = &universe[j];
        let mut found = false;
        let mut i: usize = 0;
        while i < goal.subtree.len()
            invariant
                j < universe@.len(),
                *u == universe@[j as int],
                i <= goal.subtree@.len(),
                found == exists|i2: int| 0 <= i2 < i && node_named(#[trigger] goal.subtree@[i2], u@),
            decreases goal.subtree@.len() - i,
        {
            match &goal.subtree[i] {
                ProofNode::GoalNode(g) => {
                    if g.goal_term.name == *u {
                        found = true;
                    }
                },
                ProofNode::True(_) => {},
            }
            i = i + 1;
        }
        if found {
            w.push(Fe::one());
        } else {
            w.push(Fe::zero());
        }
        j = j + 1;
    }
    w.push(Fe::one());
    w
}

/// The set form of the body names of a clause: whether some row calls `n`.
pub fn clause_calls(clause: &ClauseTemplate, n: &String) -> (r: bool)
    ensures
        r == clause_has_child(*clause, n@),
{
    let mut i: usize = 0;
    while i < clause.children.len()
        invariant
            i <= clause.children@.len(),
            forall|i2: int, j2: int| 0 <= i2 < i && 0 <= j2 < clause.children@[i2]@.len()
                ==> (#[trigger] clause.children@[i2]@[j2]).name@ != n@,
        decreases clause.children@.len() - i,
    {
        let row = &clause.children[i];
        let mut j: usize = 0;
        while j < row.len()
            invariant
                i < clause.children@.len(),
                *row == clause.children@[i as int],
                j <= row@.len(),
                forall|i2: int, j2: int| 0 <= i2 < i && 0 <= j2 < clause.children@[i2]@.len()
                    ==> (#[trigger] clause.children@[i2]@[j2]).name@ != n@,
                forall|j2: int| 0 <= j2 < j ==> (#[trigger] row@[j2]).name@ != n@,
            decreases row@.len() - j,
        {
            if row[j].name == *n {
                assert(clause.children@[i as int]@[j as int].name@ == n@);
                return true;
            }
            j = j + 1;
        }
        i = i + 1;
    }
    false
}

/// The structural rows over the universe: row `j` has 1 in column `j`, and
/// -1 in the last column when the clause body calls the `j`-th name.
pub fn rows_structural_global(clause: &ClauseTemplate, universe: &Vec<String>) -> (r: Vec<Vec<Fe>>)
    ensures
        r@.len() == universe@.len(),
        forall|j: int| 0 <= j < universe@.len() ==> (#[trigger] r@[j])@.len() == universe@.len() + 1,
        forall|j: int, k: int| 0 <= j < universe@.len() && 0 <= k <= universe@.len() ==>
            (#[trigger] r@[j]@[k])@ == (if k == j {
                1
            } else if k == universe@.len() && clause_has_child(*clause, universe@[j]@) {
                minus_one()
            } else {
                0
            }),
{
    let n = universe.len();
    let mut rows: Vec<Vec<Fe>> = Vec::new();
    let mut j: usize = 0;
    while j < n
        invariant
            n == universe@.len(),
            j <= n,
            rows@.len() == j,
            forall|a: int| 0 <= a < j ==> (#[trigger] rows@[a])@.len() == n + 1,
            forall|a: int, k: int| 0 <= a < j && 0 <= k <= n ==>
                (#[trigger] rows@[a]@[k])@ == (if k == a {
                    1
                } else if k == n && clause_has_child(*clause, universe@[a]@) {
                    minus_one()
                } else {
                    0
                }),
        decreases n - j,
    {
        let expected = clause_calls(clause, &universe[j]);
        let mut v: Vec<Fe> = Vec::new();
        let mut k: usize = 0;
        while k < n
            invariant
                n == universe@.len(),
                j < n,
                k <= n,
                v@.len() == k,
                forall|k2: int| 0 <= k2 < k ==> (#[trigger] v@[k2])@ == (if k2 == j {
                    1nat
                } else {
                    0nat
                }),
            decreases n - k,
        {
            if k == j {
                v.push(Fe::one());
            } else {
                v.push(Fe::zero());
            }
            k = k + 1;
        }
        if expected {
            v.push(fe_minus_one());
        } else {
            v.push(Fe::zero());
        }
        rows.push(v);
        j = j + 1;
    }
    rows
}

// ---------------------------------------------------------------------------
// Compression, padding and dot products
// ---------------------------------------------------------------------------

/// `sum_{i < k} r[i] * rows[i][j]`, without reduction.
pub open spec fn compress_sum(rows: Seq<Vec<Fe>>, r: Seq<Fe>, j: int, k: int) -> int
    decreases k,
{
    if k <= 0 {
        0
    } else {
        compress_sum(rows, r, j, k - 1) + r[k - 1]@ * rows[k - 1]@[j]@
    }
}

/// The number of rows that the coefficients reach.
pub open spec fn zip_len(a: nat, b: nat) -> nat {
    if a < b {
        a
    } else {
        b
    }
}

/// Combines the rows with the coefficients: entry `j` of the result is
/// `sum_i r[i] * rows[i][j]` over the rows that have a coefficient.
pub fn compress_rows(rows: &Vec<Vec<Fe>>, r: &Vec<Fe>) -> (c: Vec<Fe>)
    requires
        rows@.len() > 0,
        forall|i: int| 0 <= i < zip_len(rows@.len(), r@.len()) ==> (#[trigger] rows@[i])@.len() >= rows@[0]@.len(),
    ensures
        c@.len() == rows@[0]@.len(),
        forall|j: int| 0 <= j < c@.len() ==> (#[trigger] c@[j])@ == compress_sum(rows@, r@, j, zip_len(rows@.len(), r@.len()) as int) % modulus() as int,
{
    let m = rows[0].len();
    let k: usize = if r.len() < rows.len() { r.len() } else { rows.len() };
    let mut c: Vec<Fe> = Vec::new();
    let mut j: usize = 0;
    while j < m
        invariant
            m == rows@[0]@.len(),
            k == zip_len(rows@.len(), r@.len()),
            k <= rows@.len(),
            k <= r@.len(),
            forall|i: int| 0 <= i < k ==> (#[trigger] rows@[i])@.len() >= m,
            j <= m,
            c@.len() == j,
            forall|j2: int| 0 <= j2 < j ==> (#[trigger] c@[j2])@ == compress_sum(rows@, r@, j2, k as int) % modulus() as int,
        decreases m - j,
    {
        let mut acc = Fe::zero();
        let mut i: usize = 0;
        while i < k
            invariant
                m == rows@[0]@.len(),
                k <= rows@.len(),
                k <= r@.len(),
                forall|i2: int| 0 <= i2 < k ==> (#[trigger] rows@[i2])@.len() >= m,
                j < m,
                i <= k,
                acc@ == compress_sum(rows@, r@, j as int, i as int) % modulus() as int,
            decreases k - i,
        {
            let t = fe_mul(&r[i], &rows[i][j]);
            proof {
                lemma_compress_sum_nonneg(rows@, r@, j as int, i as int);
                lemma_mod_accumulate(compress_sum(rows@, r@, j as int, i as int), r@[i as int]@, rows@[i as int]@[j as int]@);
            }
            acc = fe_add(&acc, &t);
            i = i + 1;
        }
        c.push(acc);
        j = j + 1;
    }
    c
}

proof fn lemma_compress_sum_nonneg(rows: Seq<Vec<Fe>>, r: Seq<Fe>, j: int, k: int)
    ensures
        compress_sum(rows, r, j, k) >= 0,
    decreases k,
{
    if k > 0 {
        lemma_compress_sum_nonneg(rows, r, j, k - 1);
    }
}

/// The length of a padded vector.
pub open spec fn pad_len(n: nat) -> nat {
    if n < MAX_DOT_DIM {
        MAX_DOT_DIM as nat
    } else {
        n
    }
}

/// The padded form of the values `v`: the entries but the last, zeros up to
/// `MAX_DOT_DIM - 1` places, and the last entry (1 for an empty vector) in
/// the last place.
pub open spec fn pad_vals(v: Seq<nat>) -> Seq<nat> {
    Seq::new(
        pad_len(v.len()),
        |i: int|
            if i == pad_len(v.len()) - 1 {
                if v.len() == 0 {
                    1
                } else {
                    v.last()
                }
            } else if i < v.len() - 1 {
                v[i]
            } else {
                0
            },
    )
}

/// Moves the constant last entry to the last of at least `MAX_DOT_DIM`
/// places, filling the gap with zeros.
pub fn pad(v: Vec<Fe>) -> (r: Vec<Fe>)
    ensures
        vals(r@) == pad_vals(vals(v@)),
{
    let ghost v0 = vals(v@);
    let mut v = v;
    let const_col = match v.pop() {
        Some(x) => x,
        None => Fe::one(),
    };
    while v.len() < MAX_DOT_DIM - 1
        invariant
            v0.len() > 0 ==> v@.len() >= v0.len() - 1,
            v@.len() <= pad_len(v0.len()) - 1,
            forall|i: int| 0 <= i < v@.len() ==> (#[trigger] v@[i])@ == pad_vals(v0)[i],
            v0.len() > 0 ==> const_col@ == v0.last(),
            v0.len() == 0 ==> const_col@ == 1,
        decreases MAX_DOT_DIM - 1 - v@.len(),
    {
        v.push(Fe::zero());
    }
    v.push(const_col);
    assert(vals(v@) =~= pad_vals(v0));
    v
}

/// `sum_{i < k} a[i] * b[i]`, without reduction.
pub open spec fn dot_sum(a: Seq<nat>, b: Seq<nat>, k: int) -> int
    decreases k,
{
    if k <= 0 {
        0
    } else {
        dot_sum(a, b, k - 1) + a[k - 1] * b[k - 1]
    }
}

/// The dot product of two value sequences over their common length,
/// without reduction.
pub open spec fn dot_vals(a: Seq<nat>, b: Seq<nat>) -> int {
    dot_sum(a, b, zip_len(a.len(), b.len()) as int)
}

pub proof fn lemma_dot_sum_nonneg(a: Seq<nat>, b: Seq<nat>, k: int)
    ensures
        dot_sum(a, b, k) >= 0,
    decreases k,
{
    if k > 0 {
        lemma_dot_sum_nonneg(a, b, k - 1);
    }
}

/// The dot product of two vectors over their common length.
pub fn dot(a: &Vec<Fe>, b: &Vec<Fe>) -> (r: Fe)
    ensures
        r@ == dot_vals(vals(a@), vals(b@)) % modulus() as int,
{
    let k: usize = if a.len() < b.len() { a.len() } else { b.len() };
    let ghost av = vals(a@);
    let ghost bv = vals(b@);
    let mut acc = Fe::zero();
    let mut i: usize = 0;
    while i < k
        invariant
            k == zip_len(a@.len(), b@.len()),
            av == vals(a@),
            bv == vals(b@),
            k <= a@.len(),
            k <= b@.len(),
            i <= k,
            acc@ == dot_sum(av, bv, i as int) % modulus() as int,
        decreases k - i,
    {
        let t = fe_mul(&a[i], &b[i]);
        proof {
            lemma_dot_sum_nonneg(av, bv, i as int);
            lemma_mod_accumulate(dot_sum(av, bv, i as int), a@[i as int]@, b@[i as int]@);
        }
        acc = fe_add(&acc, &t);
        i = i + 1;
    }
    acc
}

// ---------------------------------------------------------------------------
// Goal variables
// ---------------------------------------------------------------------------

/// Whether the slicing of `parse_predicate_call_for_variables` stays inside
/// `s`: when `s` has both a `(` and a `)`, the first `)` comes after the
/// first `(`.
pub open spec fn vars_slices_ok(s: Seq<char>) -> bool {
    match (find_char(s, '('), find_char(s, ')')) {
        (Some(o), Some(c)) => o < c,
        _ => true,
    }
}

/// The trimmed pieces of `s` between commas.
pub open spec fn trimmed_pieces(s: Seq<char>) -> Seq<Seq<char>> {
    split_char(s, ',').map_values(|x: Seq<char>| trim(x))
}

/// The name before the first `(` and the trimmed comma-separated arguments
/// between it and the first `)`.
pub open spec fn parse_vars_spec(s: Seq<char>) -> Option<(Seq<char>, Seq<Seq<char>>)> {
    match (find_char(s, '('), find_char(s, ')')) {
        (Some(o), Some(c)) => Some((trim(s.subrange(0, o as int)), trimmed_pieces(s.subrange(o as int + 1, c as int)))),
        _ => None,
    }
}

/// The trimmed pieces of a character vector between commas.
fn trimmed_pieces_exec(v: &Vec<char>) -> (r: Vec<String>)
    ensures
        str_views(r@) == trimmed_pieces(v@),
{
    let parts = split_char_exec(v, ',');
    let mut out: Vec<String> = Vec::new();
    let mut i: usize = 0;
    while i < parts.len()
        invariant
            i <= parts@.len(),
            parts@.len() == split_char(v@, ',').len(),
            forall|k: int| 0 <= k < parts@.len() ==> (#[trigger] parts@[k])@ == split_char(v@, ',')[k],
            out@.len() == i,
            forall|k: int| 0 <= k < i ==> (#[trigger] out@[k])@ == trim(split_char(v@, ',')[k]),
        decreases parts@.len() - i,
    {
        out.push(string_of(&trim_exec(&parts[i])));
        i = i + 1;
    }
    assert(str_views(out@) =~= trimmed_pieces(v@));
    out
}

/// Splits `name(a, b, ...)` into its trimmed name and trimmed arguments.
pub fn parse_predicate_call_for_variables(s: &str) -> (r: Option<(String, Vec<String>)>)
    requires
        vars_slices_ok(s@),
    ensures
        match parse_vars_spec(s@) {
            Some((n, a)) => r matches Some((rn, ra)) && rn@ == n && str_views(ra@) == a,
            None => r is None,
        },
{
    let v = chars_of(s);
    let open = find_char_exec(&v, '(');
    let close = find_char_exec(&v, ')');
    match (open, close) {
        (Some(o), Some(c)) => {
            let name = string_of(&trim_exec(&subvec(&v, 0, o)));
            let args = trimmed_pieces_exec(&subvec(&v, o + 1, c));
            Some((name, args))
        },
        _ => None,
    }
}

/// The arguments of a body call, or none when it is not a call.
pub open spec fn call_args(s: Seq<char>) -> Seq<Seq<char>> {
    match parse_vars_spec(s) {
        Some((_, a)) => a,
        None => Seq::empty(),
    }
}

/// The head arguments followed by the arguments of each body call.
pub open spec fn flatten_spec(args: Seq<Seq<char>>, body: Seq<Seq<char>>) -> Seq<Seq<char>>
    decreases body.len(),
{
    if body.len() == 0 {
        args
    } else {
        flatten_spec(args, body.drop_last()) + call_args(body.last())
    }
}

/// Flattening over two bodies one after the other is flattening over the
/// first, followed by flattening the second with no head arguments.
pub proof fn law_flatten_over_concatenated_bodies(a: Seq<Seq<char>>, b1: Seq<Seq<char>>, b2: Seq<Seq<char>>)
    ensures
        flatten_spec(a, b1 + b2) == flatten_spec(a, b1) + flatten_spec(Seq::empty(), b2),
    decreases b2.len(),
{
    if b2.len() == 0 {
        assert(b1 + b2 =~= b1);
        assert(flatten_spec(a, b1) + Seq::<Seq<char>>::empty() =~= flatten_spec(a, b1));
    } else {
        law_flatten_over_concatenated_bodies(a, b1, b2.drop_last());
        assert((b1 + b2).drop_last() =~= b1 + b2.drop_last());
        assert((b1 + b2).last() == b2.last());
        assert(flatten_spec(a, b1 + b2) =~= flatten_spec(a, b1) + flatten_spec(Seq::empty(), b2));
    }
}

/// The head arguments of a goal followed by the arguments of each call in
/// its clause body: `ancestor(alice,john)` with body `parent(alice,bob)`,
/// `ancestor(bob,john)` gives `alice, john, alice, bob, bob, john`.
pub fn flatten_goal_variables(goal_term_args: &[String], goal_unification_body: &[String]) -> (r: Vec<String>)
    requires
        forall|i: int| 0 <= i < goal_unification_body@.len() ==> vars_slices_ok((#[trigger] goal_unification_body@[i])@),
    ensures
        str_views(r@) == flatten_spec(str_views(goal_term_args@), str_views(goal_unification_body@)),
{
    let mut vars: Vec<String> = Vec::new();
    let mut i: usize = 0;
    while i < goal_term_args.len()
        invariant
            i <= goal_term_args@.len(),
            str_views(vars@) == str_views(goal_term_args@).take(i as int),
        decreases goal_term_args@.len() - i,
    {
        let a = goal_term_args[i].clone();
        assert(a@ == goal_term_args@[i as int]@);
        let ghost prev = vars@;
        vars.push(a);
        assert(vars@ == prev.push(a));
        assert(str_views(vars@) =~= str_views(prev).push(a@));
        assert(str_views(vars@) =~= str_views(goal_term_args@).take(i + 1));
        i = i + 1;
    }
    assert(str_views(goal_term_args@).take(goal_term_args@.len() as int) =~= str_views(goal_term_args@));
    let ghost hb = str_views(goal_unification_body@);
    let mut b: usize = 0;
    while b < goal_unification_body.len()
        invariant
            b <= goal_unification_body@.len(),
            hb == str_views(goal_unification_body@),
            forall|i: int| 0 <= i < goal_unification_body@.len() ==> vars_slices_ok((#[trigger] goal_unification_body@[i])@),
            str_views(vars@) == flatten_spec(str_views(goal_term_args@), hb.take(b as int)),
        decreases goal_unification_body@.len() - b,
    {
        assert(hb.take(b + 1).drop_last() =~= hb.take(b as int));
        assert(hb.take(b + 1).last() == goal_unification_body@[b as int]@);
        match parse_predicate_call_for_variables(goal_unification_body[b].as_str()) {
            Some((_, args)) => {
                let ghost before = str_views(vars@);
                let mut k: usize = 0;
                while k < args.len()
                    invariant
                        k <= args@.len(),
                        str_views(vars@) == before + str_views(args@).take(k as int),
                    decreases args@.len() - k,
                {
                    let a = args[k].clone();
                    assert(a@ == args@[k as int]@);
                    let ghost prev = vars@;
                    vars.push(a);
                    assert(str_views(vars@) =~= str_views(prev).push(a@));
                    assert(str_views(vars@) =~= before + str_views(args@).take(k + 1));
                    k = k + 1;
                }
                assert(str_views(args@).take(args@.len() as int) =~= str_views(args@));
            },
            None => {
                assert(str_views(vars@) =~= str_views(vars@) + Seq::<Seq<char>>::empty());
            },
        }
        b = b + 1;
    }
    assert(hb.take(hb.len() as int) =~= hb);
    vars
}

/// The field values of the flattened goal variables (through the standard
/// library hasher), followed by a constant 1.
pub fn flatten_goal_variables_fp(goal_term_args: &[String], goal_unification_body: &[String]) -> (r: Vec<Fe>)
    requires
        forall|i: int| 0 <= i < goal_unification_body@.len() ==> vars_slices_ok((#[trigger] goal_unification_body@[i])@),
    ensures
        r@.len() == flatten_spec(str_views(goal_term_args@), str_views(goal_unification_body@)).len() + 1,
        forall|i: int| 0 <= i < r@.len() - 1 ==> (#[trigger] r@[i])@
            == default_hash_of_str(flatten_spec(str_views(goal_term_args@), str_views(goal_unification_body@))[i]) as nat % modulus(),
        r@.last()@ == 1,
{
    let vars = flatten_goal_variables(goal_term_args, goal_unification_body);
    let ghost fl = flatten_spec(str_views(goal_term_args@), str_views(goal_unification_body@));
    let mut out: Vec<Fe> = Vec::new();
    let mut i: usize = 0;
    while i < vars.len()
        invariant
            i <= vars@.len(),
            str_views(vars@) == fl,
            out@.len() == i,
            forall|k: int| 0 <= k < i ==> (#[trigger] out@[k])@ == default_hash_of_str(fl[k]) as nat % modulus(),
        decreases vars@.len() - i,
    {
        assert(fl[i as int] == vars@[i as int]@);
        out.push(str_to_fp(vars[i].as_str()));
        i = i + 1;
    }
    out.push(Fe::one());
    out
}


// ---------------------------------------------------------------------------
// Equality rows
// ---------------------------------------------------------------------------

/// The argument places of the first `p` predicates of a body row.
pub open spec fn row_width(row: Seq<ChildSig>, p: int) -> int
    decreases p,
{
    if p <= 0 {
        0
    } else {
        row_width(row, p - 1) + row[p - 1].arity
    }
}

/// The argument places of the first `k` body rows.
pub open spec fn rows_width(rows: Seq<Vec<ChildSig>>, k: int) -> int
    decreases k,
{
    if k <= 0 {
        0
    } else {
        rows_width(rows, k - 1) + row_width(rows[k - 1]@, rows[k - 1]@.len() as int)
    }
}

/// All argument places of a clause whose head has `h` arguments: the head's
/// first, then those of each body row, predicate by predicate.
pub open spec fn total_places(c: ClauseTemplate, h: nat) -> int {
    h + rows_width(c.children@, c.children@.len() as int)
}

/// The place of an argument reference, when it names an argument of the
/// head (list 0, predicate 0) or of a body predicate. The index within a
/// flattened list or tuple does not change the place.
pub open spec fn place_of(c: ClauseTemplate, h: nat, t: TermRefComplex) -> Option<int> {
    if t.children_node_list == 0 {
        if t.predicate == 0 && t.arg < h {
            Some(t.arg as int)
        } else {
            None
        }
    } else if t.children_node_list <= c.children@.len() {
        let row = c.children@[t.children_node_list - 1]@;
        if t.predicate < row.len() && t.arg < row[t.predicate as int].arity {
            Some(h + rows_width(c.children@, t.children_node_list - 1) + row_width(row, t.predicate as int) + t.arg)
        } else {
            None
        }
    } else {
        None
    }
}

/// The pair of places that an equality between two references ties
/// together, if both name a place.
pub open spec fn equality_places(c: ClauseTemplate, h: nat, e: Equality) -> Seq<(int, int)> {
    match (e.left, e.right) {
        (TermSide::Ref(a), TermSide::Ref(b)) => match (place_of(c, h, a), place_of(c, h, b)) {
            (Some(x), Some(y)) => seq![(x, y)],
            _ => Seq::empty(),
        },
        _ => Seq::empty(),
    }
}

/// The place pairs of the first `k` equalities.
pub open spec fn eq_pairs(c: ClauseTemplate, h: nat, k: int) -> Seq<(int, int)>
    decreases k,
{
    if k <= 0 {
        Seq::empty()
    } else {
        eq_pairs(c, h, k - 1) + equality_places(c, h, c.equalities@[k - 1])
    }
}

/// Merges the class of `a` into the class of `b`.
pub open spec fn merge(lab: Seq<int>, a: int, b: int) -> Seq<int> {
    Seq::new(lab.len(), |i: int| if lab[i] == lab[a] { lab[b] } else { lab[i] })
}

/// The class labels of `n` places after merging along each pair in turn;
/// two places are in one class exactly when the pairs connect them.
pub open spec fn labels_after(pairs: Seq<(int, int)>, n: nat) -> Seq<int>
    decreases pairs.len(),
{
    if pairs.len() == 0 {
        Seq::new(n, |i: int| i)
    } else {
        merge(labels_after(pairs.drop_last(), n), pairs.last().0, pairs.last().1)
    }
}

/// Whether `i` is the first place of its class.
pub open spec fn is_least(lab: Seq<int>, i: int) -> bool {
    forall|k: int| 0 <= k < i ==> lab[k] != lab[i]
}

/// The pairs of consecutive members of the class of `i` from place `j` on,
/// `cur` being the member before `j`.
pub open spec fn chain_from(lab: Seq<int>, n: int, i: int, cur: int, j: int) -> Seq<(int, int)>
    decreases n - j,
{
    if j >= n {
        Seq::empty()
    } else if lab[j] == lab[i] {
        seq![(cur, j)] + chain_from(lab, n, i, j, j + 1)
    } else {
        chain_from(lab, n, i, cur, j + 1)
    }
}

/// The consecutive pairs of each class whose first place is at least `i`,
/// class by class in the order of their first places.
pub open spec fn all_chains(lab: Seq<int>, n: int, i: int) -> Seq<(int, int)>
    decreases n - i,
{
    if i >= n {
        Seq::empty()
    } else {
        (if is_least(lab, i) {
            chain_from(lab, n, i, i, i + 1)
        } else {
            Seq::empty()
        }) + all_chains(lab, n, i + 1)
    }
}

/// The place classes of a clause: the labels after all its equalities.
pub open spec fn clause_labels(c: ClauseTemplate, h: nat) -> Seq<int> {
    labels_after(eq_pairs(c, h, c.equalities@.len() as int), total_places(c, h) as nat)
}

/// The pairs that the equality rows of a clause stand for.
pub open spec fn equality_pairs(c: ClauseTemplate, h: nat) -> Seq<(int, int)> {
    all_chains(clause_labels(c, h), total_places(c, h), 0)
}

/// The number of places `k` in `[j, n)` that share the class of `i`.
pub open spec fn same_count(lab: Seq<int>, n: int, i: int, j: int) -> nat
    decreases n - j,
{
    if j >= n {
        0
    } else {
        (if lab[j] == lab[i] { 1nat } else { 0nat }) + same_count(lab, n, i, j + 1)
    }
}

/// Whether no place before `i` shares the class of `k`.
pub open spec fn fresh(lab: Seq<int>, i: int, k: int) -> bool {
    forall|m: int| 0 <= m < i ==> lab[m] != lab[k]
}

/// The number of places `k` in `[j, n)` that are not the first of their
/// class and whose class has no place before `i`.
pub open spec fn later_count(lab: Seq<int>, n: int, i: int, j: int) -> nat
    decreases n - j,
{
    if j >= n {
        0
    } else {
        (if !is_least(lab, j) && fresh(lab, i, j) { 1nat } else { 0nat }) + later_count(lab, n, i, j + 1)
    }
}

/// The number of places in `[j, n)` that are the first of their class.
pub open spec fn least_count(lab: Seq<int>, n: int, j: int) -> nat
    decreases n - j,
{
    if j >= n {
        0
    } else {
        (if is_least(lab, j) { 1nat } else { 0nat }) + least_count(lab, n, j + 1)
    }
}

/// The number of place classes of a clause.
pub open spec fn class_count(c: ClauseTemplate, h: nat) -> nat {
    least_count(clause_labels(c, h), total_places(c, h), 0)
}

proof fn lemma_chain_from_len(lab: Seq<int>, n: int, i: int, cur: int, j: int)
    ensures
        chain_from(lab, n, i, cur, j).len() == same_count(lab, n, i, j),
    decreases n - j,
{
    if j < n {
        lemma_chain_from_len(lab, n, i, if lab[j] == lab[i] { j } else { cur }, j + 1);
        lemma_chain_from_len(lab, n, i, cur, j + 1);
        lemma_chain_from_len(lab, n, i, j, j + 1);
    }
}

proof fn lemma_later_step(lab: Seq<int>, n: int, i: int, j: int)
    requires
        0 <= i < j,
    ensures
        later_count(lab, n, i, j) == later_count(lab, n, i + 1, j) + (if is_least(lab, i) { same_count(lab, n, i, j) } else { 0 }),
    decreases n - j,
{
    if j < n {
        lemma_later_step(lab, n, i, j + 1);
        if lab[j] == lab[i] {
            assert(!is_least(lab, j));
            assert(!fresh(lab, i + 1, j));
            if is_least(lab, i) {
                assert forall|m: int| 0 <= m < i implies lab[m] != lab[j] by {
                    assert(lab[m] != lab[i]);
                }
                assert(fresh(lab, i, j));
            } else {
                let m = choose|m: int| 0 <= m < i && lab[m] == lab[i];
                assert(!fresh(lab, i, j));
            }
        } else {
            assert(fresh(lab, i + 1, j) == fresh(lab, i, j)) by {
                if fresh(lab, i, j) {
                    assert forall|m: int| 0 <= m < i + 1 implies lab[m] != lab[j] by {
                        if m < i {
                            assert(lab[m] != lab[j]);
                        }
                    }
                }
            }
        }
    }
}

proof fn lemma_all_chains_len(lab: Seq<int>, n: int, i: int)
    requires
        0 <= i,
    ensures
        all_chains(lab, n, i).len() == later_count(lab, n, i, i),
    decreases n - i,
{
    if i < n {
        lemma_all_chains_len(lab, n, i + 1);
        lemma_later_step(lab, n, i, i + 1);
        lemma_chain_from_len(lab, n, i, i, i + 1);
        assert(!(!is_least(lab, i) && fresh(lab, i, i)));
    }
}

proof fn lemma_later_least(lab: Seq<int>, n: int, j: int)
    requires
        0 <= j <= n,
    ensures
        later_count(lab, n, 0, j) + least_count(lab, n, j) == n - j,
    decreases n - j,
{
    if j < n {
        lemma_later_least(lab, n, j + 1);
        assert(fresh(lab, 0, j));
    }
}

/// The equality rows of a clause number its places less its place classes:
/// each class of `m` places gives `m - 1` rows.
pub proof fn law_equality_rows_count(c: ClauseTemplate, h: nat)
    ensures
        equality_pairs(c, h).len() + class_count(c, h) == total_places(c, h),
{
    let lab = clause_labels(c, h);
    let n = total_places(c, h) as int;
    lemma_rows_width_nonneg(c.children@, c.children@.len() as int);
    lemma_all_chains_len(lab, n, 0);
    lemma_later_least(lab, n, 0);
}

/// The value of entry `j` of the row for the pair `(a, b)`: `+1` at `a`,
/// `-1` at `b`, 0 elsewhere (the last, constant entry included).
pub open spec fn pair_row_at(pair: (int, int), j: int) -> nat {
    if j == pair.0 {
        1
    } else if j == pair.1 {
        minus_one()
    } else {
        0
    }
}

proof fn lemma_row_width_nonneg(row: Seq<ChildSig>, p: int)
    ensures
        0 <= row_width(row, p),
    decreases p,
{
    if p > 0 {
        lemma_row_width_nonneg(row, p - 1);
    }
}

pub(crate) proof fn lemma_row_width_mono(row: Seq<ChildSig>, p: int, q: int)
    requires
        0 <= p <= q,
    ensures
        0 <= row_width(row, p) <= row_width(row, q),
    decreases q,
{
    lemma_row_width_nonneg(row, p);
    if q > p {
        lemma_row_width_mono(row, p, q - 1);
    }
}

proof fn lemma_rows_width_nonneg(rows: Seq<Vec<ChildSig>>, p: int)
    ensures
        0 <= rows_width(rows, p),
    decreases p,
{
    if p > 0 {
        lemma_rows_width_nonneg(rows, p - 1);
        lemma_row_width_nonneg(rows[p - 1]@, rows[p - 1]@.len() as int);
    }
}

pub(crate) proof fn lemma_rows_width_mono(rows: Seq<Vec<ChildSig>>, p: int, q: int)
    requires
        0 <= p <= q,
    ensures
        0 <= rows_width(rows, p) <= rows_width(rows, q),
    decreases q,
{
    lemma_rows_width_nonneg(rows, p);
    if q > p {
        lemma_rows_width_mono(rows, p, q - 1);
        lemma_row_width_nonneg(rows[q - 1]@, rows[q - 1]@.len() as int);
    }
}

/// The argument places of the first `p` predicates of a row.
fn row_width_exec(row: &Vec<ChildSig>, p: usize, bound: usize) -> (r: usize)
    requires
        p <= row@.len(),
        row_width(row@, row@.len() as int) <= bound,
    ensures
        r == row_width(row@, p as int),
{
    let mut acc: usize = 0;
    let mut k: usize = 0;
    while k < p
        invariant
            p <= row@.len(),
            row_width(row@, row@.len() as int) <= bound,
            k <= p,
            acc == row_width(row@, k as int),
        decreases p - k,
    {
        proof {
            lemma_row_width_mono(row@, k + 1, row@.len() as int);
        }
        acc = acc + row[k].arity;
        k = k + 1;
    }
    acc
}

/// The argument places of the first `k` rows.
fn rows_width_exec(rows: &Vec<Vec<ChildSig>>, k: usize, bound: usize) -> (r: usize)
    requires
        k <= rows@.len(),
        rows_width(rows@, rows@.len() as int) <= bound,
    ensures
        r == rows_width(rows@, k as int),
{
    let mut acc: usize = 0;
    let mut i: usize = 0;
    while i < k
        invariant
            k <= rows@.len(),
            rows_width(rows@, rows@.len() as int) <= bound,
            i <= k,
            acc == rows_width(rows@, i as int),
        decreases k - i,
    {
        proof {
            lemma_rows_width_mono(rows@, i + 1, rows@.len() as int);
            lemma_row_width_mono(rows@[i as int]@, 0, rows@[i as int]@.len() as int);
        }
        let w = row_width_exec(&rows[i], rows[i].len(), bound);
        acc = acc + w;
        i = i + 1;
    }
    acc
}

/// The place of a reference, if it names one.
fn place_exec(c: &ClauseTemplate, h: usize, t: &TermRefComplex) -> (r: Option<usize>)
    requires
        total_places(*c, h as nat) < usize::MAX,
    ensures
        match place_of(*c, h as nat, *t) {
            Some(x) => r == Some(x as usize),
            None => r is None,
        },
{
    proof {
        lemma_rows_width_mono(c.children@, 0, c.children@.len() as int);
    }
    let bound = (usize::MAX - 1) - h;
    if t.children_node_list == 0 {
        if t.predicate == 0 && t.arg < h {
            Some(t.arg)
        } else {
            None
        }
    } else if t.children_node_list <= c.children.len() {
        let l = t.children_node_list - 1;
        let row = &c.children[l];
        if t.predicate < row.len() && t.arg < row[t.predicate].arity {
            proof {
                lemma_rows_width_mono(c.children@, l + 1, c.children@.len() as int);
                lemma_rows_width_mono(c.children@, l as int, l + 1);
                lemma_row_width_mono(row@, t.predicate + 1, row@.len() as int);
                lemma_row_width_mono(row@, t.predicate as int, t.predicate + 1);
            }
            let before_rows = rows_width_exec(&c.children, l, bound);
            let before_preds = row_width_exec(row, t.predicate, bound);
            Some(h + before_rows + before_preds + t.arg)
        } else {
            None
        }
    } else {
        None
    }
}

/// Turns the equalities of a clause into rows over its argument places
/// (plus a constant column): the places that the equalities connect form
/// classes, and each class yields one row `+1, -1` per two consecutive
/// members. A row's dot product with a vector of place values is zero
/// exactly when those two places hold the same value. Classes come in the
/// order of their first places. References that name no argument place,
/// and equalities with a literal side, give no row.
pub fn rows_equality_global(clause: &ClauseTemplate, head_arity: usize) -> (r: Vec<Vec<Fe>>)
    requires
        total_places(*clause, head_arity as nat) < usize::MAX,
    ensures
        r@.len() == equality_pairs(*clause, head_arity as nat).len(),
        r@.len() == total_places(*clause, head_arity as nat) - class_count(*clause, head_arity as nat),
        forall|k: int| 0 <= k < r@.len() ==> (#[trigger] r@[k])@.len() == total_places(*clause, head_arity as nat) + 1,
        forall|k: int, j: int| 0 <= k < r@.len() && 0 <= j < r@[k]@.len() ==>
            (#[trigger] r@[k]@[j])@ == pair_row_at(equality_pairs(*clause, head_arity as nat)[k], j),
{
    let ghost h = head_arity as nat;
    proof {
        law_equality_rows_count(*clause, h);
    }
    proof {
        lemma_rows_width_mono(clause.children@, 0, clause.children@.len() as int);
    }
    let n = head_arity + rows_width_exec(&clause.children, clause.children.len(), usize::MAX - 1 - head_arity);
    // the place pairs of the equalities
    let mut pairs: Vec<(usize, usize)> = Vec::new();
    let mut e: usize = 0;
    while e < clause.equalities.len()
        invariant
            n == total_places(*clause, h),
            n < usize::MAX,
            h == head_arity,
            e <= clause.equalities@.len(),
            pairs@.len() == eq_pairs(*clause, h, e as int).len(),
            forall|k: int| 0 <= k < pairs@.len() ==> (#[trigger] pairs@[k]).0 == eq_pairs(*clause, h, e as int)[k].0
                && pairs@[k].1 == eq_pairs(*clause, h, e as int)[k].1,
            forall|k: int| 0 <= k < pairs@.len() ==> (#[trigger] pairs@[k]).0 < n && pairs@[k].1 < n,
        decreases clause.equalities@.len() - e,
    {
        let eq = &clause.equalities[e];
        match (&eq.left, &eq.right) {
            (TermSide::Ref(a), TermSide::Ref(b)) => {
                let pa = place_exec(clause, head_arity, a);
                let pb = place_exec(clause, head_arity, b);
                match (pa, pb) {
                    (Some(x), Some(y)) => {
                        proof {
                            lemma_place_bound(*clause, h, *a);
                            lemma_place_bound(*clause, h, *b);
                        }
                        pairs.push((x, y));
                    },
                    _ => {},
                }
            },
            _ => {},
        }
        e = e + 1;
    }
    // class labels
    let mut lab: Vec<usize> = Vec::new();
    let mut i: usize = 0;
    while i < n
        invariant
            i <= n,
            lab@.len() == i,
            forall|k: int| 0 <= k < i ==> (#[trigger] lab@[k]) as int == k,
        decreases n - i,
    {
        lab.push(i);
        i = i + 1;
    }
    let ghost all_pairs = eq_pairs(*clause, h, clause.equalities@.len() as int);
    proof {
        assert(Seq::new(n as nat, |k: int| k) =~= lab@.map_values(|x: usize| x as int));
    }
    let mut q: usize = 0;
    while q < pairs.len()
        invariant
            q <= pairs@.len(),
            pairs@.len() == all_pairs.len(),
            forall|k: int| 0 <= k < pairs@.len() ==> (#[trigger] pairs@[k]).0 == all_pairs[k].0
                && pairs@[k].1 == all_pairs[k].1,
            forall|k: int| 0 <= k < pairs@.len() ==> (#[trigger] pairs@[k]).0 < n && pairs@[k].1 < n,
            lab@.len() == n,
            forall|k: int| 0 <= k < n ==> (#[trigger] lab@[k]) < n,
            lab@.map_values(|x: usize| x as int) == labels_after(all_pairs.take(q as int), n as nat),
        decreases pairs@.len() - q,
    {
        let (a, b) = pairs[q];
        let la = lab[a];
        let lb = lab[b];
        let ghost before = lab@.map_values(|x: usize| x as int);
        let mut k: usize = 0;
        while k < n
            invariant
                lab@.len() == n,
                a < n,
                b < n,
                la == before[a as int],
                lb == before[b as int],
                lb < n,
                before.len() == n,
                k <= n,
                forall|j: int| 0 <= j < n ==> (#[trigger] lab@[j]) < n,
                forall|j: int| 0 <= j < k ==> (#[trigger] lab@[j]) as int == (if before[j] == before[a as int] { before[b as int] } else { before[j] }),
                forall|j: int| k <= j < n ==> (#[trigger] lab@[j]) as int == before[j],
            decreases n - k,
        {
            if lab[k] == la {
                lab.set(k, lb);
            }
            k = k + 1;
        }
        proof {
            assert(all_pairs.take(q + 1).drop_last() =~= all_pairs.take(q as int));
            assert(lab@.map_values(|x: usize| x as int) =~= merge(before, a as int, b as int));
        }
        q = q + 1;
    }
    proof {
        assert(all_pairs.take(all_pairs.len() as int) =~= all_pairs);
    }
    let ghost labs = clause_labels(*clause, h);
    assert(lab@.map_values(|x: usize| x as int) == labs);
    // rows, class by class
    let mut rows: Vec<Vec<Fe>> = Vec::new();
    let ghost mut emitted: Seq<(int, int)> = Seq::empty();
    let mut i: usize = 0;
    while i < n
        invariant
            n == total_places(*clause, h),
            n < usize::MAX,
            labs.len() == n,
            lab@.len() == n,
            forall|k: int| 0 <= k < n ==> (#[trigger] lab@[k]) as int == labs[k],
            i <= n,
            emitted + all_chains(labs, n as int, i as int) == all_chains(labs, n as int, 0),
            rows@.len() == emitted.len(),
            forall|k: int| 0 <= k < rows@.len() ==> (#[trigger] rows@[k])@.len() == n + 1,
            forall|k: int, j: int| 0 <= k < rows@.len() && 0 <= j < rows@[k]@.len() ==>
                (#[trigger] rows@[k]@[j])@ == pair_row_at(emitted[k], j),
        decreases n - i,
    {
        let mut least = true;
        let mut k: usize = 0;
        while k < i
            invariant
                i < n,
                lab@.len() == n,
                forall|m: int| 0 <= m < n ==> (#[trigger] lab@[m]) as int == labs[m],
                k <= i,
                least == (forall|m: int| 0 <= m < k ==> labs[m] != labs[i as int]),
            decreases i - k,
        {
            if lab[k] == lab[i] {
                least = false;
            }
            k = k + 1;
        }
        assert(least == is_least(labs, i as int));
        let ghost rest = all_chains(labs, n as int, i as int + 1);
        assert(all_chains(labs, n as int, i as int) == (if is_least(labs, i as int) {
            chain_from(labs, n as int, i as int, i as int, i + 1)
        } else {
            Seq::empty()
        }) + rest);
        if least {
            let ghost target = chain_from(labs, n as int, i as int, i as int, i + 1);
            let ghost start = emitted;
            let mut cur: usize = i;
            let mut j: usize = i + 1;
            while j < n
                invariant
                    n == total_places(*clause, h),
                    n < usize::MAX,
                    labs.len() == n,
                    lab@.len() == n,
                    forall|m: int| 0 <= m < n ==> (#[trigger] lab@[m]) as int == labs[m],
                    i < n,
                    cur < n,
                    i < j <= n,
                    emitted.len() >= start.len(),
                    emitted.subrange(0, start.len() as int) == start,
                    emitted.subrange(start.len() as int, emitted.len() as int) + chain_from(labs, n as int, i as int, cur as int, j as int) == target,
                    rows@.len() == emitted.len(),
                    forall|k2: int| 0 <= k2 < rows@.len() ==> (#[trigger] rows@[k2])@.len() == n + 1,
                    forall|k2: int, j2: int| 0 <= k2 < rows@.len() && 0 <= j2 < rows@[k2]@.len() ==>
                        (#[trigger] rows@[k2]@[j2])@ == pair_row_at(emitted[k2], j2),
                decreases n - j,
            {
                if lab[j] == lab[i] {
                    let row = pair_row(cur, j, n);
                    rows.push(row);
                    proof {
                        let old_e = emitted;
                        emitted = emitted.push((cur as int, j as int));
                        assert(emitted.subrange(0, start.len() as int) =~= old_e.subrange(0, start.len() as int));
                        assert(emitted.subrange(start.len() as int, emitted.len() as int)
                            =~= old_e.subrange(start.len() as int, old_e.len() as int) + seq![(cur as int, j as int)]);
                        assert(seq![(cur as int, j as int)] + chain_from(labs, n as int, i as int, j as int, j + 1)
                            == chain_from(labs, n as int, i as int, cur as int, j as int));
                        assert(old_e.subrange(start.len() as int, old_e.len() as int) + seq![(cur as int, j as int)]
                            + chain_from(labs, n as int, i as int, j as int, j + 1)
                            =~= old_e.subrange(start.len() as int, old_e.len() as int)
                            + (seq![(cur as int, j as int)] + chain_from(labs, n as int, i as int, j as int, j + 1)));
                    }
                    cur = j;
                }
                j = j + 1;
            }
            proof {
                assert(emitted =~= start + target);
                assert(start + (target + rest) =~= start + target + rest);
            }
        } else {
            proof {
                assert(Seq::<(int, int)>::empty() + rest =~= rest);
            }
        }
        i = i + 1;
    }
    proof {
        assert(all_chains(labs, n as int, n as int) =~= Seq::<(int, int)>::empty());
        assert(emitted + Seq::<(int, int)>::empty() =~= emitted);
    }
    rows
}

proof fn lemma_place_bound(c: ClauseTemplate, h: nat, t: TermRefComplex)
    requires
        place_of(c, h, t) is Some,
    ensures
        0 <= place_of(c, h, t)->0 < total_places(c, h),
{
    if t.children_node_list > 0 {
        let l = t.children_node_list - 1;
        let row = c.children@[l as int]@;
        lemma_row_width_mono(row, t.predicate + 1, row.len() as int);
        lemma_row_width_mono(row, 0, t.predicate as int);
        lemma_rows_width_mono(c.children@, l + 1, c.children@.len() as int);
        lemma_rows_width_mono(c.children@, 0, l as int);
    } else {
        lemma_rows_width_mono(c.children@, 0, c.children@.len() as int);
    }
}

/// The row for the pair `(a, b)` over `n` places and a constant column.
fn pair_row(a: usize, b: usize, n: usize) -> (r: Vec<Fe>)
    requires
        a < n,
        b < n,
    ensures
        r@.len() == n + 1,
        forall|j: int| 0 <= j < r@.len() ==> (#[trigger] r@[j])@ == pair_row_at((a as int, b as int), j),
{
    let mut row: Vec<Fe> = Vec::new();
    let mut j: usize = 0;
    while j < n
        invariant
            a < n,
            b < n,
            j <= n,
            row@.len() == j,
            forall|k: int| 0 <= k < j ==> (#[trigger] row@[k])@ == pair_row_at((a as int, b as int), k),
        decreases n - j,
    {
        if j == a {
            row.push(Fe::one());
        } else if j == b {
            row.push(fe_minus_one());
        } else {
            row.push(Fe::zero());
        }
        j = j + 1;
    }
    row.push(Fe::zero());
    row
}


// ---------------------------------------------------------------------------
// The vectors of the variable check
// ---------------------------------------------------------------------------

/// The values of the flattened variables followed by a constant 1.
pub open spec fn flat_var_vals(args: Seq<Seq<char>>, body: Seq<Seq<char>>) -> Seq<nat> {
    let fl = flatten_spec(args, body);
    Seq::new(fl.len() + 1, |i: int| if i < fl.len() {
        default_hash_of_str(fl[i]) as nat % modulus()
    } else {
        1
    })
}

/// `sum_{i < k} coeff_i * row_i[j]` over the equality rows of a clause,
/// with the coefficients drawn from `seed`.
pub open spec fn eq_compress_sum(c: ClauseTemplate, h: nat, seed: Seq<char>, j: int, k: int) -> int
    decreases k,
{
    if k <= 0 {
        0
    } else {
        eq_compress_sum(c, h, seed, j, k - 1) + fs_coeff_spec(seed, (k - 1) as usize) * pair_row_at(
            equality_pairs(c, h)[k - 1],
            j,
        )
    }
}

/// The compressed equality rows of a clause, with `m` coefficients.
pub open spec fn eq_compressed(c: ClauseTemplate, h: nat, seed: Seq<char>, m: nat) -> Seq<nat> {
    Seq::new(
        (total_places(c, h) + 1) as nat,
        |j: int| (eq_compress_sum(c, h, seed, j, zip_len(equality_pairs(c, h).len(), m) as int) % modulus() as int) as nat,
    )
}

proof fn lemma_eq_compress_sum(rows: Seq<Vec<Fe>>, r: Seq<Fe>, c: ClauseTemplate, h: nat, seed: Seq<char>, j: int, k: int)
    requires
        0 <= k <= rows.len(),
        k <= r.len(),
        k <= equality_pairs(c, h).len(),
        forall|i: int| 0 <= i < k ==> (#[trigger] r[i])@ == fs_coeff_spec(seed, i as usize),
        forall|i: int| 0 <= i < k ==> (#[trigger] rows[i])@[j]@ == pair_row_at(equality_pairs(c, h)[i], j),
    ensures
        compress_sum(rows, r, j, k) == eq_compress_sum(c, h, seed, j, k),
    decreases k,
{
    if k > 0 {
        lemma_eq_compress_sum(rows, r, c, h, seed, j, k - 1);
        assert(r[k - 1]@ == fs_coeff_spec(seed, (k - 1) as usize));
        assert(rows[k - 1]@[j]@ == pair_row_at(equality_pairs(c, h)[k - 1], j));
    }
}

/// The two vectors of the variable check of a clause: the flattened goal
/// variables (padded) and the equality rows compressed with `m`
/// coefficients drawn from `seed` (padded). The head arity is the number of
/// goal arguments.
pub fn get_w_and_v_vec(
    clause: &ClauseTemplate,
    goal_term_args: &[String],
    unif_body: &[String],
    seed: &str,
    m: usize,
) -> (r: (Vec<Fe>, Vec<Fe>))
    requires
        total_places(*clause, goal_term_args@.len()) < usize::MAX,
        equality_pairs(*clause, goal_term_args@.len()).len() > 0,
        forall|i: int| 0 <= i < unif_body@.len() ==> vars_slices_ok((#[trigger] unif_body@[i])@),
    ensures
        vals(r.0@) == pad_vals(flat_var_vals(str_views(goal_term_args@), str_views(unif_body@))),
        vals(r.1@) == pad_vals(eq_compressed(*clause, goal_term_args@.len(), seed@, m as nat)),
{
    let head_arity = goal_term_args.len();
    let ghost h = head_arity as nat;
    let rows = rows_equality_global(clause, head_arity);
    let w = flatten_goal_variables_fp(goal_term_args, unif_body);
    let coeffs = fs_coeffs(seed, m);
    proof {
        assert forall|i: int| 0 <= i < rows@.len() implies (#[trigger] rows@[i])@.len() >= rows@[0]@.len() by {}
    }
    let compressed = compress_rows(&rows, &coeffs);
    proof {
        let k = zip_len(rows@.len(), coeffs@.len()) as int;
        assert forall|j: int| 0 <= j < compressed@.len() implies (#[trigger] vals(compressed@)[j]) == eq_compressed(
            *clause,
            h,
            seed@,
            m as nat,
        )[j] by {
            assert forall|i: int| 0 <= i < k implies (#[trigger] rows@[i])@[j]@ == pair_row_at(
                equality_pairs(*clause, h)[i],
                j,
            ) by {}
            lemma_eq_compress_sum(rows@, coeffs@, *clause, h, seed@, j, k);
        }
        assert(vals(compressed@) =~= eq_compressed(*clause, h, seed@, m as nat));
        let fl = flatten_spec(str_views(goal_term_args@), str_views(unif_body@));
        assert forall|i: int| 0 <= i < w@.len() implies (#[trigger] vals(w@)[i]) == flat_var_vals(
            str_views(goal_term_args@),
            str_views(unif_body@),
        )[i] by {
            if i < w@.len() - 1 {
                assert(w@[i]@ == default_hash_of_str(fl[i]) as nat % modulus());
            }
        }
        assert(vals(w@) =~= flat_var_vals(str_views(goal_term_args@), str_views(unif_body@)));
    }
    (pad(w), pad(compressed))
}

} // verus!
