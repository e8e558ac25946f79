//! Goals as field elements: the salts of the issued facts, and the encoding
//! of a goal text (a predicate call, a call with list arguments, or an
//! arithmetic expression) as the terms the unification circuit reads.
use vstd::prelude::*;
use crate::data::{FactEntry, TermFp, GoalEntry, ProofNode, UnificationInputFp};
use crate::field::{Fe, modulus};
use crate::hashing::{to_fp_value, to_fp_spec, to_fp_chars};
use crate::params::{MAX_ARITY, MAX_PRED_LIST};
use crate::text::{
    chars_of, string_of, subvec, trim, trim_exec, find_char, find_char_exec, rfind_char, rfind_char_exec,
    split_char, split_char_exec, split_top, split_top_exec, is_ascii_text, starts_with_char, ends_with_char,
    chars_equal, lemma_split_top_pieces, lemma_trim_len_ascii, chars_from_slice, nonempty_filter,
    find, find_exec, is_ws, occurs_at, lemma_find_some_occurs, trim_start, trim_end,
    strip_start, strip_end, strip_start_exec, strip_end_exec, contains,
};
use crate::data::{zero_matrix, is_zero_matrix};

verus! {

// ---------------------------------------------------------------------------
// The salts of the issued facts
// ---------------------------------------------------------------------------

/// The text that names a fact: `name` alone, or `name(a,b,...)` with the
/// elements of all its argument lists in order, separated by commas.
pub open spec fn fact_key(name: Seq<char>, args: Seq<Seq<String>>) -> Seq<char> {
    if args.len() == 0 {
        name
    } else {
        name + seq!['('] + comma_join(flat_elems(args, args.len() as int)) + seq![')']
    }
}

/// The elements of the first `k` argument lists, in order.
pub open spec fn flat_elems(args: Seq<Seq<String>>, k: int) -> Seq<Seq<char>>
    decreases k,
{
    if k <= 0 {
        Seq::empty()
    } else {
        flat_elems(args, k - 1) + args[k - 1].map_values(|s: String| s@)
    }
}

/// The pieces joined with commas.
pub open spec fn comma_join(parts: Seq<Seq<char>>) -> Seq<char>
    decreases parts.len(),
{
    if parts.len() == 0 {
        Seq::empty()
    } else if parts.len() == 1 {
        parts[0]
    } else {
        comma_join(parts.drop_last()) + seq![','] + parts.last()
    }
}

/// One entry of a fact table.
#[derive(Debug, Clone)]
pub struct FactSalt {
    pub key: String,
    pub salt: Fe,
}

/// The salts of the issued facts, keyed by the fact's text.
#[derive(Debug)]
pub struct FactMap {
    entries: Vec<FactSalt>,
}

/// The map that a list of entries stands for (a later entry wins).
pub open spec fn salts_map(e: Seq<FactSalt>) -> Map<Seq<char>, nat>
    decreases e.len(),
{
    if e.len() == 0 {
        Map::empty()
    } else {
        salts_map(e.drop_last()).insert(e.last().key@, e.last().salt@)
    }
}

/// Whether no key occurs twice.
pub open spec fn salt_keys_distinct(e: Seq<FactSalt>) -> bool {
    forall|i: int, j: int| 0 <= i < j < e.len() ==> e[i].key@ != e[j].key@
}

impl View for FactMap {
    type V = Map<Seq<char>, nat>;

    closed spec fn view(&self) -> Map<Seq<char>, nat> {
        salts_map(self.entries@)
    }
}

proof fn lemma_salts_at(e: Seq<FactSalt>, j: int)
    requires
        salt_keys_distinct(e),
        0 <= j < e.len(),
    ensures
        salts_map(e).contains_key(e[j].key@),
        salts_map(e)[e[j].key@] == e[j].salt@,
    decreases e.len(),
{
    if j < e.len() - 1 {
        lemma_salts_at(e.drop_last(), j);
    }
}

proof fn lemma_salts_absent(e: Seq<FactSalt>, k: Seq<char>)
    requires
        forall|j: int| 0 <= j < e.len() ==> (#[trigger] e[j]).key@ != k,
    ensures
        !salts_map(e).contains_key(k),
    decreases e.len(),
{
    if e.len() > 0 {
        lemma_salts_absent(e.drop_last(), k);
    }
}

proof fn lemma_salts_update(e: Seq<FactSalt>, j: int, x: FactSalt)
    requires
        salt_keys_distinct(e),
        0 <= j < e.len(),
        x.key@ == e[j].key@,
    ensures
        salts_map(e.update(j, x)) == salts_map(e).insert(x.key@, x.salt@),
    decreases e.len(),
{
    let u = e.update(j, x);
    if j == e.len() - 1 {
        assert(u.drop_last() =~= e.drop_last());
        assert(salts_map(u) =~= salts_map(e).insert(x.key@, x.salt@));
    } else {
        assert(u.drop_last() =~= e.drop_last().update(j, x));
        lemma_salts_update(e.drop_last(), j, x);
        assert(salts_map(u) =~= salts_map(e).insert(x.key@, x.salt@));
    }
}

impl FactMap {
    #[verifier::type_invariant]
    spec fn well_formed(self) -> bool {
        salt_keys_distinct(self.entries@)
    }

    /// The empty table.
    pub fn new() -> (r: FactMap)
        ensures
            r@ == Map::<Seq<char>, nat>::empty(),
    {
        let r = FactMap { entries: Vec::new() };
        assert(r@ =~= Map::<Seq<char>, nat>::empty());
        r
    }

    fn position(&self, key: &String) -> (r: Option<usize>)
        ensures
            match r {
                Some(j) => j < self.entries@.len() && self.entries@[j as int].key@ == key@,
                None => forall|j: int| 0 <= j < self.entries@.len() ==> (#[trigger] self.entries@[j]).key@ != key@,
            },
    {
        let mut j: usize = 0;
        while j < self.entries.len()
            invariant
                j <= self.entries@.len(),
                forall|k: int| 0 <= k < j ==> (#[trigger] self.entries@[k]).key@ != key@,
            decreases self.entries@.len() - j,
        {
            if self.entries[j].key == *key {
                return Some(j);
            }
            j = j + 1;
        }
        None
    }

    /// The salt of a fact text, if it has one.
    pub fn get(&self, key: &String) -> (r: Option<Fe>)
        ensures
            match r {
                Some(x) => self@.contains_key(key@) && x@ == self@[key@],
                None => !self@.contains_key(key@),
            },
    {
        proof {
            use_type_invariant(self);
        }
        match self.position(key) {
            Some(j) => {
                proof {
                    lemma_salts_at(self.entries@, j as int);
                }
                Some(self.entries[j].salt)
            },
            None => {
                proof {
                    lemma_salts_absent(self.entries@, key@);
                }
                None
            },
        }
    }

    /// Gives a fact text a salt, replacing the one it had.
    pub fn insert(&mut self, key: &String, salt: Fe)
        ensures
            final(self)@ == old(self)@.insert(key@, salt@),
    {
        proof {
            use_type_invariant(&*self);
        }
        let e = FactSalt { key: key.clone(), salt };
        let pos = self.position(key);
        let mut es: Vec<FactSalt> = Vec::new();
        std::mem::swap(&mut es, &mut self.entries);
        match pos {
            Some(j) => {
                proof {
                    lemma_salts_update(es@, j as int, e);
                }
                es.set(j, e);
            },
            None => {
                es.push(e);
                assert(es@.drop_last() == old(self).entries@);
            },
        }
        assert(salt_keys_distinct(es@));
        self.entries = es;
    }
}

/// The salts after the first `k` fact entries (a later entry with the same
/// text wins).
pub open spec fn fact_map_spec(facts: Seq<FactEntry>, k: int) -> Map<Seq<char>, nat>
    decreases k,
{
    if k <= 0 {
        Map::empty()
    } else {
        let f = facts[k - 1];
        fact_map_spec(facts, k - 1).insert(
            fact_key(f.predicate@, f.args@.map_values(|l: Vec<String>| l@)),
            to_fp_spec(f.salt@),
        )
    }
}

/// The text that names a fact.
fn fact_key_exec(f: &FactEntry) -> (r: String)
    ensures
        r@ == fact_key(f.predicate@, f.args@.map_values(|l: Vec<String>| l@)),
{
    let ghost a = f.args@.map_values(|l: Vec<String>| l@);
    if f.args.len() == 0 {
        return f.predicate.clone();
    }
    let mut out = chars_of(f.predicate.as_str());
    out.push('(');
    let ghost start = out@;
    let mut first = true;
    let mut i: usize = 0;
    while i < f.args.len()
        invariant
            i <= f.args@.len(),
            a == f.args@.map_values(|l: Vec<String>| l@),
            first == (flat_elems(a, i as int).len() == 0),
            out@ == start + comma_join(flat_elems(a, i as int)),
        decreases f.args@.len() - i,
    {
        let list = &f.args[i];
        let ghost before_i = flat_elems(a, i as int);
        let mut j: usize = 0;
        while j < list.len()
            invariant
                i < f.args@.len(),
                *list == f.args@[i as int],
                a == f.args@.map_values(|l: Vec<String>| l@),
                j <= list@.len(),
                first == ((before_i + list@.map_values(|s: String| s@).take(j as int)).len() == 0),
                out@ == start + comma_join(before_i + list@.map_values(|s: String| s@).take(j as int)),
            decreases list@.len() - j,
        {
            let ghost prev = before_i + list@.map_values(|s: String| s@).take(j as int);
            let ghost next = before_i + list@.map_values(|s: String| s@).take(j + 1);
            assert(next =~= prev.push(list@[j as int]@));
            assert(next.drop_last() =~= prev);
            if !first {
                out.push(',');
            }
            let piece = chars_of(list[j].as_str());
            let mut k: usize = 0;
            let ghost mid = out@;
            while k < piece.len()
                invariant
                    k <= piece@.len(),
                    out@ == mid + piece@.take(k as int),
                decreases piece@.len() - k,
            {
                out.push(piece[k]);
                assert(out@ =~= mid + piece@.take(k + 1));
                k = k + 1;
            }
            assert(piece@.take(piece@.len() as int) =~= piece@);
            first = false;
            proof {
                if prev.len() == 0 {
                    assert(next.len() == 1);
                    assert(comma_join(next) == next[0]);
                    assert(out@ =~= start + comma_join(next));
                } else {
                    assert(comma_join(next) == comma_join(prev) + seq![','] + next.last());
                    assert(out@ =~= start + comma_join(next));
                }
            }
            j = j + 1;
        }
        assert(list@.map_values(|s: String| s@).take(list@.len() as int) =~= list@.map_values(|s: String| s@));
        assert(a[i as int] == list@);
        assert(flat_elems(a, i + 1) == before_i + list@.map_values(|s: String| s@));
        i = i + 1;
    }
    out.push(')');
    assert(out@ =~= fact_key(f.predicate@, a));
    string_of(&out)
}

/// The salts of the issued facts, keyed by the text that names each fact.
pub fn build_fact_map(facts: &[FactEntry]) -> (r: FactMap)
    ensures
        r@ == fact_map_spec(facts@, facts@.len() as int),
{
    let mut map = FactMap::new();
    let mut i: usize = 0;
    while i < facts.len()
        invariant
            i <= facts@.len(),
            map@ == fact_map_spec(facts@, i as int),
        decreases facts@.len() - i,
    {
        let key = fact_key_exec(&facts[i]);
        let salt = to_fp_value(facts[i].salt.as_str());
        map.insert(&key, salt);
        i = i + 1;
    }
    map
}

// ---------------------------------------------------------------------------
// Term matrices
// ---------------------------------------------------------------------------

/// Whether `m` is a `MAX_ARITY` by `MAX_PRED_LIST` matrix whose entry
/// `(i, j)` has the value `f(i, j)`.
pub open spec fn matrix_is(m: Seq<Vec<Fe>>, f: spec_fn(int, int) -> nat) -> bool {
    &&& m.len() == MAX_ARITY
    &&& forall|i: int| 0 <= i < MAX_ARITY ==> (#[trigger] m[i])@.len() == MAX_PRED_LIST
    &&& forall|i: int, j: int| 0 <= i < MAX_ARITY && 0 <= j < MAX_PRED_LIST ==> (#[trigger] m[i]@[j])@ == f(i, j)
}

/// Sets entry `(i, j)` of a matrix.
fn set_entry(m: &mut Vec<Vec<Fe>>, i: usize, j: usize, x: Fe)
    requires
        i < old(m)@.len(),
        j < old(m)@[i as int]@.len(),
    ensures
        final(m)@.len() == old(m)@.len(),
        forall|a: int| 0 <= a < final(m)@.len() ==> (#[trigger] final(m)@[a])@.len() == old(m)@[a]@.len(),
        forall|a: int, b: int| 0 <= a < final(m)@.len() && 0 <= b < final(m)@[a]@.len() ==> (#[trigger] final(m)@[a]@[b]) == (if a == i && b == j {
            x
        } else {
            old(m)@[a]@[b]
        }),
{
    let mut row: Vec<Fe> = Vec::new();
    let mut k: usize = 0;
    while k < m[i].len()
        invariant
            i < m@.len(),
            k <= m@[i as int]@.len(),
            row@ == m@[i as int]@.take(k as int),
        decreases m@[i as int]@.len() - k,
    {
        row.push(m[i][k]);
        assert(row@ =~= m@[i as int]@.take(k + 1));
        k = k + 1;
    }
    assert(row@ =~= m@[i as int]@);
    row.set(j, x);
    m.set(i, row);
}

// ---------------------------------------------------------------------------
// Plain predicate calls
// ---------------------------------------------------------------------------

/// Where the arguments of a goal text open: its first `(`, or its end.
pub open spec fn og_open(s: Seq<char>) -> int {
    match find_char(s, '(') {
        Some(p) => p as int,
        None => s.len() as int,
    }
}

/// Where the arguments of a goal text close: its last `)`, or its end.
pub open spec fn og_close(s: Seq<char>) -> int {
    match rfind_char(s, ')') {
        Some(p) => p as int,
        None => s.len() as int,
    }
}

/// The predicate name of a goal text, trimmed.
pub open spec fn og_name(s: Seq<char>) -> Seq<char> {
    trim(s.subrange(0, og_open(s)))
}

/// The non-empty trimmed comma-separated arguments of a goal text.
pub open spec fn og_raw_args(s: Seq<char>) -> Seq<Seq<char>> {
    let inside = if og_open(s) < og_close(s) { s.subrange(og_open(s) + 1, og_close(s)) } else { Seq::empty() };
    nonempty_filter(split_char(inside, ',').map_values(|x: Seq<char>| trim(x)))
}

/// The name `consumptionClass`.
pub open spec fn consumption_class_name() -> Seq<char> {
    seq!['c', 'o', 'n', 's', 'u', 'm', 'p', 't', 'i', 'o', 'n', 'C', 'l', 'a', 's', 's']
}

/// The arguments of a plain goal text; in a `consumptionClass` goal whose
/// second argument is `low`, the first one reads `_`.
pub open spec fn og_args(s: Seq<char>) -> Seq<Seq<char>> {
    let a = og_raw_args(s);
    if og_name(s) == consumption_class_name() && a[1] == seq!['l', 'o', 'w'] {
        a.update(0, seq!['_'])
    } else {
        a
    }
}

/// The fact text of a plain goal: `name(a,b,...)`.
pub open spec fn og_key(s: Seq<char>) -> Seq<char> {
    og_name(s) + seq!['('] + comma_join(og_args(s)) + seq![')']
}

/// Whether `x` is a plain call part: not empty, no whitespace at its ends,
/// and none of `,`, `(`, `)` in it.
pub open spec fn plain_part(x: Seq<char>) -> bool {
    &&& x.len() > 0
    &&& !is_ws(x[0])
    &&& !is_ws(x.last())
    &&& forall|k: int| 0 <= k < x.len() ==> #[trigger] x[k] != ',' && x[k] != '(' && x[k] != ')'
}

/// The call text `name(a1,...,ak)`.
pub open spec fn call_text(name: Seq<char>, args: Seq<Seq<char>>) -> Seq<char> {
    name + seq!['('] + comma_join(args) + seq![')']
}

proof fn lemma_trim_plain_part(x: Seq<char>)
    requires
        plain_part(x),
    ensures
        trim(x) == x,
{
    assert(trim_start(x) == x);
    assert(trim_end(x) == x);
}

/// Splitting text with no separator gives the text alone.
proof fn lemma_split_char_none(x: Seq<char>, c: char)
    requires
        forall|k: int| 0 <= k < x.len() ==> #[trigger] x[k] != c,
    ensures
        split_char(x, c) == seq![x],
    decreases x.len(),
{
    if x.len() > 0 {
        lemma_split_char_none(x.drop_last(), c);
        assert(x.drop_last().push(x.last()) =~= x);
    } else {
        assert(x =~= Seq::<char>::empty());
    }
}

/// Splitting after a separator extends the pieces with the text read since.
proof fn lemma_split_char_after(a: Seq<char>, c: char, x: Seq<char>, j: int)
    requires
        0 <= j <= x.len(),
        forall|k: int| 0 <= k < x.len() ==> #[trigger] x[k] != c,
    ensures
        split_char(a + seq![c] + x.subrange(0, j), c) == split_char(a, c).push(x.subrange(0, j)),
    decreases j,
{
    if j == 0 {
        assert(a + seq![c] + x.subrange(0, 0) =~= a.push(c));
        assert(a.push(c).drop_last() =~= a);
        assert(x.subrange(0, 0) =~= Seq::<char>::empty());
    } else {
        lemma_split_char_after(a, c, x, j - 1);
        let t = a + seq![c] + x.subrange(0, j);
        assert(t.drop_last() =~= a + seq![c] + x.subrange(0, j - 1));
        assert(t.last() == x[j - 1]);
        assert(x.subrange(0, j - 1).push(x[j - 1]) =~= x.subrange(0, j));
        crate::text::lemma_split_char_nonempty(a, c);
    }
}

/// Splitting pieces joined with the separator gives back the pieces.
proof fn lemma_split_char_comma_join(xs: Seq<Seq<char>>)
    requires
        xs.len() >= 1,
        forall|i: int, k: int| 0 <= i < xs.len() && 0 <= k < xs[i].len() ==> #[trigger] xs[i][k] != ',',
    ensures
        split_char(comma_join(xs), ',') == xs,
    decreases xs.len(),
{
    if xs.len() == 1 {
        assert forall|k: int| 0 <= k < xs[0].len() implies #[trigger] xs[0][k] != ',' by {
            assert(xs[0][k] != ',');
        }
        lemma_split_char_none(xs[0], ',');
        assert(seq![xs[0]] =~= xs);
    } else {
        let ys = xs.drop_last();
        let x = xs.last();
        assert forall|i: int, k: int| 0 <= i < ys.len() && 0 <= k < ys[i].len() implies #[trigger] ys[i][k] != ',' by {
            assert(ys[i] == xs[i]);
            assert(xs[i][k] != ',');
        }
        lemma_split_char_comma_join(ys);
        assert forall|k: int| 0 <= k < x.len() implies #[trigger] x[k] != ',' by {
            assert(xs[xs.len() - 1][k] != ',');
        }
        lemma_split_char_after(comma_join(ys), ',', x, x.len() as int);
        assert(x.subrange(0, x.len() as int) =~= x);
        assert(ys.push(x) =~= xs);
    }
}

/// Filtering out empty pieces keeps pieces that are all non-empty.
proof fn lemma_nonempty_filter_all(xs: Seq<Seq<char>>)
    requires
        forall|i: int| 0 <= i < xs.len() ==> (#[trigger] xs[i]).len() > 0,
    ensures
        nonempty_filter(xs) == xs,
    decreases xs.len(),
{
    if xs.len() > 0 {
        assert forall|i: int| 0 <= i < xs.drop_last().len() implies (#[trigger] xs.drop_last()[i]).len() > 0 by {
            assert(xs.drop_last()[i] == xs[i]);
        }
        lemma_nonempty_filter_all(xs.drop_last());
        assert(xs[xs.len() - 1].len() > 0);
        assert(xs.drop_last().push(xs.last()) =~= xs);
    }
}

/// The parts of a call text `name(a1,...,ak)` of plain parts: its name, its
/// arguments, and a fact key equal to the text itself.
pub proof fn lemma_call_text_parts(name: Seq<char>, args: Seq<Seq<char>>)
    requires
        plain_part(name),
        forall|i: int| 0 <= i < args.len() ==> plain_part(#[trigger] args[i]),
    ensures
        og_name(call_text(name, args)) == name,
        og_raw_args(call_text(name, args)) == args,
{
    let s = call_text(name, args);
    let n = name.len();
    // the first `(` is the one after the name
    assert(s[n as int] == '(');
    assert forall|j: int| 0 <= j < n implies !occurs_at(s, seq!['('], j) by {
        if occurs_at(s, seq!['('], j) {
            assert(s.subrange(j, j + 1)[0] == s[j]);
            assert(s[j] == name[j]);
        }
    }
    assert(s.subrange(n as int, n as int + 1) =~= seq!['(']);
    crate::text::lemma_find_from_some(s, seq!['('], 0, n);
    assert(og_open(s) == n);
    assert(s.last() == ')');
    assert(og_close(s) == s.len() - 1);
    assert(s.subrange(0, n as int) =~= name);
    lemma_trim_plain_part(name);
    let inside = s.subrange(n as int + 1, s.len() - 1);
    assert(inside =~= comma_join(args));
    if args.len() == 0 {
        assert(inside =~= Seq::<char>::empty());
        assert(split_char(inside, ',') == seq![Seq::<char>::empty()]);
        let pieces = split_char(inside, ',').map_values(|x: Seq<char>| trim(x));
        assert(trim(Seq::<char>::empty()) =~= Seq::<char>::empty()) by {
            assert(trim_start(Seq::<char>::empty()) == Seq::<char>::empty());
            assert(trim_end(Seq::<char>::empty()) == Seq::<char>::empty());
        }
        assert(pieces =~= seq![Seq::<char>::empty()]);
        assert(nonempty_filter(pieces) =~= Seq::<Seq<char>>::empty()) by {
            assert(pieces.drop_last() =~= Seq::<Seq<char>>::empty());
            assert(nonempty_filter(pieces.drop_last()) =~= Seq::<Seq<char>>::empty());
            assert(pieces.last().len() == 0);
        }
        assert(args =~= Seq::<Seq<char>>::empty());
    } else {
        assert forall|i: int, k: int| 0 <= i < args.len() && 0 <= k < args[i].len() implies #[trigger] args[i][k] != ',' by {
            assert(plain_part(args[i]));
        }
        lemma_split_char_comma_join(args);
        let pieces = split_char(inside, ',').map_values(|x: Seq<char>| trim(x));
        assert forall|i: int| 0 <= i < args.len() implies trim(#[trigger] args[i]) == args[i] by {
            lemma_trim_plain_part(args[i]);
        }
        assert(pieces =~= args);
        lemma_nonempty_filter_all(args);
    }
}

/// Whether a plain goal text can be encoded: a `consumptionClass` goal has
/// at least two arguments, and no goal has more than `MAX_ARITY`.
pub open spec fn og_encodable(s: Seq<char>) -> bool {
    &&& og_name(s) == consumption_class_name() ==> og_raw_args(s).len() >= 2
    &&& og_raw_args(s).len() <= MAX_ARITY
}

/// Whether `t` encodes the plain goal text `s`: its name, its arguments in
/// the first column, and the salt of its fact text (0 when not issued).
pub open spec fn og_encodes(t: TermFp, s: Seq<char>, facts: Map<Seq<char>, nat>) -> bool {
    &&& t.name@ == to_fp_spec(og_name(s))
    &&& matrix_is(t.args@, |i: int, j: int| if j == 0 && i < og_args(s).len() { to_fp_spec(og_args(s)[i]) } else { 0 })
    &&& t.fact_hashes@ == (if facts.contains_key(og_key(s)) { facts[og_key(s)] } else { 0 })
}

/// The non-empty pieces of a list of character vectors.
fn nonempty_exec(parts: &Vec<Vec<char>>) -> (r: Vec<Vec<char>>)
    ensures
        r@.map_values(|v: Vec<char>| v@) == nonempty_filter(parts@.map_values(|v: Vec<char>| v@)),
{
    let ghost pv = parts@.map_values(|v: Vec<char>| v@);
    let mut out: Vec<Vec<char>> = Vec::new();
    let mut i: usize = 0;
    while i < parts.len()
        invariant
            i <= parts@.len(),
            pv == parts@.map_values(|v: Vec<char>| v@),
            out@.map_values(|v: Vec<char>| v@) == nonempty_filter(pv.take(i as int)),
        decreases parts@.len() - i,
    {
        assert(pv.take(i + 1).drop_last() =~= pv.take(i as int));
        if parts[i].len() > 0 {
            let ghost before = out@.map_values(|v: Vec<char>| v@);
            out.push(copy_chars(&parts[i]));
            assert(out@.map_values(|v: Vec<char>| v@) =~= before.push(pv[i as int]));
        }
        i = i + 1;
    }
    assert(pv.take(pv.len() as int) =~= pv);
    out
}

/// A copy of a character vector.
fn copy_chars(v: &Vec<char>) -> (r: Vec<char>)
    ensures
        r@ == v@,
{
    let mut out: Vec<char> = Vec::new();
    let mut i: usize = 0;
    while i < v.len()
        invariant
            i <= v@.len(),
            out@ == v@.take(i as int),
        decreases v@.len() - i,
    {
        out.push(v[i]);
        assert(out@ =~= v@.take(i + 1));
        i = i + 1;
    }
    assert(v@.take(v@.len() as int) =~= v@);
    out
}

/// The pieces joined with commas.
fn comma_join_exec(parts: &Vec<Vec<char>>) -> (r: Vec<char>)
    ensures
        r@ == comma_join(parts@.map_values(|v: Vec<char>| v@)),
{
    let ghost pv = parts@.map_values(|v: Vec<char>| v@);
    let mut out: Vec<char> = Vec::new();
    let mut i: usize = 0;
    while i < parts.len()
        invariant
            i <= parts@.len(),
            pv == parts@.map_values(|v: Vec<char>| v@),
            out@ == comma_join(pv.take(i as int)),
        decreases parts@.len() - i,
    {
        assert(pv.take(i + 1).drop_last() =~= pv.take(i as int));
        if i > 0 {
            out.push(',');
        }
        let ghost mid = out@;
        let mut k: usize = 0;
        while k < parts[i].len()
            invariant
                i < parts@.len(),
                k <= parts@[i as int]@.len(),
                out@ == mid + parts@[i as int]@.take(k as int),
            decreases parts@[i as int]@.len() - k,
        {
            out.push(parts[i][k]);
            assert(out@ =~= mid + parts@[i as int]@.take(k + 1));
            k = k + 1;
        }
        assert(parts@[i as int]@.take(parts@[i as int]@.len() as int) =~= parts@[i as int]@);
        i = i + 1;
    }
    assert(pv.take(pv.len() as int) =~= pv);
    out
}

/// The trimmed name and the non-empty trimmed arguments of a goal text.
pub(crate) fn og_parts(s: &Vec<char>) -> (r: (Vec<char>, Vec<Vec<char>>))
    ensures
        r.0@ == og_name(s@),
        char_views(r.1@) == og_raw_args(s@),
{
    let open = match find_char_exec(s, '(') {
        Some(p) => p,
        None => s.len(),
    };
    let close = match rfind_char_exec(s, ')') {
        Some(p) => p,
        None => s.len(),
    };
    proof {
        match find_char(s@, '(') {
            Some(p) => {
                crate::text::lemma_find_some_occurs(s@, seq!['('], p);
            },
            None => {},
        }
    }
    let name = trim_exec(&subvec(s, 0, open));
    let inside = if open < close { subvec(s, open + 1, close) } else { Vec::new() };
    let pieces = split_char_exec(&inside, ',');
    let mut trimmed: Vec<Vec<char>> = Vec::new();
    let mut i: usize = 0;
    while i < pieces.len()
        invariant
            i <= pieces@.len(),
            pieces@.len() == split_char(inside@, ',').len(),
            forall|k: int| 0 <= k < pieces@.len() ==> (#[trigger] pieces@[k])@ == split_char(inside@, ',')[k],
            trimmed@.map_values(|v: Vec<char>| v@) == split_char(inside@, ',').map_values(|x: Seq<char>| trim(x)).take(i as int),
        decreases pieces@.len() - i,
    {
        let ghost before = trimmed@.map_values(|v: Vec<char>| v@);
        let t = trim_exec(&pieces[i]);
        assert(t@ == trim(split_char(inside@, ',')[i as int]));
        trimmed.push(t);
        assert(trimmed@.map_values(|v: Vec<char>| v@) =~= before.push(t@));
        assert(split_char(inside@, ',').map_values(|x: Seq<char>| trim(x)).take(i + 1)
            =~= split_char(inside@, ',').map_values(|x: Seq<char>| trim(x)).take(i as int).push(t@));
        i = i + 1;
    }
    assert(split_char(inside@, ',').map_values(|x: Seq<char>| trim(x)).take(pieces@.len() as int)
        =~= split_char(inside@, ',').map_values(|x: Seq<char>| trim(x)));
    let args = nonempty_exec(&trimmed);
    assert(name@ == og_name(s@));
    (name, args)
}

/// Encodes a plain predicate call `name(a, b, ...)`: the name, the
/// arguments in the first column of the matrix, and the salt of the fact
/// text `name(a,b,...)` if it was issued. In a `consumptionClass` goal whose
/// second argument is `low`, the first argument reads `_`.
pub fn encode_str_to_termfp_og(input: &str, facts: &FactMap) -> (r: TermFp)
    requires
        og_encodable(input@),
    ensures
        og_encodes(r, input@, facts@),
{
    let s = chars_of(input);
    let (name, mut args) = og_parts(&s);
    let ghost raw = args@.map_values(|v: Vec<char>| v@);
    assert(raw == og_raw_args(input@));
    let cc = chars_from_slice(&['c', 'o', 'n', 's', 'u', 'm', 'p', 't', 'i', 'o', 'n', 'C', 'l', 'a', 's', 's']);
    if chars_equal(&name, &cc) {
        let low = chars_from_slice(&['l', 'o', 'w']);
        if chars_equal(&args[1], &low) {
            let under = chars_from_slice(&['_']);
            assert(under@ == seq!['_']);
            let ghost before_args = args@;
            args.set(0, under);
            assert(args@ == before_args.update(0, under));
            assert forall|q: int| 0 <= q < args@.len() implies (#[trigger] args@[q])@ == raw.update(0, seq!['_'])[q] by {
                if q == 0 {
                    assert(args@[q]@ == seq!['_']);
                } else {
                    assert(args@[q] == before_args[q]);
                }
            }
            assert(args@.map_values(|v: Vec<char>| v@) =~= raw.update(0, seq!['_']));
        }
    }
    assert(args@.map_values(|v: Vec<char>| v@) == og_args(input@));
    let mut key = copy_chars(&name);
    key.push('(');
    let joined = comma_join_exec(&args);
    let mut k: usize = 0;
    let ghost mid = key@;
    while k < joined.len()
        invariant
            k <= joined@.len(),
            key@ == mid + joined@.take(k as int),
        decreases joined@.len() - k,
    {
        key.push(joined[k]);
        assert(key@ =~= mid + joined@.take(k + 1));
        k = k + 1;
    }
    assert(joined@.take(joined@.len() as int) =~= joined@);
    key.push(')');
    assert(key@ =~= og_key(input@));
    let key_s = string_of(&key);
    let salt = match facts.get(&key_s) {
        Some(x) => x,
        None => Fe::zero(),
    };
    let mut m = zero_matrix();
    let ghost av = og_args(input@);
    assert(matrix_is(m@, |i: int, j: int| if j == 0 && i < 0 { to_fp_spec(av[i]) } else { 0 }));
    let mut a: usize = 0;
    while a < args.len()
        invariant
            a <= args@.len(),
            args@.len() <= MAX_ARITY,
            av == args@.map_values(|v: Vec<char>| v@),
            matrix_is(m@, |i: int, j: int| if j == 0 && i < a { to_fp_spec(av[i]) } else { 0 }),
        decreases args@.len() - a,
    {
        let x = to_fp_chars(&args[a]);
        set_entry(&mut m, a, 0, x);
        assert(m@.len() == MAX_ARITY);
        a = a + 1;
    }
    TermFp { name: to_fp_chars(&name), args: m, fact_hashes: salt }
}

// ---------------------------------------------------------------------------
// Term values
// ---------------------------------------------------------------------------

/// The values of a term: its name, its argument matrix, its salt.
pub open spec fn term_view(t: TermFp) -> (nat, Seq<Seq<nat>>, nat) {
    (t.name@, t.args@.map_values(|row: Vec<Fe>| crate::field::vals(row@)), t.fact_hashes@)
}

/// The matrix whose row `i` holds the values of the texts `rows[i]`, then
/// zeros.
pub open spec fn texts_matrix(rows: Seq<Seq<Seq<char>>>) -> Seq<Seq<nat>> {
    Seq::new(
        MAX_ARITY as nat,
        |i: int| Seq::new(MAX_PRED_LIST as nat, |j: int| if i < rows.len() && j < rows[i].len() { to_fp_spec(rows[i][j]) } else { 0 }),
    )
}

/// Whether the texts fit a matrix.
pub open spec fn rows_fit(rows: Seq<Seq<Seq<char>>>) -> bool {
    &&& rows.len() <= MAX_ARITY
    &&& forall|i: int| 0 <= i < rows.len() ==> (#[trigger] rows[i]).len() <= MAX_PRED_LIST
}

/// The views of nested character vectors.
pub open spec fn rows_view(rows: Seq<Vec<Vec<char>>>) -> Seq<Seq<Seq<char>>> {
    rows.map_values(|r: Vec<Vec<char>>| r@.map_values(|v: Vec<char>| v@))
}

/// The matrix of the values of texts, row by row.
fn matrix_of_texts(rows: &Vec<Vec<Vec<char>>>) -> (m: Vec<Vec<Fe>>)
    requires
        rows_fit(rows_view(rows@)),
    ensures
        m@.map_values(|row: Vec<Fe>| crate::field::vals(row@)) == texts_matrix(rows_view(rows@)),
        matrix_is(m@, |i: int, j: int| texts_matrix(rows_view(rows@))[i][j]),
{
    let ghost rv = rows_view(rows@);
    let mut m = zero_matrix();
    let mut i: usize = 0;
    while i < rows.len()
        invariant
            i <= rows@.len(),
            rv == rows_view(rows@),
            rows_fit(rv),
            matrix_is(m@, |a: int, b: int| if a < i && a < rv.len() && b < rv[a].len() { to_fp_spec(rv[a][b]) } else { 0 }),
        decreases rows@.len() - i,
    {
        let row = &rows[i];
        assert(row@.len() == rv[i as int].len());
        let mut j: usize = 0;
        while j < row.len()
            invariant
                i < rows@.len(),
                rv == rows_view(rows@),
                rows_fit(rv),
                *row == rows@[i as int],
                j <= row@.len(),
                matrix_is(m@, |a: int, b: int| if (a < i || (a == i && b < j)) && a < rv.len() && b < rv[a].len() { to_fp_spec(rv[a][b]) } else { 0 }),
            decreases row@.len() - j,
        {
            assert(rv[i as int][j as int] == row@[j as int]@);
            let x = to_fp_chars(&row[j]);
            set_entry(&mut m, i, j, x);
            j = j + 1;
        }
        i = i + 1;
    }
    let ghost mv = m@.map_values(|row: Vec<Fe>| crate::field::vals(row@));
    assert forall|a: int| 0 <= a < MAX_ARITY implies (#[trigger] mv[a]) =~= texts_matrix(rv)[a] by {
        assert(mv[a] == crate::field::vals(m@[a]@));
    }
    assert(mv =~= texts_matrix(rv));
    m
}

// ---------------------------------------------------------------------------
// Arithmetic goals
// ---------------------------------------------------------------------------

/// The operators of an arithmetic goal, in the order they are looked for.
pub open spec fn op_list() -> Seq<Seq<char>> {
    seq![
        seq![' ', 'i', 's', ' '], seq!['='], seq!['>'], seq!['<'], seq!['*'],
        seq![' ', 'd', 'i', 'v', ' '], seq!['+'], seq!['-'],
    ]
}

/// The operators, as character vectors.
pub(crate) fn op_list_exec() -> (r: Vec<Vec<char>>)
    ensures
        r@.len() == op_list().len(),
        forall|i: int| 0 <= i < r@.len() ==> (#[trigger] r@[i])@ == op_list()[i],
{
    let mut v: Vec<Vec<char>> = Vec::new();
    v.push(chars_from_slice(&[' ', 'i', 's', ' ']));
    v.push(chars_from_slice(&['=']));
    v.push(chars_from_slice(&['>']));
    v.push(chars_from_slice(&['<']));
    v.push(chars_from_slice(&['*']));
    v.push(chars_from_slice(&[' ', 'd', 'i', 'v', ' ']));
    v.push(chars_from_slice(&['+']));
    v.push(chars_from_slice(&['-']));
    v
}

/// The first operator, in list order from `k` on, that occurs in `s`, with
/// the position of its first occurrence.
pub open spec fn first_op_in(s: Seq<char>, k: int) -> Option<(int, nat)>
    decreases 8 - k,
{
    if k < 0 || k >= 8 {
        None
    } else {
        match find(s, op_list()[k]) {
            Some(p) => Some((k, p)),
            None => first_op_in(s, k + 1),
        }
    }
}

/// Whether `s` holds one of the operators.
pub open spec fn has_op(s: Seq<char>) -> bool {
    first_op_in(s, 0) is Some
}

proof fn lemma_first_op_in(s: Seq<char>, k: int)
    requires
        0 <= k,
    ensures
        first_op_in(s, k) matches Some((j, p)) ==> k <= j < 8 && find(s, op_list()[j]) == Some(p),
    decreases 8 - k,
{
    if k < 8 && find(s, op_list()[k]) is None {
        lemma_first_op_in(s, k + 1);
    }
}

/// The first operator that occurs in `s`, with its position.
pub(crate) fn first_op_exec(s: &Vec<char>, ops: &Vec<Vec<char>>) -> (r: Option<(usize, usize)>)
    requires
        ops@.len() == op_list().len(),
        forall|i: int| 0 <= i < ops@.len() ==> (#[trigger] ops@[i])@ == op_list()[i],
    ensures
        match first_op_in(s@, 0) {
            Some((k, p)) => r == Some((k as usize, p as usize)),
            None => r is None,
        },
        r matches Some((k, p)) ==> first_op_in(s@, 0) == Some((k as int, p as nat)),
{
    let mut k: usize = 0;
    while k < 8
        invariant
            k <= 8,
            ops@.len() == op_list().len(),
            forall|i: int| 0 <= i < ops@.len() ==> (#[trigger] ops@[i])@ == op_list()[i],
            first_op_in(s@, 0) == first_op_in(s@, k as int),
        decreases 8 - k,
    {
        match find_exec(s, &ops[k]) {
            Some(p) => {
                return Some((k, p));
            },
            None => {},
        }
        k = k + 1;
    }
    None
}

/// `str::replace(s, "div", " div ")`.
pub open spec fn replace_div(s: Seq<char>) -> Seq<char>
    decreases s.len(),
{
    if s.len() >= 3 && s[0] == 'd' && s[1] == 'i' && s[2] == 'v' {
        seq![' ', 'd', 'i', 'v', ' '] + replace_div(s.skip(3))
    } else if s.len() == 0 {
        Seq::empty()
    } else {
        seq![s[0]] + replace_div(s.drop_first())
    }
}

/// Puts spaces around every `div`.
pub(crate) fn replace_div_exec(s: &Vec<char>) -> (r: Vec<char>)
    ensures
        r@ == replace_div(s@),
{
    let mut out: Vec<char> = Vec::new();
    let mut i: usize = 0;
    assert(s@.skip(0) =~= s@);
    while i < s.len()
        invariant
            i <= s@.len(),
            out@ + replace_div(s@.skip(i as int)) == replace_div(s@),
        decreases s@.len() - i,
    {
        let ghost t = s@.skip(i as int);
        if s.len() - i >= 3 && s[i] == 'd' && s[i + 1] == 'i' && s[i + 2] == 'v' {
            assert(t[0] == 'd' && t[1] == 'i' && t[2] == 'v');
            assert(t.skip(3) =~= s@.skip(i + 3));
            let ghost before = out@;
            out.push(' ');
            out.push('d');
            out.push('i');
            out.push('v');
            out.push(' ');
            assert(out@ =~= before + seq![' ', 'd', 'i', 'v', ' ']);
            assert(out@ + replace_div(s@.skip(i + 3)) =~= before + replace_div(t));
            i = i + 3;
        } else {
            assert(!(t.len() >= 3 && t[0] == 'd' && t[1] == 'i' && t[2] == 'v'));
            assert(t.drop_first() =~= s@.skip(i + 1));
            let ghost before = out@;
            out.push(s[i]);
            assert(out@ + replace_div(s@.skip(i + 1)) =~= before + replace_div(t));
            i = i + 1;
        }
    }
    assert(s@.skip(s@.len() as int) =~= Seq::<char>::empty());
    assert(out@ =~= out@ + replace_div(Seq::<char>::empty()));
    out
}

/// The characters that separate the operands of an arithmetic goal.
pub open spec fn is_sep(c: char) -> bool {
    c == ' ' || c == '-' || c == '+' || c == '*' || c == '=' || c == '>' || c == '<'
}

/// The first position at or after `i` that is not a separator.
pub open spec fn skip_seps(s: Seq<char>, i: int) -> int
    decreases s.len() - i,
{
    if i < 0 || i >= s.len() || !is_sep(s[i]) {
        i
    } else {
        skip_seps(s, i + 1)
    }
}

/// The first position at or after `i` that is a separator (or the end).
pub open spec fn token_end(s: Seq<char>, i: int) -> int
    decreases s.len() - i,
{
    if i < 0 || i >= s.len() || is_sep(s[i]) {
        i
    } else {
        token_end(s, i + 1)
    }
}

/// The first non-empty piece of `s` between separators.
pub open spec fn first_token(s: Seq<char>) -> Option<Seq<char>> {
    let a = skip_seps(s, 0);
    if a >= s.len() {
        None
    } else {
        Some(s.subrange(a, token_end(s, a)))
    }
}

proof fn lemma_skip_seps(s: Seq<char>, i: int)
    requires
        0 <= i <= s.len(),
    ensures
        i <= skip_seps(s, i) <= s.len(),
        forall|j: int| i <= j < skip_seps(s, i) ==> is_sep(#[trigger] s[j]),
        skip_seps(s, i) < s.len() ==> !is_sep(s[skip_seps(s, i)]),
    decreases s.len() - i,
{
    if i < s.len() && is_sep(s[i]) {
        lemma_skip_seps(s, i + 1);
    }
}

proof fn lemma_token_end(s: Seq<char>, i: int)
    requires
        0 <= i <= s.len(),
    ensures
        i <= token_end(s, i) <= s.len(),
        forall|j: int| i <= j < token_end(s, i) ==> !is_sep(#[trigger] s[j]),
        token_end(s, i) < s.len() ==> is_sep(s[token_end(s, i)]),
    decreases s.len() - i,
{
    if i < s.len() && !is_sep(s[i]) {
        lemma_token_end(s, i + 1);
    }
}

/// Whether `c` separates operands.
fn is_sep_exec(c: char) -> (r: bool)
    ensures
        r == is_sep(c),
{
    c == ' ' || c == '-' || c == '+' || c == '*' || c == '=' || c == '>' || c == '<'
}

/// The first non-empty piece between separators.
pub(crate) fn first_token_exec(s: &Vec<char>) -> (r: Option<Vec<char>>)
    ensures
        match first_token(s@) {
            Some(t) => r matches Some(v) && v@ == t,
            None => r is None,
        },
{
    let mut a: usize = 0;
    while a < s.len() && is_sep_exec(s[a])
        invariant
            a <= s@.len(),
            skip_seps(s@, 0) == skip_seps(s@, a as int),
        decreases s@.len() - a,
    {
        a = a + 1;
    }
    if a >= s.len() {
        return None;
    }
    let mut b: usize = a;
    while b < s.len() && !is_sep_exec(s[b])
        invariant
            a <= b <= s@.len(),
            token_end(s@, a as int) == token_end(s@, b as int),
        decreases s@.len() - b,
    {
        b = b + 1;
    }
    Some(subvec(s, a, b))
}

/// The number of characters of `s` that are not whitespace.
pub open spec fn mu(s: Seq<char>) -> nat
    decreases s.len(),
{
    if s.len() == 0 {
        0
    } else {
        mu(s.drop_last()) + if is_ws(s.last()) { 0nat } else { 1nat }
    }
}

proof fn lemma_mu_concat(a: Seq<char>, b: Seq<char>)
    ensures
        mu(a + b) == mu(a) + mu(b),
    decreases b.len(),
{
    if b.len() > 0 {
        lemma_mu_concat(a, b.drop_last());
        assert((a + b).drop_last() =~= a + b.drop_last());
    } else {
        assert(a + b =~= a);
    }
}

proof fn lemma_mu_single(c: char)
    ensures
        mu(seq![c]) == (if is_ws(c) { 0nat } else { 1nat }),
{
    assert(seq![c].drop_last() =~= Seq::<char>::empty());
    assert(mu(Seq::<char>::empty()) == 0);
}

proof fn lemma_mu_trim_start(s: Seq<char>)
    ensures
        mu(trim_start(s)) == mu(s),
    decreases s.len(),
{
    if s.len() > 0 && is_ws(s[0]) {
        lemma_mu_trim_start(s.drop_first());
        assert(s =~= seq![s[0]] + s.drop_first());
        lemma_mu_concat(seq![s[0]], s.drop_first());
        lemma_mu_single(s[0]);
    }
}

proof fn lemma_mu_trim_end(s: Seq<char>)
    ensures
        mu(trim_end(s)) == mu(s),
    decreases s.len(),
{
    if s.len() > 0 && is_ws(s.last()) {
        lemma_mu_trim_end(s.drop_last());
    }
}

proof fn lemma_mu_trim(s: Seq<char>)
    ensures
        mu(trim(s)) == mu(s),
{
    lemma_mu_trim_start(s);
    lemma_mu_trim_end(trim_start(s));
}

proof fn lemma_mu_replace_div(s: Seq<char>)
    ensures
        mu(replace_div(s)) == mu(s),
    decreases s.len(),
{
    if s.len() >= 3 && s[0] == 'd' && s[1] == 'i' && s[2] == 'v' {
        lemma_mu_replace_div(s.skip(3));
        let d = seq![' ', 'd', 'i', 'v', ' '];
        lemma_mu_concat(d, replace_div(s.skip(3)));
        assert(s =~= s.take(3) + s.skip(3));
        lemma_mu_concat(s.take(3), s.skip(3));
        lemma_mu_single(' ');
        lemma_mu_single('d');
        lemma_mu_single('i');
        lemma_mu_single('v');
        assert(d =~= seq![' '] + seq!['d'] + seq!['i'] + seq!['v'] + seq![' ']);
        lemma_mu_concat(seq![' '], seq!['d']);
        lemma_mu_concat(seq![' '] + seq!['d'], seq!['i']);
        lemma_mu_concat(seq![' '] + seq!['d'] + seq!['i'], seq!['v']);
        lemma_mu_concat(seq![' '] + seq!['d'] + seq!['i'] + seq!['v'], seq![' ']);
        assert(s.take(3) =~= seq!['d'] + seq!['i'] + seq!['v']);
        lemma_mu_concat(seq!['d'], seq!['i']);
        lemma_mu_concat(seq!['d'] + seq!['i'], seq!['v']);
    } else if s.len() > 0 {
        lemma_mu_replace_div(s.drop_first());
        lemma_mu_concat(seq![s[0]], replace_div(s.drop_first()));
        assert(s =~= seq![s[0]] + s.drop_first());
        lemma_mu_concat(seq![s[0]], s.drop_first());
    }
}

/// Each operator has a character that is not whitespace.
proof fn lemma_op_mu(k: int)
    requires
        0 <= k < 8,
    ensures
        mu(op_list()[k]) >= 1,
{
    let op = op_list()[k];
    assert(op.len() >= 1);
    if k == 0 {
        assert(op =~= seq![' ', 'i'] + seq!['s', ' ']);
        lemma_mu_concat(seq![' ', 'i'], seq!['s', ' ']);
        assert(seq!['s', ' '] =~= seq!['s'] + seq![' ']);
        lemma_mu_concat(seq!['s'], seq![' ']);
        lemma_mu_single('s');
    } else if k == 5 {
        assert(op =~= seq![' ', 'd', 'i'] + seq!['v', ' ']);
        lemma_mu_concat(seq![' ', 'd', 'i'], seq!['v', ' ']);
        assert(seq!['v', ' '] =~= seq!['v'] + seq![' ']);
        lemma_mu_concat(seq!['v'], seq![' ']);
        lemma_mu_single('v');
    } else {
        assert(op.len() == 1);
        assert(op =~= seq![op[0]]);
        lemma_mu_single(op[0]);
    }
}

/// The operand text that follows an operator at `p`: trimmed, with spaces
/// put around every `div`.
pub open spec fn after_op(s: Seq<char>, k: int, p: int) -> Seq<char> {
    replace_div(trim(s.subrange(p + op_list()[k].len(), s.len() as int)))
}

pub proof fn lemma_op_progress(s: Seq<char>)
    requires
        first_op_in(s, 0) is Some,
    ensures
        ({
            let (k, p) = first_op_in(s, 0)->Some_0;
            &&& 0 <= k < 8
            &&& p + op_list()[k].len() <= s.len()
            &&& mu(after_op(s, k, p as int)) < mu(s)
        }),
{
    lemma_first_op_in(s, 0);
    let (k, p) = first_op_in(s, 0)->Some_0;
    lemma_after_op_progress(s, k, p);
}

/// The text after an occurrence of an operator has fewer non-whitespace
/// characters than the whole.
pub proof fn lemma_after_op_progress(s: Seq<char>, k: int, p: nat)
    requires
        0 <= k < 8,
        find(s, op_list()[k]) == Some(p),
    ensures
        p + op_list()[k].len() <= s.len(),
        mu(after_op(s, k, p as int)) < mu(s),
{
    let op = op_list()[k];
    lemma_find_some_occurs(s, op, 0);
    let q = p as int;
    let pre = s.subrange(0, q);
    let suf = s.subrange(q + op.len(), s.len() as int);
    assert(s =~= pre + op + suf);
    lemma_mu_concat(pre + op, suf);
    lemma_mu_concat(pre, op);
    lemma_op_mu(k);
    lemma_mu_trim(suf);
    lemma_mu_replace_div(trim(suf));
}

/// The operator, among those from `k` on, that occurs leftmost in `s` (the
/// earlier one in list order where two start at one place), with its
/// position.
pub open spec fn leftmost_op_in(s: Seq<char>, k: int) -> Option<(int, nat)>
    decreases 8 - k,
{
    if k < 0 || k >= 8 {
        None
    } else {
        let rest = leftmost_op_in(s, k + 1);
        match find(s, op_list()[k]) {
            None => rest,
            Some(p) => match rest {
                None => Some((k, p)),
                Some((k2, p2)) => if p <= p2 { Some((k, p)) } else { rest },
            },
        }
    }
}

pub proof fn lemma_leftmost_op_in(s: Seq<char>, k: int)
    requires
        0 <= k,
    ensures
        leftmost_op_in(s, k) matches Some((j, p)) ==> k <= j < 8 && find(s, op_list()[j]) == Some(p),
    decreases 8 - k,
{
    if k < 8 {
        lemma_leftmost_op_in(s, k + 1);
    }
}

/// The leftmost operator that occurs in `s`, with its position.
fn leftmost_op_exec(s: &Vec<char>, ops: &Vec<Vec<char>>) -> (r: Option<(usize, usize)>)
    requires
        ops@.len() == op_list().len(),
        forall|i: int| 0 <= i < ops@.len() ==> (#[trigger] ops@[i])@ == op_list()[i],
    ensures
        match r {
            Some((k, p)) => leftmost_op_in(s@, 0) == Some((k as int, p as nat)),
            None => leftmost_op_in(s@, 0) is None,
        },
{
    let mut best: Option<(usize, usize)> = None;
    let mut k: usize = 8;
    while k > 0
        invariant
            k <= 8,
            ops@.len() == op_list().len(),
            forall|i: int| 0 <= i < ops@.len() ==> (#[trigger] ops@[i])@ == op_list()[i],
            match best {
                Some((a, b)) => leftmost_op_in(s@, k as int) == Some((a as int, b as nat)),
                None => leftmost_op_in(s@, k as int) is None,
            },
        decreases k,
    {
        k = k - 1;
        assert(ops@[k as int]@ == op_list()[k as int]);
        match find_exec(s, &ops[k]) {
            Some(p) => {
                match best {
                    None => {
                        best = Some((k, p));
                    },
                    Some((_, p2)) => {
                        if p <= p2 {
                            best = Some((k, p));
                        }
                    },
                }
            },
            None => {},
        }
    }
    best
}

/// The chain of operators after the first one in an arithmetic goal, left
/// to right: each next operator (the one that occurs leftmost in what is
/// left) with the first operand token after it, if any.
pub open spec fn op_chain(rest: Seq<char>) -> Seq<(Seq<char>, Option<Seq<char>>)>
    decreases mu(rest),
{
    match leftmost_op_in(rest, 0) {
        None => Seq::empty(),
        Some((k, p)) => {
            proof {
                lemma_leftmost_op_in(rest, 0);
                lemma_after_op_progress(rest, k, p);
            }
            let next = after_op(rest, k, p as int);
            seq![(trim(op_list()[k]), first_token(next))] + op_chain(next)
        },
    }
}

/// The values of a chain term: the operator, and its operand token (if
/// any) in the first place of the matrix.
pub open spec fn chain_term_v(e: (Seq<char>, Option<Seq<char>>)) -> (nat, Seq<Seq<nat>>, nat) {
    (
        to_fp_spec(e.0),
        texts_matrix(match e.1 {
            Some(t) => seq![seq![t]],
            None => Seq::empty(),
        }),
        0,
    )
}

/// Whether an arithmetic goal can be encoded: the operand after its first
/// operator has a token.
pub open spec fn op_goal_encodable(s: Seq<char>) -> bool {
    match first_op_in(s, 0) {
        Some((k, p)) => first_token(replace_div(trim(s.subrange(p as int + op_list()[k].len(), s.len() as int)))) is Some,
        None => true,
    }
}

/// The terms of an arithmetic goal: the first operator with the left
/// operand and the first token of the right one, then the operator chain of
/// the right operand.
pub open spec fn op_terms(s: Seq<char>) -> Seq<(nat, Seq<Seq<nat>>, nat)> {
    let (k, p) = first_op_in(s, 0)->Some_0;
    let op = op_list()[k];
    let lhs = trim(s.subrange(0, p as int));
    let clean = replace_div(trim(s.subrange(p as int + op.len(), s.len() as int)));
    seq![(to_fp_spec(trim(op)), texts_matrix(seq![seq![lhs], seq![first_token(clean)->Some_0]]), 0)]
        + op_chain(clean).map_values(|e: (Seq<char>, Option<Seq<char>>)| chain_term_v(e))
}

/// A term with the given name and argument texts, and salt 0.
fn make_term(name: &Vec<char>, rows: &Vec<Vec<Vec<char>>>) -> (t: TermFp)
    requires
        rows_fit(rows_view(rows@)),
    ensures
        term_view(t) == (to_fp_spec(name@), texts_matrix(rows_view(rows@)), 0nat),
{
    let m = matrix_of_texts(rows);
    TermFp { name: to_fp_chars(name), args: m, fact_hashes: Fe::zero() }
}

/// One row of argument texts.
fn one_text_row(t: Vec<char>) -> (r: Vec<Vec<char>>)
    ensures
        r@.map_values(|v: Vec<char>| v@) == seq![t@],
{
    let mut r: Vec<Vec<char>> = Vec::new();
    let ghost tv = t@;
    r.push(t);
    assert(r@.map_values(|v: Vec<char>| v@) =~= seq![tv]);
    r
}

/// The terms of an arithmetic goal whose first operator is the `k`-th, at
/// `p`.
fn encode_operator_goal(s: &Vec<char>, ops: &Vec<Vec<char>>, k: usize, p: usize) -> (r: Vec<TermFp>)
    requires
        ops@.len() == op_list().len(),
        forall|i: int| 0 <= i < ops@.len() ==> (#[trigger] ops@[i])@ == op_list()[i],
        first_op_in(s@, 0) == Some((k as int, p as nat)),
        op_goal_encodable(s@),
    ensures
        r@.map_values(|t: TermFp| term_view(t)) == op_terms(s@),
{
    proof {
        lemma_op_progress(s@);
    }
    let op = &ops[k];
    assert(op@ == op_list()[k as int]);
    assert(p + op@.len() <= s@.len());
    let opl = op.len();
    assert(opl == op@.len());
    let n = s.len();
    assert(p + opl <= n);
    let lhs = trim_exec(&subvec(s, 0, p));
    let rhs = trim_exec(&subvec(s, p + opl, n));
    let clean = replace_div_exec(&rhs);
    let first = match first_token_exec(&clean) {
        Some(t) => t,
        None => {
            return Vec::new();
        },
    };
    let mut rows: Vec<Vec<Vec<char>>> = Vec::new();
    rows.push(one_text_row(lhs));
    rows.push(one_text_row(first));
    assert(rows_view(rows@) =~= seq![seq![trim(s@.subrange(0, p as int))], seq![first_token(clean@)->Some_0]]);
    let name = trim_exec(op);
    let mut out: Vec<TermFp> = Vec::new();
    out.push(make_term(&name, &rows));
    let ghost target = op_terms(s@);
    let ghost chain_v = op_chain(clean@).map_values(|e: (Seq<char>, Option<Seq<char>>)| chain_term_v(e));
    assert(out@.map_values(|t: TermFp| term_view(t)) + chain_v =~= target);
    let mut rest = clean;
    loop
        invariant
            ops@.len() == op_list().len(),
            forall|i: int| 0 <= i < ops@.len() ==> (#[trigger] ops@[i])@ == op_list()[i],
            out@.map_values(|t: TermFp| term_view(t))
                + op_chain(rest@).map_values(|e: (Seq<char>, Option<Seq<char>>)| chain_term_v(e)) == target,
        ensures
            out@.map_values(|t: TermFp| term_view(t)) == target,
        decreases mu(rest@),
    {
        match leftmost_op_exec(&rest, ops) {
            None => {
                assert(op_chain(rest@) =~= Seq::<(Seq<char>, Option<Seq<char>>)>::empty());
                assert(out@.map_values(|t: TermFp| term_view(t))
                    + op_chain(rest@).map_values(|e: (Seq<char>, Option<Seq<char>>)| chain_term_v(e))
                    =~= out@.map_values(|t: TermFp| term_view(t)));
                break;
            },
            Some((k2, p2)) => {
                proof {
                    lemma_leftmost_op_in(rest@, 0);
                    lemma_after_op_progress(rest@, k2 as int, p2 as nat);
                }
                let op2 = &ops[k2];
                assert(op2@ == op_list()[k2 as int]);
                assert(p2 + op2@.len() <= rest@.len());
                let opl2 = op2.len();
                assert(opl2 == op2@.len());
                let n2 = rest.len();
                assert(p2 + opl2 <= n2);
                let after = trim_exec(&subvec(&rest, p2 + opl2, n2));
                let next = replace_div_exec(&after);
                assert(next@ == after_op(rest@, k2 as int, p2 as int));
                let tok = first_token_exec(&next);
                let mut rows2: Vec<Vec<Vec<char>>> = Vec::new();
                let ghost tok_rows = match first_token(next@) {
                    Some(t) => seq![seq![t]],
                    None => Seq::<Seq<Seq<char>>>::empty(),
                };
                match tok {
                    Some(t) => {
                        rows2.push(one_text_row(t));
                    },
                    None => {},
                }
                assert(rows_view(rows2@) =~= tok_rows);
                let name2 = trim_exec(op2);
                let term = make_term(&name2, &rows2);
                let ghost head = (trim(op_list()[k2 as int]), first_token(next@));
                assert(term_view(term) == chain_term_v(head));
                let ghost before = out@.map_values(|t: TermFp| term_view(t));
                out.push(term);
                assert(out@.map_values(|t: TermFp| term_view(t)) =~= before.push(chain_term_v(head)));
                assert(op_chain(rest@) == seq![head] + op_chain(next@));
                assert(op_chain(rest@).map_values(|e: (Seq<char>, Option<Seq<char>>)| chain_term_v(e))
                    =~= seq![chain_term_v(head)] + op_chain(next@).map_values(|e: (Seq<char>, Option<Seq<char>>)| chain_term_v(e)));
                assert(out@.map_values(|t: TermFp| term_view(t))
                    + op_chain(next@).map_values(|e: (Seq<char>, Option<Seq<char>>)| chain_term_v(e))
                    =~= before + op_chain(rest@).map_values(|e: (Seq<char>, Option<Seq<char>>)| chain_term_v(e)));
                rest = next;
            },
        }
    }
    out
}


// ---------------------------------------------------------------------------
// Goals with list arguments
// ---------------------------------------------------------------------------

/// The views of character vectors.
pub open spec fn char_views(v: Seq<Vec<char>>) -> Seq<Seq<char>> {
    v.map_values(|x: Vec<char>| x@)
}

/// Whether a text is a list `[...]`.
pub open spec fn is_list_text(t: Seq<char>) -> bool {
    starts_with_char(t, '[') && ends_with_char(t, ']')
}

/// Whether a text is a tuple `(...)`.
pub open spec fn is_tuple_text(t: Seq<char>) -> bool {
    starts_with_char(t, '(') && ends_with_char(t, ')')
}

/// A text without its first and last character.
pub open spec fn inner_text(t: Seq<char>) -> Seq<char> {
    t.subrange(1, t.len() - 1)
}

/// The trimmed pieces between the commas outside parentheses and square
/// brackets.
pub open spec fn top_items(s: Seq<char>) -> Seq<Seq<char>> {
    split_top(s, true).map_values(|x: Seq<char>| trim(x))
}

/// The fields of a tuple text (split outside parentheses and brackets,
/// trimmed), or the trimmed text itself.
pub open spec fn tuple_fields_b(s: Seq<char>) -> Seq<Seq<char>> {
    let t = trim(s);
    if is_tuple_text(t) {
        top_items(inner_text(t))
    } else {
        seq![t]
    }
}

/// The name `sumOfMonthlyConsumptions`.
pub open spec fn sum_name() -> Seq<char> {
    seq!['s', 'u', 'm', 'O', 'f', 'M', 'o', 'n', 't', 'h', 'l', 'y', 'C', 'o', 'n', 's', 'u', 'm', 'p', 't', 'i', 'o', 'n', 's']
}

/// The name `applySocialSupports`.
pub open spec fn social_name() -> Seq<char> {
    seq!['a', 'p', 'p', 'l', 'y', 'S', 'o', 'c', 'i', 'a', 'l', 'S', 'u', 'p', 'p', 'o', 'r', 't', 's']
}

/// The name `monthlyConsumptions`.
pub open spec fn monthly_name() -> Seq<char> {
    seq!['m', 'o', 'n', 't', 'h', 'l', 'y', 'C', 'o', 'n', 's', 'u', 'm', 'p', 't', 'i', 'o', 'n', 's']
}

/// The argument text of a goal with lists: between its first `(` and its
/// last `)` (or its end).
pub open spec fn list_args_text(s: Seq<char>) -> Seq<char> {
    s.subrange(og_open(s) + 1, og_close(s))
}

/// The second row of an `applySocialSupports` goal: the first element of
/// its list argument, split into at most three fields when it is a tuple.
pub open spec fn social_row1(l: Seq<char>) -> Seq<Seq<char>> {
    if is_list_text(l) {
        let first = split_top(inner_text(l), true)[0];
        if is_tuple_text(first) {
            let f = tuple_fields_b(first);
            if f.len() > 3 {
                f.take(3)
            } else {
                f
            }
        } else {
            seq![first]
        }
    } else {
        Seq::empty()
    }
}

/// The argument texts of an `applySocialSupports` goal: the input, the first
/// credential, the result (nothing with fewer than three arguments).
pub open spec fn social_rows(a: Seq<char>) -> Seq<Seq<Seq<char>>> {
    let parts = top_items(a);
    if parts.len() >= 3 {
        seq![seq![parts[0]], social_row1(parts[1]), seq![parts[2]]]
    } else {
        Seq::empty()
    }
}

/// The argument text of a `monthlyConsumptions` goal: the list body, without
/// its brackets.
pub open spec fn monthly_rows(a: Seq<char>) -> Seq<Seq<Seq<char>>> {
    seq![seq![strip_end(strip_start(trim(a), '['), ']')]]
}

/// The non-empty elements of a list argument of `sumOfMonthlyConsumptions`.
pub open spec fn sum_elems(arg: Seq<char>) -> Seq<Seq<char>> {
    nonempty_filter(top_items(inner_text(arg)))
}

/// The cells of a list element: the fields of a tuple, or the element.
pub open spec fn cells_of(e: Seq<char>) -> Seq<Seq<char>> {
    if is_tuple_text(e) {
        tuple_fields_b(e)
    } else {
        seq![e]
    }
}

/// The cells of list elements, one after the other.
pub open spec fn elem_cells(elems: Seq<Seq<char>>) -> Seq<Seq<char>>
    decreases elems.len(),
{
    if elems.len() == 0 {
        Seq::empty()
    } else {
        elem_cells(elems.drop_last()) + cells_of(elems.last())
    }
}

/// The texts of one argument of a goal with lists. In a
/// `sumOfMonthlyConsumptions` goal a list gives its head and its tail (the
/// other elements joined by commas); another list gives the cells of its
/// elements; anything else is one text.
pub open spec fn list_row(arg: Seq<char>, sum: bool) -> Seq<Seq<char>> {
    if sum && is_list_text(arg) {
        let el = sum_elems(arg);
        if el.len() == 0 {
            Seq::empty()
        } else if el.len() == 1 {
            seq![el[0]]
        } else {
            seq![el[0], comma_join(el.skip(1))]
        }
    } else if is_list_text(arg) {
        if inner_text(arg).len() == 0 {
            Seq::empty()
        } else {
            elem_cells(top_items(inner_text(arg)))
        }
    } else {
        seq![arg]
    }
}

/// Whether an argument writes into its row of the matrix (only a
/// `sumOfMonthlyConsumptions` list without elements leaves it alone).
pub open spec fn row_written(arg: Seq<char>, sum: bool) -> bool {
    !(sum && is_list_text(arg) && sum_elems(arg).len() == 0)
}

/// The argument texts of another goal with lists, one row per argument (at
/// most `MAX_ARITY`).
pub open spec fn generic_rows(a: Seq<char>, sum: bool) -> Seq<Seq<Seq<char>>> {
    let args = top_items(a);
    let n = if args.len() < MAX_ARITY { args.len() } else { MAX_ARITY as nat };
    Seq::new(n, |i: int| list_row(args[i], sum))
}

/// Whether the arguments fit the matrix: no row is longer than
/// `MAX_PRED_LIST`, and only the first `MAX_ARITY` arguments write.
pub open spec fn generic_fits(a: Seq<char>, sum: bool) -> bool {
    let args = top_items(a);
    forall|i: int|
        0 <= i < args.len() ==> (i >= MAX_ARITY ==> !row_written(#[trigger] args[i], sum)) && list_row(
            args[i],
            sum,
        ).len() <= MAX_PRED_LIST
}

/// Whether the argument text of a goal with lists holds `[]`.
pub open spec fn has_empty_list(a: Seq<char>) -> bool {
    contains(a, seq!['[', ']'])
}

/// Whether a goal with lists can be encoded: it has arguments, a plain
/// `sumOfMonthlyConsumptions` goal is encodable as a plain one, and split
/// arguments are ASCII and fit the matrix.
pub open spec fn list_goal_encodable(s: Seq<char>) -> bool {
    let name = og_name(s);
    let a = list_args_text(s);
    &&& og_open(s) < og_close(s)
    &&& if name == sum_name() && has_empty_list(a) {
        og_encodable(s)
    } else if name == social_name() {
        is_ascii_text(a)
    } else if name == monthly_name() {
        true
    } else {
        is_ascii_text(a) && generic_fits(a, name == sum_name())
    }
}

/// The values of the term of a plain goal.
pub open spec fn og_term_v(s: Seq<char>, facts: Map<Seq<char>, nat>) -> (nat, Seq<Seq<nat>>, nat) {
    (
        to_fp_spec(og_name(s)),
        texts_matrix(og_args(s).map_values(|x: Seq<char>| seq![x])),
        if facts.contains_key(og_key(s)) { facts[og_key(s)] } else { 0 },
    )
}

/// The values of the term of a goal with lists.
pub open spec fn list_goal_term(s: Seq<char>, facts: Map<Seq<char>, nat>) -> (nat, Seq<Seq<nat>>, nat) {
    let name = og_name(s);
    let a = list_args_text(s);
    if name == sum_name() && has_empty_list(a) {
        og_term_v(s, facts)
    } else if name == social_name() {
        (to_fp_spec(name), texts_matrix(social_rows(a)), 0)
    } else if name == monthly_name() {
        (to_fp_spec(name), texts_matrix(monthly_rows(a)), 0)
    } else {
        (to_fp_spec(name), texts_matrix(generic_rows(a, name == sum_name())), 0)
    }
}

/// A matrix given entry by entry has these values.
proof fn lemma_matrix_is_view(m: Seq<Vec<Fe>>, f: spec_fn(int, int) -> nat, rows: Seq<Seq<Seq<char>>>)
    requires
        matrix_is(m, f),
        forall|i: int, j: int| 0 <= i < MAX_ARITY && 0 <= j < MAX_PRED_LIST ==> #[trigger] f(i, j) == texts_matrix(rows)[i][j],
    ensures
        m.map_values(|row: Vec<Fe>| crate::field::vals(row@)) == texts_matrix(rows),
{
    let mv = m.map_values(|row: Vec<Fe>| crate::field::vals(row@));
    assert forall|a: int| 0 <= a < MAX_ARITY implies (#[trigger] mv[a]) =~= texts_matrix(rows)[a] by {
        assert(mv[a] == crate::field::vals(m[a]@));
        assert forall|b: int| 0 <= b < MAX_PRED_LIST implies mv[a][b] == texts_matrix(rows)[a][b] by {
            assert(f(a, b) == texts_matrix(rows)[a][b]);
        }
    }
    assert(mv =~= texts_matrix(rows));
}

/// The term of a plain goal has the values `og_term_v`.
proof fn lemma_og_term(t: TermFp, s: Seq<char>, facts: Map<Seq<char>, nat>)
    requires
        og_encodes(t, s, facts),
    ensures
        term_view(t) == og_term_v(s, facts),
{
    let av = og_args(s);
    let rows = av.map_values(|x: Seq<char>| seq![x]);
    let f = |i: int, j: int| if j == 0 && i < av.len() { to_fp_spec(av[i]) } else { 0 };
    assert forall|i: int, j: int| 0 <= i < MAX_ARITY && 0 <= j < MAX_PRED_LIST implies #[trigger] f(i, j) == texts_matrix(rows)[i][j] by {
        if i < rows.len() && j < rows[i].len() {
            assert(rows[i] == seq![av[i]]);
        }
    }
    lemma_matrix_is_view(t.args@, f, rows);
}

pub(crate) fn is_list_exec(t: &Vec<char>) -> (r: bool)
    ensures
        r == is_list_text(t@),
{
    t.len() > 0 && t[0] == '[' && t[t.len() - 1] == ']'
}

fn is_tuple_exec(t: &Vec<char>) -> (r: bool)
    ensures
        r == is_tuple_text(t@),
{
    t.len() > 0 && t[0] == '(' && t[t.len() - 1] == ')'
}

/// The text without its first and last character.
fn inner_exec(t: &Vec<char>) -> (r: Vec<char>)
    requires
        is_list_text(t@) || is_tuple_text(t@),
    ensures
        r@ == inner_text(t@),
{
    assert(t@.len() >= 2) by {
        if t@.len() == 1 {
            assert(t@.last() == t@[0]);
        }
    }
    subvec(t, 1, t.len() - 1)
}

/// The trimmed top-level pieces of a text.
pub(crate) fn top_items_exec(v: &Vec<char>) -> (r: Vec<Vec<char>>)
    ensures
        char_views(r@) == top_items(v@),
{
    let parts = split_top_exec(v, true);
    let ghost target = top_items(v@);
    let mut out: Vec<Vec<char>> = Vec::new();
    let mut i: usize = 0;
    while i < parts.len()
        invariant
            i <= parts@.len(),
            parts@.len() == split_top(v@, true).len(),
            forall|k: int| 0 <= k < parts@.len() ==> (#[trigger] parts@[k])@ == split_top(v@, true)[k],
            target == top_items(v@),
            char_views(out@) == target.take(i as int),
        decreases parts@.len() - i,
    {
        let t = trim_exec(&parts[i]);
        let ghost before = char_views(out@);
        out.push(t);
        assert(char_views(out@) =~= before.push(t@));
        assert(target.take(i + 1) =~= target.take(i as int).push(t@));
        i = i + 1;
    }
    assert(target.take(parts@.len() as int) =~= target);
    out
}

/// The fields of a tuple text, or the trimmed text.
fn tuple_fields_b_exec(v: &Vec<char>) -> (r: Vec<Vec<char>>)
    ensures
        char_views(r@) == tuple_fields_b(v@),
{
    let t = trim_exec(v);
    if is_tuple_exec(&t) {
        let inner = inner_exec(&t);
        top_items_exec(&inner)
    } else {
        let mut out: Vec<Vec<char>> = Vec::new();
        let ghost tv = t@;
        out.push(t);
        assert(char_views(out@) =~= seq![tv]);
        out
    }
}

/// The pieces of `s` between the commas outside parentheses and square
/// brackets.
pub fn split_top_level_commas(s: &str) -> (r: Vec<String>)
    ensures
        r@.len() == split_top(s@, true).len(),
        forall|i: int| 0 <= i < r@.len() ==> (#[trigger] r@[i])@ == split_top(s@, true)[i],
{
    let parts = split_top_exec(&chars_of(s), true);
    crate::templates::strings_of(&parts)
}

/// The fields of a tuple text (split outside parentheses and square
/// brackets, trimmed), or the trimmed text itself.
pub fn parse_tuple_fields_keep_all(atom_str: &str) -> (r: Vec<String>)
    ensures
        r@.len() == tuple_fields_b(atom_str@).len(),
        forall|i: int| 0 <= i < r@.len() ==> (#[trigger] r@[i])@ == tuple_fields_b(atom_str@)[i],
{
    let f = tuple_fields_b_exec(&chars_of(atom_str));
    let r = crate::templates::strings_of(&f);
    assert forall|i: int| 0 <= i < r@.len() implies (#[trigger] r@[i])@ == tuple_fields_b(atom_str@)[i] by {
        assert(char_views(f@)[i] == f@[i]@);
    }
    r
}

/// The cells of a list element.
fn cells_of_exec(e: &Vec<char>) -> (r: Vec<Vec<char>>)
    ensures
        char_views(r@) == cells_of(e@),
{
    if is_tuple_exec(e) {
        tuple_fields_b_exec(e)
    } else {
        let mut out: Vec<Vec<char>> = Vec::new();
        let c = copy_chars(e);
        out.push(c);
        assert(char_views(out@) =~= seq![e@]);
        out
    }
}

/// The cells of list elements, one after the other.
fn elem_cells_exec(elems: &Vec<Vec<char>>) -> (r: Vec<Vec<char>>)
    ensures
        char_views(r@) == elem_cells(char_views(elems@)),
{
    let ghost ev = char_views(elems@);
    let mut out: Vec<Vec<char>> = Vec::new();
    let mut i: usize = 0;
    while i < elems.len()
        invariant
            i <= elems@.len(),
            ev == char_views(elems@),
            char_views(out@) == elem_cells(ev.take(i as int)),
        decreases elems@.len() - i,
    {
        assert(ev.take(i + 1).drop_last() =~= ev.take(i as int));
        assert(ev.take(i + 1).last() == elems@[i as int]@);
        let mut cells = cells_of_exec(&elems[i]);
        let ghost before = char_views(out@);
        let ghost cv = char_views(cells@);
        out.append(&mut cells);
        assert(char_views(out@) =~= before + cv);
        i = i + 1;
    }
    assert(ev.take(elems@.len() as int) =~= ev);
    out
}

/// The texts of one argument of a goal with lists.
pub(crate) fn list_row_exec(arg: &Vec<char>, sum: bool) -> (r: Vec<Vec<char>>)
    ensures
        char_views(r@) == list_row(arg@, sum),
{
    if sum && is_list_exec(arg) {
        let inner = inner_exec(arg);
        let items = top_items_exec(&inner);
        let mut el = nonempty_exec(&items);
        assert(char_views(el@) == sum_elems(arg@));
        if el.len() == 0 {
            let out: Vec<Vec<char>> = Vec::new();
            assert(char_views(out@) =~= Seq::<Seq<char>>::empty());
            out
        } else if el.len() == 1 {
            assert(char_views(el@) =~= seq![sum_elems(arg@)[0]]);
            el
        } else {
            let ghost ev = char_views(el@);
            let rest = el.split_off(1);
            assert(char_views(rest@) =~= ev.skip(1));
            let tail = comma_join_exec(&rest);
            el.push(tail);
            assert(char_views(el@) =~= seq![ev[0], comma_join(ev.skip(1))]);
            el
        }
    } else if is_list_exec(arg) {
        let inner = inner_exec(arg);
        if inner.len() == 0 {
            let out: Vec<Vec<char>> = Vec::new();
            assert(char_views(out@) =~= Seq::<Seq<char>>::empty());
            out
        } else {
            let items = top_items_exec(&inner);
            elem_cells_exec(&items)
        }
    } else {
        let mut out: Vec<Vec<char>> = Vec::new();
        let c = copy_chars(arg);
        out.push(c);
        assert(char_views(out@) =~= seq![arg@]);
        out
    }
}

/// The second row of an `applySocialSupports` goal.
fn social_row1_exec(l: &Vec<char>) -> (r: Vec<Vec<char>>)
    ensures
        char_views(r@) == social_row1(l@),
{
    if is_list_exec(l) {
        let inner = inner_exec(l);
        let pieces = split_top_exec(&inner, true);
        let first = &pieces[0];
        if is_tuple_exec(first) {
            let mut f = tuple_fields_b_exec(first);
            if f.len() > 3 {
                let ghost fv = char_views(f@);
                f.truncate(3);
                assert(char_views(f@) =~= fv.take(3));
            }
            f
        } else {
            let mut out: Vec<Vec<char>> = Vec::new();
            let c = copy_chars(first);
            out.push(c);
            assert(char_views(out@) =~= seq![first@]);
            out
        }
    } else {
        let out: Vec<Vec<char>> = Vec::new();
        assert(char_views(out@) =~= Seq::<Seq<char>>::empty());
        out
    }
}

/// The argument texts of an `applySocialSupports` goal.
fn social_rows_exec(a: &Vec<char>) -> (r: Vec<Vec<Vec<char>>>)
    ensures
        rows_view(r@) == social_rows(a@),
{
    let parts = top_items_exec(a);
    let mut rows: Vec<Vec<Vec<char>>> = Vec::new();
    if parts.len() >= 3 {
        assert(parts@[0]@ == top_items(a@)[0]);
        assert(parts@[1]@ == top_items(a@)[1]);
        assert(parts@[2]@ == top_items(a@)[2]);
        rows.push(one_text_row(copy_chars(&parts[0])));
        rows.push(social_row1_exec(&parts[1]));
        rows.push(one_text_row(copy_chars(&parts[2])));
        assert(rows_view(rows@) =~= social_rows(a@));
    } else {
        assert(rows_view(rows@) =~= social_rows(a@));
    }
    rows
}

/// The argument texts of another goal with lists.
fn generic_rows_exec(a: &Vec<char>, sum: bool) -> (r: Vec<Vec<Vec<char>>>)
    requires
        generic_fits(a@, sum),
    ensures
        rows_view(r@) == generic_rows(a@, sum),
{
    let args = top_items_exec(a);
    let ghost av = top_items(a@);
    let mut rows: Vec<Vec<Vec<char>>> = Vec::new();
    let mut i: usize = 0;
    while i < args.len()
        invariant
            i <= args@.len(),
            av == top_items(a@),
            char_views(args@) == av,
            rows@.len() == (if i < MAX_ARITY { i } else { MAX_ARITY }),
            forall|k: int| 0 <= k < rows@.len() ==> (#[trigger] rows_view(rows@)[k]) == list_row(av[k], sum),
        decreases args@.len() - i,
    {
        assert(args@[i as int]@ == av[i as int]);
        let row = list_row_exec(&args[i], sum);
        if i < MAX_ARITY {
            let ghost before = rows_view(rows@);
            rows.push(row);
            assert(rows_view(rows@) =~= before.push(char_views(row@)));
        }
        i = i + 1;
    }
    assert(rows_view(rows@) =~= generic_rows(a@, sum));
    rows
}

/// Encodes a goal with list arguments and no operator.
fn encode_list_goal(input: &str, facts: &FactMap) -> (t: TermFp)
    requires
        list_goal_encodable(input@),
    ensures
        term_view(t) == list_goal_term(input@, facts@),
{
    let s = chars_of(input);
    let open = match find_char_exec(&s, '(') {
        Some(p) => p,
        None => s.len(),
    };
    let close = match rfind_char_exec(&s, ')') {
        Some(p) => p,
        None => s.len(),
    };
    proof {
        match find_char(s@, '(') {
            Some(p) => {
                crate::text::lemma_find_some_occurs(s@, seq!['('], p);
            },
            None => {},
        }
    }
    assert(open as int == og_open(input@) && close as int == og_close(input@));
    let name = trim_exec(&subvec(&s, 0, open));
    let a = subvec(&s, open + 1, close);
    assert(a@ == list_args_text(input@));
    let sumc = chars_from_slice(&[
        's', 'u', 'm', 'O', 'f', 'M', 'o', 'n', 't', 'h', 'l', 'y', 'C', 'o', 'n', 's', 'u', 'm', 'p', 't', 'i', 'o', 'n', 's',
    ]);
    let is_sum = chars_equal(&name, &sumc);
    if is_sum {
        let empty_list = chars_from_slice(&['[', ']']);
        match find_exec(&a, &empty_list) {
            Some(_) => {
                let t = encode_str_to_termfp_og(input, facts);
                proof {
                    lemma_og_term(t, input@, facts@);
                }
                return t;
            },
            None => {},
        }
    }
    let social = chars_from_slice(&[
        'a', 'p', 'p', 'l', 'y', 'S', 'o', 'c', 'i', 'a', 'l', 'S', 'u', 'p', 'p', 'o', 'r', 't', 's',
    ]);
    let monthly = chars_from_slice(&[
        'm', 'o', 'n', 't', 'h', 'l', 'y', 'C', 'o', 'n', 's', 'u', 'm', 'p', 't', 'i', 'o', 'n', 's',
    ]);
    let rows = if chars_equal(&name, &social) {
        let r = social_rows_exec(&a);
        assert forall|i: int| 0 <= i < rows_view(r@).len() implies (#[trigger] rows_view(r@)[i]).len() <= MAX_PRED_LIST by {
            assert(rows_view(r@)[i] == social_rows(a@)[i]);
        }
        r
    } else if chars_equal(&name, &monthly) {
        let body = strip_end_exec(&strip_start_exec(&trim_exec(&a), '['), ']');
        let mut r: Vec<Vec<Vec<char>>> = Vec::new();
        r.push(one_text_row(body));
        assert(rows_view(r@) =~= monthly_rows(a@));
        r
    } else {
        let r = generic_rows_exec(&a, is_sum);
        assert forall|i: int| 0 <= i < rows_view(r@).len() implies (#[trigger] rows_view(r@)[i]).len() <= MAX_PRED_LIST by {
            assert(rows_view(r@)[i] == list_row(top_items(a@)[i], is_sum));
        }
        r
    };
    make_term(&name, &rows)
}

/// Whether a goal text holds a list.
pub open spec fn has_list(s: Seq<char>) -> bool {
    contains(s, seq!['['])
}

/// Whether a goal text can be encoded: a goal with an operator needs an
/// operand token after it; a goal with lists must fit the matrix; a plain
/// goal has at most `MAX_ARITY` arguments (and a `consumptionClass` goal at
/// least two).
pub open spec fn goal_encodable(s: Seq<char>) -> bool {
    if has_op(s) {
        op_goal_encodable(s)
    } else if has_list(s) {
        list_goal_encodable(s)
    } else {
        og_encodable(s)
    }
}

/// The values of the terms of a goal text.
pub open spec fn goal_terms(s: Seq<char>, facts: Map<Seq<char>, nat>) -> Seq<(nat, Seq<Seq<nat>>, nat)> {
    if has_op(s) {
        op_terms(s)
    } else if has_list(s) {
        seq![list_goal_term(s, facts)]
    } else {
        seq![og_term_v(s, facts)]
    }
}

/// Encodes a goal text as the terms the unification circuit reads: an
/// arithmetic goal as one term per operator, a goal with lists as one term
/// whose rows hold the list cells, a plain goal as one term with the salt of
/// its fact.
pub fn encode_str_to_termfp(input: &str, facts: &FactMap) -> (r: Vec<TermFp>)
    requires
        goal_encodable(input@),
    ensures
        r@.map_values(|t: TermFp| term_view(t)) == goal_terms(input@, facts@),
{
    let s = chars_of(input);
    let ops = op_list_exec();
    match first_op_exec(&s, &ops) {
        Some((k, p)) => encode_operator_goal(&s, &ops, k, p),
        None => {
            let t = match find_char_exec(&s, '[') {
                Some(_) => encode_list_goal(input, facts),
                None => {
                    let t = encode_str_to_termfp_og(input, facts);
                    proof {
                        lemma_og_term(t, input@, facts@);
                    }
                    t
                },
            };
            let mut out: Vec<TermFp> = Vec::new();
            out.push(t);
            assert(out@.map_values(|t: TermFp| term_view(t)) =~= goal_terms(input@, facts@));
            out
        },
    }
}

/// Whether a proof node can be encoded: a `true` leaf always can.
pub open spec fn node_encodable(n: ProofNode) -> bool {
    match n {
        ProofNode::GoalNode(child) => goal_encodable(child.goal@),
        ProofNode::True(_) => true,
    }
}

/// The values of the terms of a proof node: those of its goal, or one zero
/// term for a `true` leaf.
pub open spec fn node_terms(n: ProofNode, facts: Map<Seq<char>, nat>) -> Seq<(nat, Seq<Seq<nat>>, nat)> {
    match n {
        ProofNode::GoalNode(child) => goal_terms(child.goal@, facts),
        ProofNode::True(_) => seq![(0nat, texts_matrix(Seq::empty()), 0nat)],
    }
}

/// Encodes a proof node: its goal, or a zero term for a `true` leaf.
pub fn encode_proofnode_to_termfp(n: &ProofNode, facts: &FactMap) -> (r: Vec<TermFp>)
    requires
        node_encodable(*n),
    ensures
        r@.map_values(|t: TermFp| term_view(t)) == node_terms(*n, facts@),
{
    match n {
        ProofNode::GoalNode(child) => encode_str_to_termfp(child.goal.as_str(), facts),
        ProofNode::True(_) => {
            let rows: Vec<Vec<Vec<char>>> = Vec::new();
            let m = matrix_of_texts(&rows);
            assert(rows_view(rows@) =~= Seq::<Seq<Seq<char>>>::empty());
            let t = TermFp { name: Fe::zero(), args: m, fact_hashes: Fe::zero() };
            let mut out: Vec<TermFp> = Vec::new();
            out.push(t);
            assert(out@.map_values(|t: TermFp| term_view(t)) =~= node_terms(*n, facts@));
            out
        },
    }
}

/// Builds the input of the unification circuit from a goal: the terms of
/// the goal, and the terms of each node of its subtree.
pub fn unification_input_from_goal_and_facts(g: &GoalEntry, facts: &FactMap) -> (r: UnificationInputFp)
    requires
        goal_encodable(g.goal@),
        forall|i: int| 0 <= i < g.subtree@.len() ==> node_encodable(#[trigger] g.subtree@[i]),
    ensures
        r.goal_name@.map_values(|t: TermFp| term_view(t)) == goal_terms(g.goal@, facts@),
        r.subtree_goals@.len() == g.subtree@.len(),
        forall|i: int|
            0 <= i < g.subtree@.len() ==> (#[trigger] r.subtree_goals@[i])@.map_values(|t: TermFp| term_view(t))
                == node_terms(g.subtree@[i], facts@),
{
    let goal_name = encode_str_to_termfp(g.goal.as_str(), facts);
    let mut subtree_goals: Vec<Vec<TermFp>> = Vec::new();
    let mut i: usize = 0;
    while i < g.subtree.len()
        invariant
            i <= g.subtree@.len(),
            forall|k: int| 0 <= k < g.subtree@.len() ==> node_encodable(#[trigger] g.subtree@[k]),
            subtree_goals@.len() == i,
            forall|k: int|
                0 <= k < i ==> (#[trigger] subtree_goals@[k])@.map_values(|t: TermFp| term_view(t))
                    == node_terms(g.subtree@[k], facts@),
        decreases g.subtree@.len() - i,
    {
        let terms = encode_proofnode_to_termfp(&g.subtree[i], facts);
        subtree_goals.push(terms);
        i = i + 1;
    }
    UnificationInputFp { goal_name, subtree_goals }
}

} // verus!
