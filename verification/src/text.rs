//! Character-sequence operations used by the term and rule parsers, each
//! specified by a spec function over `Seq<char>`.
use vstd::prelude::*;

verus! {

/// `char::is_whitespace`: the Unicode `White_Space` property.
pub open spec fn is_ws(c: char) -> bool {
    let u = c as u32;
    ||| 9 <= u <= 13
    ||| u == 32
    ||| u == 0x85
    ||| u == 0xA0
    ||| u == 0x1680
    ||| 0x2000 <= u <= 0x200A
    ||| u == 0x2028
    ||| u == 0x2029
    ||| u == 0x202F
    ||| u == 0x205F
    ||| u == 0x3000
}

/// `s` without its leading whitespace.
pub open spec fn trim_start(s: Seq<char>) -> Seq<char>
    decreases s.len(),
{
    if s.len() > 0 && is_ws(s[0]) {
        trim_start(s.drop_first())
    } else {
        s
    }
}

/// `s` without its trailing whitespace.
pub open spec fn trim_end(s: Seq<char>) -> Seq<char>
    decreases s.len(),
{
    if s.len() > 0 && is_ws(s.last()) {
        trim_end(s.drop_last())
    } else {
        s
    }
}

/// `str::trim`.
pub open spec fn trim(s: Seq<char>) -> Seq<char> {
    trim_end(trim_start(s))
}

/// `s` without the occurrences of `c` at its start.
pub open spec fn strip_start(s: Seq<char>, c: char) -> Seq<char>
    decreases s.len(),
{
    if s.len() > 0 && s[0] == c {
        strip_start(s.drop_first(), c)
    } else {
        s
    }
}

/// `s` without the occurrences of `c` at its end.
pub open spec fn strip_end(s: Seq<char>, c: char) -> Seq<char>
    decreases s.len(),
{
    if s.len() > 0 && s.last() == c {
        strip_end(s.drop_last(), c)
    } else {
        s
    }
}

/// `str::trim_matches` with a single character.
pub open spec fn strip_both(s: Seq<char>, c: char) -> Seq<char> {
    strip_end(strip_start(s, c), c)
}

/// Whether `s` starts with `c`.
pub open spec fn starts_with_char(s: Seq<char>, c: char) -> bool {
    s.len() > 0 && s[0] == c
}

/// Whether `s` ends with `c`.
pub open spec fn ends_with_char(s: Seq<char>, c: char) -> bool {
    s.len() > 0 && s.last() == c
}

/// Whether `p` occurs in `s` at position `i`.
pub open spec fn occurs_at(s: Seq<char>, p: Seq<char>, i: int) -> bool {
    0 <= i && i + p.len() <= s.len() && s.subrange(i, i + p.len()) == p
}

/// `str::find`: the first position of `p` in `s`.
pub open spec fn find_from(s: Seq<char>, p: Seq<char>, i: nat) -> Option<nat>
    decreases s.len() + 1 - i,
{
    if i + p.len() > s.len() {
        None
    } else if occurs_at(s, p, i as int) {
        Some(i)
    } else {
        find_from(s, p, i + 1)
    }
}

/// The first position of `p` in `s`.
pub open spec fn find(s: Seq<char>, p: Seq<char>) -> Option<nat> {
    find_from(s, p, 0)
}

/// The first position of `c` in `s`.
pub open spec fn find_char(s: Seq<char>, c: char) -> Option<nat> {
    find(s, seq![c])
}

/// The last position of `c` in `s`.
pub open spec fn rfind_char(s: Seq<char>, c: char) -> Option<nat>
    decreases s.len(),
{
    if s.len() == 0 {
        None
    } else if s.last() == c {
        Some((s.len() - 1) as nat)
    } else {
        rfind_char(s.drop_last(), c)
    }
}

/// Whether `p` occurs anywhere in `s`.
pub open spec fn contains(s: Seq<char>, p: Seq<char>) -> bool {
    find(s, p) is Some
}

/// `str::split` on a character: the pieces between the occurrences of `c`
/// (`n` occurrences give `n + 1` pieces).
pub open spec fn split_char(s: Seq<char>, c: char) -> Seq<Seq<char>>
    decreases s.len(),
{
    if s.len() == 0 {
        seq![Seq::<char>::empty()]
    } else {
        let prev = split_char(s.drop_last(), c);
        if s.last() == c {
            prev.push(Seq::<char>::empty())
        } else {
            prev.update(prev.len() - 1, prev.last().push(s.last()))
        }
    }
}

/// `split_char` always yields at least one piece.
pub proof fn lemma_split_char_nonempty(s: Seq<char>, c: char)
    ensures
        split_char(s, c).len() >= 1,
    decreases s.len(),
{
    if s.len() > 0 {
        lemma_split_char_nonempty(s.drop_last(), c);
    }
}

/// The pieces joined with `sep` between them.
pub open spec fn join(parts: Seq<Seq<char>>, sep: Seq<char>) -> Seq<char>
    decreases parts.len(),
{
    if parts.len() == 0 {
        seq![]
    } else if parts.len() == 1 {
        parts[0]
    } else {
        join(parts.drop_last(), sep) + sep + parts.last()
    }
}

/// Whether `c` is an ASCII decimal digit.
pub open spec fn is_digit(c: char) -> bool {
    '0' <= c <= '9'
}

/// The value of the decimal digits `s`.
pub open spec fn digits_value(s: Seq<char>) -> nat
    decreases s.len(),
{
    if s.len() == 0 {
        0
    } else {
        digits_value(s.drop_last()) * 10 + ((s.last() as u32) - 48) as nat
    }
}

/// `s` without one leading `+`.
pub open spec fn unsigned_part(s: Seq<char>) -> Seq<char> {
    if starts_with_char(s, '+') {
        s.drop_first()
    } else {
        s
    }
}

/// Whether every character of `s` is a decimal digit.
pub open spec fn all_digits(s: Seq<char>) -> bool {
    forall|i: int| 0 <= i < s.len() ==> is_digit(#[trigger] s[i])
}

/// `u64::from_str`: an optional `+`, then at least one digit, no overflow.
pub open spec fn parse_u64_spec(s: Seq<char>) -> Option<u64> {
    let d = unsigned_part(s);
    if d.len() > 0 && all_digits(d) && digits_value(d) <= u64::MAX {
        Some(digits_value(d) as u64)
    } else {
        None
    }
}

/// The characters of `s`.
pub fn chars_of(s: &str) -> (r: Vec<char>)
    ensures
        r@ == s@,
{
    let mut out: Vec<char> = Vec::new();
    for c in it: s.chars()
        invariant
            it.seq() == s@,
            out@ == it.seq().take(it.index() as int),
    {
        out.push(c);
    }
    out
}

/// `String::push`.
#[verifier::external_body]
pub(crate) fn push_char(s: &mut String, c: char)
    ensures
        final(s)@ == old(s)@.push(c),
{
    s.push(c);
}

/// The string made of the characters `v`.
pub fn string_of(v: &Vec<char>) -> (r: String)
    ensures
        r@ == v@,
{
    let mut out = String::new();
    let mut i: usize = 0;
    while i < v.len()
        invariant
            i <= v.len(),
            out@ == v@.take(i as int),
        decreases v.len() - i,
    {
        push_char(&mut out, v[i]);
        assert(v@.take(i + 1) == v@.take(i as int).push(v@[i as int]));
        i = i + 1;
    }
    assert(v@.take(v.len() as int) == v@);
    out
}

/// A copy of `v[a..b]`.
pub fn subvec(v: &Vec<char>, a: usize, b: usize) -> (r: Vec<char>)
    requires
        a <= b <= v.len(),
    ensures
        r@ == v@.subrange(a as int, b as int),
{
    let mut out: Vec<char> = Vec::new();
    let mut i = a;
    while i < b
        invariant
            a <= i <= b <= v.len(),
            out@ == v@.subrange(a as int, i as int),
        decreases b - i,
    {
        out.push(v[i]);
        assert(v@.subrange(a as int, i + 1) == v@.subrange(a as int, i as int).push(v@[i as int]));
        i = i + 1;
    }
    out
}

/// Exec version of `is_ws`.
pub fn is_ws_exec(c: char) -> (r: bool)
    ensures
        r == is_ws(c),
{
    let u = c as u32;
    (9 <= u && u <= 13) || u == 32 || u == 0x85 || u == 0xA0 || u == 0x1680 || (0x2000 <= u && u
        <= 0x200A) || u == 0x2028 || u == 0x2029 || u == 0x202F || u == 0x205F || u == 0x3000
}

proof fn lemma_trim_start_skip(s: Seq<char>, i: int)
    requires
        0 <= i <= s.len(),
        forall|j: int| 0 <= j < i ==> is_ws(#[trigger] s[j]),
    ensures
        trim_start(s) == trim_start(s.skip(i)),
    decreases i,
{
    if i > 0 {
        assert(s.skip(1) == s.drop_first());
        lemma_trim_start_skip(s.drop_first(), i - 1);
        assert(s.drop_first().skip(i - 1) == s.skip(i));
    } else {
        assert(s.skip(0) == s);
    }
}

proof fn lemma_trim_end_take(s: Seq<char>, k: int)
    requires
        0 <= k <= s.len(),
        forall|j: int| k <= j < s.len() ==> is_ws(#[trigger] s[j]),
    ensures
        trim_end(s) == trim_end(s.take(k)),
    decreases s.len() - k,
{
    if k < s.len() {
        assert(s.take(s.len() - 1) == s.drop_last());
        lemma_trim_end_take(s.drop_last(), k);
        assert(s.drop_last().take(k) == s.take(k));
    } else {
        assert(s.take(k) == s);
    }
}

/// `str::trim` on characters.
pub fn trim_exec(v: &Vec<char>) -> (r: Vec<char>)
    ensures
        r@ == trim(v@),
{
    let n = v.len();
    let mut a: usize = 0;
    while a < n && is_ws_exec(v[a])
        invariant
            a <= n == v.len(),
            forall|j: int| 0 <= j < a ==> is_ws(#[trigger] v@[j]),
        decreases n - a,
    {
        a = a + 1;
    }
    proof {
        lemma_trim_start_skip(v@, a as int);
    }
    let ghost t = v@.skip(a as int);
    assert(trim_start(v@) == t);
    let mut b: usize = n;
    while b > a && is_ws_exec(v[b - 1])
        invariant
            a <= b <= n == v.len(),
            t == v@.skip(a as int),
            forall|j: int| b <= j < n ==> is_ws(#[trigger] v@[j]),
        decreases b,
    {
        b = b - 1;
    }
    proof {
        assert forall|j: int| b - a <= j < t.len() implies is_ws(#[trigger] t[j]) by {
            assert(t[j] == v@[j + a]);
        }
        lemma_trim_end_take(t, b - a);
        assert(t.take(b - a) == v@.subrange(a as int, b as int));
    }
    subvec(v, a, b)
}

proof fn lemma_strip_start_skip(s: Seq<char>, c: char, i: int)
    requires
        0 <= i <= s.len(),
        forall|j: int| 0 <= j < i ==> #[trigger] s[j] == c,
    ensures
        strip_start(s, c) == strip_start(s.skip(i), c),
    decreases i,
{
    if i > 0 {
        lemma_strip_start_skip(s.drop_first(), c, i - 1);
        assert(s.drop_first().skip(i - 1) == s.skip(i));
    } else {
        assert(s.skip(0) == s);
    }
}

proof fn lemma_strip_end_take(s: Seq<char>, c: char, k: int)
    requires
        0 <= k <= s.len(),
        forall|j: int| k <= j < s.len() ==> #[trigger] s[j] == c,
    ensures
        strip_end(s, c) == strip_end(s.take(k), c),
    decreases s.len() - k,
{
    if k < s.len() {
        lemma_strip_end_take(s.drop_last(), c, k);
        assert(s.drop_last().take(k) == s.take(k));
    } else {
        assert(s.take(k) == s);
    }
}

/// `str::trim_start_matches` with a character.
pub fn strip_start_exec(v: &Vec<char>, c: char) -> (r: Vec<char>)
    ensures
        r@ == strip_start(v@, c),
{
    let n = v.len();
    let mut a: usize = 0;
    while a < n && v[a] == c
        invariant
            a <= n == v.len(),
            forall|j: int| 0 <= j < a ==> #[trigger] v@[j] == c,
        decreases n - a,
    {
        a = a + 1;
    }
    proof {
        lemma_strip_start_skip(v@, c, a as int);
        assert(v@.skip(a as int) == v@.subrange(a as int, n as int));
    }
    subvec(v, a, n)
}

/// `str::trim_end_matches` with a character.
pub fn strip_end_exec(v: &Vec<char>, c: char) -> (r: Vec<char>)
    ensures
        r@ == strip_end(v@, c),
{
    let n = v.len();
    let mut b: usize = n;
    while b > 0 && v[b - 1] == c
        invariant
            b <= n == v.len(),
            forall|j: int| b <= j < n ==> #[trigger] v@[j] == c,
        decreases b,
    {
        b = b - 1;
    }
    proof {
        lemma_strip_end_take(v@, c, b as int);
        assert(v@.take(b as int) == v@.subrange(0, b as int));
    }
    subvec(v, 0, b)
}

/// `str::trim_matches` with a character.
pub fn strip_both_exec(v: &Vec<char>, c: char) -> (r: Vec<char>)
    ensures
        r@ == strip_both(v@, c),
{
    let s = strip_start_exec(v, c);
    strip_end_exec(&s, c)
}

pub proof fn lemma_find_from_none(s: Seq<char>, p: Seq<char>, i: nat)
    requires
        forall|j: int| i <= j && j + p.len() <= s.len() ==> !occurs_at(s, p, j),
    ensures
        find_from(s, p, i) is None,
    decreases s.len() + 1 - i,
{
    if i + p.len() <= s.len() {
        lemma_find_from_none(s, p, i + 1);
    }
}

pub proof fn lemma_find_from_some(s: Seq<char>, p: Seq<char>, i: nat, k: nat)
    requires
        i <= k,
        occurs_at(s, p, k as int),
        forall|j: int| i <= j < k ==> !occurs_at(s, p, j),
    ensures
        find_from(s, p, i) == Some(k),
    decreases k - i,
{
    if i < k {
        lemma_find_from_some(s, p, i + 1, k);
    }
}

/// Whether `p` occurs in `s` at `i`, decided.
pub fn occurs_at_exec(s: &Vec<char>, p: &Vec<char>, i: usize) -> (r: bool)
    ensures
        r == occurs_at(s@, p@, i as int),
{
    if i > s.len() || p.len() > s.len() - i {
        return false;
    }
    let mut k: usize = 0;
    while k < p.len()
        invariant
            k <= p.len(),
            i + p.len() <= s.len(),
            forall|j: int| 0 <= j < k ==> s@[i + j] == p@[j],
        decreases p.len() - k,
    {
        if s[i + k] != p[k] {
            proof {
                assert(s@.subrange(i as int, i + p.len())[k as int] != p@[k as int]);
            }
            return false;
        }
        k = k + 1;
    }
    assert(s@.subrange(i as int, i + p.len()) =~= p@);
    true
}

/// `str::find` on characters.
pub fn find_exec(s: &Vec<char>, p: &Vec<char>) -> (r: Option<usize>)
    ensures
        r matches Some(i) ==> find(s@, p@) == Some(i as nat),
        r is None ==> find(s@, p@) is None,
{
    if p.len() > s.len() {
        proof {
            lemma_find_from_none(s@, p@, 0);
        }
        return None;
    }
    if p.len() == 0 {
        assert(s@.subrange(0, 0) =~= p@);
        return Some(0);
    }
    let mut i: usize = 0;
    while i <= s.len() - p.len()
        invariant
            1 <= p.len() <= s.len(),
            i <= s.len() - p.len() + 1,
            forall|j: int| 0 <= j < i ==> !occurs_at(s@, p@, j),
        decreases s.len() - i,
    {
        if occurs_at_exec(s, p, i) {
            proof {
                lemma_find_from_some(s@, p@, 0, i as nat);
            }
            return Some(i);
        }
        i = i + 1;
    }
    proof {
        lemma_find_from_none(s@, p@, 0);
    }
    None
}

/// The first position of `c`.
pub fn find_char_exec(s: &Vec<char>, c: char) -> (r: Option<usize>)
    ensures
        r matches Some(i) ==> find_char(s@, c) == Some(i as nat) && i < s.len() && s@[i as int]
            == c,
        r is None ==> find_char(s@, c) is None,
{
    let p = vec![c];
    assert(p@ == seq![c]);
    let r = find_exec(s, &p);
    proof {
        if let Some(i) = r {
            lemma_find_some_occurs(s@, seq![c], 0);
            assert(s@.subrange(i as int, i + 1)[0] == c);
        }
    }
    r
}

/// What `find_from` returns is an occurrence at or after `i`, with none
/// between `i` and it.
pub proof fn lemma_find_some_occurs(s: Seq<char>, p: Seq<char>, i: nat)
    ensures
        find_from(s, p, i) matches Some(k) ==> i <= k && occurs_at(s, p, k as int) && forall|
            j: int,
        |
            i <= j < k ==> !occurs_at(s, p, j),
        find_from(s, p, i) is None ==> forall|j: int|
            i <= j && j + p.len() <= s.len() ==> !occurs_at(s, p, j),
    decreases s.len() + 1 - i,
{
    if i + p.len() <= s.len() && !occurs_at(s, p, i as int) {
        lemma_find_some_occurs(s, p, i + 1);
    }
}

/// The last position of `c`.
pub fn rfind_char_exec(s: &Vec<char>, c: char) -> (r: Option<usize>)
    ensures
        r matches Some(i) ==> rfind_char(s@, c) == Some(i as nat) && i < s.len(),
        r is None ==> rfind_char(s@, c) is None,
{
    let mut k: usize = s.len();
    assert(s@.take(k as int) == s@);
    while k > 0
        invariant
            k <= s.len(),
            rfind_char(s@, c) == rfind_char(s@.take(k as int), c),
        decreases k,
    {
        if s[k - 1] == c {
            return Some(k - 1);
        }
        assert(s@.take(k as int).drop_last() == s@.take(k - 1));
        k = k - 1;
    }
    None
}

/// A character of `s` that is a digit, decided.
pub fn is_digit_exec(c: char) -> (r: bool)
    ensures
        r == is_digit(c),
{
    '0' <= c && c <= '9'
}

/// `u64::from_str` on characters.
pub fn parse_u64_exec(s: &Vec<char>) -> (r: Option<u64>)
    ensures
        r == parse_u64_spec(s@),
{
    let start: usize = if s.len() > 0 && s[0] == '+' { 1 } else { 0 };
    let ghost d = unsigned_part(s@);
    assert(d == s@.skip(start as int));
    if start >= s.len() {
        return None;
    }
    let mut acc: u64 = 0;
    let mut i = start;
    while i < s.len()
        invariant
            start <= i <= s.len(),
            start < s.len(),
            d == s@.skip(start as int),
            d == unsigned_part(s@),
            forall|j: int| start <= j < i ==> is_digit(#[trigger] s@[j]),
            acc as nat == digits_value(s@.subrange(start as int, i as int)),
        decreases s.len() - i,
    {
        let c = s[i];
        if !is_digit_exec(c) {
            assert(d[i - start] == c);
            assert(!is_digit(d[i - start]));
            assert(!all_digits(d));
            return None;
        }
        let dv = (c as u32 - 48) as u64;
        assert(s@.subrange(start as int, i + 1).drop_last() == s@.subrange(start as int, i as int));
        if acc > (u64::MAX - dv) / 10 {
            proof {
                assert(d.take((i + 1 - start) as int) == s@.subrange(start as int, i + 1));
                if all_digits(d) {
                    lemma_digits_value_prefix_le(d, (i + 1 - start) as int);
                }
            }
            return None;
        }
        acc = acc * 10 + dv;
        i = i + 1;
    }
    assert(s@.subrange(start as int, s.len() as int) == d);
    Some(acc)
}

/// A prefix of a digit string has a value no larger than the whole.
pub proof fn lemma_digits_value_prefix_le(s: Seq<char>, k: int)
    requires
        0 <= k <= s.len(),
        forall|i: int| 0 <= i < s.len() ==> is_digit(#[trigger] s[i]),
    ensures
        digits_value(s.take(k)) <= digits_value(s),
    decreases s.len() - k,
{
    if k < s.len() {
        lemma_digits_value_prefix_le(s.drop_last(), k);
        assert(s.drop_last().take(k) == s.take(k));
        assert(s.take(s.len() as int) == s);
    } else {
        assert(s.take(k) == s);
    }
}


/// The pieces of `s` between the occurrences of `c`.
pub fn split_char_exec(s: &Vec<char>, c: char) -> (r: Vec<Vec<char>>)
    ensures
        r@.len() == split_char(s@, c).len(),
        forall|i: int| 0 <= i < r@.len() ==> (#[trigger] r@[i])@ == split_char(s@, c)[i],
{
    let mut done: Vec<Vec<char>> = Vec::new();
    let mut cur: Vec<char> = Vec::new();
    let mut i: usize = 0;
    while i < s.len()
        invariant
            i <= s.len(),
            done@.len() + 1 == split_char(s@.take(i as int), c).len(),
            forall|k: int| 0 <= k < done@.len() ==> (#[trigger] done@[k])@ == split_char(s@.take(i as int), c)[k],
            cur@ == split_char(s@.take(i as int), c).last(),
        decreases s.len() - i,
    {
        proof {
            lemma_split_char_nonempty(s@.take(i as int), c);
            assert(s@.take(i + 1).drop_last() == s@.take(i as int));
        }
        if s[i] == c {
            done.push(cur);
            cur = Vec::new();
        } else {
            cur.push(s[i]);
        }
        i = i + 1;
    }
    assert(s@.take(s.len() as int) == s@);
    done.push(cur);
    done
}

/// Lexicographic order on character sequences (a proper prefix comes first),
/// which is the order of `str` since UTF-8 keeps the order of scalar values.
pub open spec fn seq_lt(a: Seq<char>, b: Seq<char>) -> bool
    decreases a.len(),
{
    if a.len() == 0 {
        b.len() > 0
    } else if b.len() == 0 {
        false
    } else if a[0] != b[0] {
        a[0] < b[0]
    } else {
        seq_lt(a.drop_first(), b.drop_first())
    }
}

/// `seq_lt` is irreflexive.
pub proof fn lemma_seq_lt_irrefl(a: Seq<char>)
    ensures
        !seq_lt(a, a),
    decreases a.len(),
{
    if a.len() > 0 {
        lemma_seq_lt_irrefl(a.drop_first());
    }
}

/// `seq_lt` is transitive.
pub proof fn lemma_seq_lt_trans(a: Seq<char>, b: Seq<char>, d: Seq<char>)
    requires
        seq_lt(a, b),
        seq_lt(b, d),
    ensures
        seq_lt(a, d),
    decreases a.len(),
{
    if a.len() > 0 && b.len() > 0 && d.len() > 0 && a[0] == b[0] && b[0] == d[0] {
        lemma_seq_lt_trans(a.drop_first(), b.drop_first(), d.drop_first());
    }
}

/// Distinct sequences are ordered one way or the other.
pub proof fn lemma_seq_lt_total(a: Seq<char>, b: Seq<char>)
    requires
        a != b,
    ensures
        seq_lt(a, b) || seq_lt(b, a),
    decreases a.len(),
{
    if a.len() > 0 && b.len() > 0 && a[0] == b[0] {
        if a.drop_first() == b.drop_first() {
            assert(a =~= seq![a[0]] + a.drop_first());
            assert(b =~= seq![b[0]] + b.drop_first());
        }
        lemma_seq_lt_total(a.drop_first(), b.drop_first());
    } else if a.len() == 0 && b.len() == 0 {
        assert(a =~= b);
    }
}

/// Whether `a` comes strictly before `b` in lexicographic order.
pub fn lex_less(a: &Vec<char>, b: &Vec<char>) -> (r: bool)
    ensures
        r == seq_lt(a@, b@),
{
    let mut i: usize = 0;
    assert(a@.skip(0) == a@ && b@.skip(0) == b@);
    while i < a.len() && i < b.len()
        invariant
            i <= a.len(),
            i <= b.len(),
            a@.take(i as int) == b@.take(i as int),
            seq_lt(a@, b@) == seq_lt(a@.skip(i as int), b@.skip(i as int)),
        decreases a.len() - i,
    {
        if a[i] != b[i] {
            assert(a@.skip(i as int)[0] == a[i as int]);
            assert(b@.skip(i as int)[0] == b[i as int]);
            return a[i] < b[i];
        }
        assert(a@.skip(i as int).drop_first() == a@.skip(i + 1));
        assert(b@.skip(i as int).drop_first() == b@.skip(i + 1));
        assert(a@.take(i + 1) == a@.take(i as int).push(a[i as int]));
        assert(b@.take(i + 1) == b@.take(i as int).push(b[i as int]));
        i = i + 1;
    }
    i < b.len()
}

/// Whether two character vectors hold the same characters.
pub fn chars_equal(a: &Vec<char>, b: &Vec<char>) -> (r: bool)
    ensures
        r == (a@ == b@),
{
    if a.len() != b.len() {
        return false;
    }
    let mut i: usize = 0;
    while i < a.len()
        invariant
            i <= a.len(),
            a.len() == b.len(),
            forall|j: int| 0 <= j < i ==> a@[j] == b@[j],
        decreases a.len() - i,
    {
        if a[i] != b[i] {
            return false;
        }
        i = i + 1;
    }
    assert(a@ =~= b@);
    true
}

/// The decimal numeral of `n` (`usize::to_string`).
pub fn usize_decimal(n: usize) -> (r: Vec<char>)
    ensures
        r@ == crate::codec::decimal(n as nat),
    decreases n,
{
    if n < 10 {
        let d = ((n as u32) + 48) as u8 as char;
        let mut v: Vec<char> = Vec::new();
        v.push(d);
        v
    } else {
        let mut v = usize_decimal(n / 10);
        let d = ((n % 10) as u32 + 48) as u8 as char;
        v.push(d);
        v
    }
}


/// Whether every character of `s` is ASCII.
pub open spec fn is_ascii_text(s: Seq<char>) -> bool {
    forall|i: int| 0 <= i < s.len() ==> (#[trigger] s[i] as u32) < 128
}

/// The state after scanning the first `k` characters of `s` for top-level
/// commas: the finished pieces, the current piece, the parenthesis depth
/// and (when `brackets` is set) the square-bracket depth. A closing
/// character never takes a depth below zero.
pub open spec fn split_top_state(s: Seq<char>, k: int, brackets: bool) -> (Seq<Seq<char>>, Seq<char>, nat, nat)
    decreases k,
{
    if k <= 0 {
        (Seq::empty(), Seq::empty(), 0, 0)
    } else {
        let (d, c, p, b) = split_top_state(s, k - 1, brackets);
        let ch = s[k - 1];
        if ch == '(' {
            (d, c.push(ch), p + 1, b)
        } else if ch == ')' {
            (d, c.push(ch), if p > 0 { (p - 1) as nat } else { 0 }, b)
        } else if brackets && ch == '[' {
            (d, c.push(ch), p, b + 1)
        } else if brackets && ch == ']' {
            (d, c.push(ch), p, if b > 0 { (b - 1) as nat } else { 0 })
        } else if ch == ',' && p == 0 && b == 0 {
            (d.push(c), Seq::empty(), p, b)
        } else {
            (d, c.push(ch), p, b)
        }
    }
}

/// The pieces of `s` between commas that are not inside parentheses (nor,
/// when `brackets` is set, inside square brackets).
pub open spec fn split_top(s: Seq<char>, brackets: bool) -> Seq<Seq<char>> {
    let (d, c, _, _) = split_top_state(s, s.len() as int, brackets);
    d.push(c)
}

/// Joining pieces with one more piece at the end.
pub proof fn lemma_join_push(d: Seq<Seq<char>>, x: Seq<char>, sep: Seq<char>)
    ensures
        join(d.push(x), sep) == if d.len() == 0 { x } else { join(d, sep) + sep + x },
{
    assert(d.push(x).drop_last() =~= d);
    assert(d.push(x).last() == x);
    if d.len() == 0 {
        assert(d.push(x)[0] == x);
    }
}

/// The pieces of the split so far, joined with commas, give back the text
/// read so far.
proof fn lemma_split_top_state_join(s: Seq<char>, k: int, brackets: bool)
    requires
        0 <= k <= s.len(),
    ensures
        join(split_top_state(s, k, brackets).0.push(split_top_state(s, k, brackets).1), seq![',']) == s.subrange(0, k),
    decreases k,
{
    if k == 0 {
        lemma_join_push(Seq::empty(), Seq::empty(), seq![',']);
        assert(s.subrange(0, 0) =~= Seq::<char>::empty());
    } else {
        lemma_split_top_state_join(s, k - 1, brackets);
        let (d, c, p, b) = split_top_state(s, k - 1, brackets);
        let (d2, c2, _, _) = split_top_state(s, k, brackets);
        let ch = s[k - 1];
        lemma_join_push(d, c, seq![',']);
        lemma_join_push(d2, c2, seq![',']);
        assert(s.subrange(0, k) =~= s.subrange(0, k - 1).push(ch));
        if d2 == d {
            assert(c2 == c.push(ch));
            if d.len() == 0 {
                assert(join(d2.push(c2), seq![',']) =~= s.subrange(0, k));
            } else {
                assert(join(d2.push(c2), seq![',']) =~= join(d, seq![',']) + seq![','] + c.push(ch));
                assert(join(d2.push(c2), seq![',']) =~= s.subrange(0, k));
            }
        } else {
            assert(ch == ',' && d2 == d.push(c) && c2 == Seq::<char>::empty());
            lemma_join_push(d.push(c), Seq::empty(), seq![',']);
            assert(join(d2.push(c2), seq![',']) =~= s.subrange(0, k));
        }
    }
}

/// The split state of a text's first `k` characters does not depend on what
/// follows them.
proof fn lemma_split_top_state_prefix(a: Seq<char>, r: Seq<char>, k: int, brackets: bool)
    requires
        0 <= k <= a.len(),
    ensures
        split_top_state(a + r, k, brackets) == split_top_state(a, k, brackets),
    decreases k,
{
    if k > 0 {
        lemma_split_top_state_prefix(a, r, k - 1, brackets);
        assert((a + r)[k - 1] == a[k - 1]);
    }
}

/// A stretch `e = s[m..m+len]` with no comma at its own parenthesis depth
/// zero, read from depth zero, only extends the current piece, and the
/// depth follows that of `e` alone.
proof fn lemma_split_top_state_piece(s: Seq<char>, m: int, len: int, j: int)
    requires
        0 <= m,
        0 <= j <= len,
        m + len <= s.len(),
        split_top_state(s, m, false).2 == 0,
        split_top_state(s, m, false).3 == 0,
        top_commas(s.subrange(m, m + len), j) == 0,
    ensures
        split_top_state(s, m + j, false) == (
            split_top_state(s, m, false).0,
            split_top_state(s, m, false).1 + s.subrange(m, m + j),
            paren_depth(s.subrange(m, m + len), j),
            0nat,
        ),
    decreases j,
{
    let e = s.subrange(m, m + len);
    if j == 0 {
        assert(split_top_state(s, m, false).1 + s.subrange(m, m) =~= split_top_state(s, m, false).1);
    } else {
        lemma_split_top_state_piece(s, m, len, j - 1);
        let c = split_top_state(s, m, false).1;
        assert(e[j - 1] == s[m + j - 1]);
        assert((c + s.subrange(m, m + j - 1)).push(s[m + j - 1]) =~= c + s.subrange(m, m + j));
    }
}

/// Pieces with no comma at parenthesis depth zero and all parentheses
/// closed.
pub open spec fn closed_pieces(xs: Seq<Seq<char>>) -> bool {
    forall|i: int|
        0 <= i < xs.len() ==> top_commas(#[trigger] xs[i], xs[i].len() as int) == 0 && paren_depth(
            xs[i],
            xs[i].len() as int,
        ) == 0
}

/// Splitting pieces joined with commas gives back the pieces, when none of
/// them holds a comma at its parenthesis depth zero and each closes its
/// parentheses.
pub proof fn lemma_split_top_of_join(xs: Seq<Seq<char>>)
    requires
        xs.len() >= 1,
        closed_pieces(xs),
    ensures
        split_top_state(join(xs, seq![',']), join(xs, seq![',']).len() as int, false) == (
            xs.drop_last(),
            xs.last(),
            0nat,
            0nat,
        ),
        split_top(join(xs, seq![',']), false) == xs,
    decreases xs.len(),
{
    let js = join(xs, seq![',']);
    if xs.len() == 1 {
        let x = xs[0];
        assert(js == x);
        assert(x.subrange(0, x.len() as int) =~= x);
        lemma_split_top_state_piece(x, 0, x.len() as int, x.len() as int);
        assert(Seq::<char>::empty() + x.subrange(0, x.len() as int) =~= x);
        assert(xs.drop_last() =~= Seq::<Seq<char>>::empty());
    } else {
        let ys = xs.drop_last();
        let x = xs.last();
        assert(closed_pieces(ys)) by {
            assert forall|i: int| 0 <= i < ys.len() implies top_commas(#[trigger] ys[i], ys[i].len() as int) == 0
                && paren_depth(ys[i], ys[i].len() as int) == 0 by {
                assert(ys[i] == xs[i]);
            }
        }
        lemma_split_top_of_join(ys);
        let a = join(ys, seq![',']);
        assert(js == a + seq![','] + x);
        let r = seq![','] + x;
        assert(js =~= a + r);
        lemma_split_top_state_prefix(a, r, a.len() as int, false);
        assert(js[a.len() as int] == ',');
        let m: int = a.len() as int + 1;
        assert(split_top_state(js, m, false) == (ys.drop_last().push(ys.last()), Seq::<char>::empty(), 0nat, 0nat));
        assert(ys.drop_last().push(ys.last()) =~= ys);
        assert(js.subrange(m, m + x.len() as int) =~= x);
        assert(xs[xs.len() - 1] == x);
        lemma_split_top_state_piece(js, m, x.len() as int, x.len() as int);
        assert(Seq::<char>::empty() + x =~= x);
        assert(js.len() == m + x.len());
        assert(ys.push(x) =~= xs);
    }
}

/// Text with no comma or parenthesis has no comma at depth zero and depth
/// zero throughout.
pub proof fn lemma_plain_depth(x: Seq<char>, k: int)
    requires
        0 <= k <= x.len(),
        forall|i: int| 0 <= i < x.len() ==> #[trigger] x[i] != ',' && x[i] != '(' && x[i] != ')',
    ensures
        top_commas(x, k) == 0,
        paren_depth(x, k) == 0,
    decreases k,
{
    if k > 0 {
        lemma_plain_depth(x, k - 1);
    }
}

/// The parenthesis depth after the first `k` characters of `s`; a `)` at
/// depth zero is ignored.
pub open spec fn paren_depth(s: Seq<char>, k: int) -> nat
    decreases k,
{
    if k <= 0 {
        0
    } else {
        let d = paren_depth(s, k - 1);
        if s[k - 1] == '(' {
            d + 1
        } else if s[k - 1] == ')' {
            if d > 0 { (d - 1) as nat } else { 0 }
        } else {
            d
        }
    }
}

/// The number of commas among the first `k` characters of `s` that stand
/// at parenthesis depth zero.
pub open spec fn top_commas(s: Seq<char>, k: int) -> nat
    decreases k,
{
    if k <= 0 {
        0
    } else {
        top_commas(s, k - 1) + (if s[k - 1] == ',' && paren_depth(s, k - 1) == 0 { 1nat } else { 0nat })
    }
}

/// Without brackets, the split state counts the top-level commas as
/// finished pieces and tracks the parenthesis depth.
proof fn lemma_split_top_state_count(s: Seq<char>, k: int)
    ensures
        split_top_state(s, k, false).0.len() == top_commas(s, k),
        split_top_state(s, k, false).2 == paren_depth(s, k),
        split_top_state(s, k, false).3 == 0,
    decreases k,
{
    if k > 0 {
        lemma_split_top_state_count(s, k - 1);
    }
}

/// A split at the commas outside parentheses has one piece more than there
/// are such commas.
pub proof fn lemma_split_top_count(s: Seq<char>)
    ensures
        split_top(s, false).len() == 1 + top_commas(s, s.len() as int),
{
    lemma_split_top_state_count(s, s.len() as int);
}

/// Depth and top-level commas of a text's first `k` characters do not depend
/// on what follows them.
proof fn lemma_depth_prefix(a: Seq<char>, r: Seq<char>, k: int)
    requires
        0 <= k <= a.len(),
    ensures
        paren_depth(a + r, k) == paren_depth(a, k),
        top_commas(a + r, k) == top_commas(a, k),
    decreases k,
{
    if k > 0 {
        lemma_depth_prefix(a, r, k - 1);
        assert((a + r)[k - 1] == a[k - 1]);
    }
}

/// Top-level commas only accumulate.
proof fn lemma_top_commas_mono(s: Seq<char>, j: int, k: int)
    requires
        0 <= j <= k,
    ensures
        top_commas(s, j) <= top_commas(s, k),
    decreases k - j,
{
    if j < k {
        lemma_top_commas_mono(s, j, k - 1);
    }
}

/// Read from any depth, a stretch is at least as deep as read alone.
proof fn lemma_depth_at_least(s: Seq<char>, m: int, len: int, j: int)
    requires
        0 <= m,
        0 <= j <= len,
        m + len <= s.len(),
    ensures
        paren_depth(s, m + j) >= paren_depth(s.subrange(m, m + len), j),
    decreases j,
{
    if j > 0 {
        lemma_depth_at_least(s, m, len, j - 1);
        assert(s.subrange(m, m + len)[j - 1] == s[m + j - 1]);
    }
}

/// A stretch with no comma at its own depth zero adds no top-level comma.
proof fn lemma_top_commas_stretch(s: Seq<char>, m: int, len: int, j: int)
    requires
        0 <= m,
        0 <= j <= len,
        m + len <= s.len(),
        top_commas(s.subrange(m, m + len), len) == 0,
    ensures
        top_commas(s, m + j) == top_commas(s, m),
    decreases j,
{
    if j > 0 {
        let e = s.subrange(m, m + len);
        lemma_top_commas_stretch(s, m, len, j - 1);
        lemma_depth_at_least(s, m, len, j - 1);
        lemma_top_commas_mono(e, j, len);
        assert(e[j - 1] == s[m + j - 1]);
    }
}

/// Pieces with no comma at their own depth zero, joined with commas, have
/// at most one top-level comma fewer than there are pieces.
pub proof fn lemma_top_commas_of_join(xs: Seq<Seq<char>>)
    requires
        xs.len() >= 1,
        forall|i: int| 0 <= i < xs.len() ==> top_commas(#[trigger] xs[i], xs[i].len() as int) == 0,
    ensures
        top_commas(join(xs, seq![',']), join(xs, seq![',']).len() as int) < xs.len(),
    decreases xs.len(),
{
    let js = join(xs, seq![',']);
    if xs.len() == 1 {
        assert(js == xs[0]);
    } else {
        let ys = xs.drop_last();
        let x = xs.last();
        assert forall|i: int| 0 <= i < ys.len() implies top_commas(#[trigger] ys[i], ys[i].len() as int) == 0 by {
            assert(ys[i] == xs[i]);
        }
        lemma_top_commas_of_join(ys);
        let a = join(ys, seq![',']);
        let r = seq![','] + x;
        assert(js =~= a + r);
        lemma_depth_prefix(a, r, a.len() as int);
        let m: int = a.len() as int + 1;
        assert(js.subrange(m, m + x.len() as int) =~= x);
        assert(xs[xs.len() - 1] == x);
        lemma_top_commas_stretch(js, m, x.len() as int, x.len() as int);
        assert(js.len() == m + x.len());
    }
}

/// Every character of a piece of the split satisfies what every character of
/// the text does.
pub proof fn lemma_split_top_state_chars(s: Seq<char>, k: int, brackets: bool, p: spec_fn(char) -> bool)
    requires
        0 <= k <= s.len(),
        forall|j: int| 0 <= j < s.len() ==> p(#[trigger] s[j]),
    ensures
        forall|i: int, m: int| 0 <= i < split_top_state(s, k, brackets).0.len() && 0 <= m < split_top_state(s, k, brackets).0[i].len()
            ==> p(#[trigger] split_top_state(s, k, brackets).0[i][m]),
        forall|m: int| 0 <= m < split_top_state(s, k, brackets).1.len() ==> p(#[trigger] split_top_state(s, k, brackets).1[m]),
    decreases k,
{
    if k > 0 {
        lemma_split_top_state_chars(s, k - 1, brackets, p);
        let (d, c, _, _) = split_top_state(s, k - 1, brackets);
        assert(p(s[k - 1]));
        assert forall|m: int| 0 <= m < c.push(s[k - 1]).len() implies p(#[trigger] c.push(s[k - 1])[m]) by {
            if m < c.len() {
                assert(c.push(s[k - 1])[m] == c[m]);
            }
        }
        assert forall|i: int, m: int| 0 <= i < d.push(c).len() && 0 <= m < d.push(c)[i].len() implies p(#[trigger] d.push(c)[i][m]) by {
            if i < d.len() {
                assert(d.push(c)[i] == d[i]);
            } else {
                assert(d.push(c)[i] == c);
            }
        }
    }
}

/// The pieces of a top-level split, joined with commas, give back the text.
pub proof fn lemma_split_top_join(s: Seq<char>, brackets: bool)
    ensures
        join(split_top(s, brackets), seq![',']) == s,
{
    lemma_split_top_state_join(s, s.len() as int, brackets);
    assert(s.subrange(0, s.len() as int) =~= s);
}

/// Splits at the commas outside parentheses (and, when `brackets` is set,
/// outside square brackets).
pub fn split_top_exec(v: &Vec<char>, brackets: bool) -> (r: Vec<Vec<char>>)
    ensures
        r@.len() == split_top(v@, brackets).len(),
        forall|i: int| 0 <= i < r@.len() ==> (#[trigger] r@[i])@ == split_top(v@, brackets)[i],
{
    let mut done: Vec<Vec<char>> = Vec::new();
    let mut cur: Vec<char> = Vec::new();
    let mut p: usize = 0;
    let mut b: usize = 0;
    let mut i: usize = 0;
    while i < v.len()
        invariant
            i <= v@.len(),
            p <= i,
            b <= i,
            done@.len() == split_top_state(v@, i as int, brackets).0.len(),
            forall|k: int| 0 <= k < done@.len() ==> (#[trigger] done@[k])@ == split_top_state(v@, i as int, brackets).0[k],
            cur@ == split_top_state(v@, i as int, brackets).1,
            p as nat == split_top_state(v@, i as int, brackets).2,
            b as nat == split_top_state(v@, i as int, brackets).3,
        decreases v@.len() - i,
    {
        let ch = v[i];
        if ch == '(' {
            cur.push(ch);
            p = p + 1;
        } else if ch == ')' {
            cur.push(ch);
            if p > 0 {
                p = p - 1;
            }
        } else if brackets && ch == '[' {
            cur.push(ch);
            b = b + 1;
        } else if brackets && ch == ']' {
            cur.push(ch);
            if b > 0 {
                b = b - 1;
            }
        } else if ch == ',' && p == 0 && b == 0 {
            done.push(cur);
            cur = Vec::new();
        } else {
            cur.push(ch);
        }
        i = i + 1;
    }
    done.push(cur);
    done
}


/// `trim_start` drops a prefix.
pub proof fn lemma_trim_start_suffix(s: Seq<char>)
    ensures
        trim_start(s).len() <= s.len(),
        trim_start(s) == s.subrange(s.len() - trim_start(s).len(), s.len() as int),
    decreases s.len(),
{
    if s.len() > 0 && is_ws(s[0]) {
        lemma_trim_start_suffix(s.drop_first());
        assert(s.drop_first().subrange(s.drop_first().len() - trim_start(s).len(), s.drop_first().len() as int)
            =~= s.subrange(s.len() - trim_start(s).len(), s.len() as int));
    } else {
        assert(s.subrange(0, s.len() as int) =~= s);
    }
}

/// `trim_end` keeps a prefix.
pub proof fn lemma_trim_end_prefix(s: Seq<char>)
    ensures
        trim_end(s).len() <= s.len(),
        trim_end(s) == s.subrange(0, trim_end(s).len() as int),
    decreases s.len(),
{
    if s.len() > 0 && is_ws(s.last()) {
        lemma_trim_end_prefix(s.drop_last());
        assert(s.drop_last().subrange(0, trim_end(s).len() as int) =~= s.subrange(0, trim_end(s).len() as int));
    } else {
        assert(s.subrange(0, s.len() as int) =~= s);
    }
}

/// `trim` keeps a stretch of consecutive characters.
pub proof fn lemma_trim_is_subrange(s: Seq<char>)
    ensures
        exists|a: int, b: int| 0 <= a <= b <= s.len() && trim(s) == s.subrange(a, b),
{
    lemma_trim_start_suffix(s);
    let t = trim_start(s);
    lemma_trim_end_prefix(t);
    let a = s.len() - t.len();
    let b = a + trim_end(t).len();
    assert(trim(s) =~= s.subrange(a, b));
}


/// The pieces of a top-level split are no longer than the text and keep
/// ASCII text ASCII.
pub proof fn lemma_split_top_state_pieces(s: Seq<char>, k: int, brackets: bool)
    requires
        0 <= k <= s.len(),
    ensures
        forall|i: int| 0 <= i < split_top_state(s, k, brackets).0.len() ==> (#[trigger] split_top_state(s, k, brackets).0[i]).len() <= k,
        split_top_state(s, k, brackets).1.len() <= k,
        is_ascii_text(s) ==> forall|i: int| 0 <= i < split_top_state(s, k, brackets).0.len() ==> is_ascii_text(#[trigger] split_top_state(s, k, brackets).0[i]),
        is_ascii_text(s) ==> is_ascii_text(split_top_state(s, k, brackets).1),
    decreases k,
{
    if k > 0 {
        lemma_split_top_state_pieces(s, k - 1, brackets);
        let (d, c, p, b) = split_top_state(s, k - 1, brackets);
        if is_ascii_text(s) {
            assert((s[k - 1] as u32) < 128);
            assert(is_ascii_text(c.push(s[k - 1]))) by {
                assert forall|i: int| 0 <= i < c.push(s[k - 1]).len() implies (#[trigger] c.push(s[k - 1])[i] as u32) < 128 by {
                    if i < c.len() {
                        assert(c.push(s[k - 1])[i] == c[i]);
                    }
                }
            }
        }
    }
}

/// The pieces of a top-level split are no longer than the text and keep
/// ASCII text ASCII.
pub proof fn lemma_split_top_pieces(s: Seq<char>, brackets: bool)
    ensures
        forall|i: int| 0 <= i < split_top(s, brackets).len() ==> (#[trigger] split_top(s, brackets)[i]).len() <= s.len(),
        is_ascii_text(s) ==> forall|i: int| 0 <= i < split_top(s, brackets).len() ==> is_ascii_text(#[trigger] split_top(s, brackets)[i]),
{
    lemma_split_top_state_pieces(s, s.len() as int, brackets);
}

/// Trimming shortens and keeps ASCII text ASCII.
pub proof fn lemma_trim_len_ascii(s: Seq<char>)
    ensures
        trim(s).len() <= s.len(),
        is_ascii_text(s) ==> is_ascii_text(trim(s)),
{
    lemma_trim_is_subrange(s);
    let (a, b) = choose|a: int, b: int| 0 <= a <= b <= s.len() && trim(s) == s.subrange(a, b);
    if is_ascii_text(s) {
        assert forall|i: int| 0 <= i < trim(s).len() implies (#[trigger] trim(s)[i] as u32) < 128 by {
            assert(trim(s)[i] == s[a + i]);
        }
    }
}


/// The characters of a slice, as a vector.
pub fn chars_from_slice(c: &[char]) -> (r: Vec<char>)
    ensures
        r@ == c@,
{
    let mut v: Vec<char> = Vec::new();
    let mut i: usize = 0;
    while i < c.len()
        invariant
            i <= c@.len(),
            v@ == c@.take(i as int),
        decreases c@.len() - i,
    {
        v.push(c[i]);
        assert(v@ =~= c@.take(i + 1));
        i = i + 1;
    }
    assert(c@.take(c@.len() as int) =~= c@);
    v
}

/// The pieces that are not empty, in order.
pub open spec fn nonempty_filter(parts: Seq<Seq<char>>) -> Seq<Seq<char>>
    decreases parts.len(),
{
    if parts.len() == 0 {
        Seq::empty()
    } else {
        let r = nonempty_filter(parts.drop_last());
        if parts.last().len() == 0 {
            r
        } else {
            r.push(parts.last())
        }
    }
}


/// Every piece that `nonempty_filter` keeps is non-empty.
pub proof fn lemma_nonempty_filter(parts: Seq<Seq<char>>)
    ensures
        forall|i: int| 0 <= i < nonempty_filter(parts).len() ==> (#[trigger] nonempty_filter(parts)[i]).len() > 0,
    decreases parts.len(),
{
    if parts.len() > 0 {
        lemma_nonempty_filter(parts.drop_last());
        let r = nonempty_filter(parts.drop_last());
        if parts.last().len() != 0 {
            assert forall|i: int| 0 <= i < r.push(parts.last()).len() implies (#[trigger] r.push(parts.last())[i]).len() > 0 by {
                if i < r.len() {
                    assert(r.push(parts.last())[i] == r[i]);
                }
            }
        }
    }
}

} // verus!
