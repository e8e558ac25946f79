//! Textual encodings of proofs and public inputs: decimal field elements and
//! standard padded base64.
use vstd::prelude::*;
use base64::Engine;
use num_bigint::BigUint;
use crate::field::{Fe, le_value, modulus, fe_from_repr};
use crate::text::{is_digit, digits_value};
use crate::data::{FactEntry, ProofEntry};
use crate::hashing::{fact_hash_native_salted, fact_tokens, poseidon_fold};
use crate::params::MAX_FACTS_HASHES;

verus! {

/// The decimal digit character of `d < 10`.
pub open spec fn digit_char(d: nat) -> char {
    (d + 48) as char
}

/// The decimal numeral of `n`, without leading zeros (`"0"` for zero).
pub open spec fn decimal(n: nat) -> Seq<char>
    decreases n,
{
    if n < 10 {
        seq![digit_char(n)]
    } else {
        decimal(n / 10).push(digit_char(n % 10))
    }
}

/// `BigUint::from_bytes_le(..).to_str_radix(10)` of the canonical encoding.
#[verifier::external_body]
fn biguint_decimal(bytes: [u8; 32]) -> (r: String)
    ensures
        r@ == decimal(le_value(bytes@)),
{
    BigUint::from_bytes_le(&bytes).to_str_radix(10)
}

/// The decimal numeral of a field element's canonical value.
pub fn fe_to_decimal(x: &Fe) -> (r: String)
    ensures
        r@ == decimal(x@),
{
    biguint_decimal(x.to_bytes())
}

/// The string that `BigUint::from_str_radix(s, 10)` reads digits from: one
/// leading `+` is dropped unless a second `+` follows it.
pub open spec fn biguint_body(s: Seq<char>) -> Seq<char> {
    if s.len() >= 1 && s[0] == '+' && !(s.len() >= 2 && s[1] == '+') {
        s.drop_first()
    } else {
        s
    }
}

/// Whether `BigUint::from_str_radix(s, 10)` accepts `s`: a non-empty body
/// that starts with a digit and holds only digits and underscores.
pub open spec fn biguint_decimal_ok(s: Seq<char>) -> bool {
    let t = biguint_body(s);
    &&& t.len() > 0
    &&& t[0] != '_'
    &&& forall|i: int| 0 <= i < t.len() ==> is_digit(#[trigger] t[i]) || t[i] == '_'
}

/// The value that `BigUint::from_str_radix(s, 10)` gives: the digits of the
/// body with the underscores left out.
pub open spec fn biguint_decimal_value(s: Seq<char>) -> nat {
    digits_value(biguint_body(s).filter(|c: char| c != '_'))
}

/// `BigUint::parse_bytes(s, 10)` followed by `to_bytes_le`.
#[verifier::external_body]
fn biguint_parse_decimal(s: &str) -> (r: Option<Vec<u8>>)
    ensures
        r is Some <==> biguint_decimal_ok(s@),
        r matches Some(b) ==> le_value(b@) == biguint_decimal_value(s@),
{
    match BigUint::parse_bytes(s.as_bytes(), 10) {
        Some(v) => Some(v.to_bytes_le()),
        None => None,
    }
}

/// Why a decimal string is not a field element.
#[derive(Debug, Clone, Copy, PartialEq, Eq)]
pub enum DecimalError {
    /// The string is not a decimal numeral.
    InvalidNumber,
    /// The number is not below the field modulus.
    NotInField,
}

proof fn lemma_le_value_trailing_zeros(s: Seq<u8>, k: int)
    requires
        0 <= k <= s.len(),
        forall|i: int| k <= i < s.len() ==> s[i] == 0,
    ensures
        le_value(s) == le_value(s.take(k)),
    decreases k,
{
    if k == 0 {
        lemma_zero_value(s);
    } else {
        lemma_le_value_trailing_zeros(s.drop_first(), k - 1);
        assert(s.take(k).drop_first() == s.drop_first().take(k - 1));
    }
}

proof fn lemma_zero_value(s: Seq<u8>)
    requires
        forall|i: int| 0 <= i < s.len() ==> s[i] == 0,
    ensures
        le_value(s) == 0,
    decreases s.len(),
{
    if s.len() > 0 {
        lemma_zero_value(s.drop_first());
    }
}

proof fn lemma_le_value_pad(s: Seq<u8>, t: Seq<u8>)
    requires
        s.len() <= t.len(),
        forall|i: int| 0 <= i < s.len() ==> t[i] == s[i],
        forall|i: int| s.len() <= i < t.len() ==> t[i] == 0,
    ensures
        le_value(t) == le_value(s),
{
    lemma_le_value_trailing_zeros(t, s.len() as int);
    assert(t.take(s.len() as int) == s);
}

/// What reading a decimal numeral `s` gives: an error for a string that is
/// not a numeral, an error for a number not below the modulus, else the
/// element of that value.
pub open spec fn from_decimal_spec(s: Seq<char>, r: Result<Fe, DecimalError>) -> bool {
    &&& !biguint_decimal_ok(s) <==> r == Err::<Fe, DecimalError>(DecimalError::InvalidNumber)
    &&& biguint_decimal_ok(s) && biguint_decimal_value(s) >= modulus() <==> r == Err::<Fe, DecimalError>(
        DecimalError::NotInField,
    )
    &&& r matches Ok(x) ==> x@ == biguint_decimal_value(s)
}

/// Reads a public fact hash written as a decimal numeral.
pub fn fact_hash_from_decimal(s: &str) -> (r: Result<Fe, DecimalError>)
    ensures
        from_decimal_spec(s@, r),
{
    let b = match biguint_parse_decimal(s) {
        Some(b) => b,
        None => {
            return Err(DecimalError::InvalidNumber);
        },
    };
    let n = b.len();
    let mut i: usize = 32;
    while i < n
        invariant
            32 <= i,
            n == b.len(),
            biguint_decimal_ok(s@),
            le_value(b@) == biguint_decimal_value(s@),
            forall|j: int| 32 <= j < i ==> b@[j] == 0,
        decreases n - i,
    {
        if b[i] != 0 {
            proof {
                lemma_le_value_ge(b@, i as int);
                assert(crate::field::pow256(i as nat) >= modulus()) by {
                    lemma_pow256_32_ge_modulus(i as nat);
                }
            }
            return Err(DecimalError::NotInField);
        }
        i = i + 1;
    }
    let mut bytes = [0u8; 32];
    let mut k: usize = 0;
    while k < 32 && k < n
        invariant
            k <= 32,
            k <= n,
            n == b.len(),
            forall|j: int| 0 <= j < k ==> bytes@[j] == b@[j],
            forall|j: int| k <= j < 32 ==> bytes@[j] == 0,
        decreases 32 - k,
    {
        bytes[k] = b[k];
        k = k + 1;
    }
    proof {
        if n <= 32 {
            lemma_le_value_pad(b@, bytes@);
        } else {
            lemma_le_value_trailing_zeros(b@, 32);
            assert(b@.take(32) == bytes@);
        }
    }
    match fe_from_repr(bytes) {
        Some(x) => Ok(x),
        None => Err(DecimalError::NotInField),
    }
}

/// A non-zero byte at position `i` makes the value at least 256^i.
proof fn lemma_le_value_ge(s: Seq<u8>, i: int)
    requires
        0 <= i < s.len(),
        s[i] != 0,
    ensures
        le_value(s) >= crate::field::pow256(i as nat),
    decreases i,
{
    if i > 0 {
        lemma_le_value_ge(s.drop_first(), i - 1);
    }
}

proof fn lemma_pow256_32_ge_modulus(i: nat)
    requires
        i >= 32,
    ensures
        crate::field::pow256(i) >= modulus(),
{
    assert(crate::field::pow256(32) > modulus()) by {
        reveal_with_fuel(crate::field::pow256, 33);
    }
    crate::hashing::lemma_pow256_mono(32, i);
}

/// The standard base64 alphabet.
pub open spec fn b64_char(v: nat) -> char {
    if v < 26 {
        (v + 65) as char
    } else if v < 52 {
        (v - 26 + 97) as char
    } else if v < 62 {
        (v - 52 + 48) as char
    } else if v == 62 {
        '+'
    } else {
        '/'
    }
}

/// Standard base64 with `=` padding (RFC 4648, section 4).
pub open spec fn b64_encode(b: Seq<u8>) -> Seq<char>
    decreases b.len(),
{
    if b.len() == 0 {
        seq![]
    } else if b.len() == 1 {
        seq![b64_char(b[0] as nat / 4), b64_char((b[0] as nat % 4) * 16), '=', '=']
    } else if b.len() == 2 {
        seq![
            b64_char(b[0] as nat / 4),
            b64_char((b[0] as nat % 4) * 16 + b[1] as nat / 16),
            b64_char((b[1] as nat % 16) * 4),
            '=',
        ]
    } else {
        seq![
            b64_char(b[0] as nat / 4),
            b64_char((b[0] as nat % 4) * 16 + b[1] as nat / 16),
            b64_char((b[1] as nat % 16) * 4 + b[2] as nat / 64),
            b64_char(b[2] as nat % 64),
        ] + b64_encode(b.skip(3))
    }
}

/// `base64::engine::general_purpose::STANDARD.encode`.
#[verifier::external_body]
pub(crate) fn base64_encode(bytes: &[u8]) -> (r: String)
    ensures
        r@ == b64_encode(bytes@),
{
    base64::engine::general_purpose::STANDARD.encode(bytes)
}

/// `base64::engine::general_purpose::STANDARD.decode`: with canonical padding
/// required and trailing bits refused, it accepts exactly the standard
/// encodings and gives back the bytes they encode.
#[verifier::external_body]
pub(crate) fn base64_decode(s: &str) -> (r: Option<Vec<u8>>)
    ensures
        r matches Some(b) ==> b64_encode(b@) == s@,
        r is None ==> forall|b: Seq<u8>| b64_encode(b) != s@,
{
    base64::engine::general_purpose::STANDARD.decode(s).ok()
}

/// The instance columns of several circuits, one after the other.
pub open spec fn columns_flat(instances: Seq<Vec<Vec<Fe>>>) -> Seq<Vec<Fe>>
    decreases instances.len(),
{
    if instances.len() == 0 {
        Seq::empty()
    } else {
        columns_flat(instances.drop_last()) + instances.last()@
    }
}

/// The decimal numerals of a column.
fn column_decimals(col: &Vec<Fe>) -> (r: Vec<String>)
    ensures
        r@.len() == col@.len(),
        forall|j: int| 0 <= j < r@.len() ==> (#[trigger] r@[j])@ == decimal(col@[j]@),
{
    let mut out: Vec<String> = Vec::new();
    let mut j: usize = 0;
    while j < col.len()
        invariant
            j <= col@.len(),
            out@.len() == j,
            forall|k: int| 0 <= k < j ==> (#[trigger] out@[k])@ == decimal(col@[k]@),
        decreases col@.len() - j,
    {
        out.push(fe_to_decimal(&col[j]));
        j = j + 1;
    }
    out
}

/// The stored form of a proof: its bytes in standard base64, and every
/// instance column of every circuit as decimal numerals, in order.
pub fn proof_entry(proof_bytes: &[u8], instances: &Vec<Vec<Vec<Fe>>>) -> (e: ProofEntry)
    ensures
        e.proof_b64@ == b64_encode(proof_bytes@),
        e.inputs_b64@.len() == columns_flat(instances@).len(),
        forall|i: int|
            0 <= i < e.inputs_b64@.len() ==> (#[trigger] e.inputs_b64@[i])@.len() == columns_flat(instances@)[i]@.len()
                && forall|j: int|
                0 <= j < e.inputs_b64@[i]@.len() ==> (#[trigger] e.inputs_b64@[i]@[j])@ == decimal(
                    columns_flat(instances@)[i]@[j]@,
                ),
{
    let mut inputs: Vec<Vec<String>> = Vec::new();
    let mut c: usize = 0;
    assert(instances@.take(0) =~= Seq::<Vec<Vec<Fe>>>::empty());
    while c < instances.len()
        invariant
            c <= instances@.len(),
            inputs@.len() == columns_flat(instances@.take(c as int)).len(),
            forall|i: int|
                0 <= i < inputs@.len() ==> (#[trigger] inputs@[i])@.len() == columns_flat(instances@.take(c as int))[i]@.len()
                    && forall|j: int|
                    0 <= j < inputs@[i]@.len() ==> (#[trigger] inputs@[i]@[j])@ == decimal(
                        columns_flat(instances@.take(c as int))[i]@[j]@,
                    ),
        decreases instances@.len() - c,
    {
        assert(instances@.take(c + 1).drop_last() =~= instances@.take(c as int));
        let ghost before = columns_flat(instances@.take(c as int));
        let ghost after = columns_flat(instances@.take(c + 1));
        assert(after =~= before + instances@[c as int]@);
        let mut k: usize = 0;
        while k < instances[c].len()
            invariant
                c < instances@.len(),
                k <= instances@[c as int]@.len(),
                after == before + instances@[c as int]@,
                inputs@.len() == before.len() + k,
                forall|i: int|
                    0 <= i < inputs@.len() ==> (#[trigger] inputs@[i])@.len() == after[i]@.len() && forall|j: int|
                        0 <= j < inputs@[i]@.len() ==> (#[trigger] inputs@[i]@[j])@ == decimal(after[i]@[j]@),
            decreases instances@[c as int]@.len() - k,
        {
            let d = column_decimals(&instances[c][k]);
            inputs.push(d);
            k = k + 1;
        }
        c = c + 1;
    }
    assert(instances@.take(instances@.len() as int) =~= instances@);
    ProofEntry { proof_b64: base64_encode(proof_bytes), inputs_b64: inputs }
}

/// The proof bytes of stored proofs: each text decoded from standard base64,
/// or nothing when some text is not a standard encoding.
pub fn decode_proofs(texts: &Vec<String>) -> (r: Option<Vec<Vec<u8>>>)
    ensures
        r matches Some(v) ==> v@.len() == texts@.len() && forall|i: int|
            0 <= i < v@.len() ==> b64_encode((#[trigger] v@[i])@) == texts@[i]@,
        r is None ==> exists|i: int|
            0 <= i < texts@.len() && forall|b: Seq<u8>| b64_encode(b) != (#[trigger] texts@[i])@,
{
    let mut out: Vec<Vec<u8>> = Vec::new();
    let mut i: usize = 0;
    while i < texts.len()
        invariant
            i <= texts@.len(),
            out@.len() == i,
            forall|k: int| 0 <= k < i ==> b64_encode((#[trigger] out@[k])@) == texts@[k]@,
        decreases texts@.len() - i,
    {
        match base64_decode(texts[i].as_str()) {
            Some(b) => out.push(b),
            None => {
                assert(forall|b: Seq<u8>| b64_encode(b) != texts@[i as int]@);
                return None;
            },
        }
        i = i + 1;
    }
    Some(out)
}

/// Every character of a decimal numeral is a digit, and its digits give
/// back the number.
proof fn lemma_decimal_digits(n: nat)
    ensures
        decimal(n).len() > 0,
        forall|i: int| 0 <= i < decimal(n).len() ==> is_digit(#[trigger] decimal(n)[i]),
        digits_value(decimal(n)) == n,
    decreases n,
{
    if n >= 10 {
        lemma_decimal_digits(n / 10);
        let d = decimal(n / 10);
        assert(decimal(n) == d.push(digit_char(n % 10)));
        assert forall|i: int| 0 <= i < decimal(n).len() implies is_digit(#[trigger] decimal(n)[i]) by {
            if i < d.len() {
                assert(decimal(n)[i] == d[i]);
            }
        }
        assert(decimal(n).drop_last() =~= d);
        assert((digit_char(n % 10) as u32) - 48 == n % 10);
        assert(decimal(n).last() == digit_char(n % 10));
        assert(digits_value(decimal(n)) == digits_value(d) * 10 + n % 10);
        assert((n / 10) * 10 + n % 10 == n) by {
            vstd::arithmetic::div_mod::lemma_fundamental_div_mod(n as int, 10);
        }
    } else {
        assert((digit_char(n) as u32) - 48 == n);
        assert(decimal(n).drop_last() =~= Seq::<char>::empty());
        assert(decimal(n).last() == digit_char(n));
        assert(digits_value(decimal(n).drop_last()) == 0);
        assert(digits_value(decimal(n)) == 0 * 10 + n);
    }
}

/// Dropping underscores keeps a sequence of digits.
proof fn lemma_filter_digits(s: Seq<char>)
    requires
        forall|i: int| 0 <= i < s.len() ==> is_digit(#[trigger] s[i]),
    ensures
        s.filter(|c: char| c != '_') == s,
    decreases s.len(),
{
    reveal(Seq::filter);
    if s.len() > 0 {
        lemma_filter_digits(s.drop_last());
        assert(is_digit(s.last()));
        assert(s.drop_last().push(s.last()) =~= s);
    }
}

/// Reading back the decimal numeral written for a field element gives the
/// element: `fact_hash_from_decimal(fe_to_decimal(x))` is `Ok(x)`.
pub proof fn law_decimal_round_trip(x: Fe, r: Result<Fe, DecimalError>)
    requires
        from_decimal_spec(decimal(x@), r),
    ensures
        r matches Ok(y) && y@ == x@,
{
    let s = decimal(x@);
    lemma_decimal_digits(x@);
    assert(is_digit(s[0]));
    assert(biguint_body(s) == s);
    lemma_filter_digits(s);
    assert(biguint_decimal_value(s) == x@);
    x.lemma_bound();
    assert(biguint_decimal_ok(s));
    match r {
        Ok(_) => {},
        Err(e) => match e {
            DecimalError::InvalidNumber => {},
            DecimalError::NotInField => {},
        },
    }
}

/// Different values below 64 have different base64 characters, none of
/// them `=`.
proof fn lemma_b64_char(v: nat, w: nat)
    requires
        v < 64,
        w < 64,
    ensures
        b64_char(v) != '=',
        b64_char(v) == b64_char(w) ==> v == w,
{
}

proof fn lemma_b64_group(a0: u8, a1: u8, a2: u8, b0: u8, b1: u8, b2: u8)
    requires
        a0 / 4 == b0 / 4,
        (a0 % 4) * 16 + a1 / 16 == (b0 % 4) * 16 + b1 / 16,
        (a1 % 16) * 4 + a2 / 64 == (b1 % 16) * 4 + b2 / 64,
        a2 % 64 == b2 % 64,
    ensures
        a0 == b0 && a1 == b1 && a2 == b2,
{
    assert(a0 == b0 && a1 == b1 && a2 == b2) by (bit_vector)
        requires
            a0 / 4 == b0 / 4,
            (a0 % 4) * 16 + a1 / 16 == (b0 % 4) * 16 + b1 / 16,
            (a1 % 16) * 4 + a2 / 64 == (b1 % 16) * 4 + b2 / 64,
            a2 % 64 == b2 % 64,
    ;
}

proof fn lemma_b64_pair(a0: u8, a1: u8, b0: u8, b1: u8)
    requires
        a0 / 4 == b0 / 4,
        (a0 % 4) * 16 + a1 / 16 == (b0 % 4) * 16 + b1 / 16,
        (a1 % 16) * 4 == (b1 % 16) * 4,
    ensures
        a0 == b0 && a1 == b1,
{
    assert(a0 == b0 && a1 == b1) by (bit_vector)
        requires
            a0 / 4 == b0 / 4,
            (a0 % 4) * 16 + a1 / 16 == (b0 % 4) * 16 + b1 / 16,
            (a1 % 16) * 4 == (b1 % 16) * 4,
    ;
}

proof fn lemma_b64_single(a0: u8, b0: u8)
    requires
        a0 / 4 == b0 / 4,
        (a0 % 4) * 16 == (b0 % 4) * 16,
    ensures
        a0 == b0,
{
    assert(a0 == b0) by (bit_vector)
        requires
            a0 / 4 == b0 / 4,
            (a0 % 4) * 16 == (b0 % 4) * 16,
    ;
}

/// The shape of an encoding: empty for no bytes, else at least four
/// characters, with `=` in the third place for one byte and in the fourth
/// for two, and no `=` in the first four for three or more.
proof fn lemma_b64_shape(b: Seq<u8>)
    ensures
        b.len() == 0 <==> b64_encode(b).len() == 0,
        b.len() > 0 ==> b64_encode(b).len() >= 4,
        b.len() > 0 ==> (b64_encode(b)[2] == '=' <==> b.len() == 1),
        b.len() > 0 ==> (b64_encode(b)[3] == '=' <==> b.len() <= 2),
{
    if b.len() >= 1 {
        lemma_b64_char(b[0] as nat / 4, 0);
    }
    if b.len() == 1 {
        lemma_b64_char((b[0] as nat % 4) * 16, 0);
    }
    if b.len() == 2 {
        lemma_b64_char((b[1] as nat % 16) * 4, 0);
    }
    if b.len() >= 3 {
        lemma_b64_char((b[1] as nat % 16) * 4 + b[2] as nat / 64, 0);
        lemma_b64_char(b[2] as nat % 64, 0);
    }
}

/// Standard base64 encoding is one to one.
proof fn lemma_b64_injective(a: Seq<u8>, b: Seq<u8>)
    requires
        b64_encode(a) == b64_encode(b),
    ensures
        a == b,
    decreases a.len(),
{
    lemma_b64_shape(a);
    lemma_b64_shape(b);
    if a.len() == 0 {
        assert(b.len() == 0);
        assert(a =~= b);
    } else {
        let ea = b64_encode(a);
        let eb = b64_encode(b);
        assert(ea[0] == eb[0]);
        lemma_b64_char(a[0] as nat / 4, b[0] as nat / 4);
        if a.len() == 1 {
            assert(b.len() == 1);
            lemma_b64_char((a[0] as nat % 4) * 16, (b[0] as nat % 4) * 16);
            lemma_b64_single(a[0], b[0]);
            assert(a =~= b);
        } else if a.len() == 2 {
            assert(b.len() == 2);
            lemma_b64_char((a[0] as nat % 4) * 16 + a[1] as nat / 16, (b[0] as nat % 4) * 16 + b[1] as nat / 16);
            lemma_b64_char((a[1] as nat % 16) * 4, (b[1] as nat % 16) * 4);
            lemma_b64_pair(a[0], a[1], b[0], b[1]);
            assert(a =~= b);
        } else {
            assert(b.len() >= 3);
            assert(ea[1] == eb[1] && ea[2] == eb[2] && ea[3] == eb[3]);
            lemma_b64_char((a[0] as nat % 4) * 16 + a[1] as nat / 16, (b[0] as nat % 4) * 16 + b[1] as nat / 16);
            lemma_b64_char(
                (a[1] as nat % 16) * 4 + a[2] as nat / 64,
                (b[1] as nat % 16) * 4 + b[2] as nat / 64,
            );
            lemma_b64_char(a[2] as nat % 64, b[2] as nat % 64);
            lemma_b64_group(a[0], a[1], a[2], b[0], b[1], b[2]);
            let ra = b64_encode(a.skip(3));
            let rb = b64_encode(b.skip(3));
            assert(ea.skip(4) =~= ra);
            assert(eb.skip(4) =~= rb);
            lemma_b64_injective(a.skip(3), b.skip(3));
            assert(a =~= seq![a[0], a[1], a[2]] + a.skip(3));
            assert(b =~= seq![b[0], b[1], b[2]] + b.skip(3));
        }
    }
}

/// Reading back a stored proof gives the proof bytes: if a text was written
/// as the standard base64 of some bytes, decoding it (as `decode_proofs`
/// does, text by text) can only give those bytes.
pub proof fn law_proof_bytes_round_trip(bytes: Seq<u8>, decoded: Seq<u8>)
    requires
        b64_encode(decoded) == b64_encode(bytes),
    ensures
        decoded == bytes,
{
    lemma_b64_injective(decoded, bytes);
}

/// Decoding never fails on a text that some bytes encode to.
pub proof fn law_encoded_text_decodes(texts: Seq<String>, bytes: Seq<Seq<u8>>, r: Option<Vec<Vec<u8>>>)
    requires
        texts.len() == bytes.len(),
        forall|i: int| 0 <= i < texts.len() ==> (#[trigger] texts[i])@ == b64_encode(bytes[i]),
        r matches Some(v) ==> v@.len() == texts.len() && forall|i: int|
            0 <= i < v@.len() ==> b64_encode((#[trigger] v@[i])@) == texts[i]@,
        r is None ==> exists|i: int| 0 <= i < texts.len() && forall|b: Seq<u8>| b64_encode(b) != (#[trigger] texts[i])@,
    ensures
        r matches Some(v) && v@.len() == bytes.len() && forall|i: int| 0 <= i < bytes.len() ==> (#[trigger] v@[i])@ == bytes[i],
{
    if r is None {
        let i = choose|i: int| 0 <= i < texts.len() && forall|b: Seq<u8>| b64_encode(b) != (#[trigger] texts[i])@;
        assert(b64_encode(bytes[i]) == texts[i]@);
        assert(false);
    }
    let v = r->Some_0;
    assert forall|i: int| 0 <= i < bytes.len() implies (#[trigger] v@[i])@ == bytes[i] by {
        assert(b64_encode(v@[i]@) == texts[i]@);
        lemma_b64_injective(v@[i]@, bytes[i]);
    }
}

/// The value of the salted hash of an issued fact.
pub open spec fn issued_hash_value(f: FactEntry) -> nat {
    poseidon_fold(fact_tokens(f.predicate@, f.args@.map_values(|l: Vec<String>| l@), f.salt@))
}

/// The public fact hashes an issuer publishes: the salted hash of each fact
/// as a decimal numeral, then `"0"` up to `MAX_FACTS_HASHES` entries.
pub fn issued_fact_hashes(facts: &[FactEntry]) -> (r: Vec<String>)
    ensures
        r@.len() == (if facts@.len() < MAX_FACTS_HASHES { MAX_FACTS_HASHES as nat } else { facts@.len() }),
        forall|i: int| 0 <= i < facts@.len() ==> (#[trigger] r@[i])@ == decimal(issued_hash_value(facts@[i])),
        forall|i: int| facts@.len() <= i < r@.len() ==> (#[trigger] r@[i])@ == decimal(0),
{
    let mut out: Vec<String> = Vec::new();
    let mut i: usize = 0;
    while i < facts.len()
        invariant
            i <= facts@.len(),
            out@.len() == i,
            forall|k: int| 0 <= k < i ==> (#[trigger] out@[k])@ == decimal(issued_hash_value(facts@[k])),
        decreases facts@.len() - i,
    {
        let f = &facts[i];
        let h = fact_hash_native_salted(f.predicate.as_str(), &f.args, f.salt.as_str());
        out.push(fe_to_decimal(&h));
        i = i + 1;
    }
    let zero = Fe::zero();
    while out.len() < MAX_FACTS_HASHES
        invariant
            facts@.len() <= out@.len(),
            facts@.len() >= MAX_FACTS_HASHES ==> out@.len() == facts@.len(),
            facts@.len() < MAX_FACTS_HASHES ==> out@.len() <= MAX_FACTS_HASHES,
            zero@ == 0,
            forall|k: int| 0 <= k < facts@.len() ==> (#[trigger] out@[k])@ == decimal(issued_hash_value(facts@[k])),
            forall|k: int| facts@.len() <= k < out@.len() ==> (#[trigger] out@[k])@ == decimal(0),
        decreases MAX_FACTS_HASHES - out@.len(),
    {
        out.push(fe_to_decimal(&zero));
    }
    out
}

} // verus!
