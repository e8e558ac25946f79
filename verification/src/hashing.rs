//! Mapping strings and token lists to field elements: number-or-hash
//! encoding, Poseidon folds, random linear combinations and Fiat-Shamir
//! coefficients.
use vstd::prelude::*;
use vstd::utf8::encode_utf8;
use blake2::Digest;
use halo2_gadgets::poseidon::primitives::{ConstantLength, Hash as PoseidonHash, P128Pow5T3};
use halo2_proofs::pasta::Fp;
use halo2_proofs::pasta::group::ff::PrimeField;
use crate::field::{Fe, modulus, le_value, limbs_value, pow256, lemma_le_value_bound, fe_from_u64, fe_from_raw, fe_from_uniform_bytes, fe_add, fe_mul, fadd, fmul, vals};
use crate::params::{MAX_ARITY, MAX_PRED_LIST};
use crate::text::{trim, strip_both, parse_u64_spec, trim_exec, strip_both_exec, parse_u64_exec, string_of, chars_of};

verus! {

/// The BLAKE3 digest of `input`.
pub uninterp spec fn blake3_digest(input: Seq<u8>) -> Seq<u8>;

/// `blake3::hash`: the 32-byte BLAKE3 digest of `data`.
#[verifier::external_body]
fn blake3_hash(data: &[u8]) -> (r: [u8; 32])
    ensures
        r@ == blake3_digest(data@),
{
    *blake3::hash(data).as_bytes()
}

/// `le_value` splits at any position.
pub proof fn lemma_le_value_split(s: Seq<u8>, k: int)
    requires
        0 <= k <= s.len(),
    ensures
        le_value(s) == le_value(s.take(k)) + pow256(k as nat) * le_value(s.skip(k)),
    decreases k,
{
    if k == 0 {
        assert(s.skip(0) == s);
        assert(s.take(0).len() == 0);
        assert(le_value(s.take(0)) == 0);
        assert(pow256(0) == 1);
        assert(pow256(0) * le_value(s) == le_value(s)) by (nonlinear_arith)
            requires
                pow256(0) == 1,
        ;
    } else {
        let t = s.drop_first();
        lemma_le_value_split(t, k - 1);
        assert(s.take(k).drop_first() == t.take(k - 1));
        assert(t.skip(k - 1) == s.skip(k));
        assert(s.take(k)[0] == s[0]);
        assert(le_value(s.take(k)) == s[0] as nat + 256 * le_value(t.take(k - 1)));
        let a = le_value(t.take(k - 1));
        let b = le_value(s.skip(k));
        assert(256 * (a + pow256((k - 1) as nat) * b) == 256 * a + pow256(k as nat) * b)
            by (nonlinear_arith)
            requires
                pow256(k as nat) == 256 * pow256((k - 1) as nat),
        ;
        assert(le_value(t) == a + pow256((k - 1) as nat) * b);
        assert(le_value(s) == s[0] as nat + 256 * le_value(t));
    }
}

/// The 64-bit limb made of bytes `8k .. 8k + 8` of `b`.
fn limb_at(b: &[u8; 32], k: usize) -> (r: u64)
    requires
        k < 4,
    ensures
        r as nat == le_value(b@.subrange(8 * k as int, 8 * k + 8)),
{
    let mut acc: u64 = 0;
    let mut j: usize = 8;
    proof {
        assert(b@.subrange(8 * k + 8, 8 * k + 8).len() == 0);
    }
    while j > 0
        invariant
            k < 4,
            j <= 8,
            acc as nat == le_value(b@.subrange(8 * k + j, 8 * k + 8)),
        decreases j,
    {
        let x = b[8 * k + j - 1];
        proof {
            let t = b@.subrange(8 * k + j - 1, 8 * k + 8);
            assert(t.drop_first() == b@.subrange(8 * k + j, 8 * k + 8));
            lemma_le_value_bound(t);
            assert(pow256(t.len()) <= 0x1_0000_0000_0000_0000) by {
                reveal_with_fuel(pow256, 9);
                lemma_pow256_mono(t.len(), 8);
            }
        }
        acc = acc * 256 + x as u64;
        j = j - 1;
    }
    acc
}

/// `pow256` is monotone.
pub proof fn lemma_pow256_mono(a: nat, b: nat)
    requires
        a <= b,
    ensures
        pow256(a) <= pow256(b),
    decreases b,
{
    if a < b {
        lemma_pow256_mono(a, (b - 1) as nat);
    }
}

/// `u64::from_le_bytes` on each 8-byte quarter of `b`.
pub fn limbs_from_le_bytes(b: &[u8; 32]) -> (r: [u64; 4])
    ensures
        limbs_value(r@) == le_value(b@),
{
    let l0 = limb_at(b, 0);
    let l1 = limb_at(b, 1);
    let l2 = limb_at(b, 2);
    let l3 = limb_at(b, 3);
    let r = [l0, l1, l2, l3];
    proof {
        let s = b@;
        let m: nat = 0x1_0000_0000_0000_0000;
        assert(pow256(8) == m) by {
            reveal_with_fuel(pow256, 9);
        }
        let s1 = s.skip(8);
        let s2 = s1.skip(8);
        let s3 = s2.skip(8);
        lemma_le_value_split(s, 8);
        lemma_le_value_split(s1, 8);
        lemma_le_value_split(s2, 8);
        lemma_le_value_split(s3, 8);
        assert(s.take(8) == s.subrange(0, 8));
        assert(s1.take(8) == s.subrange(8, 16));
        assert(s2.take(8) == s.subrange(16, 24));
        assert(s3.take(8) == s.subrange(24, 32));
        assert(s3.skip(8).len() == 0);
        assert(le_value(s3.skip(8)) == 0);
        assert(le_value(s3) == l3 as nat);
        assert(le_value(s2) == l2 as nat + m * l3 as nat);
        assert(le_value(s1) == l1 as nat + m * le_value(s2));
        assert(le_value(s) == l0 as nat + m * le_value(s1));
        assert(r@.drop_first() == seq![l1, l2, l3]);
        assert(seq![l1, l2, l3].drop_first() == seq![l2, l3]);
        assert(seq![l2, l3].drop_first() == seq![l3]);
        assert(seq![l3].drop_first().len() == 0);
        assert(limbs_value(seq![l3]) == l3 as nat + m * limbs_value(seq![l3].drop_first()));
        assert(limbs_value(seq![l3]) == l3 as nat);
        assert(limbs_value(seq![l2, l3]) == l2 as nat + m * limbs_value(seq![l3]));
        assert(limbs_value(seq![l1, l2, l3]) == l1 as nat + m * limbs_value(seq![l2, l3]));
        assert(limbs_value(r@) == l0 as nat + m * limbs_value(seq![l1, l2, l3]));
    }
    r
}

/// The string that `to_fp_value` encodes: trimmed of whitespace, then of
/// single quotes.
pub open spec fn normalized_atom(s: Seq<char>) -> Seq<char> {
    strip_both(trim(s), '\'')
}

/// The field value of an atom: a `u64` numeral stands for itself, anything
/// else for its BLAKE3 digest read as a little-endian integer.
pub open spec fn to_fp_spec(s: Seq<char>) -> nat {
    let t = normalized_atom(s);
    match parse_u64_spec(t) {
        Some(v) => v as nat % modulus(),
        None => le_value(blake3_digest(encode_utf8(t))) % modulus(),
    }
}

/// The field value of an atom given as characters.
pub fn to_fp_chars(s: &Vec<char>) -> (r: Fe)
    ensures
        r@ == to_fp_spec(s@),
{
    let t0 = trim_exec(s);
    let t = strip_both_exec(&t0, '\'');
    match parse_u64_exec(&t) {
        Some(v) => fe_from_u64(v),
        None => {
            let st = string_of(&t);
            let bytes = st.as_str().as_bytes();
            let h = blake3_hash(bytes);
            let limbs = limbs_from_le_bytes(&h);
            fe_from_raw(limbs)
        },
    }
}

/// Maps an atom to a field element: numerals to their value, other atoms to
/// their BLAKE3 digest reduced modulo p.
pub fn to_fp_value(s: &str) -> (r: Fe)
    ensures
        r@ == to_fp_spec(s@),
{
    let v = chars_of(s);
    to_fp_chars(&v)
}

/// The value that `std::collections::hash_map::DefaultHasher::new()` gives
/// after hashing the string `s`.
pub uninterp spec fn default_hash_of_str(s: Seq<char>) -> u64;

/// `Hash::hash` of a `str` into a fresh `DefaultHasher`, then `finish`.
/// `DefaultHasher::new()` uses fixed keys, so the value depends on the string
/// alone (for one build of the standard library).
#[verifier::external_body]
fn default_hash_str(s: &str) -> (r: u64)
    ensures
        r == default_hash_of_str(s@),
{
    let mut h = std::collections::hash_map::DefaultHasher::new();
    std::hash::Hash::hash(s, &mut h);
    std::hash::Hasher::finish(&h)
}

/// Maps a string to a field element through the standard library hasher.
pub fn str_to_fp(s: &str) -> (r: Fe)
    ensures
        r@ == default_hash_of_str(s@) as nat % modulus(),
{
    fe_from_u64(default_hash_str(s))
}

/// The sum of the bytes of `b`, wrapping at 2^64.
pub open spec fn byte_sum(b: Seq<u8>) -> nat
    decreases b.len(),
{
    if b.len() == 0 {
        0
    } else {
        (byte_sum(b.drop_last()) + b.last() as nat) % 0x1_0000_0000_0000_0000
    }
}

/// Maps a string to the field element of the wrapping sum of its UTF-8 bytes.
pub fn str_to_fp_bytesum(s: &str) -> (r: Fe)
    ensures
        r@ == byte_sum(encode_utf8(s@)) % modulus(),
{
    let b = s.as_bytes();
    let mut acc: u64 = 0;
    let mut i: usize = 0;
    while i < b.len()
        invariant
            i <= b.len(),
            b@ == encode_utf8(s@),
            acc as nat == byte_sum(b@.take(i as int)),
        decreases b.len() - i,
    {
        assert(b@.take(i + 1).drop_last() == b@.take(i as int));
        acc = acc.wrapping_add(b[i] as u64);
        i = i + 1;
    }
    assert(b@.take(b.len() as int) == b@);
    fe_from_u64(acc)
}

/// The BLAKE2s-256 digest of `input`.
pub uninterp spec fn blake2s_digest(input: Seq<u8>) -> Seq<u8>;

/// The little-endian bytes of `i`, one per byte of `usize`.
pub open spec fn usize_le_bytes(i: usize) -> Seq<u8> {
    Seq::new((usize::BITS / 8) as nat, |j: int| ((i as nat / pow256(j as nat)) % 256) as u8)
}

/// BLAKE2s-256 over `seed` followed by `i.to_le_bytes()`, fed to one hasher
/// in two `update` calls (which the `Digest` trait documents as hashing the
/// concatenation).
#[verifier::external_body]
fn blake2s_seed_index(seed: &[u8], i: usize) -> (r: [u8; 32])
    ensures
        r@ == blake2s_digest(seed@ + usize_le_bytes(i)),
{
    let mut h = blake2::Blake2s256::new();
    h.update(seed);
    h.update(i.to_le_bytes());
    h.finalize().into()
}

/// The `i`-th Fiat-Shamir coefficient for `seed`.
pub open spec fn fs_coeff_spec(seed: Seq<char>, i: usize) -> nat {
    le_value(blake2s_digest(encode_utf8(seed) + usize_le_bytes(i))) % modulus()
}

/// `m` deterministic coefficients derived from `seed`: the BLAKE2s digest of
/// the seed and the index, zero-extended to 64 bytes and reduced modulo p.
pub fn fs_coeffs(seed: &str, m: usize) -> (r: Vec<Fe>)
    ensures
        r.len() == m,
        forall|i: int| 0 <= i < m ==> #[trigger] r@[i]@ == fs_coeff_spec(seed@, i as usize),
{
    let mut out: Vec<Fe> = Vec::new();
    let mut i: usize = 0;
    while i < m
        invariant
            i <= m,
            out.len() == i,
            forall|j: int| 0 <= j < i ==> #[trigger] out@[j]@ == fs_coeff_spec(seed@, j as usize),
        decreases m - i,
    {
        let h = blake2s_seed_index(seed.as_bytes(), i);
        let mut wide = [0u8; 64];
        let mut k: usize = 0;
        while k < 32
            invariant
                k <= 32,
                forall|j: int| 0 <= j < k ==> wide@[j] == h@[j],
                forall|j: int| 32 <= j < 64 ==> wide@[j] == 0,
            decreases 32 - k,
        {
            wide[k] = h[k];
            k = k + 1;
        }
        proof {
            lemma_le_value_split(wide@, 32);
            assert(wide@.take(32) == h@);
            lemma_le_value_zeros_tail(wide@.skip(32));
        }
        let x = fe_from_uniform_bytes(&wide);
        out.push(x);
        i = i + 1;
    }
    out
}

proof fn lemma_le_value_zeros_tail(s: Seq<u8>)
    requires
        forall|i: int| 0 <= i < s.len() ==> s[i] == 0,
    ensures
        le_value(s) == 0,
    decreases s.len(),
{
    if s.len() > 0 {
        lemma_le_value_zeros_tail(s.drop_first());
    }
}

/// The Poseidon (P128Pow5T3, width 3, rate 2, constant length 2) hash of the
/// pair `(a, b)`.
pub uninterp spec fn poseidon2(a: nat, b: nat) -> nat;

/// `halo2_gadgets::poseidon::primitives::Hash::<Fp, P128Pow5T3,
/// ConstantLength<2>, 3, 2>::init().hash([a, b])`.
#[verifier::external_body]
pub(crate) fn poseidon_hash2(a: &Fe, b: &Fe) -> (r: Fe)
    ensures
        r@ == poseidon2(a@, b@),
{
    let x = Fp::from_repr(a.to_bytes()).unwrap();
    let y = Fp::from_repr(b.to_bytes()).unwrap();
    let h = PoseidonHash::<Fp, P128Pow5T3, ConstantLength<2>, 3, 2>::init().hash([x, y]);
    crate::field::fe_from_repr(h.to_repr()).unwrap()
}

/// The left fold of `poseidon2` over `v`, starting from zero.
pub open spec fn poseidon_fold(v: Seq<nat>) -> nat
    decreases v.len(),
{
    if v.len() == 0 {
        0
    } else {
        poseidon2(poseidon_fold(v.drop_last()), v.last())
    }
}

/// Folds the values with Poseidon: `acc = 0; acc = H(acc, v)` for each `v`.
pub fn poseidon_hash_list_native(values: &[Fe]) -> (r: Fe)
    ensures
        r@ == poseidon_fold(vals(values@)),
{
    let mut acc = Fe::zero();
    let mut i: usize = 0;
    while i < values.len()
        invariant
            i <= values.len(),
            acc@ == poseidon_fold(vals(values@.take(i as int))),
        decreases values.len() - i,
    {
        proof {
            let t = values@.take(i + 1);
            assert(vals(t).drop_last() == vals(values@.take(i as int)));
            assert(vals(t).last() == values@[i as int]@);
        }
        acc = poseidon_hash2(&acc, &values[i]);
        i = i + 1;
    }
    assert(values@.take(values.len() as int) == values@);
    acc
}

/// The tokens that a salted fact hashes: the name, then `MAX_ARITY` argument
/// lists of `MAX_PRED_LIST` entries each (missing entries and lists padded
/// with zero, as the goal encoder pads them), then the salt.
pub open spec fn fact_tokens(name: Seq<char>, args: Seq<Seq<String>>, salt: Seq<char>) -> Seq<nat> {
    seq![to_fp_spec(name)] + fact_arg_tokens(args) + seq![to_fp_spec(salt)]
}

/// The argument part of `fact_tokens`: entry `j` of list `i` at position
/// `i * MAX_PRED_LIST + j`, zero where the list or entry is missing.
pub open spec fn fact_arg_tokens(args: Seq<Seq<String>>) -> Seq<nat> {
    Seq::new(
        (MAX_ARITY * MAX_PRED_LIST) as nat,
        |k: int|
            {
                let i = k / (MAX_PRED_LIST as int);
                let j = k % (MAX_PRED_LIST as int);
                if i < args.len() && j < args[i].len() {
                    to_fp_spec(args[i][j]@)
                } else {
                    0
                }
            },
    )
}

/// Hash of a fact with its salt, as the fact-checking circuit computes it.
pub fn fact_hash_native_salted(name: &str, args: &Vec<Vec<String>>, salt: &str) -> (r: Fe)
    ensures
        r@ == poseidon_fold(fact_tokens(name@, args@.map_values(|l: Vec<String>| l@), salt@)),
{
    let ghost a = args@.map_values(|l: Vec<String>| l@);
    let mut tokens: Vec<Fe> = Vec::new();
    tokens.push(to_fp_value(name));
    let zero = Fe::zero();
    let mut i: usize = 0;
    while i < MAX_ARITY
        invariant
            i <= MAX_ARITY,
            zero@ == 0,
            a == args@.map_values(|l: Vec<String>| l@),
            tokens.len() == 1 + i * MAX_PRED_LIST,
            tokens@[0]@ == to_fp_spec(name@),
            forall|k: int|
                0 <= k < i * MAX_PRED_LIST ==> #[trigger] tokens@[k + 1]@ == fact_arg_tokens(a)[k],
        decreases MAX_ARITY - i,
    {
        let mut j: usize = 0;
        while j < MAX_PRED_LIST
            invariant
                i < MAX_ARITY,
                j <= MAX_PRED_LIST,
                zero@ == 0,
                a == args@.map_values(|l: Vec<String>| l@),
                tokens.len() == 1 + i * MAX_PRED_LIST + j,
                tokens@[0]@ == to_fp_spec(name@),
                forall|k: int|
                    0 <= k < i * MAX_PRED_LIST + j ==> #[trigger] tokens@[k + 1]@ == fact_arg_tokens(a)[k],
            decreases MAX_PRED_LIST - j,
        {
            let ghost k = (i * MAX_PRED_LIST + j) as int;
            assert(k / (MAX_PRED_LIST as int) == i as int && k % (MAX_PRED_LIST as int) == j as int)
                by (nonlinear_arith)
                requires
                    k == i * 4 + j,
                    0 <= j < 4,
                    MAX_PRED_LIST == 4,
            ;
            let ghost before = tokens@;
            if i < args.len() && j < args[i].len() {
                let t = to_fp_value(args[i][j].as_str());
                tokens.push(t);
                assert(a[i as int][j as int] == args@[i as int]@[j as int]);
            } else {
                tokens.push(zero);
            }
            assert forall|q: int| 0 <= q < i * MAX_PRED_LIST + j + 1 implies #[trigger] tokens@[q + 1]@
                == fact_arg_tokens(a)[q] by {
                if q < k {
                    assert(tokens@[q + 1] == before[q + 1]);
                }
            }
            j = j + 1;
        }
        i = i + 1;
    }
    tokens.push(to_fp_value(salt));
    proof {
        let spec_tokens = fact_tokens(name@, a, salt@);
        assert forall|q: int| 0 <= q < vals(tokens@).len() implies vals(tokens@)[q] == spec_tokens[q] by {
            if 1 <= q < 17 {
                assert(tokens@[(q - 1) + 1]@ == fact_arg_tokens(a)[q - 1]);
            }
        }
        assert(vals(tokens@) =~= spec_tokens);
    }
    poseidon_hash_list_native(tokens.as_slice())
}

/// Hash of a term given as field elements: the Poseidon fold of the name
/// followed by the arguments.
pub fn fact_hash_native_term(name: &Fe, args: &[Fe]) -> (r: Fe)
    ensures
        r@ == poseidon_fold(seq![name@] + vals(args@)),
{
    let mut tokens: Vec<Fe> = Vec::new();
    tokens.push(*name);
    let mut i: usize = 0;
    while i < args.len()
        invariant
            i <= args.len(),
            vals(tokens@) == seq![name@] + vals(args@.take(i as int)),
        decreases args.len() - i,
    {
        let ghost before = tokens@;
        tokens.push(args[i]);
        assert(vals(tokens@) =~= vals(before).push(args@[i as int]@));
        assert(vals(args@.take(i + 1)) =~= vals(args@.take(i as int)).push(args@[i as int]@));
        assert(vals(tokens@) =~= seq![name@] + vals(args@.take(i + 1)));
        i = i + 1;
    }
    assert(args@.take(args.len() as int) == args@);
    poseidon_hash_list_native(tokens.as_slice())
}

/// The random linear combination `(((t0) a + t1) a + ...) a + t(n-1)`.
pub open spec fn rlc_spec(v: Seq<nat>, alpha: nat) -> nat
    decreases v.len(),
{
    if v.len() == 0 {
        0
    } else {
        fadd(fmul(rlc_spec(v.drop_last(), alpha), alpha), v.last())
    }
}

/// The random linear combination of the tokens with the fixed `alpha`, as the
/// RLC chip accumulates it.
pub fn rlc_encode_cpu(tokens: &[Fe], alpha: &Fe) -> (r: Fe)
    ensures
        r@ == rlc_spec(vals(tokens@), alpha@),
{
    let mut acc = Fe::zero();
    let mut i: usize = 0;
    while i < tokens.len()
        invariant
            i <= tokens.len(),
            acc@ == rlc_spec(vals(tokens@.take(i as int)), alpha@),
        decreases tokens.len() - i,
    {
        proof {
            let t = tokens@.take(i + 1);
            assert(vals(t).drop_last() == vals(tokens@.take(i as int)));
            assert(vals(t).last() == tokens@[i as int]@);
        }
        let m = fe_mul(&acc, alpha);
        acc = fe_add(&m, &tokens[i]);
        i = i + 1;
    }
    assert(tokens@.take(tokens.len() as int) == tokens@);
    acc
}

} // verus!
