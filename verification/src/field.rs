//! Elements of the Pallas base field, held as their canonical little-endian
//! 32-byte encoding, with the arithmetic delegated to `pasta_curves` (as
//! re-exported by `halo2_proofs`).
use vstd::prelude::*;
use halo2_proofs::pasta::Fp;
use halo2_proofs::pasta::group::ff::{FromUniformBytes, PrimeField};

verus! {

/// The modulus p of the Pallas base field.
pub open spec fn modulus() -> nat {
    0x40000000000000000000000000000000224698fc094cf91b992d30ed00000001nat
}

/// The unsigned integer whose little-endian base-256 digits are `s`.
pub open spec fn le_value(s: Seq<u8>) -> nat
    decreases s.len(),
{
    if s.len() == 0 {
        0
    } else {
        s[0] as nat + 256 * le_value(s.drop_first())
    }
}

/// The unsigned integer whose little-endian base-2^64 digits are `l`.
pub open spec fn limbs_value(l: Seq<u64>) -> nat
    decreases l.len(),
{
    if l.len() == 0 {
        0
    } else {
        l[0] as nat + 0x1_0000_0000_0000_0000 * limbs_value(l.drop_first())
    }
}

/// Field addition on canonical values.
pub open spec fn fadd(a: nat, b: nat) -> nat {
    (a + b) % modulus()
}

/// Field subtraction on canonical values.
pub open spec fn fsub(a: nat, b: nat) -> nat {
    ((a as int - b as int) % (modulus() as int)) as nat
}

/// Field multiplication on canonical values.
pub open spec fn fmul(a: nat, b: nat) -> nat {
    (a * b) % modulus()
}

/// Field negation on canonical values.
pub open spec fn fneg(a: nat) -> nat {
    ((0 - a as int) % (modulus() as int)) as nat
}

/// The values of a sequence of field elements.
pub open spec fn vals(s: Seq<Fe>) -> Seq<nat> {
    s.map_values(|x: Fe| x@)
}

/// The value of minus one.
pub open spec fn minus_one() -> nat {
    (modulus() - 1) as nat
}

/// A field element. The bytes are always the canonical encoding, so two
/// elements are equal exactly when their encodings are.
#[derive(Clone, Copy, Debug)]
pub struct Fe {
    bytes: [u8; 32],
}

impl Fe {
    #[verifier::type_invariant]
    spec fn canonical(self) -> bool {
        le_value(self.bytes@) < modulus()
    }
}

impl View for Fe {
    type V = nat;

    /// The canonical integer in `[0, p)` that the element stands for.
    closed spec fn view(&self) -> nat {
        le_value(self.bytes@) % modulus()
    }
}

pub proof fn lemma_le_value_bound(s: Seq<u8>)
    ensures
        le_value(s) < pow256(s.len()),
    decreases s.len(),
{
    if s.len() > 0 {
        lemma_le_value_bound(s.drop_first());
        assert(le_value(s) < pow256(s.len())) by (nonlinear_arith)
            requires
                le_value(s) == s[0] as nat + 256 * le_value(s.drop_first()),
                le_value(s.drop_first()) < pow256((s.len() - 1) as nat),
                pow256(s.len()) == 256 * pow256((s.len() - 1) as nat),
                s[0] < 256,
        ;
    }
}

/// 256 to the power `n`.
pub open spec fn pow256(n: nat) -> nat
    decreases n,
{
    if n == 0 {
        1
    } else {
        256 * pow256((n - 1) as nat)
    }
}

/// Two byte strings of one length with the same little-endian value are equal.
pub proof fn lemma_le_value_injective(s: Seq<u8>, t: Seq<u8>)
    requires
        s.len() == t.len(),
        le_value(s) == le_value(t),
    ensures
        s =~= t,
    decreases s.len(),
{
    if s.len() > 0 {
        let a = le_value(s.drop_first());
        let b = le_value(t.drop_first());
        assert(s[0] as int == t[0] as int && a == b) by (nonlinear_arith)
            requires
                s[0] as int + 256 * a == t[0] as int + 256 * b,
                0 <= s[0] < 256,
                0 <= t[0] < 256,
                a >= 0,
                b >= 0,
        ;
        lemma_le_value_injective(s.drop_first(), t.drop_first());
        assert(s =~= seq![s[0]] + s.drop_first());
        assert(t =~= seq![t[0]] + t.drop_first());
    }
}

proof fn lemma_le_value_zeros(s: Seq<u8>)
    requires
        forall|i: int| 0 <= i < s.len() ==> s[i] == 0,
    ensures
        le_value(s) == 0,
    decreases s.len(),
{
    if s.len() > 0 {
        lemma_le_value_zeros(s.drop_first());
    }
}

impl Fe {
    /// The additive identity.
    pub fn zero() -> (r: Fe)
        ensures
            r@ == 0,
    {
        let bytes = [0u8; 32];
        proof {
            lemma_le_value_zeros(bytes@);
        }
        Fe { bytes }
    }

    /// The multiplicative identity.
    pub fn one() -> (r: Fe)
        ensures
            r@ == 1,
    {
        let mut bytes = [0u8; 32];
        bytes[0] = 1u8;
        proof {
            lemma_le_value_zeros(bytes@.drop_first());
        }
        Fe { bytes }
    }

    /// Every element stands for a value below the modulus.
    pub proof fn lemma_bound(self)
        ensures
            self@ < modulus(),
    {
        vstd::arithmetic::div_mod::lemma_mod_bound(le_value(self.bytes@) as int, modulus() as int);
    }

    /// Field equality, decided on the canonical encodings.
    pub fn equals(&self, other: &Fe) -> (r: bool)
        ensures
            r == (self@ == other@),
    {
        proof {
            use_type_invariant(self);
            use_type_invariant(other);
        }
        let mut i: usize = 0;
        while i < 32
            invariant
                i <= 32,
                le_value(self.bytes@) < modulus(),
                le_value(other.bytes@) < modulus(),
                forall|j: int| 0 <= j < i ==> self.bytes@[j] == other.bytes@[j],
            decreases 32 - i,
        {
            if self.bytes[i] != other.bytes[i] {
                proof {
                    if self@ == other@ {
                        vstd::arithmetic::div_mod::lemma_small_mod(le_value(self.bytes@), modulus());
                        vstd::arithmetic::div_mod::lemma_small_mod(le_value(other.bytes@), modulus());
                        lemma_le_value_injective(self.bytes@, other.bytes@);
                    }
                }
                return false;
            }
            i = i + 1;
        }
        assert(self.bytes@ =~= other.bytes@);
        true
    }

    /// Whether the element is zero.
    pub fn is_zero(&self) -> (r: bool)
        ensures
            r == (self@ == 0),
    {
        let z = Fe::zero();
        self.equals(&z)
    }

    /// The element congruent to `v`.
    pub fn from_u64(v: u64) -> (r: Fe)
        ensures
            r@ == v as nat % modulus(),
    {
        fe_from_u64(v)
    }

    /// The element whose canonical encoding is `bytes`, or nothing when the
    /// encoded integer is not below the modulus.
    pub fn from_bytes(bytes: [u8; 32]) -> (r: Option<Fe>)
        ensures
            r is Some <==> le_value(bytes@) < modulus(),
            r matches Some(x) ==> x@ == le_value(bytes@),
    {
        fe_from_repr(bytes)
    }

    /// The sum modulo p.
    pub fn plus(&self, other: &Fe) -> (r: Fe)
        ensures
            r@ == fadd(self@, other@),
    {
        fe_add(self, other)
    }

    /// The difference modulo p.
    pub fn minus(&self, other: &Fe) -> (r: Fe)
        ensures
            r@ == fsub(self@, other@),
    {
        fe_sub(self, other)
    }

    /// The product modulo p.
    pub fn times(&self, other: &Fe) -> (r: Fe)
        ensures
            r@ == fmul(self@, other@),
    {
        fe_mul(self, other)
    }

    /// The additive inverse modulo p.
    pub fn negated(&self) -> (r: Fe)
        ensures
            r@ == fneg(self@),
    {
        fe_neg(self)
    }

    /// Whether the canonical value is below the other's (the integer order
    /// of `[0, p)`).
    pub fn less_than(&self, other: &Fe) -> (r: bool)
        ensures
            r == (self@ < other@),
    {
        let a = self.to_bytes();
        let b = other.to_bytes();
        let mut k: usize = 32;
        let mut st: i8 = 0;
        assert(a@.skip(32) =~= Seq::<u8>::empty());
        assert(b@.skip(32) =~= Seq::<u8>::empty());
        while k > 0
            invariant
                k <= 32,
                a@.len() == 32,
                b@.len() == 32,
                st == -1 ==> le_value(a@.skip(k as int)) < le_value(b@.skip(k as int)),
                st == 1 ==> le_value(a@.skip(k as int)) > le_value(b@.skip(k as int)),
                st == 0 ==> le_value(a@.skip(k as int)) == le_value(b@.skip(k as int)),
                st == -1 || st == 0 || st == 1,
            decreases k,
        {
            k = k - 1;
            let ghost ak = le_value(a@.skip(k + 1));
            let ghost bk = le_value(b@.skip(k + 1));
            assert(a@.skip(k as int).drop_first() =~= a@.skip(k + 1));
            assert(b@.skip(k as int).drop_first() =~= b@.skip(k + 1));
            let x = a[k];
            let y = b[k];
            assert(le_value(a@.skip(k as int)) == x as nat + 256 * ak);
            assert(le_value(b@.skip(k as int)) == y as nat + 256 * bk);
            if st == 0 {
                if x < y {
                    st = -1;
                } else if x > y {
                    st = 1;
                }
            } else {
                proof {
                    lemma_digit_order(x as nat, y as nat, ak, bk);
                }
            }
        }
        assert(a@.skip(0) =~= a@);
        assert(b@.skip(0) =~= b@);
        st == -1
    }

    /// The canonical little-endian encoding of the element.
    pub fn to_bytes(&self) -> (r: [u8; 32])
        ensures
            le_value(r@) == self@,
    {
        proof {
            use_type_invariant(self);
            vstd::arithmetic::div_mod::lemma_small_mod(le_value(self.bytes@), modulus());
        }
        self.bytes
    }
}

/// A higher digit decides the order whatever the lower digits are.
proof fn lemma_digit_order(x: nat, y: nat, a: nat, b: nat)
    requires
        x < 256,
        y < 256,
    ensures
        a < b ==> x + 256 * a < y + 256 * b,
        a > b ==> x + 256 * a > y + 256 * b,
{
    assert(a < b ==> x + 256 * a < y + 256 * b) by (nonlinear_arith)
        requires
            x < 256,
            y < 256,
    ;
    assert(a > b ==> x + 256 * a > y + 256 * b) by (nonlinear_arith)
        requires
            x < 256,
            y < 256,
    ;
}

/// `Fp::from(u64)`: the element congruent to `v`.
#[verifier::external_body]
pub(crate) fn fe_from_u64(v: u64) -> (r: Fe)
    ensures
        r@ == v as nat % modulus(),
{
    Fe { bytes: Fp::from(v).to_repr() }
}

/// `Fp::add`: the sum of two elements modulo p.
#[verifier::external_body]
pub(crate) fn fe_add(a: &Fe, b: &Fe) -> (r: Fe)
    ensures
        r@ == fadd(a@, b@),
{
    let x = Fp::from_repr(a.bytes).unwrap();
    let y = Fp::from_repr(b.bytes).unwrap();
    Fe { bytes: (x + y).to_repr() }
}

/// `Fp::sub`: the difference of two elements modulo p.
#[verifier::external_body]
pub(crate) fn fe_sub(a: &Fe, b: &Fe) -> (r: Fe)
    ensures
        r@ == fsub(a@, b@),
{
    let x = Fp::from_repr(a.bytes).unwrap();
    let y = Fp::from_repr(b.bytes).unwrap();
    Fe { bytes: (x - y).to_repr() }
}

/// `Fp::mul`: the product of two elements modulo p.
#[verifier::external_body]
pub(crate) fn fe_mul(a: &Fe, b: &Fe) -> (r: Fe)
    ensures
        r@ == fmul(a@, b@),
{
    let x = Fp::from_repr(a.bytes).unwrap();
    let y = Fp::from_repr(b.bytes).unwrap();
    Fe { bytes: (x * y).to_repr() }
}

/// `Fp::neg`: the additive inverse modulo p.
#[verifier::external_body]
pub(crate) fn fe_neg(a: &Fe) -> (r: Fe)
    ensures
        r@ == fneg(a@),
{
    let x = Fp::from_repr(a.bytes).unwrap();
    Fe { bytes: (-x).to_repr() }
}

/// `Fp::from_raw`: the element congruent to the 256-bit little-endian
/// integer whose 64-bit limbs are `limbs` (the crate documents the result as
/// congruent to the input).
#[verifier::external_body]
pub(crate) fn fe_from_raw(limbs: [u64; 4]) -> (r: Fe)
    ensures
        r@ == limbs_value(limbs@) % modulus(),
{
    Fe { bytes: Fp::from_raw(limbs).to_repr() }
}

/// `FromUniformBytes::<64>::from_uniform_bytes`: the element congruent to the
/// 512-bit little-endian integer `bytes` (the trait documents the result as
/// congruent to the input).
#[verifier::external_body]
pub(crate) fn fe_from_uniform_bytes(bytes: &[u8; 64]) -> (r: Fe)
    ensures
        r@ == le_value(bytes@) % modulus(),
{
    Fe { bytes: <Fp as FromUniformBytes<64>>::from_uniform_bytes(bytes).to_repr() }
}

/// `PrimeField::from_repr`: the element whose canonical encoding is `bytes`,
/// or nothing when the encoded integer is not below the modulus.
#[verifier::external_body]
pub(crate) fn fe_from_repr(bytes: [u8; 32]) -> (r: Option<Fe>)
    ensures
        r is Some <==> le_value(bytes@) < modulus(),
        r matches Some(x) ==> x@ == le_value(bytes@),
{
    let x: Option<Fp> = Fp::from_repr(bytes).into();
    match x {
        Some(v) => Some(Fe { bytes: v.to_repr() }),
        None => None,
    }
}


/// Adding a product to a sum kept modulo p is the same as reducing the full
/// sum.
pub proof fn lemma_mod_accumulate(s: int, x: nat, y: nat)
    requires
        s >= 0,
    ensures
        fadd((s % modulus() as int) as nat, fmul(x, y)) == ((s + x * y) % modulus() as int) as nat,
{
    let p = modulus() as int;
    vstd::arithmetic::div_mod::lemma_add_mod_noop(s, (x * y) as int, p);
    vstd::arithmetic::div_mod::lemma_mod_twice(s, p);
    vstd::arithmetic::div_mod::lemma_mod_twice((x * y) as int, p);
    vstd::arithmetic::div_mod::lemma_mod_bound(s, p);
    vstd::arithmetic::div_mod::lemma_mod_bound((x * y) as int, p);
}

/// The element minus one.
pub fn fe_minus_one() -> (r: Fe)
    ensures
        r@ == minus_one(),
{
    let one = Fe::one();
    let r = fe_neg(&one);
    assert(fneg(1) == minus_one()) by {
        vstd::arithmetic::div_mod::lemma_mod_self_0(modulus() as int);
        vstd::arithmetic::div_mod::lemma_fundamental_div_mod(-1int, modulus() as int);
        vstd::arithmetic::div_mod::lemma_mod_bound(-1int, modulus() as int);
    }
    r
}

/// The integer made of the first `n` bytes of the canonical encoding of
/// `x`: `x` modulo `256^n`.
fn low_bytes_value(x: &Fe, n: usize) -> (r: u128)
    requires
        n <= 16,
    ensures
        r as nat == x@ % pow256(n as nat),
{
    let b = x.to_bytes();
    let mut acc: u128 = 0;
    let mut j: usize = n;
    proof {
        assert(b@.subrange(n as int, n as int).len() == 0);
    }
    while j > 0
        invariant
            n <= 16,
            j <= n,
            acc as nat == le_value(b@.subrange(j as int, n as int)),
        decreases j,
    {
        let y = b[j - 1];
        proof {
            let t = b@.subrange(j - 1, n as int);
            assert(t.drop_first() == b@.subrange(j as int, n as int));
            lemma_le_value_bound(t);
            crate::hashing::lemma_pow256_mono(t.len(), 16);
            assert(pow256(16) == 0x1_0000_0000_0000_0000_0000_0000_0000_0000) by {
                reveal_with_fuel(pow256, 17);
            }
        }
        acc = acc * 256 + y as u128;
        j = j - 1;
    }
    proof {
        lemma_le_value_prefix(b@, n as int);
        assert(b@.subrange(0, n as int) == b@.take(n as int));
    }
    acc
}

/// The first `k` bytes of a little-endian encoding give its value modulo
/// `256^k`.
proof fn lemma_le_value_prefix(s: Seq<u8>, k: int)
    requires
        0 <= k <= s.len(),
    ensures
        le_value(s.take(k)) == le_value(s) % pow256(k as nat),
    decreases k,
{
    crate::hashing::lemma_le_value_split(s, k);
    lemma_le_value_bound(s.take(k));
    let lo = le_value(s.take(k)) as int;
    let hi = le_value(s.skip(k)) as int;
    let m = pow256(k as nat) as int;
    assert(m > 0) by {
        lemma_pow256_pos(k as nat);
    }
    vstd::arithmetic::div_mod::lemma_mod_multiples_vanish(hi, lo, m);
    vstd::arithmetic::div_mod::lemma_small_mod(lo as nat, m as nat);
    assert(m * hi + lo == le_value(s)) by (nonlinear_arith)
        requires
            le_value(s) == lo + m * hi,
    ;
}

proof fn lemma_pow256_pos(n: nat)
    ensures
        pow256(n) > 0,
    decreases n,
{
    if n > 0 {
        lemma_pow256_pos((n - 1) as nat);
    }
}

/// `2^128`.
pub open spec fn two_pow_128() -> nat {
    0x1_0000_0000_0000_0000_0000_0000_0000_0000nat
}

/// The low 128 bits of the canonical value of `x` (its first sixteen
/// encoding bytes, little-endian).
pub fn fp_to_u128(x: &Fe) -> (r: u128)
    ensures
        r as nat == x@ % two_pow_128(),
{
    assert(pow256(16) == two_pow_128()) by {
        reveal_with_fuel(pow256, 17);
    }
    low_bytes_value(x, 16)
}

/// The low 64 bits of the canonical value of `x` (its first eight encoding
/// bytes, little-endian), as a `usize`.
pub fn fp_to_usize(x: &Fe) -> (r: usize)
    ensures
        r == (x@ % 0x1_0000_0000_0000_0000) as u64 as usize,
{
    assert(pow256(8) == 0x1_0000_0000_0000_0000) by {
        reveal_with_fuel(pow256, 9);
    }
    let v = low_bytes_value(x, 8);
    let w = v as u64;
    w as usize
}

} // verus!
