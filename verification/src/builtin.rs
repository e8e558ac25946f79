//! The values that the built-in expression check assigns: a goal such as
//! `X is A + B * C` or `A > B` arrives as a chain of terms (the first one
//! `is`, `=`, or a comparison; each later one an arithmetic operator with
//! its operand), and the check folds the chain into an accumulator and
//! compares.
use vstd::prelude::*;
use crate::field::{Fe, fadd, fsub, fmul, fe_add, fe_sub, fe_mul, fe_from_u64, fp_to_u128, two_pow_128, modulus};
use crate::hashing::{to_fp_spec, to_fp_chars};

verus! {

/// 1 for true, 0 for false.
pub open spec fn ind(b: bool) -> nat {
    if b {
        1
    } else {
        0
    }
}

/// The field code of an operator name.
#[verifier::opaque]
pub open spec fn op_code(s: Seq<char>) -> nat {
    to_fp_spec(s)
}

/// The field code of an operator name given as characters.
fn op_code_exec(c: Vec<char>) -> (r: Fe)
    ensures
        r@ == op_code(c@),
{
    let r = to_fp_chars(&c);
    proof {
        reveal(op_code);
    }
    r
}

/// A text of one character.
fn text1(a: char) -> (r: Vec<char>)
    ensures
        r@ == seq![a],
{
    let mut v: Vec<char> = Vec::new();
    v.push(a);
    assert(v@ =~= seq![a]);
    v
}

/// A text of two characters.
fn text2(a: char, b: char) -> (r: Vec<char>)
    ensures
        r@ == seq![a, b],
{
    let mut v: Vec<char> = Vec::new();
    v.push(a);
    v.push(b);
    assert(v@ =~= seq![a, b]);
    v
}

/// A text of three characters.
fn text3(a: char, b: char, c: char) -> (r: Vec<char>)
    ensures
        r@ == seq![a, b, c],
{
    let mut v: Vec<char> = Vec::new();
    v.push(a);
    v.push(b);
    v.push(c);
    assert(v@ =~= seq![a, b, c]);
    v
}

/// 1 when `x` has the value `c`, else 0.
fn eq_const_bool(x: &Fe, c: &Fe) -> (r: Fe)
    ensures
        r@ == ind(x@ == c@),
{
    if x.equals(c) {
        Fe::one()
    } else {
        Fe::zero()
    }
}

/// `1 - x` in the field.
fn one_minus(x: &Fe) -> (r: Fe)
    ensures
        r@ == fsub(1, x@),
{
    fe_sub(&Fe::one(), x)
}

/// The quotient the check assigns for `acc div x`: zero when `x` is zero,
/// else the integer quotient of the low 128 bits of both, cut to 64 bits.
pub open spec fn int_div_q(acc: nat, x: nat) -> nat {
    if x == 0 {
        0
    } else {
        ((acc % two_pow_128()) / (x % two_pow_128())) % 0x1_0000_0000_0000_0000
    }
}

/// Whether an operand can be divided by: zero, or with a low 128-bit part
/// that is not zero.
pub open spec fn divisor_ok(x: nat) -> bool {
    x == 0 || x % two_pow_128() != 0
}

/// The values of one arithmetic step of the chain.
#[derive(Clone, Copy, Debug)]
pub struct ChainStep {
    pub s_add: Fe,
    pub s_sub: Fe,
    pub s_mul: Fe,
    pub s_div: Fe,
    pub s_arith: Fe,
    pub res_add: Fe,
    pub res_sub: Fe,
    pub res_mul: Fe,
    pub q: Fe,
    pub r: Fe,
    pub acc: Fe,
}

/// Whether `st` holds the values of the step with operator code `name` and
/// operand `x` on the accumulator `acc`: one selector per operator, the four
/// results, and the next accumulator `acc + sum of s_i * (res_i - acc)`.
pub open spec fn step_spec(st: ChainStep, acc: nat, name: nat, x: nat) -> bool {
    &&& st.s_add@ == ind(name == op_code(seq!['+']))
    &&& st.s_sub@ == ind(name == op_code(seq!['-']))
    &&& st.s_mul@ == ind(name == op_code(seq!['*']))
    &&& st.s_div@ == ind(name == op_code(seq!['d', 'i', 'v']))
    &&& st.s_arith@ == fadd(fadd(fadd(st.s_add@, st.s_sub@), st.s_mul@), st.s_div@)
    &&& st.res_add@ == fadd(acc, x)
    &&& st.res_sub@ == fsub(acc, x)
    &&& st.res_mul@ == fmul(acc, x)
    &&& st.q@ == int_div_q(acc, x)
    &&& st.r@ == fsub(acc, fmul(st.q@, x))
    &&& st.acc@ == fadd(
        acc,
        fadd(
            fadd(
                fadd(fmul(st.s_add@, fsub(st.res_add@, acc)), fmul(st.s_sub@, fsub(st.res_sub@, acc))),
                fmul(st.s_mul@, fsub(st.res_mul@, acc)),
            ),
            fmul(st.s_div@, fsub(st.q@, acc)),
        ),
    )
}

/// The values of the whole check.
#[derive(Clone, Debug)]
pub struct ChainWitness {
    pub b_is: Fe,
    pub b_eq: Fe,
    pub b_gt: Fe,
    pub b_lt: Fe,
    pub b_ge: Fe,
    pub b_le: Fe,
    pub b_ie: Fe,
    pub b_order: Fe,
    pub b_known: Fe,
    pub steps: Vec<ChainStep>,
    pub acc: Fe,
    pub delta: Fe,
    pub is_positive: Fe,
    pub is_negative: Fe,
    pub is_zero: Fe,
    pub ok_gt: Fe,
    pub ok_lt: Fe,
    pub ok_ge: Fe,
    pub ok_le: Fe,
    pub order_ok: Fe,
    pub eq_ok: Fe,
    pub ok: Fe,
}

/// The accumulator before step `i`: the first right operand, then the
/// result of each step.
pub open spec fn acc_before(steps: Seq<ChainStep>, rhs0: nat, i: int) -> nat {
    if i <= 0 {
        rhs0
    } else {
        steps[i - 1].acc@
    }
}

/// The operand of term `p`: entry `(0, 0)` of its argument matrix.
pub open spec fn operand(args: Seq<Vec<Vec<Fe>>>, p: int) -> nat {
    args[p]@[0]@[0]@
}

/// Whether the chain can be evaluated: a first term with a left and a right
/// operand, an operand for every later term, and no operand whose low 128
/// bits are zero unless it is zero.
pub open spec fn chain_input_ok(names: Seq<Fe>, args: Seq<Vec<Vec<Fe>>>) -> bool {
    &&& names.len() >= 1
    &&& args.len() >= names.len()
    &&& args[0]@.len() >= 2
    &&& args[0]@[0]@.len() >= 1
    &&& args[0]@[1]@.len() >= 1
    &&& forall|p: int|
        1 <= p < names.len() ==> (#[trigger] args[p])@.len() >= 1 && args[p]@[0]@.len() >= 1 && divisor_ok(
            args[p]@[0]@[0]@,
        )
}

/// Whether `w` holds the values of the check of the chain: the head
/// flags of the first term, each step, and the final comparison
/// `ok = b_ie * [lhs == acc] + b_order * order_ok`, where the comparison reads
/// the first right operand and field order is the order of canonical values.
pub open spec fn chain_spec(w: ChainWitness, names: Seq<Fe>, args: Seq<Vec<Vec<Fe>>>) -> bool {
    &&& head_spec(w, names[0]@)
    &&& steps_spec(w, names, args)
    &&& result_spec(w, args[0]@[0]@[0]@, args[0]@[1]@[0]@)
}

/// The flags of the first term: whether it names each relation, then
/// `b_ie` (is or =), `b_order` (a comparison) and `b_known` (either).
pub open spec fn head_spec(w: ChainWitness, n0: nat) -> bool {
    &&& w.b_is@ == ind(n0 == op_code(seq!['i', 's']))
    &&& w.b_eq@ == ind(n0 == op_code(seq!['=']))
    &&& w.b_gt@ == ind(n0 == op_code(seq!['>']))
    &&& w.b_lt@ == ind(n0 == op_code(seq!['<']))
    &&& w.b_ge@ == ind(n0 == op_code(seq!['>', '=']))
    &&& w.b_le@ == ind(n0 == op_code(seq!['<', '=']))
    &&& w.b_ie@ == fsub(1, fmul(fsub(1, w.b_is@), fsub(1, w.b_eq@)))
    &&& w.b_order@ == fsub(
        1,
        fmul(fmul(fmul(fsub(1, w.b_gt@), fsub(1, w.b_lt@)), fsub(1, w.b_ge@)), fsub(1, w.b_le@)),
    )
    &&& w.b_known@ == fsub(1, fmul(fsub(1, w.b_ie@), fsub(1, w.b_order@)))
}

/// One step per later term, each on the accumulator left by the one
/// before (the first on the first right operand), and the final
/// accumulator.
#[verifier::opaque]
pub open spec fn steps_spec(w: ChainWitness, names: Seq<Fe>, args: Seq<Vec<Vec<Fe>>>) -> bool {
    let rhs0 = args[0]@[1]@[0]@;
    let steps = w.steps@;
    &&& steps.len() + 1 == names.len()
    &&& forall|i: int|
        0 <= i < steps.len() ==> step_spec(
            #[trigger] steps[i],
            acc_before(steps, rhs0, i),
            names[i + 1]@,
            operand(args, i + 1),
        )
    &&& w.acc@ == acc_before(steps, rhs0, steps.len() as int)
}

/// The final comparison: `delta = lhs - rhs0`, the sign flags `[lhs >
/// rhs0]` (only for a comparison) and `[lhs < rhs0]` in the integer order of
/// the canonical values, `[delta == 0]`, the comparison results, `[lhs ==
/// acc]`, and `ok = b_ie * eq_ok + b_order * order_ok`.
pub open spec fn result_spec(w: ChainWitness, lhs: nat, rhs0: nat) -> bool {
    &&& w.delta@ == fsub(lhs, rhs0)
    &&& w.is_positive@ == (if w.b_order@ == 0 {
        0nat
    } else {
        ind(lhs > rhs0)
    })
    &&& w.is_negative@ == ind(lhs < rhs0)
    &&& w.is_zero@ == ind(w.delta@ == 0)
    &&& w.ok_gt@ == fmul(w.is_positive@, w.b_gt@)
    &&& w.ok_lt@ == fmul(w.is_negative@, w.b_lt@)
    &&& w.ok_ge@ == fmul(fadd(w.is_positive@, w.is_zero@), w.b_ge@)
    &&& w.ok_le@ == fmul(fadd(w.is_negative@, w.is_zero@), w.b_le@)
    &&& w.order_ok@ == fsub(
        1,
        fmul(fmul(fmul(fsub(1, w.ok_gt@), fsub(1, w.ok_lt@)), fsub(1, w.ok_ge@)), fsub(1, w.ok_le@)),
    )
    &&& w.eq_ok@ == ind(lhs == w.acc@)
    &&& w.ok@ == fadd(fmul(w.b_ie@, w.eq_ok@), fmul(w.b_order@, w.order_ok@))
}

/// The integer-division quotient of one step.
fn int_div_quotient(acc: &Fe, x: &Fe) -> (q: Fe)
    requires
        divisor_ok(x@),
    ensures
        q@ == int_div_q(acc@, x@),
{
    if x.is_zero() {
        return Fe::zero();
    }
    let a = fp_to_u128(acc);
    let b = fp_to_u128(x);
    let v = a / b;
    let w = v as u64;
    assert(w as nat == v as nat % 0x1_0000_0000_0000_0000) by (bit_vector)
        requires
            w == v as u64,
    ;
    let q = fe_from_u64(w);
    assert(q@ == w as nat) by {
        assert(modulus() > 0x1_0000_0000_0000_0000);
        vstd::arithmetic::div_mod::lemma_small_mod(w as nat, modulus());
    }
    q
}

/// One arithmetic step of the chain.
fn chain_step(acc: &Fe, name: &Fe, x: &Fe, codes: &[Fe; 4]) -> (st: ChainStep)
    requires
        divisor_ok(x@),
        codes[0]@ == op_code(seq!['+']),
        codes[1]@ == op_code(seq!['-']),
        codes[2]@ == op_code(seq!['*']),
        codes[3]@ == op_code(seq!['d', 'i', 'v']),
    ensures
        step_spec(st, acc@, name@, x@),
{
    let s_add = eq_const_bool(name, &codes[0]);
    let s_sub = eq_const_bool(name, &codes[1]);
    let s_mul = eq_const_bool(name, &codes[2]);
    let s_div = eq_const_bool(name, &codes[3]);
    let s_arith = fe_add(&fe_add(&fe_add(&s_add, &s_sub), &s_mul), &s_div);
    let res_add = fe_add(acc, x);
    let res_sub = fe_sub(acc, x);
    let res_mul = fe_mul(acc, x);
    let q = int_div_quotient(acc, x);
    let r = fe_sub(acc, &fe_mul(&q, x));
    let t_add = fe_mul(&s_add, &fe_sub(&res_add, acc));
    let t_sub = fe_mul(&s_sub, &fe_sub(&res_sub, acc));
    let t_mul = fe_mul(&s_mul, &fe_sub(&res_mul, acc));
    let t_div = fe_mul(&s_div, &fe_sub(&q, acc));
    let term = fe_add(&fe_add(&fe_add(&t_add, &t_sub), &t_mul), &t_div);
    let next = fe_add(acc, &term);
    ChainStep { s_add, s_sub, s_mul, s_div, s_arith, res_add, res_sub, res_mul, q, r, acc: next }
}

/// The flags of the first term: whether it names `is`, `=`, `>`, `<`,
/// `>=`, `<=`, then `is` or `=`, a comparison, and either.
fn head_flags(name0: &Fe) -> (r: [Fe; 9])
    ensures
        r[0]@ == ind(name0@ == op_code(seq!['i', 's'])),
        r[1]@ == ind(name0@ == op_code(seq!['='])),
        r[2]@ == ind(name0@ == op_code(seq!['>'])),
        r[3]@ == ind(name0@ == op_code(seq!['<'])),
        r[4]@ == ind(name0@ == op_code(seq!['>', '='])),
        r[5]@ == ind(name0@ == op_code(seq!['<', '='])),
        r[6]@ == fsub(1, fmul(fsub(1, r[0]@), fsub(1, r[1]@))),
        r[7]@ == fsub(1, fmul(fmul(fmul(fsub(1, r[2]@), fsub(1, r[3]@)), fsub(1, r[4]@)), fsub(1, r[5]@))),
        r[8]@ == fsub(1, fmul(fsub(1, r[6]@), fsub(1, r[7]@))),
{
    let b_is = eq_const_bool(name0, &op_code_exec(text2('i', 's')));
    let b_eq = eq_const_bool(name0, &op_code_exec(text1('=')));
    let b_gt = eq_const_bool(name0, &op_code_exec(text1('>')));
    let b_lt = eq_const_bool(name0, &op_code_exec(text1('<')));
    let b_ge = eq_const_bool(name0, &op_code_exec(text2('>', '=')));
    let b_le = eq_const_bool(name0, &op_code_exec(text2('<', '=')));
    let b_ie = one_minus(&fe_mul(&one_minus(&b_is), &one_minus(&b_eq)));
    let b_order = one_minus(
        &fe_mul(&fe_mul(&fe_mul(&one_minus(&b_gt), &one_minus(&b_lt)), &one_minus(&b_ge)), &one_minus(&b_le)),
    );
    let b_known = one_minus(&fe_mul(&one_minus(&b_ie), &one_minus(&b_order)));
    [b_is, b_eq, b_gt, b_lt, b_ge, b_le, b_ie, b_order, b_known]
}

/// The arithmetic steps of the chain and the final accumulator.
fn run_steps(names: &[Fe], args: &[Vec<Vec<Fe>>]) -> (r: (Vec<ChainStep>, Fe))
    requires
        chain_input_ok(names@, args@),
    ensures
        r.0@.len() + 1 == names@.len(),
        forall|i: int|
            0 <= i < r.0@.len() ==> step_spec(
                #[trigger] r.0@[i],
                acc_before(r.0@, args@[0]@[1]@[0]@, i),
                names@[i + 1]@,
                operand(args@, i + 1),
            ),
        r.1@ == acc_before(r.0@, args@[0]@[1]@[0]@, r.0@.len() as int),
{
    let rhs0 = args[0][1][0];
    let codes: [Fe; 4] = [
        op_code_exec(text1('+')),
        op_code_exec(text1('-')),
        op_code_exec(text1('*')),
        op_code_exec(text3('d', 'i', 'v')),
    ];
    let mut steps: Vec<ChainStep> = Vec::new();
    let mut acc = rhs0;
    let mut p: usize = 1;
    while p < names.len()
        invariant
            chain_input_ok(names@, args@),
            rhs0@ == args@[0]@[1]@[0]@,
            1 <= p <= names@.len(),
            codes[0]@ == op_code(seq!['+']),
            codes[1]@ == op_code(seq!['-']),
            codes[2]@ == op_code(seq!['*']),
            codes[3]@ == op_code(seq!['d', 'i', 'v']),
            steps@.len() + 1 == p,
            forall|i: int|
                0 <= i < steps@.len() ==> step_spec(
                    #[trigger] steps@[i],
                    acc_before(steps@, rhs0@, i),
                    names@[i + 1]@,
                    operand(args@, i + 1),
                ),
            acc@ == acc_before(steps@, rhs0@, steps@.len() as int),
        decreases names@.len() - p,
    {
        assert(args@[p as int]@.len() >= 1);
        let x = args[p][0][0];
        let st = chain_step(&acc, &names[p], &x, &codes);
        let ghost before = steps@;
        steps.push(st);
        assert forall|i: int| 0 <= i < steps@.len() implies step_spec(
            #[trigger] steps@[i],
            acc_before(steps@, rhs0@, i),
            names@[i + 1]@,
            operand(args@, i + 1),
        ) by {
            if i < before.len() {
                assert(steps@[i] == before[i]);
                assert(acc_before(steps@, rhs0@, i) == acc_before(before, rhs0@, i));
            }
        }
        acc = st.acc;
        p = p + 1;
    }
    (steps, acc)
}

/// The comparison values: `lhs > rhs` (only for a comparison), `lhs < rhs`,
/// `delta == 0`, the four comparison results and their disjunction.
fn compare_flags(b_order: &Fe, b_gt: &Fe, b_lt: &Fe, b_ge: &Fe, b_le: &Fe, lhs: &Fe, rhs: &Fe, delta: &Fe) -> (r: [Fe; 8])
    ensures
        r[0]@ == (if b_order@ == 0 {
            0nat
        } else {
            ind(lhs@ > rhs@)
        }),
        r[1]@ == ind(lhs@ < rhs@),
        r[2]@ == ind(delta@ == 0),
        r[3]@ == fmul(r[0]@, b_gt@),
        r[4]@ == fmul(r[1]@, b_lt@),
        r[5]@ == fmul(fadd(r[0]@, r[2]@), b_ge@),
        r[6]@ == fmul(fadd(r[1]@, r[2]@), b_le@),
        r[7]@ == fsub(1, fmul(fmul(fmul(fsub(1, r[3]@), fsub(1, r[4]@)), fsub(1, r[5]@)), fsub(1, r[6]@))),
{
    let is_positive = if b_order.is_zero() {
        Fe::zero()
    } else if rhs.less_than(lhs) {
        Fe::one()
    } else {
        Fe::zero()
    };
    let is_negative = if lhs.less_than(rhs) {
        Fe::one()
    } else {
        Fe::zero()
    };
    let is_zero = if delta.is_zero() {
        Fe::one()
    } else {
        Fe::zero()
    };
    let ok_gt = fe_mul(&is_positive, b_gt);
    let ok_lt = fe_mul(&is_negative, b_lt);
    let ok_ge = fe_mul(&fe_add(&is_positive, &is_zero), b_ge);
    let ok_le = fe_mul(&fe_add(&is_negative, &is_zero), b_le);
    let order_ok = one_minus(
        &fe_mul(&fe_mul(&fe_mul(&one_minus(&ok_gt), &one_minus(&ok_lt)), &one_minus(&ok_ge)), &one_minus(&ok_le)),
    );
    [is_positive, is_negative, is_zero, ok_gt, ok_lt, ok_ge, ok_le, order_ok]
}

/// Whether the terms can be evaluated as a chain: at least one term, a
/// matrix per term with the operands that the evaluation reads, and no
/// divisor whose low 128 bits vanish while the element does not.
pub fn chain_input_valid(names: &[Fe], args: &[Vec<Vec<Fe>>]) -> (r: bool)
    ensures
        r == chain_input_ok(names@, args@),
{
    if names.len() < 1 || args.len() < names.len() {
        return false;
    }
    if args[0].len() < 2 || args[0][0].len() < 1 || args[0][1].len() < 1 {
        return false;
    }
    let mut p: usize = 1;
    while p < names.len()
        invariant
            1 <= p <= names@.len(),
            args@.len() >= names@.len(),
            forall|q: int|
                1 <= q < p ==> (#[trigger] args@[q])@.len() >= 1 && args@[q]@[0]@.len() >= 1 && divisor_ok(
                    args@[q]@[0]@[0]@,
                ),
        decreases names@.len() - p,
    {
        if args[p].len() < 1 || args[p][0].len() < 1 {
            return false;
        }
        let x = &args[p][0][0];
        let low = fp_to_u128(x);
        if !x.is_zero() && low == 0 {
            return false;
        }
        p = p + 1;
    }
    true
}

/// Evaluates a chain of built-in terms. The first term names the relation
/// (`is`, `=`, `>`, `<`, `>=`, `<=`) with the left operand at `(0, 0)` and
/// the first right operand at `(1, 0)` of its matrix; each later term names
/// an arithmetic operator (`+`, `-`, `*`, `div`) applied to the accumulator
/// with the operand at `(0, 0)`. For `is` and `=` the result is whether the
/// left operand equals the accumulator; for a comparison it is read from
/// the left and first right operands.
pub fn eval_chain_equal(names: &[Fe], args: &[Vec<Vec<Fe>>]) -> (w: ChainWitness)
    requires
        chain_input_ok(names@, args@),
    ensures
        chain_spec(w, names@, args@),
{
    let lhs = args[0][0][0];
    let rhs0 = args[0][1][0];
    let h = head_flags(&names[0]);
    let (steps, acc) = run_steps(names, args);
    let delta = fe_sub(&lhs, &rhs0);
    let c = compare_flags(&h[7], &h[2], &h[3], &h[4], &h[5], &lhs, &rhs0, &delta);
    let eq_ok = eq_const_bool(&lhs, &acc);
    let ok = fe_add(&fe_mul(&h[6], &eq_ok), &fe_mul(&h[7], &c[7]));
    proof {
        reveal(steps_spec);
    }
    ChainWitness {
        b_is: h[0],
        b_eq: h[1],
        b_gt: h[2],
        b_lt: h[3],
        b_ge: h[4],
        b_le: h[5],
        b_ie: h[6],
        b_order: h[7],
        b_known: h[8],
        steps,
        acc,
        delta,
        is_positive: c[0],
        is_negative: c[1],
        is_zero: c[2],
        ok_gt: c[3],
        ok_lt: c[4],
        ok_ge: c[5],
        ok_le: c[6],
        order_ok: c[7],
        eq_ok,
        ok,
    }
}

/// Whether the relation codes `is`, `=`, `>`, `<`, `>=`, `<=` are pairwise
/// different field values.
pub open spec fn relation_codes_distinct() -> bool {
    let c = seq![
        op_code(seq!['i', 's']),
        op_code(seq!['=']),
        op_code(seq!['>']),
        op_code(seq!['<']),
        op_code(seq!['>', '=']),
        op_code(seq!['<', '=']),
    ];
    forall|i: int, j: int| 0 <= i < 6 && 0 <= j < 6 && i != j ==> c[i] != c[j]
}

/// Whether the operator codes `+`, `-`, `*`, `div` are pairwise different.
pub open spec fn operator_codes_distinct() -> bool {
    let c = seq![op_code(seq!['+']), op_code(seq!['-']), op_code(seq!['*']), op_code(seq!['d', 'i', 'v'])];
    forall|i: int, j: int| 0 <= i < 4 && 0 <= j < 4 && i != j ==> c[i] != c[j]
}

/// The head flags of an `is` or `=` goal select the equality branch.
proof fn lemma_head_equality(n0: nat, bis: nat, beq: nat, bgt: nat, blt: nat, bge: nat, ble: nat, bie: nat, bord: nat)
    requires
        relation_codes_distinct(),
        n0 == op_code(seq!['i', 's']) || n0 == op_code(seq!['=']),
        bis == ind(n0 == op_code(seq!['i', 's'])),
        beq == ind(n0 == op_code(seq!['='])),
        bgt == ind(n0 == op_code(seq!['>'])),
        blt == ind(n0 == op_code(seq!['<'])),
        bge == ind(n0 == op_code(seq!['>', '='])),
        ble == ind(n0 == op_code(seq!['<', '='])),
        bie == fsub(1, fmul(fsub(1, bis), fsub(1, beq))),
        bord == fsub(1, fmul(fmul(fmul(fsub(1, bgt), fsub(1, blt)), fsub(1, bge)), fsub(1, ble))),
    ensures
        bie == 1,
        bord == 0,
{
    let c = seq![
        op_code(seq!['i', 's']),
        op_code(seq!['=']),
        op_code(seq!['>']),
        op_code(seq!['<']),
        op_code(seq!['>', '=']),
        op_code(seq!['<', '=']),
    ];
    assert(c[0] != c[2] && c[0] != c[3] && c[0] != c[4] && c[0] != c[5] && c[0] != c[1]);
    assert(c[1] != c[2] && c[1] != c[3] && c[1] != c[4] && c[1] != c[5]);
    vstd::arithmetic::div_mod::lemma_small_mod(0, modulus());
    vstd::arithmetic::div_mod::lemma_small_mod(1, modulus());
    assert(bgt == 0 && blt == 0 && bge == 0 && ble == 0);
    assert(fsub(1, 0) == 1);
    assert(1nat * 1nat == 1nat);
    assert(fmul(1, 1) == 1);
    assert(fsub(1, 1) == 0);
    assert(bis + beq == 1);
    if bis == 1 {
        assert(0 * fsub(1, beq) == 0);
    } else {
        assert(fsub(1, bis) * 0 == 0);
    }
}

/// For a goal `X is ...` or `X = ...` the check succeeds exactly when the
/// left operand equals the value of the chain (given that the relation
/// names have different codes).
pub proof fn law_is_goal_compares_with_chain(w: ChainWitness, names: Seq<Fe>, args: Seq<Vec<Vec<Fe>>>)
    requires
        chain_input_ok(names, args),
        chain_spec(w, names, args),
        relation_codes_distinct(),
        names[0]@ == op_code(seq!['i', 's']) || names[0]@ == op_code(seq!['=']),
    ensures
        w.ok@ == ind(args[0]@[0]@[0]@ == w.acc@),
{
    let n0 = names[0]@;
    lemma_head_equality(n0, w.b_is@, w.b_eq@, w.b_gt@, w.b_lt@, w.b_ge@, w.b_le@, w.b_ie@, w.b_order@);
    vstd::arithmetic::div_mod::lemma_small_mod(0, modulus());
    vstd::arithmetic::div_mod::lemma_small_mod(1, modulus());
    assert(fmul(1, w.eq_ok@) == w.eq_ok@);
    assert(0 * w.order_ok@ == 0);
    assert(fmul(0, w.order_ok@) == 0);
    assert(fadd(w.eq_ok@, 0) == w.eq_ok@);
}

/// Field operations on 0/1 values act as on integers.
proof fn lemma_bits(a: int, b: int)
    requires
        0 <= a <= 1,
        0 <= b <= 1,
    ensures
        0 <= a * b <= 1,
        fmul(a as nat, b as nat) == a * b,
        fsub(1, a as nat) == 1 - a,
        a + b <= 1 ==> fadd(a as nat, b as nat) == a + b,
{
    vstd::arithmetic::div_mod::lemma_small_mod(0, modulus());
    vstd::arithmetic::div_mod::lemma_small_mod(1, modulus());
    assert(0 <= a * b <= 1) by (nonlinear_arith)
        requires
            0 <= a <= 1,
            0 <= b <= 1,
    ;
    vstd::arithmetic::div_mod::lemma_small_mod((a * b) as nat, modulus());
    vstd::arithmetic::div_mod::lemma_small_mod((1 - a) as nat, modulus());
    if a + b <= 1 {
        vstd::arithmetic::div_mod::lemma_small_mod((a + b) as nat, modulus());
    }
}

/// For a comparison goal (`>`, `<`, `>=`, `<=`) the check succeeds exactly
/// when the left operand and the first right operand are in that relation,
/// in the integer order of their canonical values (given that the relation
/// names have different codes).
pub proof fn law_comparison_goal_orders_values(w: ChainWitness, names: Seq<Fe>, args: Seq<Vec<Vec<Fe>>>)
    requires
        chain_input_ok(names, args),
        chain_spec(w, names, args),
        relation_codes_distinct(),
    ensures
        ({
            let n0 = names[0]@;
            let l = args[0]@[0]@[0]@;
            let r = args[0]@[1]@[0]@;
            &&& n0 == op_code(seq!['>']) ==> w.ok@ == ind(l > r)
            &&& n0 == op_code(seq!['<']) ==> w.ok@ == ind(l < r)
            &&& n0 == op_code(seq!['>', '=']) ==> w.ok@ == ind(l >= r)
            &&& n0 == op_code(seq!['<', '=']) ==> w.ok@ == ind(l <= r)
        }),
{
    let n0 = names[0]@;
    let l = args[0]@[0]@[0]@;
    let r = args[0]@[1]@[0]@;
    let c = seq![
        op_code(seq!['i', 's']),
        op_code(seq!['=']),
        op_code(seq!['>']),
        op_code(seq!['<']),
        op_code(seq!['>', '=']),
        op_code(seq!['<', '=']),
    ];
    if n0 == c[2] || n0 == c[3] || n0 == c[4] || n0 == c[5] {
        assert(c[0] != c[2] && c[0] != c[3] && c[0] != c[4] && c[0] != c[5] && c[0] != c[1]);
        assert(c[1] != c[2] && c[1] != c[3] && c[1] != c[4] && c[1] != c[5]);
        assert(c[2] != c[3] && c[2] != c[4] && c[2] != c[5] && c[3] != c[4] && c[3] != c[5] && c[4] != c[5]);
        args[0]@[0]@[0].lemma_bound();
        args[0]@[1]@[0].lemma_bound();
        vstd::arithmetic::div_mod::lemma_small_mod(0, modulus());
        vstd::arithmetic::div_mod::lemma_small_mod(1, modulus());
        // the sign flags
        if l >= r {
            vstd::arithmetic::div_mod::lemma_small_mod((l - r) as nat, modulus());
        } else {
            vstd::arithmetic::div_mod::lemma_mod_multiples_vanish(1, l - r, modulus() as int);
            vstd::arithmetic::div_mod::lemma_small_mod((modulus() + l - r) as nat, modulus());
        }
        assert(w.is_zero@ == ind(l == r));
        // the head flags
        lemma_bits(0, 0);
        lemma_bits(1, 1);
        assert(w.b_is@ == 0 && w.b_eq@ == 0);
        assert(fsub(1, w.b_is@) == 1 && fsub(1, w.b_eq@) == 1);
        assert(fmul(1, 1) == 1);
        assert(fsub(1, 1) == 0);
        assert(w.b_ie@ == 0);
        let bgt: int = w.b_gt@ as int;
        let blt: int = w.b_lt@ as int;
        let bge: int = w.b_ge@ as int;
        let ble: int = w.b_le@ as int;
        lemma_bits(bgt, blt);
        lemma_bits(bge, ble);
        lemma_bits(1 - bgt, 1 - blt);
        lemma_bits((1 - bgt) * (1 - blt), 1 - bge);
        lemma_bits((1 - bgt) * (1 - blt) * (1 - bge), 1 - ble);
        lemma_bits((1 - bgt) * (1 - blt) * (1 - bge) * (1 - ble), 0);
        assert(w.b_order@ == 1);
        let pos: int = w.is_positive@ as int;
        let neg: int = w.is_negative@ as int;
        let z: int = w.is_zero@ as int;
        assert(pos == ind(l > r));
        lemma_bits(pos, bgt);
        lemma_bits(neg, blt);
        lemma_bits(pos, z);
        lemma_bits(neg, z);
        lemma_bits(pos + z, bge);
        lemma_bits(neg + z, ble);
        let gt: int = w.ok_gt@ as int;
        let lt: int = w.ok_lt@ as int;
        let ge: int = w.ok_ge@ as int;
        let le: int = w.ok_le@ as int;
        lemma_bits(1 - gt, 1 - lt);
        lemma_bits((1 - gt) * (1 - lt), 1 - ge);
        lemma_bits((1 - gt) * (1 - lt) * (1 - ge), 1 - le);
        lemma_bits(gt, 0);
        lemma_bits(lt, 0);
        lemma_bits(ge, 0);
        lemma_bits(le, 0);
        let prod = (1 - gt) * (1 - lt) * (1 - ge) * (1 - le);
        lemma_bits(prod, 0);
        let oo = w.order_ok@;
        assert(fmul(0, w.eq_ok@) == 0);
        lemma_bits(1, oo as int);
        assert(w.ok@ == oo);
    }
}

/// `fmul` by a 0/1 flag.
proof fn lemma_fmul_ind(b: bool, v: nat)
    requires
        v < modulus(),
    ensures
        fmul(ind(b), v) == (if b { v } else { 0 }),
{
    vstd::arithmetic::div_mod::lemma_small_mod(v, modulus());
    vstd::arithmetic::div_mod::lemma_small_mod(0, modulus());
    if b {
        assert(1 * v == v);
    } else {
        assert(0 * v == 0);
    }
}

/// Adding zero.
proof fn lemma_fadd_zero(v: nat)
    requires
        v < modulus(),
    ensures
        fadd(v, 0) == v,
        fadd(0, v) == v,
{
    vstd::arithmetic::div_mod::lemma_small_mod(v, modulus());
}

/// `acc + (v - acc) == v` in the field.
proof fn lemma_add_back(acc: nat, v: nat)
    requires
        acc < modulus(),
        v < modulus(),
    ensures
        fadd(acc, fsub(v, acc)) == v,
{
    let p = modulus() as int;
    if v >= acc {
        vstd::arithmetic::div_mod::lemma_small_mod((v - acc) as nat, modulus());
        vstd::arithmetic::div_mod::lemma_small_mod(v, modulus());
    } else {
        vstd::arithmetic::div_mod::lemma_mod_multiples_vanish(1, v - acc, p);
        vstd::arithmetic::div_mod::lemma_small_mod((p + (v - acc)) as nat, modulus());
        assert(acc + (p + (v - acc)) == p + v);
        vstd::arithmetic::div_mod::lemma_mod_multiples_vanish(1, v as int, p);
        vstd::arithmetic::div_mod::lemma_small_mod(v, modulus());
    }
}

/// The selector sum picks the term whose flag is set.
proof fn lemma_pick(i: int, s: Seq<nat>, d: Seq<nat>)
    requires
        0 <= i < 4,
        s.len() == 4,
        d.len() == 4,
        forall|j: int| 0 <= j < 4 ==> s[j] == ind(j == i),
        forall|j: int| 0 <= j < 4 ==> d[j] < modulus(),
    ensures
        fadd(fadd(fadd(fmul(s[0], d[0]), fmul(s[1], d[1])), fmul(s[2], d[2])), fmul(s[3], d[3])) == d[i],
{
    lemma_fmul_ind(i == 0, d[0]);
    lemma_fmul_ind(i == 1, d[1]);
    lemma_fmul_ind(i == 2, d[2]);
    lemma_fmul_ind(i == 3, d[3]);
    lemma_fadd_zero(d[i]);
    lemma_fadd_zero(0);
}

/// Each arithmetic step applies the operator it names: the next
/// accumulator is the sum, difference, product or integer quotient (given
/// that the operator names have different codes).
#[verifier::spinoff_prover]
#[verifier::rlimit(40)]
pub proof fn law_step_applies_operator(st: ChainStep, acc: nat, name: nat, x: nat)
    requires
        step_spec(st, acc, name, x),
        operator_codes_distinct(),
        acc < modulus(),
        x < modulus(),
    ensures
        name == op_code(seq!['+']) ==> st.acc@ == fadd(acc, x),
        name == op_code(seq!['-']) ==> st.acc@ == fsub(acc, x),
        name == op_code(seq!['*']) ==> st.acc@ == fmul(acc, x),
        name == op_code(seq!['d', 'i', 'v']) ==> st.acc@ == int_div_q(acc, x),
{
    let c = seq![op_code(seq!['+']), op_code(seq!['-']), op_code(seq!['*']), op_code(seq!['d', 'i', 'v'])];
    assert(c[0] != c[1] && c[0] != c[2] && c[0] != c[3] && c[1] != c[2] && c[1] != c[3] && c[2] != c[3]);
    let p = modulus() as int;
    let res = seq![st.res_add@, st.res_sub@, st.res_mul@, st.q@];
    let d = seq![fsub(st.res_add@, acc), fsub(st.res_sub@, acc), fsub(st.res_mul@, acc), fsub(st.q@, acc)];
    let sel = seq![st.s_add@, st.s_sub@, st.s_mul@, st.s_div@];
    vstd::arithmetic::div_mod::lemma_mod_bound((acc + x) as int, p);
    vstd::arithmetic::div_mod::lemma_mod_bound((acc * x) as int, p);
    vstd::arithmetic::div_mod::lemma_mod_bound(acc - x, p);
    assert(modulus() > 0x1_0000_0000_0000_0000);
    assert(st.q@ < modulus());
    assert forall|j: int| 0 <= j < 4 implies #[trigger] d[j] < modulus() by {
        vstd::arithmetic::div_mod::lemma_mod_bound(res[j] - acc, p);
    }
    assert forall|j: int| 0 <= j < 4 implies #[trigger] res[j] < modulus() by {}
    let k: int = if name == c[0] {
        0
    } else if name == c[1] {
        1
    } else if name == c[2] {
        2
    } else {
        3
    };
    if name == c[0] || name == c[1] || name == c[2] || name == c[3] {
        assert forall|j: int| 0 <= j < 4 implies #[trigger] sel[j] == ind(j == k) by {}
        lemma_pick(k, sel, d);
        lemma_add_back(acc, res[k]);
    }
}

} // verus!
