//! What the simplification rules keep: on integers, the patch a rule returns
//! computes what the node it replaces computes.

use vstd::prelude::*;
use vstd::arithmetic::power2::{pow2, lemma2_to64, lemma2_to64_rest, lemma_pow2_strictly_increases, lemma_pow2_pos};
use vstd::arithmetic::div_mod::{lemma_fundamental_div_mod, lemma_fundamental_div_mod_converse, lemma_small_mod};
use crate::arith::{BinOp, int_binary, with_uniform, trunc_div, lemma_wrap_of_held, lemma_wrap_congruent};
use crate::datum::DatumType;
use crate::declutter::{ElementWise, is_integer_patch, patch_value, BinaryNode, OneUniformInput, Patch, DeclutterError, add_rule, sub_rule, mul_rule, div_rule, pow_rule, neutral_rule, single_bit, single_bit_at};
use crate::scalar::{Scalar, Uniform, wrap_i64, trunc_scaled, saturate_i64, p2, I64_LOW, I64_HIGH};

verus! {

/// The simplification rule of a binary operator.
pub open spec fn binary_rule(op: BinOp, node: BinaryNode) -> Result<Option<Patch>, DeclutterError> {
    match op {
        BinOp::Add => add_rule(node),
        BinOp::Sub => sub_rule(node),
        BinOp::Mul => mul_rule(node),
        BinOp::Div => div_rule(node),
        BinOp::Pow => pow_rule(node),
        _ => Ok(None),
    }
}

/// What a binary node of operator `op` computes on the value `x` of its
/// variable input, its other input being the uniform integer of `u`.
pub open spec fn node_value(op: BinOp, u: OneUniformInput, x: int) -> Option<int> {
    with_uniform(op, u.uni.datum_type, u.uni.value->0 as int, x, u.left_is_uniform)
}

/// A value of a plain integer type whose `i64` reading is a small `value`
/// is that value.
proof fn lemma_reading_of_held(dt: DatumType, c: int, value: int)
    requires
        dt.is_plain_integer(),
        dt.holds(c),
        wrap_i64(c) == value,
        0 <= value <= 1,
    ensures
        c == value,
{
    let m: int = 0x1_0000_0000_0000_0000;
    let d = c - I64_LOW;
    lemma_fundamental_div_mod(d, m);
    assert(0 <= d < 2 * m);
    if d < m {
        lemma_small_mod(d as nat, m as nat);
    } else {
        lemma_small_mod((d - m) as nat, m as nat);
        vstd::arithmetic::div_mod::lemma_mod_sub_multiples_vanish(d, m);
    }
}

/// A value of a plain integer type whose 64 bits (two's complement) have a
/// single set bit, at `k`, is `2^k` with `k` below the type's number of bits,
/// or it is `-2^63` in `i64`, with `k == 63`.
proof fn lemma_single_bit_value(dt: DatumType, c: int, k: nat)
    requires
        dt.is_plain_integer(),
        dt.holds(c),
        single_bit(wrap_i64(c)) == Some(k),
    ensures
        dt.modulus() == pow2(dt.bits()),
        (c == pow2(k) && k < dt.bits()) || (dt is I64 && k == 63 && c == -pow2(63)),
{
    lemma2_to64();
    lemma2_to64_rest();
    let m: int = 0x1_0000_0000_0000_0000;
    assert(single_bit_at(wrap_i64(c), k));
    let w = wrap_i64(c);
    let d = c - I64_LOW;
    lemma_fundamental_div_mod(d, m);
    lemma_fundamental_div_mod(w, m);
    assert(k < 64);
    if k < 63 {
        lemma_pow2_strictly_increases(k, 63);
    }
    lemma_pow2_pos(k);
    // w == c - (d / m) * m and w == pow2(k) + (w / m) * m
    assert(0 <= d < 2 * m);
    assert(0 <= d / m <= 1) by {
        vstd::arithmetic::div_mod::lemma_div_is_ordered(0, d, m);
        vstd::arithmetic::div_mod::lemma_div_by_multiple(2, m);
        vstd::arithmetic::div_mod::lemma_div_is_ordered(d, 2 * m - 1, m);
        vstd::arithmetic::div_mod::lemma_fundamental_div_mod(2 * m - 1, m);
    }
    assert(-0x8000_0000_0000_0000 <= w < 0x8000_0000_0000_0000);
    assert(-1 <= w / m <= 0) by {
        vstd::arithmetic::div_mod::lemma_div_is_ordered(w, 0x8000_0000_0000_0000 - 1, m);
        vstd::arithmetic::div_mod::lemma_div_is_ordered(-0x8000_0000_0000_0000, w, m);
        vstd::arithmetic::div_mod::lemma_fundamental_div_mod(-0x8000_0000_0000_0000, m);
        vstd::arithmetic::div_mod::lemma_fundamental_div_mod(0x8000_0000_0000_0000 - 1, m);
    }
    // so c is pow2(k) plus a multiple of m between -1 and 1
    let t = d / m + w / m;
    assert(c == pow2(k) + t * m);
    if t == 0 {
        assert(c == pow2(k));
        if k >= dt.bits() {
            if k > dt.bits() {
                lemma_pow2_strictly_increases(dt.bits(), k);
            }
        }
    } else if t == -1 {
        assert(c == pow2(k) - m);
        if k < 63 {
            assert(false);
        }
        assert(k == 63);
    } else {
        assert(t == 1);
        assert(false);
    }
}

/// An integer held by a plain integer type is that type's conversion of its
/// own `i64` reading.
proof fn lemma_held_is_wrap_of_reading(dt: DatumType, c: int)
    requires
        dt.is_plain_integer(),
        dt.holds(c),
    ensures
        dt.wrap(wrap_i64(c)) == c,
{
    let m64: int = 0x1_0000_0000_0000_0000;
    let q = (c - I64_LOW) / m64;
    lemma_fundamental_div_mod(c - I64_LOW, m64);
    let m = dt.modulus();
    let k: int = m64 / m;
    assert(m64 == k * m);
    let j = -q * k;
    assert(wrap_i64(c) == c + j * m) by (nonlinear_arith)
        requires
            wrap_i64(c) == c - m64 * q,
            m64 == k * m,
            j == -q * k,
    ;
    lemma_wrap_congruent(dt, wrap_i64(c), c, j);
    lemma_wrap_of_held(dt, c);
}

/// Bypassing keeps the value for any operator with a neutral value: where
/// the neutral rule with `value` bypasses a node whose uniform input is of a
/// plain integer type, and `value` (converted to that type) is neutral for
/// `op` on the right (and also on the left where `also_left` lets the rule
/// take a uniform on the left), the node computes its variable input
/// unchanged.
pub proof fn law_neutral_bypass_keeps_value(
    op: BinOp,
    node: BinaryNode,
    u: OneUniformInput,
    value: int,
    also_left: bool,
    x: int,
)
    requires
        node.one_uniform == Some(u),
        u.uni.wf(),
        u.uni.datum_type.is_plain_integer(),
        u.uni.datum_type.holds(x),
        forall|y: int|
            u.uni.datum_type.holds(y) ==> #[trigger] int_binary(
                op,
                u.uni.datum_type,
                y,
                u.uni.datum_type.wrap(value),
            ) == Some(y),
        also_left ==> forall|y: int|
            u.uni.datum_type.holds(y) ==> #[trigger] int_binary(
                op,
                u.uni.datum_type,
                u.uni.datum_type.wrap(value),
                y,
            ) == Some(y),
        neutral_rule(node.one_uniform, value, also_left) == Ok::<Option<Patch>, DeclutterError>(
            Some(Patch::Bypass { input: u.spec_var_input() }),
        ),
    ensures
        node_value(op, u, x) == Some(x),
{
    let dt = u.uni.datum_type;
    let c = u.uni.value->0 as int;
    lemma_held_is_wrap_of_reading(dt, c);
    assert(dt.wrap(value) == c);
    if u.left_is_uniform {
        assert(also_left);
        assert(int_binary(op, dt, dt.wrap(value), x) == Some(x));
    } else {
        assert(int_binary(op, dt, x, dt.wrap(value)) == Some(x));
    }
}

/// Bypassing keeps the value: where the rule of an addition, a subtraction,
/// a product, a division or a power bypasses a node whose uniform input is an
/// integer, the node computes its variable input unchanged, whatever it is.
pub proof fn law_bypass_keeps_value(op: BinOp, node: BinaryNode, u: OneUniformInput, x: int)
    requires
        node.one_uniform == Some(u),
        u.uni.wf(),
        u.uni.datum_type.is_plain_integer(),
        u.uni.datum_type.holds(x),
        op is Pow ==> (u.uni.datum_type is I32 || u.uni.datum_type is I64),
        binary_rule(op, node) is Ok,
        binary_rule(op, node)->Ok_0 == Some(Patch::Bypass { input: u.spec_var_input() }),
    ensures
        node_value(op, u, x) == Some(x),
{
    let dt = u.uni.datum_type;
    let c = u.uni.value->0 as int;
    let value: int = if op is Add || op is Sub {
        0
    } else {
        1
    };
    let also_left = op is Add || op is Mul;
    assert(neutral_rule(node.one_uniform, value, also_left) == Ok::<Option<Patch>, DeclutterError>(
        Some(Patch::Bypass { input: u.spec_var_input() }),
    ));
    lemma_reading_of_held(dt, c, value);
    lemma_wrap_of_held(dt, x);
    match op {
        BinOp::Add => {
            assert(x + c == x && c + x == x);
        },
        BinOp::Sub => {
            assert(!u.left_is_uniform);
            assert(x - c == x);
        },
        BinOp::Mul => {
            assert(x * c == x && c * x == x);
        },
        BinOp::Div => {
            assert(!u.left_is_uniform);
            assert(trunc_div(x, 1) == x);
        },
        BinOp::Pow => {
            assert(!u.left_is_uniform);
            assert(1int % 0x1_0000_0000 == 1);
            vstd::arithmetic::power::lemma_pow1(x);
        },
        _ => {},
    }
}

/// A product by a uniform zero is the zero constant: where the rule of a
/// product replaces a node whose uniform input is an integer by that uniform,
/// the uniform is zero and the node computes it, whatever its variable input.
pub proof fn law_mul_by_zero_is_const(node: BinaryNode, u: OneUniformInput, x: int)
    requires
        node.one_uniform == Some(u),
        u.uni.wf(),
        u.uni.datum_type.is_plain_integer(),
        u.uni.datum_type.holds(x),
        mul_rule(node) == Ok::<Option<Patch>, DeclutterError>(Some(Patch::BroadcastConst { value: u.uni })),
    ensures
        u.uni.value == Scalar::Int(0),
        node_value(BinOp::Mul, u, x) == Some(0int),
{
    let dt = u.uni.datum_type;
    let c = u.uni.value->0 as int;
    assert(neutral_rule(node.one_uniform, 1, true) == Ok::<Option<Patch>, DeclutterError>(None));
    assert(c == 0);
    assert(x * c == 0 && c * x == 0);
    lemma_wrap_of_held(dt, 0);
}

/// A product by a uniform power of two is a left shift: where the rule of a
/// product turns a node whose uniform input is an integer into a left shift
/// of its variable input, shifting gives what the product gives, whatever the
/// variable input (both wrap).
pub proof fn law_mul_by_power_of_two_is_shift_left(
    node: BinaryNode,
    u: OneUniformInput,
    x: int,
    input: usize,
    shift: u32,
    datum_type: DatumType,
    rank: usize,
)
    requires
        node.one_uniform == Some(u),
        u.uni.wf(),
        u.uni.datum_type.is_plain_integer(),
        u.uni.datum_type.holds(x),
        mul_rule(node) == Ok::<Option<Patch>, DeclutterError>(
            Some(Patch::ShiftLeft { input, shift, datum_type, rank }),
        ),
    ensures
        input == u.spec_var_input(),
        datum_type == u.uni.datum_type,
        node_value(BinOp::Mul, u, x) == int_binary(BinOp::ShiftLeft, datum_type, x, shift as int),
{
    let dt = u.uni.datum_type;
    let c = u.uni.value->0 as int;
    assert(neutral_rule(node.one_uniform, 1, true) == Ok::<Option<Patch>, DeclutterError>(None));
    let k = single_bit(wrap_i64(c)).unwrap();
    assert(shift == k);
    lemma_single_bit_value(dt, c, k);
    lemma2_to64();
    assert((shift as int) % (dt.bits() as int) == k) by {
        lemma_small_mod(k, dt.bits());
    }
    if c == pow2(k) {
        assert(x * c == c * x);
    } else {
        assert(dt.modulus() == 0x1_0000_0000_0000_0000);
        assert(x * c == x * pow2(k) + (-x) * dt.modulus()) by (nonlinear_arith)
            requires c == -pow2(k), pow2(k) == 0x8000_0000_0000_0000, dt.modulus() == 0x1_0000_0000_0000_0000;
        lemma_wrap_congruent(dt, x * c, x * pow2(k), -x);
        assert(x * c == c * x);
    }
}

/// A division by a uniform power of two agrees with a right shift exactly on
/// the dividends that are not negative or are multiples of a positive
/// divisor: where the rule of a division turns a node whose divisor is a
/// uniform integer into a right shift of its dividend, the shift gives what
/// the division gives if and only if the dividend is not negative, or the
/// divisor is positive and divides it. (On other negative dividends the
/// division rounds toward zero and the shift toward minus infinity.)
pub proof fn law_div_by_power_of_two_is_shift_right(
    node: BinaryNode,
    c: i128,
    x: int,
    input: usize,
    shift: u32,
    datum_type: DatumType,
    rank: usize,
)
    requires
        node.right.uniform == Some(Scalar::Int(c)),
        (crate::scalar::Uniform { datum_type: node.right.datum_type, value: Scalar::Int(c) }).wf(),
        node.right.datum_type.is_plain_integer(),
        node.right.datum_type.holds(x),
        div_rule(node) == Ok::<Option<Patch>, DeclutterError>(
            Some(Patch::ShiftRight { input, shift, datum_type, rank }),
        ),
    ensures
        input == 0,
        datum_type == node.right.datum_type,
        (int_binary(BinOp::Div, datum_type, x, c as int) == int_binary(
            BinOp::ShiftRight,
            datum_type,
            x,
            shift as int,
        )) <==> (x >= 0 || (c > 0 && x % (c as int) == 0)),
{
    let dt = node.right.datum_type;
    assert(neutral_rule(node.one_uniform, 1, false) is Ok);
    assert(neutral_rule(node.one_uniform, 1, false)->Ok_0 is None);
    let k = single_bit(wrap_i64(c as int)).unwrap();
    assert(shift == k);
    lemma_single_bit_value(dt, c as int, k);
    lemma2_to64();
    lemma_pow2_pos(k);
    assert((shift as int) % (dt.bits() as int) == k) by {
        lemma_small_mod(k, dt.bits());
    }
    let ci = c as int;
    assert(int_binary(BinOp::ShiftRight, dt, x, shift as int) == Some(x / (pow2(k) as int)));
    if c == pow2(k) {
        if x >= 0 {
            assert(trunc_div(x, ci) == x / ci);
        } else {
            let a = -x;
            lemma_fundamental_div_mod(a, ci);
            let q = a / ci;
            let r = a % ci;
            assert(trunc_div(x, ci) == -q);
            if r == 0 {
                assert(x == (-q) * ci + 0) by (nonlinear_arith)
                    requires a == ci * q + r, r == 0, x == -a;
                lemma_fundamental_div_mod_converse(x, ci, -q, 0);
            } else {
                assert(x == (-q - 1) * ci + (ci - r)) by (nonlinear_arith)
                    requires a == ci * q + r, x == -a;
                lemma_fundamental_div_mod_converse(x, ci, -q - 1, ci - r);
            }
        }
    } else {
        lemma2_to64_rest();
        let p = pow2(k) as int;
        assert(p == 0x8000_0000_0000_0000);
        if x >= 0 {
            assert(x < 0x8000_0000_0000_0000);
            assert(x / p == 0) by {
                vstd::arithmetic::div_mod::lemma_basic_div(x, p);
            }
            assert(trunc_div(x, ci) == -(x / p));
        } else {
            assert(-p <= x < 0);
            lemma_fundamental_div_mod_converse(x, p, -1, x + p);
            if x == -p {
                lemma_fundamental_div_mod_converse(-x, p, 1, 0);
            } else {
                vstd::arithmetic::div_mod::lemma_basic_div(-x, p);
            }
            assert(trunc_div(x, ci) == (-x) / p);
        }
    }
}

/// Simplifying keeps the results: where the rule of an addition, a
/// subtraction, a product or a division of a node with a uniform integer
/// input returns a patch, the patch computes integers, and what the node
/// computes, for every value of the node's variable input; the right shift
/// that replaces a division does so exactly for the values that are not
/// negative or are multiples of a positive divisor.
/// The same holds of a power, where its rule returns a patch that computes
/// integers (the square and square root it may return have no integer
/// kernel). For a division the uniform input is the right one: the division
/// rule reads the right input whichever input is the uniform one, so with the
/// uniform on the left its shift would apply to the uniform input itself
/// (where the right input is uniform too) and its patch follows the right
/// input's type.
pub proof fn law_declutter_keeps_results(op: BinOp, node: BinaryNode, u: OneUniformInput, x: int, p: Patch)
    requires
        node.wf(),
        node.one_uniform == Some(u),
        u.uni.datum_type.is_plain_integer(),
        u.uni.datum_type.holds(x),
        op is Pow ==> (u.uni.datum_type is I32 || u.uni.datum_type is I64),
        op is Div ==> !u.left_is_uniform,
        binary_rule(op, node) == Ok::<Option<Patch>, DeclutterError>(Some(p)),
        op is Pow ==> is_integer_patch(p),
    ensures
        is_integer_patch(p),
        !(p is ShiftRight) ==> patch_value(p, x) == node_value(op, u, x),
        p is ShiftRight ==> ((patch_value(p, x) == node_value(op, u, x)) <==> (x >= 0 || (
        u.uni.value->0 > 0 && x % (u.uni.value->0 as int) == 0))),
{
    match p {
        Patch::Bypass { input } => {
            let value: int = if op is Add || op is Sub { 0 } else { 1 };
            let also_left = op is Add || op is Mul;
            assert(neutral_rule(node.one_uniform, value, also_left) is Ok);
            law_bypass_keeps_value(op, node, u, x);
        },
        Patch::BroadcastConst { value } => {
            assert(op is Mul);
            law_mul_by_zero_is_const(node, u, x);
        },
        Patch::ShiftLeft { input, shift, datum_type, rank } => {
            assert(op is Mul);
            law_mul_by_power_of_two_is_shift_left(node, u, x, input, shift, datum_type, rank);
        },
        Patch::ShiftRight { input, shift, datum_type, rank } => {
            assert(op is Div);
            law_div_by_power_of_two_is_shift_right(
                node,
                u.uni.value->0,
                x,
                input,
                shift,
                datum_type,
                rank,
            );
        },
        _ => {},
    }
}


/// A uniform of a type that is not quantized, whose `i64` reading is `n`
/// (zero or one) and reads back exactly, is exactly `n`.
proof fn lemma_exact_reading(uni: Uniform, n: int)
    requires
        uni.wf(),
        !uni.datum_type.spec_is_quantized(),
        uni.value.i64_reading() == Some(n),
        uni.value.i64_reading_is_exact(),
        0 <= n <= 1,
    ensures
        uni.value.is_exactly(n),
{
    match uni.value {
        Scalar::Int(v) => {
            if uni.datum_type.spec_is_integer() && uni.datum_type.holds(v as int) {
                lemma_reading_of_held(uni.datum_type, v as int, n);
            } else {
                lemma_small_mod((v - I64_LOW) as nat, 0x1_0000_0000_0000_0000);
            }
        },
        Scalar::Float { mantissa, exponent } => {
            let m = mantissa as int;
            let t = trunc_scaled(m, exponent as int);
            assert(saturate_i64(t) == n);
            assert(t == n);
            if exponent < 0 {
                let p = p2(-exponent as int);
                lemma_pow2_pos((-exponent) as nat);
                lemma_fundamental_div_mod(m, p);
                if m >= 0 {
                    assert(m == n * p) by (nonlinear_arith)
                        requires m == p * (m / p) + m % p, m % p == 0, m / p == n;
                } else {
                    lemma_fundamental_div_mod(-m, p);
                    assert(false) by (nonlinear_arith)
                        requires
                            m == p * (m / p) + m % p,
                            m % p == 0,
                            m < 0,
                            p > 0,
                            -m == p * ((-m) / p) + (-m) % p,
                            0 <= (-m) % p < p,
                            -((-m) / p) == n,
                            n >= 0,
                    ;
                }
            }
        },
        _ => {},
    }
}

/// Where the neutral rule with `value` (zero or one) returns a patch, the
/// uniform input is exactly `value` and the patch is the bypass of the node to
/// its other input.
proof fn lemma_neutral_patch_is_exact(node: BinaryNode, value: int, also_left: bool, p: Patch)
    requires
        node.wf(),
        0 <= value <= 1,
        neutral_rule(node.one_uniform, value, also_left) == Ok::<Option<Patch>, DeclutterError>(Some(p)),
    ensures
        node.one_uniform is Some,
        node.one_uniform->0.uni.value.is_exactly(value),
        also_left || !node.one_uniform->0.left_is_uniform,
        p == (Patch::Bypass { input: node.one_uniform->0.spec_var_input() }),
{
    let u = node.one_uniform->0;
    lemma_exact_reading(u.uni, value);
}

/// An addition is bypassed only by an exact zero: where the addition rule
/// returns a patch, it is the bypass to the other input and the uniform
/// input is exactly `0` (a float one too), so that `x + c == x`.
pub proof fn law_add_bypasses_only_zero(node: BinaryNode, p: Patch)
    requires
        node.wf(),
        add_rule(node) == Ok::<Option<Patch>, DeclutterError>(Some(p)),
    ensures
        node.one_uniform is Some,
        node.one_uniform->0.uni.value.is_exactly(0),
        p == (Patch::Bypass { input: node.one_uniform->0.spec_var_input() }),
{
    lemma_neutral_patch_is_exact(node, 0, true, p);
}

/// A subtraction is bypassed only by an exact zero on the right: where the
/// subtraction rule returns a patch, it is the bypass to the left input and
/// the right input is the uniform one, exactly `0`, so that `x - c == x`.
pub proof fn law_sub_bypasses_only_zero(node: BinaryNode, p: Patch)
    requires
        node.wf(),
        sub_rule(node) == Ok::<Option<Patch>, DeclutterError>(Some(p)),
    ensures
        node.one_uniform is Some,
        !node.one_uniform->0.left_is_uniform,
        node.one_uniform->0.uni.value.is_exactly(0),
        p == (Patch::Bypass { input: 0 }),
{
    lemma_neutral_patch_is_exact(node, 0, false, p);
}

/// A product is bypassed only by an exact one: where the product rule
/// bypasses the node, the uniform input is exactly `1` (a float one too) and
/// the bypass goes to the other input, so that `x * c == x`.
pub proof fn law_mul_bypasses_only_one(node: BinaryNode, input: usize)
    requires
        node.wf(),
        mul_rule(node) == Ok::<Option<Patch>, DeclutterError>(Some(Patch::Bypass { input })),
    ensures
        node.one_uniform is Some,
        node.one_uniform->0.uni.value.is_exactly(1),
        input == node.one_uniform->0.spec_var_input(),
{
    match neutral_rule(node.one_uniform, 1, true) {
        Ok(Some(p)) => lemma_neutral_patch_is_exact(node, 1, true, p),
        _ => {},
    }
}

/// A division is bypassed only by an exact one on the right: where the
/// division rule bypasses the node, the divisor is the uniform input, exactly
/// `1` (a float one too), and the bypass goes to the dividend, so that
/// `x / c == x`.
pub proof fn law_div_bypasses_only_one(node: BinaryNode, input: usize)
    requires
        node.wf(),
        div_rule(node) == Ok::<Option<Patch>, DeclutterError>(Some(Patch::Bypass { input })),
    ensures
        node.one_uniform is Some,
        !node.one_uniform->0.left_is_uniform,
        node.one_uniform->0.uni.value.is_exactly(1),
        input == 0,
{
    match neutral_rule(node.one_uniform, 1, false) {
        Ok(Some(p)) => lemma_neutral_patch_is_exact(node, 1, false, p),
        _ => {},
    }
}

/// A power is bypassed only by an exact exponent one: where the power rule
/// bypasses the node, the exponent is the uniform input, exactly `1`, and the
/// bypass goes to the base, so that `x ^ c == x`.
pub proof fn law_pow_bypasses_only_one(node: BinaryNode, input: usize)
    requires
        node.wf(),
        pow_rule(node) == Ok::<Option<Patch>, DeclutterError>(Some(Patch::Bypass { input })),
    ensures
        node.one_uniform is Some,
        !node.one_uniform->0.left_is_uniform,
        node.one_uniform->0.uni.value.is_exactly(1),
        input == 0,
{
    match neutral_rule(node.one_uniform, 1, false) {
        Ok(Some(p)) => lemma_neutral_patch_is_exact(node, 1, false, p),
        _ => {},
    }
}

/// A power becomes a square or a square root only by its exponent: where the
/// power rule returns a square or a square root, it applies to the base (the
/// left input), the exponent (the right input) is uniform, and it reads as
/// `2.0` as an `f32` for a square and as `0.5` for a square root. A node whose
/// exponent is not uniform is never rewritten so.
pub proof fn law_pow_unary_reads_the_exponent(node: BinaryNode, op: ElementWise, input: usize)
    requires
        pow_rule(node) == Ok::<Option<Patch>, DeclutterError>(Some(Patch::Unary { op, input })),
    ensures
        input == 0,
        node.right.uniform is Some,
        op is Square ==> node.right.uniform->0.f32_reading_is_two(),
        op is Sqrt ==> node.right.uniform->0.f32_reading_is_half(),
        op is Square || op is Sqrt,
{
}


/// A product becomes a constant only by an exact zero: where the product rule
/// replaces the node by a broadcast constant, the uniform input is exactly
/// `0` (a float one too) and it is that constant.
pub proof fn law_mul_const_only_by_zero(node: BinaryNode, value: Uniform)
    requires
        node.wf(),
        mul_rule(node) == Ok::<Option<Patch>, DeclutterError>(Some(Patch::BroadcastConst { value })),
    ensures
        node.one_uniform is Some,
        node.one_uniform->0.uni.value.is_exactly(0),
        value == node.one_uniform->0.uni,
{
    match neutral_rule(node.one_uniform, 1, true) {
        Ok(Some(p)) => lemma_neutral_patch_is_exact(node, 1, true, p),
        _ => {
            match node.one_uniform->0.uni.value {
                Scalar::Float { mantissa, exponent } => {
                    assert(0 * p2(exponent as int) == 0);
                    assert(0 * p2(-exponent as int) == 0);
                },
                _ => {},
            }
        },
    }
}

} // verus!
