//! The integer kernels of the binary and unary operators: their meaning as
//! spec functions over mathematical integers, and the executable kernels that
//! compute it, element by element, with a uniform operand. Arithmetic wraps,
//! as in release builds.

use vstd::prelude::*;
use vstd::arithmetic::power::pow;
use crate::datum::DatumType;
use vstd::arithmetic::div_mod::{lemma_fundamental_div_mod, lemma_mod_multiples_vanish, lemma_mul_mod_noop, lemma_mod_sub_multiples_vanish, lemma_small_mod, lemma_fundamental_div_mod_converse};
use vstd::arithmetic::power2::{pow2, lemma_pow2_pos, lemma_pow2_strictly_increases, lemma2_to64};
use crate::scalar::{p2, pow2_i128};
use crate::declutter::ElementWise;

verus! {

/// The element-wise binary operators.
#[derive(Clone, Copy, Debug, PartialEq, Eq, Structural)]
pub enum BinOp {
    Add,
    Sub,
    Mul,
    Div,
    Rem,
    Min,
    Max,
    Pow,
    ShiftLeft,
    ShiftRight,
}

/// `a / b` rounded toward zero, as integer division does.
pub open spec fn trunc_div(a: int, b: int) -> int {
    if (a >= 0) == (b >= 0) {
        if a >= 0 {
            a / b
        } else {
            (-a) / (-b)
        }
    } else if a >= 0 {
        -(a / (-b))
    } else {
        -((-a) / b)
    }
}

/// Whether `a / b` and `a % b` fail: division by zero, or the one
/// signed division whose quotient does not fit.
pub open spec fn division_fails(dt: DatumType, a: int, b: int) -> bool {
    b == 0 || (dt.spec_is_signed() && a == dt.int_min() && b == -1)
}

/// What the operator computes on two values of the plain integer type `dt`,
/// as the integer kernels do with wrapping arithmetic (as in release
/// builds): `None` where the kernel fails (division by zero or overflow of a
/// division) or where the operator has no kernel for the type (`Pow` runs on
/// `i32` and `i64` only). A shift amount is taken modulo the number of bits.
pub open spec fn int_binary(op: BinOp, dt: DatumType, a: int, b: int) -> Option<int> {
    match op {
        BinOp::Add => Some(dt.wrap(a + b)),
        BinOp::Sub => Some(dt.wrap(a - b)),
        BinOp::Mul => Some(dt.wrap(a * b)),
        BinOp::Div => if division_fails(dt, a, b) {
            None
        } else {
            Some(trunc_div(a, b))
        },
        BinOp::Rem => if division_fails(dt, a, b) {
            None
        } else {
            Some(a - b * trunc_div(a, b))
        },
        BinOp::Min => Some(
            if a < b {
                a
            } else {
                b
            },
        ),
        BinOp::Max => Some(
            if a < b {
                b
            } else {
                a
            },
        ),
        BinOp::Pow => if dt is I32 || dt is I64 {
            Some(dt.wrap(pow(a, (b % 0x1_0000_0000) as nat)))
        } else {
            None
        },
        BinOp::ShiftLeft => Some(dt.wrap(a * p2(b % (dt.bits() as int)))),
        BinOp::ShiftRight => Some(a / p2(b % (dt.bits() as int))),
    }
}

/// A value of the type wraps to itself.
pub proof fn lemma_wrap_of_held(dt: DatumType, v: int)
    requires
        dt.spec_is_integer(),
        dt.holds(v),
    ensures
        dt.wrap(v) == v,
{
    vstd::arithmetic::div_mod::lemma_small_mod((v - dt.int_min()) as nat, dt.modulus() as nat);
}

/// Values congruent modulo 2 to the number of bits wrap alike.
pub proof fn lemma_wrap_congruent(dt: DatumType, a: int, b: int, j: int)
    requires
        dt.spec_is_integer(),
        a == b + j * dt.modulus(),
    ensures
        dt.wrap(a) == dt.wrap(b),
{
    let m = dt.modulus();
    assert(a - dt.int_min() == m * j + (b - dt.int_min())) by (nonlinear_arith)
        requires a == b + j * m;
    vstd::arithmetic::div_mod::lemma_mod_multiples_vanish(j, b - dt.int_min(), m);
}

/// A wrapped value is congruent to what was wrapped.
pub proof fn lemma_wrap_mod(dt: DatumType, x: int)
    requires
        dt.spec_is_integer(),
    ensures
        dt.wrap(x) % dt.modulus() == x % dt.modulus(),
{
    let m = dt.modulus();
    let lo = dt.int_min();
    lemma_fundamental_div_mod(x - lo, m);
    let q = (x - lo) / m;
    assert(dt.wrap(x) == m * (-q) + x) by (nonlinear_arith)
        requires dt.wrap(x) == lo + (x - lo) % m, x - lo == m * q + (x - lo) % m;
    lemma_mod_multiples_vanish(-q, x, m);
}

/// Congruent values wrap alike.
pub proof fn lemma_wrap_by_mod(dt: DatumType, x: int, y: int)
    requires
        dt.spec_is_integer(),
        x % dt.modulus() == y % dt.modulus(),
    ensures
        dt.wrap(x) == dt.wrap(y),
{
    let m = dt.modulus();
    lemma_fundamental_div_mod(x, m);
    lemma_fundamental_div_mod(y, m);
    assert(x == y + (x / m - y / m) * m) by (nonlinear_arith)
        requires x == m * (x / m) + x % m, y == m * (y / m) + y % m, x % m == y % m;
    lemma_wrap_congruent(dt, x, y, x / m - y / m);
}

/// Why an operator gives no value.
#[derive(Clone, Copy, Debug, PartialEq, Eq, Structural)]
pub enum EvalError {
    /// A division or remainder by zero, or of the minimum by minus one.
    DivisionFailed,
    /// The operator has no kernel for the datum type.
    Unsupported,
}

/// Whether the operator has an integer kernel for the plain integer type.
pub open spec fn supports(op: BinOp, dt: DatumType) -> bool {
    op is Pow ==> (dt is I32 || dt is I64)
}

fn modulus_of(dt: DatumType) -> (r: i128)
    requires
        dt.spec_is_integer(),
    ensures
        r == dt.modulus(),
{
    match dt.unquantized() {
        DatumType::U8 | DatumType::I8 => 0x100,
        DatumType::U16 | DatumType::I16 => 0x1_0000,
        DatumType::U32 | DatumType::I32 => 0x1_0000_0000,
        _ => 0x1_0000_0000_0000_0000,
    }
}

fn bits_of(dt: DatumType) -> (r: i128)
    requires
        dt.spec_is_integer(),
    ensures
        r == dt.bits(),
{
    match dt.unquantized() {
        DatumType::U8 | DatumType::I8 => 8,
        DatumType::U16 | DatumType::I16 => 16,
        DatumType::U32 | DatumType::I32 => 32,
        _ => 64,
    }
}

fn min_of(dt: DatumType) -> (r: i128)
    requires
        dt.spec_is_integer(),
    ensures
        r == dt.int_min(),
{
    if dt.is_signed() {
        -(modulus_of(dt) / 2)
    } else {
        0
    }
}

/// `n` wrapped into the integer type.
fn wrap_value(dt: DatumType, n: i128) -> (r: i128)
    requires
        dt.spec_is_integer(),
        -0x4000_0000_0000_0000_0000_0000_0000_0000 <= n <= 0x4000_0000_0000_0000_0000_0000_0000_0000,
    ensures
        r == dt.wrap(n as int),
        dt.holds(r as int),
{
    let m = modulus_of(dt);
    let lo = min_of(dt);
    let d = n - lo;
    let q = floor_div(d, m);
    proof {
        lemma_fundamental_div_mod(d as int, m as int);
        assert(m * q == d - (d as int) % (m as int)) by (nonlinear_arith)
            requires d == m * q + (d as int) % (m as int);
    }
    let t = d - m * q;
    t + lo
}

/// The representative of `a` modulo 2 to the type's bits that lies in
/// `[-2^63, 2^63)`.
fn centered(dt: DatumType, a: i128) -> (r: i128)
    requires
        dt.is_plain_integer(),
        dt.holds(a as int),
    ensures
        -0x8000_0000_0000_0000 <= r < 0x8000_0000_0000_0000,
        (r as int) % dt.modulus() == (a as int) % dt.modulus(),
{
    let m = modulus_of(dt);
    if a >= m / 2 {
        proof {
            lemma_mod_sub_multiples_vanish(a as int, m as int);
        }
        a - m
    } else {
        a
    }
}

/// `a / b` rounded toward minus infinity, for `b > 0`.
fn floor_div(a: i128, b: i128) -> (r: i128)
    requires
        b > 0,
        a > i128::MIN,
    ensures
        r == (a as int) / (b as int),
{
    if a >= 0 {
        a / b
    } else {
        let na = -a;
        let q = na / b;
        let r0 = na % b;
        proof {
            lemma_fundamental_div_mod(na as int, b as int);
            vstd::arithmetic::div_mod::lemma_mod_pos_bound(na as int, b as int);
        }
        if r0 == 0 {
            proof {
                assert(a == (-q) * b + 0) by (nonlinear_arith)
                    requires na == b * q + r0, r0 == 0, a == -na;
                lemma_fundamental_div_mod_converse(a as int, b as int, -q as int, 0);
            }
            -q
        } else {
            proof {
                assert(a == (-q - 1) * b + (b - r0)) by (nonlinear_arith)
                    requires na == b * q + r0, a == -na;
                lemma_fundamental_div_mod_converse(a as int, b as int, -q - 1, b - r0);
            }
            -q - 1
        }
    }
}

/// The remainder of `a` divided by `m`, in `[0, m)`.
fn euclid_mod(a: i128, m: i128) -> (r: i128)
    requires
        0 < m <= 0x1_0000_0000_0000_0000,
        -0x4000_0000_0000_0000_0000_0000_0000_0000 <= a <= 0x4000_0000_0000_0000_0000_0000_0000_0000,
    ensures
        r == (a as int) % (m as int),
        0 <= r < m,
{
    let q = floor_div(a, m);
    proof {
        lemma_fundamental_div_mod(a as int, m as int);
        assert(m * q == a - (a as int) % (m as int)) by (nonlinear_arith)
            requires a == m * q + (a as int) % (m as int);
    }
    a - m * q
}

/// `a * p` wrapped into the integer type, for a power of two `p <= 2^63`.
fn mul_wrapped_by_pow2(dt: DatumType, a: i128, p: i128) -> (r: i128)
    requires
        dt.is_plain_integer(),
        dt.holds(a as int),
        0 < p <= 0x8000_0000_0000_0000,
    ensures
        r == dt.wrap(a * p),
{
    let m = modulus_of(dt);
    let ca = centered(dt, a);
    proof {
        assert(-0x4000_0000_0000_0000_0000_0000_0000_0000 <= ca * p
            <= 0x4000_0000_0000_0000_0000_0000_0000_0000) by (nonlinear_arith)
            requires -0x8000_0000_0000_0000 <= ca <= 0x8000_0000_0000_0000,
                0 < p <= 0x8000_0000_0000_0000;
        lemma_mul_mod_noop(ca as int, p as int, m as int);
        lemma_mul_mod_noop(a as int, p as int, m as int);
        lemma_wrap_by_mod(dt, a * p, ca * p);
    }
    wrap_value(dt, ca * p)
}

/// `a * b` wrapped into the integer type.
fn mul_wrapped(dt: DatumType, a: i128, b: i128) -> (r: i128)
    requires
        dt.is_plain_integer(),
        dt.holds(a as int),
        dt.holds(b as int),
    ensures
        r == dt.wrap(a * b),
{
    let m = modulus_of(dt);
    let ca = centered(dt, a);
    let cb = centered(dt, b);
    proof {
        assert(-0x4000_0000_0000_0000_0000_0000_0000_0000 <= ca * cb
            <= 0x4000_0000_0000_0000_0000_0000_0000_0000) by (nonlinear_arith)
            requires -0x8000_0000_0000_0000 <= ca <= 0x8000_0000_0000_0000,
                -0x8000_0000_0000_0000 <= cb <= 0x8000_0000_0000_0000;
        lemma_mul_mod_noop(ca as int, cb as int, m as int);
        lemma_mul_mod_noop(a as int, b as int, m as int);
        lemma_wrap_by_mod(dt, a * b, ca * cb);
    }
    wrap_value(dt, ca * cb)
}

/// `a / b` rounded toward zero.
fn div_trunc(dt: DatumType, a: i128, b: i128) -> (q: i128)
    requires
        dt.is_plain_integer(),
        dt.holds(a as int),
        dt.holds(b as int),
        !division_fails(dt, a as int, b as int),
    ensures
        q == trunc_div(a as int, b as int),
        -0x1_0000_0000_0000_0000 <= b * q <= 0x1_0000_0000_0000_0000,
{
    let na = if a < 0 { -a } else { a };
    let nb = if b < 0 { -b } else { b };
    let q0 = na / nb;
    proof {
        lemma_fundamental_div_mod(na as int, nb as int);
        vstd::arithmetic::div_mod::lemma_mod_pos_bound(na as int, nb as int);
        assert(0 <= q0 * nb <= na) by (nonlinear_arith)
            requires 0 <= na, 0 < nb, na == nb * q0 + na % nb, 0 <= na % nb;
    }
    let q = if (a >= 0) == (b >= 0) { q0 } else { -q0 };
    proof {
        if b >= 0 {
            assert(nb == b);
            assert(b * q == q0 * nb || b * q == -(q0 * nb)) by (nonlinear_arith)
                requires q == q0 || q == -q0, nb == b;
        } else {
            assert(nb == -b);
            assert(b * q == q0 * nb || b * q == -(q0 * nb)) by (nonlinear_arith)
                requires q == q0 || q == -q0, nb == -b;
        }
    }
    q
}

/// The shift amount `b` taken modulo the number of bits of the type.
fn shift_amount(dt: DatumType, b: i128) -> (s: i128)
    requires
        dt.spec_is_integer(),
        dt.holds(b as int),
    ensures
        s == (b as int) % (dt.bits() as int),
        0 <= s < 64,
{
    euclid_mod(b, bits_of(dt))
}

/// `a` to the power `b`, the exponent taken modulo 2^32, wrapped into
/// `i32` or `i64`.
fn wrapping_pow(dt: DatumType, a: i128, b: i128) -> (r: i128)
    requires
        dt is I32 || dt is I64,
        dt.holds(a as int),
        dt.holds(b as int),
    ensures
        r == dt.wrap(pow(a as int, ((b as int) % 0x1_0000_0000) as nat)),
{
    let m = modulus_of(dt);
    let mut e: i128 = euclid_mod(b, 0x1_0000_0000);
    let ghost e0 = e as nat;
    let mut acc: i128 = 1;
    let mut base: i128 = a;
    proof {
        vstd::arithmetic::power::lemma_pow0(a as int);
        assert(1 * pow(a as int, e0) == pow(a as int, e0));
    }
    while e > 0
        invariant
            dt is I32 || dt is I64,
            m == dt.modulus(),
            dt.holds(acc as int),
            dt.holds(base as int),
            0 <= e,
            (acc * pow(base as int, e as nat)) % (m as int) == pow(a as int, e0) % (m as int),
        decreases e,
    {
        if e % 2 == 1 {
            proof {
                assert(-0x4000_0000_0000_0000_0000_0000_0000_0000 <= acc * base
                    <= 0x4000_0000_0000_0000_0000_0000_0000_0000) by (nonlinear_arith)
                    requires -0x8000_0000_0000_0000 <= acc <= 0x8000_0000_0000_0000,
                        -0x8000_0000_0000_0000 <= base <= 0x8000_0000_0000_0000;
            }
            let new_acc = wrap_value(dt, acc * base);
            proof {
                let rest = pow(base as int, (e - 1) as nat);
                vstd::arithmetic::power::lemma_pow_adds(base as int, 1, (e - 1) as nat);
                vstd::arithmetic::power::lemma_pow1(base as int);
                assert(acc * pow(base as int, e as nat) == (acc * base) * rest) by (nonlinear_arith)
                    requires pow(base as int, e as nat) == base * rest;
                lemma_wrap_mod(dt, acc * base);
                vstd::arithmetic::div_mod::lemma_mul_mod_noop_left(new_acc as int, rest, m as int);
                vstd::arithmetic::div_mod::lemma_mul_mod_noop_left(acc * base, rest, m as int);
            }
            acc = new_acc;
            e = e - 1;
        }
        proof {
            assert(-0x4000_0000_0000_0000_0000_0000_0000_0000 <= base * base
                <= 0x4000_0000_0000_0000_0000_0000_0000_0000) by (nonlinear_arith)
                requires -0x8000_0000_0000_0000 <= base <= 0x8000_0000_0000_0000;
        }
        let new_base = wrap_value(dt, base * base);
        proof {
            let h = (e / 2) as nat;
            assert(e == 2 * h);
            vstd::arithmetic::power::lemma_pow_multiplies(base as int, 2, h);
            vstd::arithmetic::power::lemma_square_is_pow2(base as int);
            assert(pow(base as int, e as nat) == pow(base * base, h));
            lemma_wrap_mod(dt, base * base);
            vstd::arithmetic::power::lemma_pow_mod_noop(new_base as int, h, m as int);
            vstd::arithmetic::power::lemma_pow_mod_noop(base * base, h, m as int);
            vstd::arithmetic::div_mod::lemma_mul_mod_noop_right(acc as int, pow(new_base as int, h), m as int);
            vstd::arithmetic::div_mod::lemma_mul_mod_noop_right(acc as int, pow(base * base, h), m as int);
        }
        base = new_base;
        e = e / 2;
    }
    proof {
        vstd::arithmetic::power::lemma_pow0(base as int);
        assert(acc * pow(base as int, 0) == acc);
        lemma_wrap_by_mod(dt, acc as int, pow(a as int, e0));
        lemma_wrap_of_held(dt, acc as int);
    }
    acc
}

/// Computes `op` on two values of the plain integer type `dt`, as the integer
/// kernels do.
pub fn eval_int(op: BinOp, dt: DatumType, a: i128, b: i128) -> (r: Result<i128, EvalError>)
    requires
        dt.is_plain_integer(),
        dt.holds(a as int),
        dt.holds(b as int),
    ensures
        match r {
            Ok(v) => int_binary(op, dt, a as int, b as int) == Some(v as int),
            Err(e) => int_binary(op, dt, a as int, b as int) is None && (e == EvalError::Unsupported
                <==> !supports(op, dt)),
        },
{
    match op {
        BinOp::Add => Ok(wrap_value(dt, a + b)),
        BinOp::Sub => Ok(wrap_value(dt, a - b)),
        BinOp::Mul => Ok(mul_wrapped(dt, a, b)),
        BinOp::Div | BinOp::Rem => {
            if b == 0 || (dt.is_signed() && a == min_of(dt) && b == -1) {
                return Err(EvalError::DivisionFailed);
            }
            let q = div_trunc(dt, a, b);
            if op == BinOp::Div {
                Ok(q)
            } else {
                Ok(a - b * q)
            }
        },
        BinOp::Min => Ok(
            if a < b {
                a
            } else {
                b
            },
        ),
        BinOp::Max => Ok(
            if a < b {
                b
            } else {
                a
            },
        ),
        BinOp::Pow => {
            if !(dt == DatumType::I32 || dt == DatumType::I64) {
                return Err(EvalError::Unsupported);
            }
            Ok(wrapping_pow(dt, a, b))
        },
        BinOp::ShiftLeft | BinOp::ShiftRight => {
            let sh = shift_amount(dt, b);
            proof {
                lemma2_to64();
                if sh < 63 {
                    lemma_pow2_strictly_increases(sh as nat, 63);
                }
                vstd::arithmetic::power2::lemma2_to64_rest();
                lemma_pow2_pos(sh as nat);
            }
            let p = pow2_i128(sh as u32);
            if op == BinOp::ShiftLeft {
                proof {
                    vstd::arithmetic::div_mod::lemma_small_mod(sh as nat, pow2(64));
                }
                Ok(mul_wrapped_by_pow2(dt, a, p))
            } else {
                Ok(floor_div(a, p))
            }
        },
    }
}

/// What the operator gives on the element `x` of its variable operand, the
/// other operand being the uniform value `c`, on the left when
/// `uniform_is_left`.
pub open spec fn with_uniform(op: BinOp, dt: DatumType, c: int, x: int, uniform_is_left: bool) -> Option<int> {
    if uniform_is_left {
        int_binary(op, dt, c, x)
    } else {
        int_binary(op, dt, x, c)
    }
}

/// Whether `v` is a value of the integer type.
pub fn type_holds(dt: DatumType, v: i128) -> (r: bool)
    requires
        dt.spec_is_integer(),
    ensures
        r == dt.holds(v as int),
{
    let lo = min_of(dt);
    lo <= v && v <= lo + modulus_of(dt) - 1
}

/// Runs the operator element by element between the elements `var` of a
/// tensor and the uniform value `c` (the left operand when `uniform_is_left`).
pub fn eval_with_uniform(
    op: BinOp,
    dt: DatumType,
    var: &Vec<i128>,
    c: i128,
    uniform_is_left: bool,
) -> (r: Result<Vec<i128>, EvalError>)
    requires
        dt.is_plain_integer(),
        dt.holds(c as int),
        forall|i: int| 0 <= i < var.len() ==> dt.holds(#[trigger] var[i] as int),
    ensures
        match r {
            Ok(v) => supports(op, dt) && v.len() == var.len() && forall|i: int|
                0 <= i < var.len() ==> with_uniform(op, dt, c as int, var[i] as int, uniform_is_left)
                    == Some(#[trigger] v[i] as int),
            Err(e) => (e == EvalError::Unsupported && !supports(op, dt)) || (e
                == EvalError::DivisionFailed && supports(op, dt) && exists|i: int|
                0 <= i < var.len() && with_uniform(op, dt, c as int, #[trigger] var[i] as int, uniform_is_left) is None),
        },
{
    if op == BinOp::Pow && !(dt == DatumType::I32 || dt == DatumType::I64) {
        return Err(EvalError::Unsupported);
    }
    let mut out: Vec<i128> = Vec::new();
    let mut i: usize = 0;
    while i < var.len()
        invariant
            dt.is_plain_integer(),
            dt.holds(c as int),
            supports(op, dt),
            forall|j: int| 0 <= j < var.len() ==> dt.holds(#[trigger] var[j] as int),
            i <= var.len(),
            out.len() == i,
            forall|j: int| 0 <= j < i ==> with_uniform(op, dt, c as int, var[j] as int, uniform_is_left)
                == Some(#[trigger] out[j] as int),
        decreases var.len() - i,
    {
        let x = var[i];
        let res = if uniform_is_left {
            eval_int(op, dt, c, x)
        } else {
            eval_int(op, dt, x, c)
        };
        match res {
            Ok(v) => out.push(v),
            Err(_) => {
                proof {
                    assert(with_uniform(op, dt, c as int, var[i as int] as int, uniform_is_left) is None);
                }
                return Err(EvalError::DivisionFailed);
            },
        }
        i = i + 1;
    }
    Ok(out)
}

/// Runs the operator element by element on two tensors of the same shape,
/// given by their elements `a` and `b` in the same order.
pub fn eval_binary(op: BinOp, dt: DatumType, a: &Vec<i128>, b: &Vec<i128>) -> (r: Result<Vec<i128>, EvalError>)
    requires
        dt.is_plain_integer(),
        a.len() == b.len(),
        forall|i: int| 0 <= i < a.len() ==> dt.holds(#[trigger] a[i] as int),
        forall|i: int| 0 <= i < b.len() ==> dt.holds(#[trigger] b[i] as int),
    ensures
        match r {
            Ok(v) => supports(op, dt) && v.len() == a.len() && forall|i: int|
                0 <= i < a.len() ==> int_binary(op, dt, a[i] as int, b[i] as int) == Some(#[trigger] v[i] as int),
            Err(e) => (e == EvalError::Unsupported && !supports(op, dt)) || (e
                == EvalError::DivisionFailed && supports(op, dt) && exists|i: int|
                0 <= i < a.len() && int_binary(op, dt, #[trigger] a[i] as int, b[i] as int) is None),
        },
{
    if op == BinOp::Pow && !(dt == DatumType::I32 || dt == DatumType::I64) {
        return Err(EvalError::Unsupported);
    }
    let mut out: Vec<i128> = Vec::new();
    let mut i: usize = 0;
    while i < a.len()
        invariant
            dt.is_plain_integer(),
            supports(op, dt),
            a.len() == b.len(),
            forall|j: int| 0 <= j < a.len() ==> dt.holds(#[trigger] a[j] as int),
            forall|j: int| 0 <= j < b.len() ==> dt.holds(#[trigger] b[j] as int),
            i <= a.len(),
            out.len() == i,
            forall|j: int| 0 <= j < i ==> int_binary(op, dt, a[j] as int, b[j] as int) == Some(#[trigger] out[j] as int),
        decreases a.len() - i,
    {
        match eval_int(op, dt, a[i], b[i]) {
            Ok(v) => out.push(v),
            Err(_) => {
                proof {
                    assert(int_binary(op, dt, a[i as int] as int, b[i as int] as int) is None);
                }
                return Err(EvalError::DivisionFailed);
            },
        }
        i = i + 1;
    }
    Ok(out)
}

pub open spec fn spec_abs_operating_datum_type(dt: DatumType) -> DatumType {
    if dt is TDim {
        DatumType::I64
    } else {
        dt
    }
}

/// The type an absolute value is computed in: `i64` for symbolic dimensions,
/// the type itself for any other.
#[verifier::when_used_as_spec(spec_abs_operating_datum_type)]
pub fn abs_operating_datum_type(dt: DatumType) -> (r: DatumType)
    ensures
        r == spec_abs_operating_datum_type(dt),
{
    if dt == DatumType::TDim {
        DatumType::I64
    } else {
        dt
    }
}

/// What an element-wise operator computes on a value of the plain integer
/// type `dt`: `Abs` and `Neg` run on signed integers and wrap (the absolute
/// value and the negation of the minimum are the minimum); the other
/// element-wise operators have no integer kernel.
pub open spec fn int_unary(op: ElementWise, dt: DatumType, x: int) -> Option<int> {
    if !dt.spec_is_signed() {
        None
    } else {
        match op {
            ElementWise::Abs => Some(
                dt.wrap(
                    if x < 0 {
                        -x
                    } else {
                        x
                    },
                ),
            ),
            ElementWise::Neg => Some(dt.wrap(-x)),
            _ => None,
        }
    }
}

/// Runs an element-wise operator on the elements `xs` of a tensor of the
/// plain integer type `dt`.
pub fn eval_unary(op: ElementWise, dt: DatumType, xs: &Vec<i128>) -> (r: Result<Vec<i128>, EvalError>)
    requires
        dt.is_plain_integer(),
        forall|i: int| 0 <= i < xs.len() ==> dt.holds(#[trigger] xs[i] as int),
    ensures
        match r {
            Ok(v) => v.len() == xs.len() && forall|i: int|
                0 <= i < xs.len() ==> int_unary(op, dt, xs[i] as int) == Some(#[trigger] v[i] as int),
            Err(e) => e == EvalError::Unsupported && forall|x: int| #[trigger] int_unary(op, dt, x) is None,
        },
{
    if !dt.is_signed() || !(op == ElementWise::Abs || op == ElementWise::Neg) {
        return Err(EvalError::Unsupported);
    }
    let mut out: Vec<i128> = Vec::new();
    let mut i: usize = 0;
    while i < xs.len()
        invariant
            dt.is_plain_integer(),
            dt.spec_is_signed(),
            op == ElementWise::Abs || op == ElementWise::Neg,
            forall|j: int| 0 <= j < xs.len() ==> dt.holds(#[trigger] xs[j] as int),
            i <= xs.len(),
            out.len() == i,
            forall|j: int| 0 <= j < i ==> int_unary(op, dt, xs[j] as int) == Some(#[trigger] out[j] as int),
        decreases xs.len() - i,
    {
        let x = xs[i];
        let v = if op == ElementWise::Neg || x < 0 {
            wrap_value(dt, -x)
        } else {
            wrap_value(dt, x)
        };
        out.push(v);
        i = i + 1;
    }
    Ok(out)
}

} // verus!
