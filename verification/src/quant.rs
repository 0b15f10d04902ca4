//! The quantized kernels: addition, subtraction, minimum, maximum and
//! product of quantized integers. The rescaling of a product is done in
//! single precision, each `f32` operation rounded as the hardware rounds it
//! (see `binary32`).

use vstd::prelude::*;
use crate::binary32::{
    Binary32, rounded, product, reciprocal, negated, round_ties_even, saturating_int,
    round_to_binary32, lemma_product_commutes, one_binary32, half_binary32, round_half_even,
    lemma_round_product_by_one, lemma_round_product_by_half,
};
use vstd::arithmetic::power2::{lemma2_to64, lemma_pow2_pos};
use crate::scalar::p2;

verus! {

/// `v` clamped into `[lo, hi]`.
pub open spec fn clamp(v: int, lo: int, hi: int) -> int {
    if v < lo {
        lo
    } else if v > hi {
        hi
    } else {
        v
    }
}

/// The `i16` congruent to `v` modulo 2^16: what a wrapping cast or wrapping
/// `i16` arithmetic gives.
pub open spec fn wrap_i16(v: int) -> int {
    -0x8000 + (v + 0x8000) % 0x1_0000
}

/// The `i32` congruent to `v` modulo 2^32.
pub open spec fn wrap_i32(v: int) -> int {
    -0x8000_0000 + (v + 0x8000_0000) % 0x1_0000_0000
}

/// `v` wrapped into `i16`.
fn wrapping_i16(v: i64) -> (r: i16)
    ensures
        r == wrap_i16(v as int),
{
    let t = (v as i128 + 0x8000) % 0x1_0000;
    let t = if t < 0 { t + 0x1_0000 } else { t };
    (t - 0x8000) as i16
}

/// `v` wrapped into `i32`.
pub fn wrapping_i32(v: i64) -> (r: i32)
    ensures
        r == wrap_i32(v as int),
{
    let t = (v as i128 + 0x8000_0000) % 0x1_0000_0000;
    let t = if t < 0 { t + 0x1_0000_0000 } else { t };
    (t - 0x8000_0000) as i32
}

/// The storage types of the quantized kernels (`i8`, `u8`, `i32`).
pub trait QuantStorage: Sized + Copy {
    /// The value held.
    spec fn value(&self) -> int;

    /// The smallest value of the type.
    spec fn lowest() -> int;

    /// The largest value of the type.
    spec fn highest() -> int;

    /// A value of the type lies between its bounds.
    proof fn lemma_in_range(&self)
        ensures
            Self::lowest() <= self.value() <= Self::highest(),
            -0x8000_0000 <= Self::lowest() <= 0 < Self::highest() < 0x8000_0000,
    ;

    /// The value as an `i64`.
    fn to_i64(&self) -> (r: i64)
        ensures
            r == self.value(),
    ;

    /// `v` clamped into the type, as a saturating cast gives it.
    fn clamp_cast(v: i64) -> (r: Self)
        ensures
            r.value() == clamp(v as int, Self::lowest(), Self::highest()),
    ;
}

impl QuantStorage for i8 {
    open spec fn value(&self) -> int {
        *self as int
    }

    open spec fn lowest() -> int {
        -0x80
    }

    open spec fn highest() -> int {
        0x7f
    }

    proof fn lemma_in_range(&self) {
    }

    fn to_i64(&self) -> (r: i64) {
        *self as i64
    }

    fn clamp_cast(v: i64) -> (r: Self) {
        if v < -0x80 {
            -0x80
        } else if v > 0x7f {
            0x7f
        } else {
            v as i8
        }
    }
}

impl QuantStorage for u8 {
    open spec fn value(&self) -> int {
        *self as int
    }

    open spec fn lowest() -> int {
        0
    }

    open spec fn highest() -> int {
        0xff
    }

    proof fn lemma_in_range(&self) {
    }

    fn to_i64(&self) -> (r: i64) {
        *self as i64
    }

    fn clamp_cast(v: i64) -> (r: Self) {
        if v < 0 {
            0
        } else if v > 0xff {
            0xff
        } else {
            v as u8
        }
    }
}

impl QuantStorage for i32 {
    open spec fn value(&self) -> int {
        *self as int
    }

    open spec fn lowest() -> int {
        -0x8000_0000
    }

    open spec fn highest() -> int {
        0x7fff_ffff
    }

    proof fn lemma_in_range(&self) {
    }

    fn to_i64(&self) -> (r: i64) {
        *self as i64
    }

    fn clamp_cast(v: i64) -> (r: Self) {
        if v < -0x8000_0000 {
            -0x8000_0000
        } else if v > 0x7fff_ffff {
            0x7fff_ffff
        } else {
            v as i32
        }
    }
}

/// What a quantized addition stores: `a + b - zp`, computed in `i64` and
/// clamped into the type.
pub open spec fn add_quant_value<T: QuantStorage>(a: T, b: T, zp: i32) -> int {
    clamp(a.value() + b.value() - zp, T::lowest(), T::highest())
}

/// What a quantized subtraction stores: `a - b + zp`, each operand cast to
/// `i16` and the arithmetic done in `i16` (both wrapping), then clamped into
/// the type.
pub open spec fn sub_quant_value<T: QuantStorage>(a: T, b: T, zp: i32) -> int {
    clamp(
        wrap_i16(wrap_i16(wrap_i16(a.value()) - wrap_i16(b.value())) + wrap_i16(zp as int)),
        T::lowest(),
        T::highest(),
    )
}

/// Adds two quantized values sharing the zero point `zp` (the scale plays
/// no part).
pub fn add_quant<T: QuantStorage>(c: &mut T, a: &T, b: &T, zp: i32)
    ensures
        final(c).value() == add_quant_value(*a, *b, zp),
{
    proof {
        a.lemma_in_range();
        b.lemma_in_range();
    }
    *c = T::clamp_cast(a.to_i64() + b.to_i64() - zp as i64);
}

/// Subtracts two quantized values sharing the zero point `zp`, in `i16`.
pub fn sub_quant<T: QuantStorage>(c: &mut T, a: &T, b: &T, zp: i32)
    ensures
        final(c).value() == sub_quant_value(*a, *b, zp),
{
    proof {
        a.lemma_in_range();
        b.lemma_in_range();
    }
    let a16 = wrapping_i16(a.to_i64());
    let b16 = wrapping_i16(b.to_i64());
    let z16 = wrapping_i16(zp as i64);
    let d = wrapping_i16(a16 as i64 - b16 as i64);
    let v = wrapping_i16(d as i64 + z16 as i64);
    *c = T::clamp_cast(v as i64);
}

/// The smaller of two quantized values.
pub fn min_quant<T: QuantStorage>(c: &mut T, a: &T, b: &T)
    ensures
        final(c).value() == if a.value() < b.value() {
            a.value()
        } else {
            b.value()
        },
{
    *c = if a.to_i64() < b.to_i64() {
        *a
    } else {
        *b
    };
}

/// The larger of two quantized values.
pub fn max_quant<T: QuantStorage>(c: &mut T, a: &T, b: &T)
    ensures
        final(c).value() == if a.value() < b.value() {
            b.value()
        } else {
            a.value()
        },
{
    *c = if a.to_i64() < b.to_i64() {
        *b
    } else {
        *a
    };
}

/// The quantization of a tensor: a stored value `q` stands for
/// `(q - zero_point) * scale`, the scale being any single precision value.
#[derive(Clone, Copy, Debug, PartialEq, Eq, Structural)]
pub struct QParams {
    pub zero_point: i32,
    pub scale: Binary32,
}

/// `|x|` converted to single precision, as `x as f32` followed by `abs` gives
/// it.
pub open spec fn magnitude_binary32(x: int) -> Binary32 {
    rounded(false, if x < 0 { -x } else { x }, 1, 0)
}

/// `x` rescaled by `multiplier` in single precision: `|x|` is converted to
/// `f32` and multiplied by the multiplier, the product rounded to an integer
/// (ties to even) and given the sign of `x`, and the result converted to an
/// integer between `lo` and `hi` by a saturating cast (NaN to zero).
pub open spec fn scale_by_value(x: int, multiplier: Binary32, lo: int, hi: int) -> int {
    let r = round_ties_even(product(magnitude_binary32(x), multiplier));
    saturating_int(
        if x < 0 {
            negated(r)
        } else {
            r
        },
        lo,
        hi,
    )
}

/// `x` rescaled by `multiplier` into `[lo, hi]` (see `scale_by_value`).
pub fn scale_by(x: i32, multiplier: &Binary32, lo: i32, hi: i32) -> (r: i32)
    requires
        multiplier.wf(),
        lo <= 0 <= hi,
    ensures
        r == scale_by_value(x as int, *multiplier, lo as int, hi as int),
        lo <= r <= hi,
{
    let magnitude: u128 = if x < 0 {
        (-(x as i64)) as u128
    } else {
        x as u128
    };
    let xf = round_to_binary32(false, magnitude, 1, 0);
    let p = xf.mul(multiplier);
    let rounded_p = p.round_ties_even();
    let signed = if x < 0 {
        rounded_p.neg()
    } else {
        rounded_p
    };
    let v = signed.to_int_saturating(lo as i64, hi as i64);
    v as i32
}

/// The multiplier `a * b * (1 / c)` of a quantized product, computed in
/// single precision from left to right.
pub open spec fn multiplier_of(a: Binary32, b: Binary32, c: Binary32) -> Binary32 {
    product(product(a, b), reciprocal(c))
}

/// What the product of the quantized `u8` values `x` (of `pa`) and `y` (of
/// `pb`) stores in the quantization `pc`: the zero points are taken off and
/// the two multiplied in `i32` (wrapping), the product rescaled by the
/// multiplier `pa.scale * pb.scale * (1 / pc.scale)` into `i32`, `pc`'s zero
/// point added (wrapping) and the result clamped into `u8`.
pub open spec fn mul_qu8_value(x: u8, y: u8, pa: QParams, pb: QParams, pc: QParams) -> int {
    let product = wrap_i32(wrap_i32(x - pa.zero_point) * wrap_i32(y - pb.zero_point));
    let m = multiplier_of(pa.scale, pb.scale, pc.scale);
    clamp(
        wrap_i32(scale_by_value(product, m, -0x8000_0000, 0x7fff_ffff) + pc.zero_point),
        0,
        0xff,
    )
}

/// Multiplies the quantized `u8` values `x` (quantized by `pa`) and `y` (by
/// `pb`) into the quantization `pc` (see `mul_qu8_value`).
pub fn mul_qu8(x: u8, y: u8, pa: &QParams, pb: &QParams, pc: &QParams) -> (r: u8)
    requires
        pa.scale.wf(),
        pb.scale.wf(),
        pc.scale.wf(),
    ensures
        r == mul_qu8_value(x, y, *pa, *pb, *pc),
{
    let multiplier = pa.scale.mul(&pb.scale).mul(&pc.scale.recip());
    let dx = wrapping_i32(x as i64 - pa.zero_point as i64);
    let dy = wrapping_i32(y as i64 - pb.zero_point as i64);
    proof {
        assert(-0x4000_0000_0000_0000 <= (dx as int) * (dy as int) <= 0x4000_0000_0000_0000) by (nonlinear_arith)
            requires -0x8000_0000 <= dx < 0x8000_0000, -0x8000_0000 <= dy < 0x8000_0000;
    }
    let product = wrapping_i32(dx as i64 * dy as i64);
    let scaled = scale_by(product, &multiplier, i32::MIN, i32::MAX);
    let shifted = wrapping_i32(scaled as i64 + pc.zero_point as i64);
    u8::clamp_cast(shifted as i64)
}

/// Multiplies every element of the quantized `u8` tensor `a` (quantized by
/// `pa`) by the uniform quantized value `b` (by `pb`), into the quantization
/// `pc`.
pub fn mul_qu8_by_uniform(a: &Vec<u8>, b: u8, pa: &QParams, pb: &QParams, pc: &QParams) -> (r: Vec<u8>)
    requires
        pa.scale.wf(),
        pb.scale.wf(),
        pc.scale.wf(),
    ensures
        r.len() == a.len(),
        forall|i: int| 0 <= i < a.len() ==> #[trigger] r[i] == mul_qu8_value(a[i], b, *pa, *pb, *pc),
{
    let mut out: Vec<u8> = Vec::new();
    let mut i: usize = 0;
    while i < a.len()
        invariant
            pa.scale.wf(),
            pb.scale.wf(),
            pc.scale.wf(),
            i <= a.len(),
            out.len() == i,
            forall|j: int| 0 <= j < i ==> #[trigger] out[j] == mul_qu8_value(a[j], b, *pa, *pb, *pc),
        decreases a.len() - i,
    {
        out.push(mul_qu8(a[i], b, pa, pb, pc));
        i = i + 1;
    }
    out
}

/// What the quantized product of `a` and `b` stores when both operands and
/// the result share the zero point `zp` and the scale `scale`: the zero point
/// is taken off both and the two multiplied in `i32` (wrapping), the product
/// rescaled by `scale` into `i32`, the zero point added back (wrapping) and
/// the result clamped into the type.
pub open spec fn mul_quant_value<T: QuantStorage>(a: T, b: T, zp: i32, scale: Binary32) -> int {
    let product = wrap_i32(wrap_i32(a.value() - zp) * wrap_i32(b.value() - zp));
    clamp(
        wrap_i32(scale_by_value(product, scale, -0x8000_0000, 0x7fff_ffff) + zp),
        T::lowest(),
        T::highest(),
    )
}

/// Multiplies two quantized values sharing the zero point `zp` and the scale
/// `scale` (see `mul_quant_value`).
pub fn mul_quant<T: QuantStorage>(c: &mut T, a: &T, b: &T, zp: i32, scale: &Binary32)
    requires
        scale.wf(),
    ensures
        final(c).value() == mul_quant_value(*a, *b, zp, *scale),
{
    proof {
        a.lemma_in_range();
        b.lemma_in_range();
    }
    let da = wrapping_i32(a.to_i64() - zp as i64);
    let db = wrapping_i32(b.to_i64() - zp as i64);
    proof {
        assert(-0x4000_0000_0000_0000 <= (da as int) * (db as int) <= 0x4000_0000_0000_0000) by (nonlinear_arith)
            requires -0x8000_0000 <= da < 0x8000_0000, -0x8000_0000 <= db < 0x8000_0000;
    }
    let product = wrapping_i32(da as i64 * db as i64);
    let scaled = scale_by(product, scale, i32::MIN, i32::MAX);
    let shifted = wrapping_i32(scaled as i64 + zp as i64);
    *c = T::clamp_cast(shifted as i64);
}

/// What the product of two `i8` values quantized with the zero point `zp`
/// and the scale `scale` stores when computed in `i16`: the zero point (cast
/// to `i16`) is taken off both and the two multiplied in `i16` (wrapping), the
/// product rescaled by `scale` into `i16`, the zero point added back
/// (wrapping) and the result clamped into `i8`.
pub open spec fn mul_qi8_value(a: i8, b: i8, zp: i32, scale: Binary32) -> int {
    let z = wrap_i16(zp as int);
    let product = wrap_i16(wrap_i16(a - z) * wrap_i16(b - z));
    clamp(wrap_i16(scale_by_value(product, scale, -0x8000, 0x7fff) + z), -0x80, 0x7f)
}

/// Multiplies two `i8` values quantized with the zero point `zp` and the
/// scale `scale`, in `i16` (see `mul_qi8_value`).
pub fn mul_qi8(a: i8, b: i8, zp: i32, scale: &Binary32) -> (r: i8)
    requires
        scale.wf(),
    ensures
        r == mul_qi8_value(a, b, zp, *scale),
{
    let z = wrapping_i16(zp as i64);
    let da = wrapping_i16(a as i64 - z as i64);
    let db = wrapping_i16(b as i64 - z as i64);
    proof {
        assert(-0x4000_0000 <= (da as int) * (db as int) <= 0x4000_0000) by (nonlinear_arith)
            requires -0x8000 <= da < 0x8000, -0x8000 <= db < 0x8000;
    }
    let product = wrapping_i16(da as i64 * db as i64);
    let scaled = scale_by(product as i32, scale, -0x8000, 0x7fff);
    let shifted = wrapping_i16(scaled as i64 + z as i64);
    i8::clamp_cast(shifted as i64)
}

/// Quantized addition commutes.
pub proof fn law_add_quant_commutes<T: QuantStorage>(a: T, b: T, zp: i32)
    ensures
        add_quant_value(a, b, zp) == add_quant_value(b, a, zp),
{
}

/// Adding the zero point (the quantized zero) leaves a quantized value
/// unchanged.
pub proof fn law_add_quant_zero_point_is_neutral<T: QuantStorage>(a: T, b: T, zp: i32)
    requires
        b.value() == zp,
    ensures
        add_quant_value(a, b, zp) == a.value(),
{
    a.lemma_in_range();
}

/// Subtracting the zero point (the quantized zero) leaves a quantized value
/// unchanged, where the value and the zero point fit in `i16` (always so in
/// `i8` and `u8`).
pub proof fn law_sub_quant_zero_point_is_neutral<T: QuantStorage>(a: T, b: T, zp: i32)
    requires
        b.value() == zp,
        -0x8000 <= a.value() < 0x8000,
        -0x8000 <= zp < 0x8000,
    ensures
        sub_quant_value(a, b, zp) == a.value(),
{
    a.lemma_in_range();
    let x = a.value();
    assert(wrap_i16(x) == x) by {
        vstd::arithmetic::div_mod::lemma_small_mod((x + 0x8000) as nat, 0x1_0000);
    }
    assert(wrap_i16(zp as int) == zp) by {
        vstd::arithmetic::div_mod::lemma_small_mod((zp + 0x8000) as nat, 0x1_0000);
    }
    let d = x - zp;
    if d >= -0x8000 && d < 0x8000 {
        vstd::arithmetic::div_mod::lemma_small_mod((d + 0x8000) as nat, 0x1_0000);
    } else if d < -0x8000 {
        vstd::arithmetic::div_mod::lemma_small_mod((d + 0x8000 + 0x1_0000) as nat, 0x1_0000);
        vstd::arithmetic::div_mod::lemma_mod_add_multiples_vanish(d + 0x8000, 0x1_0000);
    } else {
        vstd::arithmetic::div_mod::lemma_small_mod((d + 0x8000 - 0x1_0000) as nat, 0x1_0000);
        vstd::arithmetic::div_mod::lemma_mod_sub_multiples_vanish(d + 0x8000, 0x1_0000);
    }
    let w = wrap_i16(d);
    let e = w + zp;
    if e >= -0x8000 && e < 0x8000 {
        vstd::arithmetic::div_mod::lemma_small_mod((e + 0x8000) as nat, 0x1_0000);
    } else if e < -0x8000 {
        vstd::arithmetic::div_mod::lemma_small_mod((e + 0x8000 + 0x1_0000) as nat, 0x1_0000);
        vstd::arithmetic::div_mod::lemma_mod_add_multiples_vanish(e + 0x8000, 0x1_0000);
    } else {
        vstd::arithmetic::div_mod::lemma_small_mod((e + 0x8000 - 0x1_0000) as nat, 0x1_0000);
        vstd::arithmetic::div_mod::lemma_mod_sub_multiples_vanish(e + 0x8000, 0x1_0000);
    }
}

/// The quantized product of `u8` values commutes, the operands' quantizations
/// swapped with them.
pub proof fn law_mul_qu8_commutes(x: u8, y: u8, pa: QParams, pb: QParams, pc: QParams)
    ensures
        mul_qu8_value(x, y, pa, pb, pc) == mul_qu8_value(y, x, pb, pa, pc),
{
    let dx = wrap_i32(x - pa.zero_point);
    let dy = wrap_i32(y - pb.zero_point);
    assert(dx * dy == dy * dx) by (nonlinear_arith);
    lemma_product_commutes(pa.scale, pb.scale);
}

/// The quantized product with shared parameters commutes.
pub proof fn law_mul_quant_commutes<T: QuantStorage>(a: T, b: T, zp: i32, scale: Binary32)
    ensures
        mul_quant_value(a, b, zp, scale) == mul_quant_value(b, a, zp, scale),
{
    let da = wrap_i32(a.value() - zp);
    let db = wrap_i32(b.value() - zp);
    assert(da * db == db * da) by (nonlinear_arith);
}

/// The quantized product of `i8` values computed in `i16` commutes.
pub proof fn law_mul_qi8_commutes(a: i8, b: i8, zp: i32, scale: Binary32)
    ensures
        mul_qi8_value(a, b, zp, scale) == mul_qi8_value(b, a, zp, scale),
{
    let z = wrap_i16(zp as int);
    let da = wrap_i16(a - z);
    let db = wrap_i16(b - z);
    assert(da * db == db * da) by (nonlinear_arith);
}


/// A quantized sum saturates: the exact `a + b - zp` is stored where the type
/// holds it, and the type's bound on the side it overflows otherwise.
pub proof fn law_add_quant_saturates<T: QuantStorage>(a: T, b: T, zp: i32)
    ensures
        ({
            let v = a.value() + b.value() - zp;
            let r = add_quant_value(a, b, zp);
            &&& T::lowest() <= r <= T::highest()
            &&& v < T::lowest() ==> r == T::lowest()
            &&& v > T::highest() ==> r == T::highest()
            &&& T::lowest() <= v <= T::highest() ==> r == v
        }),
{
    a.lemma_in_range();
}

/// A quantized difference saturates: with `v` the difference `a - b + zp`
/// computed in `i16`, `v` is stored where the type holds it, and the type's
/// bound on the side it overflows otherwise.
pub proof fn law_sub_quant_saturates<T: QuantStorage>(a: T, b: T, zp: i32)
    ensures
        ({
            let v = wrap_i16(wrap_i16(wrap_i16(a.value()) - wrap_i16(b.value())) + wrap_i16(zp as int));
            let r = sub_quant_value(a, b, zp);
            &&& T::lowest() <= r <= T::highest()
            &&& v < T::lowest() ==> r == T::lowest()
            &&& v > T::highest() ==> r == T::highest()
            &&& T::lowest() <= v <= T::highest() ==> r == v
        }),
{
    a.lemma_in_range();
}

/// On values that `i16` holds without wrapping, the quantized difference is
/// the exact `a - b + zp` clamped into the type; in particular it never grows
/// as `b` grows.
pub proof fn law_sub_quant_is_clamped_difference<T: QuantStorage>(a: T, b: T, zp: i32)
    requires
        -0x8000 <= a.value() < 0x8000,
        -0x8000 <= b.value() < 0x8000,
        -0x8000 <= zp < 0x8000,
        -0x8000 <= a.value() - b.value() < 0x8000,
        -0x8000 <= a.value() - b.value() + zp < 0x8000,
    ensures
        ({
            let v = a.value() - b.value() + zp;
            let r = sub_quant_value(a, b, zp);
            &&& v < T::lowest() ==> r == T::lowest()
            &&& v > T::highest() ==> r == T::highest()
            &&& T::lowest() <= v <= T::highest() ==> r == v
        }),
{
    a.lemma_in_range();
    lemma_wrap_i16_small(a.value());
    lemma_wrap_i16_small(b.value());
    lemma_wrap_i16_small(zp as int);
    lemma_wrap_i16_small(a.value() - b.value());
    lemma_wrap_i16_small(a.value() - b.value() + zp);
}

/// `i16` holds a value that fits it unchanged.
proof fn lemma_wrap_i16_small(v: int)
    requires
        -0x8000 <= v < 0x8000,
    ensures
        wrap_i16(v) == v,
{
    vstd::arithmetic::div_mod::lemma_small_mod((v + 0x8000) as nat, 0x1_0000);
}

/// `i32` holds a value that fits it unchanged.
proof fn lemma_wrap_i32_small(v: int)
    requires
        -0x8000_0000 <= v < 0x8000_0000,
    ensures
        wrap_i32(v) == v,
{
    vstd::arithmetic::div_mod::lemma_small_mod((v + 0x8000_0000) as nat, 0x1_0000_0000);
}

/// A quantized product saturates: with `v` the rescaled product of the
/// operands less the zero point, plus the zero point (in `i32`), `v` is
/// stored where the type holds it, and the type's bound on the side it
/// overflows otherwise.
pub proof fn law_mul_quant_saturates<T: QuantStorage>(a: T, b: T, zp: i32, scale: Binary32)
    ensures
        ({
            let product = wrap_i32(wrap_i32(a.value() - zp) * wrap_i32(b.value() - zp));
            let v = wrap_i32(scale_by_value(product, scale, -0x8000_0000, 0x7fff_ffff) + zp);
            let r = mul_quant_value(a, b, zp, scale);
            &&& T::lowest() <= r <= T::highest()
            &&& v < T::lowest() ==> r == T::lowest()
            &&& v > T::highest() ==> r == T::highest()
            &&& T::lowest() <= v <= T::highest() ==> r == v
        }),
{
    a.lemma_in_range();
}

/// Where the operands less the zero point, their product and the rescaled
/// product plus the zero point all fit in `i32`, the quantized product stores
/// the rescaled `(a - zp) * (b - zp)`, plus `zp`, clamped into the type.
pub proof fn law_mul_quant_is_clamped_product<T: QuantStorage>(a: T, b: T, zp: i32, scale: Binary32)
    requires
        -0x8000_0000 <= a.value() - zp < 0x8000_0000,
        -0x8000_0000 <= b.value() - zp < 0x8000_0000,
        -0x8000_0000 <= (a.value() - zp) * (b.value() - zp) < 0x8000_0000,
        -0x8000_0000 <= scale_by_value(
            (a.value() - zp) * (b.value() - zp),
            scale,
            -0x8000_0000,
            0x7fff_ffff,
        ) + zp < 0x8000_0000,
    ensures
        ({
            let v = scale_by_value((a.value() - zp) * (b.value() - zp), scale, -0x8000_0000, 0x7fff_ffff)
                + zp;
            let r = mul_quant_value(a, b, zp, scale);
            &&& v < T::lowest() ==> r == T::lowest()
            &&& v > T::highest() ==> r == T::highest()
            &&& T::lowest() <= v <= T::highest() ==> r == v
        }),
{
    a.lemma_in_range();
    b.lemma_in_range();
    let da = a.value() - zp;
    let db = b.value() - zp;
    lemma_wrap_i32_small(da);
    lemma_wrap_i32_small(db);
    lemma_wrap_i32_small(da * db);
    let v = scale_by_value(da * db, scale, -0x8000_0000, 0x7fff_ffff) + zp;
    lemma_wrap_i32_small(v);
}

/// The quantized `i8` product computed in `i16` saturates into `i8`: with `v`
/// the product rescaled into `i16` plus the zero point (in `i16`), `v` is
/// stored where `i8` holds it, and `i8`'s bound on the side it overflows
/// otherwise.
pub proof fn law_mul_qi8_saturates(a: i8, b: i8, zp: i32, scale: Binary32)
    ensures
        ({
            let z = wrap_i16(zp as int);
            let product = wrap_i16(wrap_i16(a - z) * wrap_i16(b - z));
            let v = wrap_i16(scale_by_value(product, scale, -0x8000, 0x7fff) + z);
            let r = mul_qi8_value(a, b, zp, scale);
            &&& -0x80 <= r <= 0x7f
            &&& v < -0x80 ==> r == -0x80
            &&& v > 0x7f ==> r == 0x7f
            &&& -0x80 <= v <= 0x7f ==> r == v
        }),
{
}

/// The quantized `u8` product saturates into `u8`: with `v` the rescaled
/// product plus the result's zero point (in `i32`), `v` is stored where `u8`
/// holds it, and `u8`'s bound on the side it overflows otherwise.
pub proof fn law_mul_qu8_saturates(x: u8, y: u8, pa: QParams, pb: QParams, pc: QParams)
    ensures
        ({
            let product = wrap_i32(wrap_i32(x - pa.zero_point) * wrap_i32(y - pb.zero_point));
            let m = multiplier_of(pa.scale, pb.scale, pc.scale);
            let v = wrap_i32(scale_by_value(product, m, -0x8000_0000, 0x7fff_ffff) + pc.zero_point);
            let r = mul_qu8_value(x, y, pa, pb, pc);
            &&& 0 <= r <= 0xff
            &&& v < 0 ==> r == 0
            &&& v > 0xff ==> r == 0xff
            &&& 0 <= v <= 0xff ==> r == v
        }),
{
}


/// Zero rescales to zero, whatever the multiplier (NaN and infinities too).
pub proof fn law_scale_by_zero(multiplier: Binary32, lo: int, hi: int)
    requires
        lo <= 0 <= hi,
    ensures
        scale_by_value(0, multiplier, lo, hi) == 0,
{
    lemma2_to64();
    lemma_pow2_pos(149);
    let d = 1 * p2(149);
    assert(0int / d == 0 && 0int % d == 0) by (nonlinear_arith)
        requires d > 0;
    assert(round_half_even(0, d) == 0);
    let z = rounded(false, 0, 1, 0);
    assert(z == Binary32::Finite { negative: false, mantissa: 0, exponent: -149i32 });
    match multiplier {
        Binary32::Finite { negative, mantissa, exponent } => {
            assert(0 * mantissa == 0);
            let pr = product(z, multiplier);
            assert(pr == Binary32::Finite { negative: negative, mantissa: 0, exponent: -149i32 });
            let r = round_ties_even(pr);
            assert(r == Binary32::Finite { negative: negative, mantissa: 0, exponent: 0 });
            assert(0 * p2(0) == 0);
        },
        _ => {},
    }
}

/// `v * 2^0` is `v`.
proof fn lemma_times_p2_zero(v: int)
    ensures
        v * p2(0) == v,
{
    lemma2_to64();
    assert(p2(0) == 1);
    assert(v * p2(0) == v) by (nonlinear_arith)
        requires p2(0) == 1;
}

/// Rescaling by one keeps an integer below `2^24` in magnitude, clamped into
/// `[lo, hi]`.
pub proof fn law_scale_by_one(x: int, lo: int, hi: int)
    requires
        -0x100_0000 < x < 0x100_0000,
        lo <= 0 <= hi,
    ensures
        scale_by_value(x, one_binary32(), lo, hi) == (if x < lo {
            lo
        } else if x > hi {
            hi
        } else {
            x
        }),
{
    lemma2_to64();
    if x == 0 {
        law_scale_by_zero(one_binary32(), lo, hi);
    } else if x > 0 {
        lemma_round_product_by_one(x);
        lemma_times_p2_zero(x);
    } else {
        lemma_round_product_by_one(-x);
        lemma_times_p2_zero(-x);
    }
}

/// Rescaling by one half rounds to the nearest integer, ties to even: the
/// result `r` is within one half of `x / 2`, and even where `x / 2` is a tie.
pub proof fn law_scale_by_half_rounds_ties_to_even(x: int, lo: int, hi: int)
    requires
        -0x100_0000 < x < 0x100_0000,
        lo <= -0x80_0000,
        0x80_0000 <= hi,
    ensures
        ({
            let r = scale_by_value(x, half_binary32(), lo, hi);
            &&& -1 <= 2 * r - x <= 1
            &&& 2 * r != x ==> r % 2 == 0
        }),
{
    lemma2_to64();
    if x == 0 {
        law_scale_by_zero(half_binary32(), lo, hi);
    } else {
        let n = if x > 0 { x } else { -x };
        lemma_round_product_by_half(n);
        let h = round_half_even(n, 2);
        lemma_fundamental_div_mod_two(n);
        lemma_times_p2_zero(h);
        assert(-1 <= 2 * h - n <= 1);
        assert(2 * h != n ==> h % 2 == 0);
        if x < 0 {
            assert(2 * (-h) != x ==> (-h) % 2 == 0);
        }
    }
}

/// The quotient and remainder of a division by two.
proof fn lemma_fundamental_div_mod_two(n: int)
    requires
        n >= 0,
    ensures
        n == 2 * (n / 2) + n % 2,
        0 <= n % 2 < 2,
{
}

/// With the scale one and the zero point zero, the quantized product stores
/// the product `a * b` clamped into the type, where it is below `2^24` in
/// magnitude.
pub proof fn law_mul_quant_unit_scale<T: QuantStorage>(a: T, b: T)
    requires
        -0x100_0000 < a.value() * b.value() < 0x100_0000,
    ensures
        ({
            let v = a.value() * b.value();
            let r = mul_quant_value(a, b, 0, one_binary32());
            &&& v < T::lowest() ==> r == T::lowest()
            &&& v > T::highest() ==> r == T::highest()
            &&& T::lowest() <= v <= T::highest() ==> r == v
        }),
{
    a.lemma_in_range();
    b.lemma_in_range();
    let v = a.value() * b.value();
    lemma_wrap_i32_small(a.value());
    lemma_wrap_i32_small(b.value());
    lemma_wrap_i32_small(v);
    law_scale_by_one(v, -0x8000_0000, 0x7fff_ffff);
}

/// With the scale one half and the zero point zero, the quantized product
/// rounds `a * b / 2` to nearest, ties to even, wherever the stored result
/// lies strictly inside the type's range.
pub proof fn law_mul_quant_half_scale<T: QuantStorage>(a: T, b: T)
    requires
        -0x100_0000 < a.value() * b.value() < 0x100_0000,
    ensures
        ({
            let v = a.value() * b.value();
            let r = mul_quant_value(a, b, 0, half_binary32());
            &&& T::lowest() <= r <= T::highest()
            &&& T::lowest() < r < T::highest() ==> -1 <= 2 * r - v <= 1
            &&& T::lowest() < r < T::highest() && 2 * r != v ==> r % 2 == 0
        }),
{
    a.lemma_in_range();
    b.lemma_in_range();
    let v = a.value() * b.value();
    lemma_wrap_i32_small(a.value());
    lemma_wrap_i32_small(b.value());
    lemma_wrap_i32_small(v);
    law_scale_by_half_rounds_ties_to_even(v, -0x8000_0000, 0x7fff_ffff);
    let r = scale_by_value(v, half_binary32(), -0x8000_0000, 0x7fff_ffff);
    lemma_wrap_i32_small(r);
}

/// With the scale one and the zero point zero, the quantized `i8` product is
/// the product `a * b` clamped into `i8`.
pub proof fn law_mul_qi8_unit_scale(a: i8, b: i8)
    ensures
        ({
            let v = a * b;
            let r = mul_qi8_value(a, b, 0, one_binary32());
            &&& v < -0x80 ==> r == -0x80
            &&& v > 0x7f ==> r == 0x7f
            &&& -0x80 <= v <= 0x7f ==> r == v
        }),
{
    let v = a * b;
    assert(-0x4000 <= v <= 0x4000) by (nonlinear_arith)
        requires -0x80 <= a <= 0x7f, -0x80 <= b <= 0x7f, v == a * b;
    lemma_wrap_i16_small(0);
    lemma_wrap_i16_small(a as int);
    lemma_wrap_i16_small(b as int);
    lemma_wrap_i16_small(v);
    law_scale_by_one(v, -0x8000, 0x7fff);
}

} // verus!
