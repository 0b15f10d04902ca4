use tract_math::arith::{abs_operating_datum_type, eval_int, eval_unary, BinOp, EvalError};
use tract_math::datum::DatumType;
use tract_math::declutter::ElementWise;
use tract_math::quant::{
    add_quant, max_quant, min_quant, mul_qi8, mul_quant, mul_qu8, sub_quant, QParams,
};
use tract_math::binary32::Binary32;
use tract_math::scalar::Scalar;

#[test]
fn integer_kernels_wrap() {
    assert_eq!(eval_int(BinOp::Add, DatumType::U8, 200, 100), Ok(44));
    assert_eq!(eval_int(BinOp::Sub, DatumType::U8, 1, 2), Ok(255));
    assert_eq!(eval_int(BinOp::Mul, DatumType::I64, i64::MAX as i128, 2), Ok(-2));
    assert_eq!(eval_int(BinOp::Mul, DatumType::U64, u64::MAX as i128, u64::MAX as i128), Ok(1));
    assert_eq!(eval_int(BinOp::ShiftLeft, DatumType::I32, 1, 33), Ok(2));
    assert_eq!(eval_int(BinOp::ShiftLeft, DatumType::U8, 0x81, 1), Ok(2));
    assert_eq!(eval_int(BinOp::ShiftRight, DatumType::I16, -8, 1), Ok(-4));
    assert_eq!(eval_int(BinOp::ShiftRight, DatumType::U16, 0xffff, 4), Ok(0xfff));
}

#[test]
fn integer_division_rounds_toward_zero() {
    assert_eq!(eval_int(BinOp::Div, DatumType::I32, -7, 2), Ok(-3));
    assert_eq!(eval_int(BinOp::Rem, DatumType::I32, -7, 2), Ok(-1));
    assert_eq!(eval_int(BinOp::Div, DatumType::I32, 7, -2), Ok(-3));
    assert_eq!(eval_int(BinOp::Rem, DatumType::I32, 7, -2), Ok(1));
    assert_eq!(eval_int(BinOp::Div, DatumType::U32, 7, 0), Err(EvalError::DivisionFailed));
    assert_eq!(
        eval_int(BinOp::Div, DatumType::I8, -128, -1),
        Err(EvalError::DivisionFailed)
    );
    assert_eq!(eval_int(BinOp::Div, DatumType::U8, 128, 255), Ok(0));
}

#[test]
fn min_max_and_pow() {
    assert_eq!(eval_int(BinOp::Min, DatumType::I16, -3, 2), Ok(-3));
    assert_eq!(eval_int(BinOp::Max, DatumType::I16, -3, 2), Ok(2));
    assert_eq!(eval_int(BinOp::Pow, DatumType::I32, 3, 4), Ok(81));
    assert_eq!(eval_int(BinOp::Pow, DatumType::I32, 2, 31), Ok(i32::MIN as i128));
    assert_eq!(eval_int(BinOp::Pow, DatumType::I32, 2, -1), Ok(0));
    assert_eq!(eval_int(BinOp::Pow, DatumType::I64, -1, -1), Ok(-1));
    assert_eq!(eval_int(BinOp::Pow, DatumType::I64, 7, 0), Ok(1));
    assert_eq!(eval_int(BinOp::Pow, DatumType::U8, 2, 2), Err(EvalError::Unsupported));
}

#[test]
fn abs_and_neg_wrap() {
    let xs: Vec<i128> = vec![-128, -5, 0, 127];
    assert_eq!(eval_unary(ElementWise::Abs, DatumType::I8, &xs), Ok(vec![-128, 5, 0, 127]));
    assert_eq!(eval_unary(ElementWise::Neg, DatumType::I8, &xs), Ok(vec![-128, 5, 0, -127]));
    assert_eq!(eval_unary(ElementWise::Abs, DatumType::U8, &vec![1]), Err(EvalError::Unsupported));
    assert_eq!(eval_unary(ElementWise::Exp, DatumType::I32, &vec![1]), Err(EvalError::Unsupported));
}

#[test]
fn float_readings() {
    let f = |v: f64| Scalar::from_f64_bits(v.to_bits());
    assert_eq!(f(2.5), Scalar::Float { mantissa: 0x14_0000_0000_0000, exponent: -51 });
    assert_eq!(f(-2.5).read_i64(), Some(-2));
    assert_eq!(f(2.5).read_i64(), Some(2));
    assert!(!f(2.5).reads_back_exactly());
    assert!(f(-4.0).reads_back_exactly());
    assert_eq!(f(1e300).read_i64(), Some(i64::MAX));
    assert!(!f(1e300).reads_back_exactly());
    assert_eq!(f(f64::NEG_INFINITY), Scalar::Infinity { negative: true });
    assert_eq!(f(f64::NEG_INFINITY).read_i64(), Some(i64::MIN));
    assert_eq!(f(f64::NAN).read_i64(), Some(0));
    assert_eq!(f(9.223372036854775808e18).read_i64(), Some(i64::MAX));
    assert!(f(9.223372036854775808e18).reads_back_exactly());
    assert_eq!(f(5e-324), Scalar::Float { mantissa: 1, exponent: -1074 });
    assert_eq!(f(0.0).read_is_zero(), Some(true));
    assert_eq!(Scalar::Int(u64::MAX as i128).read_i64(), Some(-1));
    assert_eq!(Scalar::Symbolic.read_i64(), None);
    assert_eq!(f(0.5).read_f32_two_or_half(), Some((false, true)));
    assert_eq!(Scalar::Int(2).read_f32_two_or_half(), Some((true, false)));
}

#[test]
fn quantized_add_sub_clamp() {
    let mut c: u8 = 0;
    add_quant(&mut c, &200u8, &100u8, 0);
    assert_eq!(c, 255);
    add_quant(&mut c, &200u8, &100u8, 128);
    assert_eq!(c, 172);
    let mut d: i8 = 0;
    add_quant(&mut d, &-100i8, &-100i8, 10);
    assert_eq!(d, -128);
    sub_quant(&mut d, &-100i8, &100i8, 0);
    assert_eq!(d, -128);
    sub_quant(&mut d, &20i8, &5i8, 5);
    assert_eq!(d, 20);
    let mut e: i32 = 0;
    sub_quant(&mut e, &40000i32, &0i32, 0);
    assert_eq!(e, -25536);
    add_quant(&mut e, &40000i32, &0i32, 0);
    assert_eq!(e, 40000);
}

#[test]
fn quantized_min_max() {
    let mut c: i8 = 0;
    min_quant(&mut c, &-3i8, &4i8);
    assert_eq!(c, -3);
    max_quant(&mut c, &-3i8, &4i8);
    assert_eq!(c, 4);
}

#[test]
fn binary32_from_f32_bits() {
    assert_eq!(
        Binary32::from_bits(1.0f32.to_bits()),
        Binary32::Finite { negative: false, mantissa: 0x80_0000, exponent: -23 }
    );
    assert_eq!(
        Binary32::from_bits(0.0f32.to_bits()),
        Binary32::Finite { negative: false, mantissa: 0, exponent: -149 }
    );
    assert_eq!(
        Binary32::from_bits((-1.0f32).to_bits()),
        Binary32::Finite { negative: true, mantissa: 0x80_0000, exponent: -23 }
    );
    assert_eq!(Binary32::from_bits(f32::INFINITY.to_bits()), Binary32::Infinite { negative: false });
    assert_eq!(Binary32::from_bits(f32::NEG_INFINITY.to_bits()), Binary32::Infinite { negative: true });
    assert_eq!(Binary32::from_bits(f32::NAN.to_bits()), Binary32::NaN);
    assert_eq!(Binary32::from_bits(1), Binary32::Finite { negative: false, mantissa: 1, exponent: -149 });
}

#[test]
fn quantized_product_rounds_in_f32() {
    // 5 * 0.1f32 is exactly 0.5 in f32, which rounds (ties to even) to 0
    let tenth = Binary32::from_bits(0.1f32.to_bits());
    let mut c: u8 = 9;
    mul_quant(&mut c, &5u8, &1u8, 0, &tenth);
    assert_eq!(c, 0);
    // 15 * 0.1f32 is exactly 1.5 in f32: rounds to 2
    mul_quant(&mut c, &5u8, &3u8, 0, &tenth);
    assert_eq!(c, 2);
}

#[test]
fn quantized_product_with_any_scale() {
    let mut c: i8 = 1;
    // a zero scale stores the zero point
    mul_quant(&mut c, &3i8, &5i8, 2, &Binary32::from_bits(0.0f32.to_bits()));
    assert_eq!(c, 2);
    // a negative scale: 15 * -0.5 = -7.5 rounds to -8
    mul_quant(&mut c, &3i8, &5i8, 0, &Binary32::from_bits((-0.5f32).to_bits()));
    assert_eq!(c, -8);
    // a NaN scale rescales to zero
    mul_quant(&mut c, &3i8, &5i8, 4, &Binary32::from_bits(f32::NAN.to_bits()));
    assert_eq!(c, 4);
    // an infinite scale saturates
    assert_eq!(mul_qi8(3, 5, 0, &Binary32::from_bits(f32::INFINITY.to_bits())), 127);
}

#[test]
fn quantized_products_round_half_to_even() {
    let half = Binary32::from_bits(0.5f32.to_bits());
    let mut c: u8 = 0;
    // 3 * 3 * 0.5 = 4.5 rounds to 4; 3 * 5 * 0.5 = 7.5 rounds to 8
    mul_quant(&mut c, &3u8, &3u8, 0, &half);
    assert_eq!(c, 4);
    mul_quant(&mut c, &3u8, &5u8, 0, &half);
    assert_eq!(c, 8);
    let mut d: i8 = 0;
    // (-3) * 3 * 0.5 = -4.5 rounds to -4
    mul_quant(&mut d, &-3i8, &3i8, 0, &half);
    assert_eq!(d, -4);
    assert_eq!(mul_qi8(-3, 3, 0, &half), -4);
    assert_eq!(mul_qi8(100, 100, 0, &half), 127);
    let p = QParams { zero_point: 0, scale: half };
    assert_eq!(mul_qu8(3, 5, &p, &p, &p), 8);
    let tiny = QParams { zero_point: 7, scale: Binary32::from_bits(1) };
    let one = QParams { zero_point: 0, scale: Binary32::from_bits(1.0f32.to_bits()) };
    assert_eq!(mul_qu8(255, 255, &tiny, &tiny, &one), 0);
    // the rescaled product saturates at i32::MAX; adding the zero point wraps
    assert_eq!(mul_qu8(255, 255, &one, &one, &tiny), 0);
    let tiny_at_zero = QParams { zero_point: 0, scale: tiny.scale };
    assert_eq!(mul_qu8(255, 255, &one, &one, &tiny_at_zero), 255);
}

#[test]
fn abs_of_symbolic_dimensions_runs_in_i64() {
    assert_eq!(abs_operating_datum_type(DatumType::TDim), DatumType::I64);
    assert_eq!(abs_operating_datum_type(DatumType::I8), DatumType::I8);
}

#[test]
fn quantized_laws_on_values() {
    let (mut c1, mut c2): (u8, u8) = (0, 0);
    add_quant(&mut c1, &17u8, &230u8, 40);
    add_quant(&mut c2, &230u8, &17u8, 40);
    assert_eq!(c1, c2);
    add_quant(&mut c1, &17u8, &40u8, 40);
    assert_eq!(c1, 17);
    sub_quant(&mut c1, &17u8, &40u8, 40);
    assert_eq!(c1, 17);
    let s = Binary32::from_bits(0.75f32.to_bits());
    let mut d1: i32 = 0;
    let mut d2: i32 = 0;
    mul_quant(&mut d1, &-1000i32, &77i32, 5, &s);
    mul_quant(&mut d2, &77i32, &-1000i32, 5, &s);
    assert_eq!(d1, d2);
    assert_eq!(d1, -54265);
    let pa = QParams { zero_point: 3, scale: Binary32::from_bits(0.25f32.to_bits()) };
    let pb = QParams { zero_point: 200, scale: Binary32::from_bits(1.5f32.to_bits()) };
    let pc = QParams { zero_point: 10, scale: Binary32::from_bits(0.125f32.to_bits()) };
    assert_eq!(mul_qu8(9, 210, &pa, &pb, &pc), mul_qu8(210, 9, &pb, &pa, &pc));
    assert_eq!(mul_qu8(9, 210, &pa, &pb, &pc), 190);
    assert_eq!(mul_qi8(-7, 100, 3, &s), mul_qi8(100, -7, 3, &s));
    assert_eq!(mul_qi8(-7, 100, 3, &s), -128);
}
