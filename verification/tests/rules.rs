use tract_math::arith::{eval_with_uniform, BinOp};
use tract_math::datum::DatumType;
use tract_math::declutter::{
    declutter_add, declutter_div, declutter_mul, declutter_neutral, declutter_pow,
    declutter_recip, declutter_sub, eval_patch, BinaryNode, DeclutterError, ElementWise,
    InputFact, NodeOp, OneUniformInput, Patch,
};
use tract_math::scalar::{Scalar, Uniform};

fn node(dt: DatumType, value: Scalar, left_is_uniform: bool) -> BinaryNode {
    let var = InputFact { datum_type: dt, rank: 3, uniform: None };
    let uni = InputFact { datum_type: dt, rank: 1, uniform: Some(value) };
    let (left, right) = if left_is_uniform { (uni, var) } else { (var, uni) };
    BinaryNode {
        left,
        right,
        one_uniform: Some(OneUniformInput {
            uni: Uniform { datum_type: dt, value },
            left_is_uniform,
        }),
    }
}

fn float(v: f64) -> Scalar {
    Scalar::from_f64_bits(v.to_bits())
}

#[test]
fn add_zero_is_bypassed_on_either_side() {
    let right = node(DatumType::I32, Scalar::Int(0), false);
    assert_eq!(declutter_add(&right), Ok(Some(Patch::Bypass { input: 0 })));
    let left = node(DatumType::I32, Scalar::Int(0), true);
    assert_eq!(declutter_add(&left), Ok(Some(Patch::Bypass { input: 1 })));
    let one = node(DatumType::I32, Scalar::Int(1), false);
    assert_eq!(declutter_add(&one), Ok(None));
}

#[test]
fn sub_zero_is_bypassed_on_the_right_only() {
    let right = node(DatumType::I64, Scalar::Int(0), false);
    assert_eq!(declutter_sub(&right), Ok(Some(Patch::Bypass { input: 0 })));
    let left = node(DatumType::I64, Scalar::Int(0), true);
    assert_eq!(declutter_sub(&left), Ok(None));
}

#[test]
fn neutral_without_uniform_input_does_nothing() {
    assert_eq!(declutter_neutral(&None, 0, true), Ok(None));
}

#[test]
fn neutral_skips_quantized_uniforms() {
    let q = node(DatumType::QU8, Scalar::Int(0), false);
    assert_eq!(declutter_add(&q), Ok(None));
}

#[test]
fn neutral_of_symbolic_dimension_fails() {
    let sym = node(DatumType::TDim, Scalar::Symbolic, false);
    assert_eq!(declutter_add(&sym), Err(DeclutterError::NoNumericReading));
    assert_eq!(declutter_mul(&sym), Err(DeclutterError::NoNumericReading));
    let known = node(DatumType::TDim, Scalar::Int(1), true);
    assert_eq!(declutter_mul(&known), Ok(Some(Patch::Bypass { input: 1 })));
}

#[test]
fn mul_by_float_one_is_bypassed() {
    let one = node(DatumType::F32, float(1.0), true);
    assert_eq!(declutter_mul(&one), Ok(Some(Patch::Bypass { input: 1 })));
    let half = node(DatumType::F32, float(1.5), false);
    assert_eq!(declutter_mul(&half), Ok(None));
    let nan = node(DatumType::F64, float(f64::NAN), false);
    assert_eq!(declutter_mul(&nan), Ok(None));
}

#[test]
fn mul_by_zero_becomes_the_constant() {
    let zero = Uniform { datum_type: DatumType::I16, value: Scalar::Int(0) };
    let n = node(DatumType::I16, Scalar::Int(0), false);
    assert_eq!(declutter_mul(&n), Ok(Some(Patch::BroadcastConst { value: zero })));
    let neg_zero = node(DatumType::F64, float(-0.0), true);
    assert!(matches!(declutter_mul(&neg_zero), Ok(Some(Patch::BroadcastConst { .. }))));
    let x: Vec<i128> = vec![5, -7, 300];
    let patch = declutter_mul(&n).unwrap().unwrap();
    assert_eq!(eval_patch(&patch, &x), Ok(vec![0, 0, 0]));
    assert_eq!(eval_with_uniform(BinOp::Mul, DatumType::I16, &x, 0, false), Ok(vec![0, 0, 0]));
}

#[test]
fn mul_by_power_of_two_becomes_shift_left() {
    let n = node(DatumType::U8, Scalar::Int(8), true);
    assert_eq!(
        declutter_mul(&n),
        Ok(Some(Patch::ShiftLeft { input: 1, shift: 3, datum_type: DatumType::U8, rank: 3 }))
    );
    let top = node(DatumType::U64, Scalar::Int(1 << 63), false);
    assert!(matches!(declutter_mul(&top), Ok(Some(Patch::ShiftLeft { shift: 63, .. }))));
    let min = node(DatumType::I64, Scalar::Int(i64::MIN as i128), false);
    assert!(matches!(declutter_mul(&min), Ok(Some(Patch::ShiftLeft { shift: 63, .. }))));
    let i8_min = node(DatumType::I8, Scalar::Int(-128), false);
    assert_eq!(declutter_mul(&i8_min), Ok(None));
    let six = node(DatumType::I32, Scalar::Int(6), false);
    assert_eq!(declutter_mul(&six), Ok(None));
    let float_four = node(DatumType::F32, float(4.0), false);
    assert_eq!(declutter_mul(&float_four), Ok(None));
}

#[test]
fn mul_by_power_of_two_wraps_like_the_shift() {
    let x: Vec<i128> = vec![100, -100, 127, -128];
    let n = node(DatumType::I8, Scalar::Int(4), false);
    let patch = declutter_mul(&n).unwrap().unwrap();
    let shifted = eval_patch(&patch, &x).unwrap();
    let product = eval_with_uniform(BinOp::Mul, DatumType::I8, &x, 4, false).unwrap();
    assert_eq!(shifted, product);
    assert_eq!(product, vec![-112, 112, -4, 0]);
}

#[test]
fn mul_by_quantized_one_shifts_by_zero() {
    let q = node(DatumType::QU8, Scalar::Int(1), false);
    assert_eq!(
        declutter_mul(&q),
        Ok(Some(Patch::ShiftLeft { input: 0, shift: 0, datum_type: DatumType::QU8, rank: 3 }))
    );
}

#[test]
fn div_by_one_is_bypassed_on_the_right_only() {
    let right = node(DatumType::U16, Scalar::Int(1), false);
    assert_eq!(declutter_div(&right), Ok(Some(Patch::Bypass { input: 0 })));
    let left = node(DatumType::U16, Scalar::Int(1), true);
    assert_eq!(declutter_div(&left), Ok(None));
}

#[test]
fn div_rules() {
    let three = node(DatumType::I32, Scalar::Int(3), false);
    assert_eq!(declutter_div(&three), Ok(None));
    let float_four = node(DatumType::F32, float(4.0), false);
    assert_eq!(declutter_div(&float_four), Ok(Some(Patch::MulByRecip)));
    let floats = BinaryNode {
        left: InputFact { datum_type: DatumType::F16, rank: 2, uniform: None },
        right: InputFact { datum_type: DatumType::F16, rank: 2, uniform: None },
        one_uniform: None,
    };
    assert_eq!(declutter_div(&floats), Ok(Some(Patch::MulByRecip)));
    let symbolic = BinaryNode {
        left: InputFact { datum_type: DatumType::TDim, rank: 1, uniform: None },
        right: InputFact { datum_type: DatumType::TDim, rank: 0, uniform: Some(Scalar::Symbolic) },
        one_uniform: None,
    };
    assert_eq!(declutter_div(&symbolic), Ok(None));
}

#[test]
fn div_by_power_of_two_differs_from_shift_on_negative_values() {
    let n = node(DatumType::I32, Scalar::Int(2), false);
    let patch = declutter_div(&n).unwrap().unwrap();
    assert!(matches!(patch, Patch::ShiftRight { shift: 1, .. }));
    let x: Vec<i128> = vec![7, -3];
    assert_eq!(eval_with_uniform(BinOp::Div, DatumType::I32, &x, 2, false), Ok(vec![3, -1]));
    assert_eq!(eval_patch(&patch, &x), Ok(vec![3, -2]));
    // on negative multiples of the divisor the two agree
    let four = node(DatumType::I32, Scalar::Int(4), false);
    let patch = declutter_div(&four).unwrap().unwrap();
    let y: Vec<i128> = vec![-8, -5, -12];
    assert_eq!(eval_with_uniform(BinOp::Div, DatumType::I32, &y, 4, false), Ok(vec![-2, -1, -3]));
    assert_eq!(eval_patch(&patch, &y), Ok(vec![-2, -2, -3]));
}

#[test]
fn pow_rules() {
    let one = node(DatumType::I32, Scalar::Int(1), false);
    assert_eq!(declutter_pow(&one), Ok(Some(Patch::Bypass { input: 0 })));
    let two = node(DatumType::F32, float(2.0), false);
    assert_eq!(declutter_pow(&two), Ok(Some(Patch::Unary { op: ElementWise::Square, input: 0 })));
    let int_two = node(DatumType::I64, Scalar::Int(2), false);
    assert_eq!(declutter_pow(&int_two), Ok(Some(Patch::Unary { op: ElementWise::Square, input: 0 })));
    let half = node(DatumType::F64, float(0.5), false);
    assert_eq!(declutter_pow(&half), Ok(Some(Patch::Unary { op: ElementWise::Sqrt, input: 0 })));
    let near_two = node(DatumType::F64, float(2.0 + 1.0 / (1u64 << 30) as f64), false);
    assert_eq!(declutter_pow(&near_two), Ok(Some(Patch::Unary { op: ElementWise::Square, input: 0 })));
    let far_two = node(DatumType::F64, float(2.0 + 1.0 / (1u64 << 20) as f64), false);
    assert_eq!(declutter_pow(&far_two), Ok(None));
    let three = node(DatumType::F32, float(3.0), false);
    assert_eq!(declutter_pow(&three), Ok(None));
    let sym = BinaryNode {
        left: InputFact { datum_type: DatumType::TDim, rank: 1, uniform: None },
        right: InputFact { datum_type: DatumType::TDim, rank: 0, uniform: Some(Scalar::Symbolic) },
        one_uniform: None,
    };
    assert_eq!(declutter_pow(&sym), Err(DeclutterError::NoNumericReading));
}

#[test]
fn recip_rules() {
    assert_eq!(
        declutter_recip(&Some(NodeOp::ElementWise(ElementWise::Sqrt))),
        Some(Patch::FuseWithPredecessor { op: ElementWise::Rsqrt })
    );
    assert_eq!(
        declutter_recip(&Some(NodeOp::ElementWise(ElementWise::Rsqrt))),
        Some(Patch::FuseWithPredecessor { op: ElementWise::Sqrt })
    );
    assert_eq!(declutter_recip(&Some(NodeOp::ElementWise(ElementWise::Exp))), None);
    assert_eq!(declutter_recip(&Some(NodeOp::Other)), None);
    assert_eq!(declutter_recip(&None), None);
}

#[test]
fn bypass_keeps_the_values() {
    let x: Vec<i128> = vec![-5, 0, 65535 - 70000];
    let n = node(DatumType::I32, Scalar::Int(0), true);
    let patch = declutter_add(&n).unwrap().unwrap();
    assert_eq!(eval_patch(&patch, &x), Ok(x.clone()));
    assert_eq!(eval_with_uniform(BinOp::Add, DatumType::I32, &x, 0, true), Ok(x.clone()));
    let p = node(DatumType::I64, Scalar::Int(1), false);
    assert_eq!(declutter_pow(&p), Ok(Some(Patch::Bypass { input: 0 })));
    assert_eq!(eval_with_uniform(BinOp::Pow, DatumType::I64, &x, 1, false), Ok(x.clone()));
}

#[test]
fn neutral_bypass_of_any_operator_keeps_values() {
    // 0 is neutral for the maximum of u8 values, on either side
    let n = node(DatumType::U8, Scalar::Int(0), true);
    let patch = declutter_neutral(&n.one_uniform, 0, true).unwrap().unwrap();
    assert_eq!(patch, Patch::Bypass { input: 1 });
    let x: Vec<i128> = vec![0, 7, 255];
    assert_eq!(eval_with_uniform(BinOp::Max, DatumType::U8, &x, 0, true), Ok(x.clone()));
    assert_eq!(eval_patch(&patch, &x), Ok(x.clone()));
    // the reading -1 of u64::MAX is the neutral value -1 converted to u64
    let m = node(DatumType::U64, Scalar::Int(0xffff_ffff_ffff_ffff), false);
    let patch = declutter_neutral(&m.one_uniform, -1, false).unwrap().unwrap();
    assert_eq!(patch, Patch::Bypass { input: 0 });
    assert_eq!(
        eval_with_uniform(BinOp::Min, DatumType::U64, &x, 0xffff_ffff_ffff_ffff, false),
        Ok(x.clone())
    );
}
