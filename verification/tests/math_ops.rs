use tract_math::arith::{eval_binary, eval_with_uniform, BinOp};
use tract_math::datum::DatumType;
use tract_math::declutter::{
    declutter_div, declutter_mul, eval_patch, BinaryNode, InputFact, OneUniformInput, Patch,
};
use tract_math::binary32::Binary32;
use tract_math::quant::{mul_qu8_by_uniform, QParams};
use tract_math::scalar::{Scalar, Uniform};

/// A binary node whose left input is a variable tensor of rank 2 and whose
/// right input is a uniform of `dt`.
fn var_by_uniform(dt: DatumType, value: Scalar) -> BinaryNode {
    BinaryNode {
        left: InputFact { datum_type: dt, rank: 2, uniform: None },
        right: InputFact { datum_type: dt, rank: 2, uniform: Some(value) },
        one_uniform: Some(OneUniformInput {
            uni: Uniform { datum_type: dt, value },
            left_is_uniform: false,
        }),
    }
}

fn qparams(scale: f32, zero_point: i32) -> QParams {
    QParams { zero_point, scale: Binary32::from_bits(scale.to_bits()) }
}

#[test]
fn mul_as_shift_left() {
    // x: i32 of shape [2, 2]; a: the constant 4 broadcast into rank 2
    let x: Vec<i128> = vec![1, 2, 3, 4];
    let node = var_by_uniform(DatumType::I32, Scalar::Int(4));
    let result = eval_with_uniform(BinOp::Mul, DatumType::I32, &x, 4, false).unwrap();
    assert_eq!(result, vec![4, 8, 12, 16]);
    let patch = declutter_mul(&node).unwrap().unwrap();
    let decluttered = eval_patch(&patch, &x).unwrap();
    assert_eq!(decluttered, vec![4, 8, 12, 16]);
    assert!(matches!(patch, Patch::ShiftLeft { .. }));
}

#[test]
fn div_as_shift() {
    // a: i32 of shape [2, 2]; shift: the constant [[4]]
    let a: Vec<i128> = vec![16, 32, 64, 68];
    let node = var_by_uniform(DatumType::I32, Scalar::Int(4));
    let result = eval_with_uniform(BinOp::Div, DatumType::I32, &a, 4, false).unwrap();
    assert_eq!(result, vec![4, 8, 16, 17]);
    let patch = declutter_div(&node).unwrap().unwrap();
    let decluttered = eval_patch(&patch, &a).unwrap();
    assert_eq!(decluttered, vec![4, 8, 16, 17]);
    assert!(matches!(patch, Patch::ShiftRight { .. }));
}

#[test]
fn mul_as_qu8_overflow_clamp() {
    // last value in output tensor overflow hence is clamped
    let output = qparams(1., 0);
    let c = mul_qu8_by_uniform(&vec![1_u8, 2, 3, 128], 4_u8, &output, &output, &output);
    assert_eq!(c, vec![4_u8, 8, 12, 255]);
}

#[test]
fn mul_as_qu8_non_neutral_scale_and_offset() {
    // real: -3, 0, 3, 378 times real 6
    let output = qparams(3., 2);
    let c = mul_qu8_by_uniform(&vec![1_u8, 2, 3, 128], 4_u8, &output, &output, &output);
    assert_eq!(c, vec![0_u8, 2, 8, 255]);
}

#[test]
fn mul_as_qu8_non_aligned_scale_and_offset() {
    // real: 18, 22.5, 27, 589.5 times real 5; the product takes the
    // quantization of its first operand
    let a_qp = qparams(4.5, -3);
    let b_qp = qparams(2.5, 4);
    let c = mul_qu8_by_uniform(&vec![1_u8, 2, 3, 128], 6_u8, &a_qp, &b_qp, &a_qp);
    assert_eq!(c, vec![17_u8, 22, 27, 255]);
}

#[test]
fn test_mul() {
    // element-wise product of [[1, 2], [3, 4]] and [[1, 0], [0, 0]]
    let a: Vec<i128> = vec![1, 2, 3, 4];
    let b: Vec<i128> = vec![1, 0, 0, 0];
    assert_eq!(eval_binary(BinOp::Mul, DatumType::I32, &a, &b), Ok(vec![1, 0, 0, 0]));
}
