//! The simplification rules of the arithmetic operators: a node whose input
//! is a uniform constant is bypassed, replaced by a constant, a shift or a
//! cheaper operator. Each rule is a spec function; the executable rules meet
//! them exactly.

use vstd::prelude::*;
use vstd::arithmetic::power2::pow2;
use crate::datum::DatumType;
use crate::scalar::{Scalar, Uniform, pow2_i128};
use crate::arith::{BinOp, EvalError, int_binary, eval_with_uniform, type_holds};

verus! {

/// What the simplification rules read of one input of a node: its type, its
/// rank, and its value when the input is a uniform tensor.
#[derive(Clone, Copy, Debug, PartialEq, Eq, Structural)]
pub struct InputFact {
    pub datum_type: DatumType,
    pub rank: usize,
    pub uniform: Option<Scalar>,
}

/// One input of a binary node is a uniform tensor that broadcasts to the
/// other input (the "variable" one).
#[derive(Clone, Copy, Debug, PartialEq, Eq, Structural)]
pub struct OneUniformInput {
    pub uni: Uniform,
    pub left_is_uniform: bool,
}

impl OneUniformInput {
    pub open spec fn spec_var_input(&self) -> usize {
        if self.left_is_uniform {
            1
        } else {
            0
        }
    }

    /// The index of the input that is not the uniform one.
    #[verifier::when_used_as_spec(spec_var_input)]
    pub fn var_input(&self) -> (r: usize)
        ensures
            r == self.spec_var_input(),
    {
        if self.left_is_uniform {
            1
        } else {
            0
        }
    }
}

/// What the rules of a binary node read of the graph: the facts of its two
/// inputs, and whether one of them is a uniform input broadcasting to the
/// other.
#[derive(Clone, Copy, Debug, PartialEq, Eq, Structural)]
pub struct BinaryNode {
    pub left: InputFact,
    pub right: InputFact,
    pub one_uniform: Option<OneUniformInput>,
}

impl BinaryNode {
    /// The uniform input, when there is one, is what the facts of the inputs
    /// say: the input it names is uniform, of its type and value, and the
    /// value is one its type holds.
    pub open spec fn wf(self) -> bool {
        match self.one_uniform {
            None => true,
            Some(u) => {
                let fact = if u.left_is_uniform {
                    self.left
                } else {
                    self.right
                };
                &&& u.uni.wf()
                &&& fact.uniform == Some(u.uni.value)
                &&& fact.datum_type == u.uni.datum_type
            },
        }
    }

    /// The fact of input `i` (0 is the left input, any other the right one).
    pub open spec fn spec_input(&self, i: usize) -> InputFact {
        if i == 0 {
            self.left
        } else {
            self.right
        }
    }
}

/// The element-wise unary operators.
#[derive(Clone, Copy, Debug, PartialEq, Eq, Structural)]
pub enum ElementWise {
    Abs,
    Exp,
    Ln,
    Square,
    Sqrt,
    Recip,
    Rsqrt,
    Ceil,
    Floor,
    Round,
    QScale,
    RoundHalfToEven,
    Cos,
    Sin,
    Tan,
    Acos,
    Asin,
    Atan,
    Cosh,
    Sinh,
    Tanh,
    Erf,
    Acosh,
    Asinh,
    Atanh,
    Neg,
    Sign,
}

/// The operator of a node, as far as the rules tell them apart.
#[derive(Clone, Copy, Debug, PartialEq, Eq, Structural)]
pub enum NodeOp {
    ElementWise(ElementWise),
    Other,
}

/// A rewrite of the graph that replaces a node.
#[derive(Clone, Copy, Debug, PartialEq, Eq, Structural)]
pub enum Patch {
    /// The node goes; its consumers read its input `input` instead.
    Bypass { input: usize },
    /// The node becomes the constant `value`, broadcast to the shape of the
    /// node's inputs.
    BroadcastConst { value: Uniform },
    /// The node becomes `input << shift`, the shift a constant of type
    /// `datum_type` broadcast into rank `rank`. A quantized type counts as an
    /// integer type here: on one, the shift acts on the stored values.
    ShiftLeft { input: usize, shift: u32, datum_type: DatumType, rank: usize },
    /// The node becomes `input >> shift`, the shift a constant of type
    /// `datum_type` broadcast into rank `rank`. On a quantized type, the
    /// shift acts on the stored values.
    ShiftRight { input: usize, shift: u32, datum_type: DatumType, rank: usize },
    /// The division `a / b` becomes `a * recip(b)`.
    MulByRecip,
    /// The node becomes the unary operator `op` applied to its input `input`.
    Unary { op: ElementWise, input: usize },
    /// The node and its single predecessor become the unary operator `op`
    /// applied to the predecessor's input.
    FuseWithPredecessor { op: ElementWise },
}

/// Why a rule could not be run.
#[derive(Clone, Copy, Debug, PartialEq, Eq, Structural)]
pub enum DeclutterError {
    /// The uniform input has no numeric reading (a symbolic dimension).
    NoNumericReading,
}

/// Whether the 64 bits of `n` (two's complement) have a single bit set, at
/// position `k`.
pub open spec fn single_bit_at(n: int, k: nat) -> bool {
    k < 64 && n % 0x1_0000_0000_0000_0000 == pow2(k)
}

/// The position of the single set bit of the 64 bits of `n`, if they have
/// exactly one.
pub open spec fn single_bit(n: int) -> Option<nat> {
    if exists|k: nat| single_bit_at(n, k) {
        Some(choose|k: nat| single_bit_at(n, k))
    } else {
        None
    }
}

/// A uniform value equal to the integer `value` lets the node be bypassed:
/// the uniform is not quantized, its `i64` reading is `value` and reads back
/// exactly, and it is on the right or `also_left` allows the left side.
pub open spec fn neutral_rule(
    one_uniform: Option<OneUniformInput>,
    value: int,
    also_left: bool,
) -> Result<Option<Patch>, DeclutterError> {
    match one_uniform {
        None => Ok(None),
        Some(u) => if u.uni.datum_type.spec_is_quantized() {
            Ok(None)
        } else {
            match u.uni.value.i64_reading() {
                None => Err(DeclutterError::NoNumericReading),
                Some(n) => if u.uni.value.i64_reading_is_exact() && n == value && (also_left
                    || !u.left_is_uniform) {
                    Ok(Some(Patch::Bypass { input: u.spec_var_input() }))
                } else {
                    Ok(None)
                },
            }
        },
    }
}

/// `x + 0` and `0 + x` are `x`.
pub open spec fn add_rule(node: BinaryNode) -> Result<Option<Patch>, DeclutterError> {
    neutral_rule(node.one_uniform, 0, true)
}

/// `x - 0` is `x`.
pub open spec fn sub_rule(node: BinaryNode) -> Result<Option<Patch>, DeclutterError> {
    neutral_rule(node.one_uniform, 0, false)
}

/// `x * 1` and `1 * x` are `x`; `x * 0` is the zero constant; a product by an
/// integer power of two `2^k` is a left shift by `k`. A quantized uniform is
/// read by its stored value and a quantized type counts as an integer type,
/// so a quantized uniform storing `2^k` gives a shift of the stored values.
pub open spec fn mul_rule(node: BinaryNode) -> Result<Option<Patch>, DeclutterError> {
    match neutral_rule(node.one_uniform, 1, true) {
        Err(e) => Err(e),
        Ok(Some(p)) => Ok(Some(p)),
        Ok(None) => match node.one_uniform {
            None => Ok(None),
            Some(u) => {
                let v = u.uni.value;
                if !v.is_numeric() {
                    Err(DeclutterError::NoNumericReading)
                } else if v.is_zero() {
                    Ok(Some(Patch::BroadcastConst { value: u.uni }))
                } else {
                    let n = v.i64_reading().unwrap();
                    if v.i64_reading_is_exact() && u.uni.datum_type.spec_is_integer() && single_bit(
                        n,
                    ) is Some {
                        Ok(
                            Some(
                                Patch::ShiftLeft {
                                    input: u.spec_var_input(),
                                    shift: single_bit(n).unwrap() as u32,
                                    datum_type: u.uni.datum_type,
                                    rank: node.spec_input(u.spec_var_input()).rank,
                                },
                            ),
                        )
                    } else {
                        Ok(None)
                    }
                }
            },
        },
    }
}

/// `x / 1` is `x`; a division by a uniform integer power of two `2^k` is a
/// right shift by `k`; any other division of floats is a product by the
/// reciprocal of the divisor.
pub open spec fn div_rule(node: BinaryNode) -> Result<Option<Patch>, DeclutterError> {
    match neutral_rule(node.one_uniform, 1, false) {
        Err(e) => Err(e),
        Ok(Some(p)) => Ok(Some(p)),
        Ok(None) => {
            let dt = node.right.datum_type;
            let shift = match node.right.uniform {
                Some(q) => match q.i64_reading() {
                    Some(n) => if q.i64_reading_is_exact() && dt.spec_is_integer() && single_bit(
                        n,
                    ) is Some {
                        Some(single_bit(n).unwrap())
                    } else {
                        None
                    },
                    None => None,
                },
                None => None,
            };
            match shift {
                Some(k) => Ok(
                    Some(
                        Patch::ShiftRight {
                            input: 0,
                            shift: k as u32,
                            datum_type: dt,
                            rank: node.left.rank,
                        },
                    ),
                ),
                None => if dt.spec_is_float() {
                    Ok(Some(Patch::MulByRecip))
                } else {
                    Ok(None)
                },
            }
        },
    }
}

/// `x ^ 1` is `x`; `x ^ 2` is `square(x)`; `x ^ 0.5` is `sqrt(x)`, the
/// exponent read as an `f32`.
pub open spec fn pow_rule(node: BinaryNode) -> Result<Option<Patch>, DeclutterError> {
    match neutral_rule(node.one_uniform, 1, false) {
        Err(e) => Err(e),
        Ok(Some(p)) => Ok(Some(p)),
        Ok(None) => match node.right.uniform {
            None => Ok(None),
            Some(b) => if !b.is_numeric() {
                Err(DeclutterError::NoNumericReading)
            } else if b.f32_reading_is_two() {
                Ok(Some(Patch::Unary { op: ElementWise::Square, input: 0 }))
            } else if b.f32_reading_is_half() {
                Ok(Some(Patch::Unary { op: ElementWise::Sqrt, input: 0 }))
            } else {
                Ok(None)
            },
        },
    }
}

/// `recip(sqrt(x))` is `rsqrt(x)` and `recip(rsqrt(x))` is `sqrt(x)`.
pub open spec fn recip_rule(predecessor: Option<NodeOp>) -> Option<Patch> {
    match predecessor {
        Some(NodeOp::ElementWise(ElementWise::Sqrt)) => Some(
            Patch::FuseWithPredecessor { op: ElementWise::Rsqrt },
        ),
        Some(NodeOp::ElementWise(ElementWise::Rsqrt)) => Some(
            Patch::FuseWithPredecessor { op: ElementWise::Sqrt },
        ),
        _ => None,
    }
}

/// The position of the single set bit of `n`'s 64 bits, if it has exactly one
/// (as `n.count_ones() == 1` and `n.trailing_zeros()` tell).
pub fn single_bit_position(n: i64) -> (r: Option<u32>)
    ensures
        match r {
            Some(k) => single_bit(n as int) == Some(k as nat),
            None => single_bit(n as int) is None,
        },
{
    let u: i128 = if n < 0 {
        n as i128 + 0x1_0000_0000_0000_0000
    } else {
        n as i128
    };
    proof {
        if n < 0 {
            vstd::arithmetic::div_mod::lemma_mod_add_multiples_vanish(n as int, 0x1_0000_0000_0000_0000);
            vstd::arithmetic::div_mod::lemma_small_mod(u as nat, 0x1_0000_0000_0000_0000);
        } else {
            vstd::arithmetic::div_mod::lemma_small_mod(u as nat, 0x1_0000_0000_0000_0000);
        }
        assert(u == (n as int) % 0x1_0000_0000_0000_0000);
    }
    let mut k: u32 = 0;
    while k < 64
        invariant
            k <= 64,
            u == (n as int) % 0x1_0000_0000_0000_0000,
            forall|j: nat| j < k ==> !single_bit_at(n as int, j),
        decreases 64 - k,
    {
        if u == pow2_i128(k) {
            proof {
                assert(single_bit_at(n as int, k as nat));
                assert forall|j: nat| #[trigger] single_bit_at(n as int, j) implies j == k by {
                    if j < k {
                    } else if j > k {
                        vstd::arithmetic::power2::lemma_pow2_strictly_increases(k as nat, j);
                    }
                }
            }
            return Some(k);
        }
        k = k + 1;
    }
    None
}

/// Bypasses a binary node whose uniform input is the neutral element `value`
/// of its operator; `also_left` tells whether the operator is neutral on the
/// left too.
pub fn declutter_neutral(
    one_uniform: &Option<OneUniformInput>,
    value: i64,
    also_left: bool,
) -> (r: Result<Option<Patch>, DeclutterError>)
    ensures
        r == neutral_rule(*one_uniform, value as int, also_left),
{
    match one_uniform {
        None => Ok(None),
        Some(u) => {
            // a cast of a quantized uniform to i64 is not its value
            if u.uni.datum_type.is_quantized() {
                return Ok(None);
            }
            let integer = match u.uni.value.read_i64() {
                Some(n) => n,
                None => return Err(DeclutterError::NoNumericReading),
            };
            if u.uni.value.reads_back_exactly() && integer == value && (also_left
                || !u.left_is_uniform) {
                Ok(Some(Patch::Bypass { input: u.var_input() }))
            } else {
                Ok(None)
            }
        },
    }
}

/// Simplifies an addition with a uniform input (see `add_rule`).
pub fn declutter_add(node: &BinaryNode) -> (r: Result<Option<Patch>, DeclutterError>)
    ensures
        r == add_rule(*node),
{
    declutter_neutral(&node.one_uniform, 0, true)
}

/// Simplifies a subtraction with a uniform input (see `sub_rule`).
pub fn declutter_sub(node: &BinaryNode) -> (r: Result<Option<Patch>, DeclutterError>)
    ensures
        r == sub_rule(*node),
{
    declutter_neutral(&node.one_uniform, 0, false)
}

/// Simplifies a product with a uniform input (see `mul_rule`).
pub fn declutter_mul(node: &BinaryNode) -> (r: Result<Option<Patch>, DeclutterError>)
    ensures
        r == mul_rule(*node),
{
    match declutter_neutral(&node.one_uniform, 1, true) {
        Err(e) => return Err(e),
        Ok(Some(p)) => return Ok(Some(p)),
        Ok(None) => {},
    }
    match &node.one_uniform {
        None => Ok(None),
        Some(u) => {
            let v = u.uni.value;
            let zero = match v.read_is_zero() {
                Some(z) => z,
                None => return Err(DeclutterError::NoNumericReading),
            };
            if zero {
                return Ok(Some(Patch::BroadcastConst { value: u.uni }));
            }
            let dt = u.uni.datum_type;
            let integer = match v.read_i64() {
                Some(n) => n,
                None => return Err(DeclutterError::NoNumericReading),
            };
            if v.reads_back_exactly() && dt.is_integer() {
                if let Some(shift) = single_bit_position(integer) {
                    let var = u.var_input();
                    let rank = if var == 0 {
                        node.left.rank
                    } else {
                        node.right.rank
                    };
                    return Ok(Some(Patch::ShiftLeft { input: var, shift, datum_type: dt, rank }));
                }
            }
            Ok(None)
        },
    }
}

/// Simplifies a division (see `div_rule`).
pub fn declutter_div(node: &BinaryNode) -> (r: Result<Option<Patch>, DeclutterError>)
    ensures
        r == div_rule(*node),
{
    match declutter_neutral(&node.one_uniform, 1, false) {
        Err(e) => return Err(e),
        Ok(Some(p)) => return Ok(Some(p)),
        Ok(None) => {},
    }
    let dt = node.right.datum_type;
    if let Some(q) = &node.right.uniform {
        if let Some(integer) = q.read_i64() {
            if q.reads_back_exactly() && dt.is_integer() {
                if let Some(shift) = single_bit_position(integer) {
                    return Ok(
                        Some(
                            Patch::ShiftRight {
                                input: 0,
                                shift,
                                datum_type: dt,
                                rank: node.left.rank,
                            },
                        ),
                    );
                }
            }
        }
    }
    if dt.is_float() {
        return Ok(Some(Patch::MulByRecip));
    }
    Ok(None)
}

/// Simplifies a power (see `pow_rule`).
pub fn declutter_pow(node: &BinaryNode) -> (r: Result<Option<Patch>, DeclutterError>)
    ensures
        r == pow_rule(*node),
{
    match declutter_neutral(&node.one_uniform, 1, false) {
        Err(e) => return Err(e),
        Ok(Some(p)) => return Ok(Some(p)),
        Ok(None) => {},
    }
    if let Some(b) = &node.right.uniform {
        let (two, half) = match b.read_f32_two_or_half() {
            Some(t) => t,
            None => return Err(DeclutterError::NoNumericReading),
        };
        if two {
            return Ok(Some(Patch::Unary { op: ElementWise::Square, input: 0 }));
        } else if half {
            return Ok(Some(Patch::Unary { op: ElementWise::Sqrt, input: 0 }));
        }
    }
    Ok(None)
}

/// Simplifies a reciprocal whose single predecessor is a square root or a
/// reciprocal square root (see `recip_rule`).
pub fn declutter_recip(predecessor: &Option<NodeOp>) -> (r: Option<Patch>)
    ensures
        r == recip_rule(*predecessor),
{
    match predecessor {
        Some(NodeOp::ElementWise(ElementWise::Sqrt)) => Some(
            Patch::FuseWithPredecessor { op: ElementWise::Rsqrt },
        ),
        Some(NodeOp::ElementWise(ElementWise::Rsqrt)) => Some(
            Patch::FuseWithPredecessor { op: ElementWise::Sqrt },
        ),
        _ => None,
    }
}

/// Whether the patch computes integers, and so what `patch_value` gives.
pub open spec fn is_integer_patch(p: Patch) -> bool {
    match p {
        Patch::Bypass { .. } => true,
        Patch::BroadcastConst { value } => value.value is Int,
        Patch::ShiftLeft { shift, datum_type, .. } | Patch::ShiftRight { shift, datum_type, .. } =>
            datum_type.is_plain_integer() && datum_type.holds(shift as int),
        _ => false,
    }
}

/// What an integer patch computes on the element `x` of the variable input
/// of the node it replaced.
pub open spec fn patch_value(p: Patch, x: int) -> Option<int> {
    match p {
        Patch::Bypass { .. } => Some(x),
        Patch::BroadcastConst { value } => match value.value {
            Scalar::Int(c) => Some(c as int),
            _ => None,
        },
        Patch::ShiftLeft { shift, datum_type, .. } => int_binary(
            BinOp::ShiftLeft,
            datum_type,
            x,
            shift as int,
        ),
        Patch::ShiftRight { shift, datum_type, .. } => int_binary(
            BinOp::ShiftRight,
            datum_type,
            x,
            shift as int,
        ),
        _ => None,
    }
}

/// The elements of a shift patch's input are values of the shift's type.
pub open spec fn patch_input_held(p: Patch, var: Seq<i128>) -> bool {
    match p {
        Patch::ShiftLeft { datum_type, .. } | Patch::ShiftRight { datum_type, .. } => forall|i: int|
            0 <= i < var.len() ==> datum_type.holds(#[trigger] var[i] as int),
        _ => true,
    }
}

/// Runs an integer patch on the elements `var` of the variable input of the
/// node it replaced; fails on a patch that does not compute plain integers
/// (a float patch, or a shift of quantized stored values).
pub fn eval_patch(patch: &Patch, var: &Vec<i128>) -> (r: Result<Vec<i128>, EvalError>)
    requires
        patch_input_held(*patch, var@),
    ensures
        match r {
            Ok(v) => is_integer_patch(*patch) && v.len() == var.len() && forall|i: int|
                0 <= i < var.len() ==> patch_value(*patch, var[i] as int) == Some(#[trigger] v[i] as int),
            Err(e) => e == EvalError::Unsupported && !is_integer_patch(*patch),
        },
{
    match patch {
        Patch::Bypass { .. } => Ok(var.clone()),
        Patch::BroadcastConst { value } => match value.value {
            Scalar::Int(c) => {
                let mut out: Vec<i128> = Vec::new();
                let mut i: usize = 0;
                while i < var.len()
                    invariant
                        i <= var.len(),
                        out.len() == i,
                        forall|j: int| 0 <= j < i ==> #[trigger] out[j] == c,
                    decreases var.len() - i,
                {
                    out.push(c);
                    i = i + 1;
                }
                Ok(out)
            },
            _ => Err(EvalError::Unsupported),
        },
        Patch::ShiftLeft { shift, datum_type, .. } | Patch::ShiftRight { shift, datum_type, .. } => {
            let dt = *datum_type;
            if !(dt.is_integer() && !dt.is_quantized()) || !type_holds(dt, *shift as i128) {
                return Err(EvalError::Unsupported);
            }
            let op = if let Patch::ShiftLeft { .. } = patch {
                BinOp::ShiftLeft
            } else {
                BinOp::ShiftRight
            };
            match eval_with_uniform(op, dt, var, *shift as i128, false) {
                Ok(v) => Ok(v),
                Err(_) => Err(EvalError::Unsupported),
            }
        },
        _ => Err(EvalError::Unsupported),
    }
}

} // verus!
