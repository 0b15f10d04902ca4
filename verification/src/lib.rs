//! Verified core of the arithmetic operators of a neural network inference
//! engine: the element types they run on, the integer semantics of the
//! binary operators, the quantized kernels, and the rules that simplify
//! ("declutter") a graph node when one of its inputs is a uniform constant.

pub mod datum;
pub mod scalar;
pub mod arith;
pub mod declutter;
pub mod soundness;
pub mod quant;
pub mod binary32;
