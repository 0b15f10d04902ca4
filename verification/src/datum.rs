//! The element types of tensors that the arithmetic operators run on, and
//! the ranges and wrapping of their integer storage.

use vstd::prelude::*;

verus! {

/// The element types that the arithmetic operators run on.
///
/// `QI8`, `QU8` and `QI32` are quantized types: their stored values are
/// integers of the underlying type, read through a zero point and a scale.
#[derive(Clone, Copy, Debug, PartialEq, Eq, Structural)]
pub enum DatumType {
    U8,
    U16,
    U32,
    U64,
    I8,
    I16,
    I32,
    I64,
    F16,
    F32,
    F64,
    TDim,
    QI8,
    QU8,
    QI32,
}

impl DatumType {
    pub open spec fn spec_is_quantized(&self) -> bool {
        *self is QI8 || *self is QU8 || *self is QI32
    }

    /// Whether the type is one of the quantized types.
    #[verifier::when_used_as_spec(spec_is_quantized)]
    pub fn is_quantized(&self) -> (r: bool)
        ensures
            r == self.spec_is_quantized(),
    {
        match self {
            DatumType::QI8 | DatumType::QU8 | DatumType::QI32 => true,
            _ => false,
        }
    }

    pub open spec fn spec_unquantized(&self) -> DatumType {
        match *self {
            DatumType::QI8 => DatumType::I8,
            DatumType::QU8 => DatumType::U8,
            DatumType::QI32 => DatumType::I32,
            other => other,
        }
    }

    /// The storage type of a quantized type; any other type is its own.
    #[verifier::when_used_as_spec(spec_unquantized)]
    pub fn unquantized(&self) -> (r: DatumType)
        ensures
            r == self.spec_unquantized(),
    {
        match self {
            DatumType::QI8 => DatumType::I8,
            DatumType::QU8 => DatumType::U8,
            DatumType::QI32 => DatumType::I32,
            other => *other,
        }
    }

    pub open spec fn spec_is_signed(&self) -> bool {
        let u = self.spec_unquantized();
        u is I8 || u is I16 || u is I32 || u is I64
    }

    /// Whether the (storage) type is a signed integer type.
    #[verifier::when_used_as_spec(spec_is_signed)]
    pub fn is_signed(&self) -> (r: bool)
        ensures
            r == self.spec_is_signed(),
    {
        match self.unquantized() {
            DatumType::I8 | DatumType::I16 | DatumType::I32 | DatumType::I64 => true,
            _ => false,
        }
    }

    pub open spec fn spec_is_unsigned(&self) -> bool {
        let u = self.spec_unquantized();
        u is U8 || u is U16 || u is U32 || u is U64
    }

    /// Whether the (storage) type is an unsigned integer type.
    #[verifier::when_used_as_spec(spec_is_unsigned)]
    pub fn is_unsigned(&self) -> (r: bool)
        ensures
            r == self.spec_is_unsigned(),
    {
        match self.unquantized() {
            DatumType::U8 | DatumType::U16 | DatumType::U32 | DatumType::U64 => true,
            _ => false,
        }
    }

    pub open spec fn spec_is_integer(&self) -> bool {
        self.spec_is_signed() || self.spec_is_unsigned()
    }

    /// Whether the (storage) type is an integer type; quantized types count.
    #[verifier::when_used_as_spec(spec_is_integer)]
    pub fn is_integer(&self) -> (r: bool)
        ensures
            r == self.spec_is_integer(),
    {
        self.is_signed() || self.is_unsigned()
    }

    pub open spec fn spec_is_float(&self) -> bool {
        *self is F16 || *self is F32 || *self is F64
    }

    /// Whether the type is a floating point type.
    #[verifier::when_used_as_spec(spec_is_float)]
    pub fn is_float(&self) -> (r: bool)
        ensures
            r == self.spec_is_float(),
    {
        match self {
            DatumType::F16 | DatumType::F32 | DatumType::F64 => true,
            _ => false,
        }
    }

    /// A plain (not quantized) integer type.
    pub open spec fn is_plain_integer(self) -> bool {
        self.spec_is_integer() && !self.spec_is_quantized()
    }

    /// Number of values of the integer storage type: 2 to the number of bits.
    pub open spec fn modulus(self) -> int {
        match self.spec_unquantized() {
            DatumType::U8 | DatumType::I8 => 0x100,
            DatumType::U16 | DatumType::I16 => 0x1_0000,
            DatumType::U32 | DatumType::I32 => 0x1_0000_0000,
            _ => 0x1_0000_0000_0000_0000,
        }
    }

    /// Number of bits of the integer storage type.
    pub open spec fn bits(self) -> nat {
        match self.spec_unquantized() {
            DatumType::U8 | DatumType::I8 => 8,
            DatumType::U16 | DatumType::I16 => 16,
            DatumType::U32 | DatumType::I32 => 32,
            _ => 64,
        }
    }

    /// Smallest value of the integer storage type.
    pub open spec fn int_min(self) -> int {
        if self.spec_is_signed() {
            -(self.modulus() / 2)
        } else {
            0
        }
    }

    /// Largest value of the integer storage type.
    pub open spec fn int_max(self) -> int {
        self.int_min() + self.modulus() - 1
    }

    /// Whether `v` is a value of the integer storage type.
    pub open spec fn holds(self, v: int) -> bool {
        self.int_min() <= v <= self.int_max()
    }

    /// The value of the integer storage type that is congruent to `n`
    /// modulo 2 to the number of bits: what a wrapping operation gives.
    pub open spec fn wrap(self, n: int) -> int {
        self.int_min() + (n - self.int_min()) % self.modulus()
    }
}

} // verus!
