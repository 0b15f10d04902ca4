# tract_math

Verified arithmetic operators of a neural network inference engine,
written in Verus.

- `src/datum.rs`: element types (`DatumType`) and their integer ranges.
- `src/scalar.rs`: the value of a uniform tensor, held exactly (a float is
  `mantissa * 2^exponent`), and its readings as an `i64`, as zero, as an `f32`.
- `src/arith.rs`: integer kernels of the binary operators (`Add` … `ShiftRight`)
  and of `Abs`/`Neg`, specified over mathematical integers with wrapping.
- `src/declutter.rs`: the simplification rules (`declutter_add`, `declutter_sub`,
  `declutter_mul`, `declutter_div`, `declutter_pow`, `declutter_recip`,
  `declutter_neutral`), each meeting a spec function exactly, and the
  evaluation of the integer patches they return.
- `src/soundness.rs`: proofs that the integer patches compute what the nodes
  they replace compute (the right shift replacing a division: exactly where
  the dividend is not negative or is a multiple of the divisor).
- `src/binary32.rs`: single precision values held exactly, IEEE 754 rounding
  to nearest (ties to even), and the `f32` products, reciprocals, roundings
  and saturating conversions that the quantized kernels perform.
- `src/quant.rs`: quantized kernels (`add_quant`, `sub_quant`, `mul_quant`,
  `mul_qi8`, `mul_qu8`, minimum, maximum), with the rescaling of a product
  done in single precision, and their laws.
- `app/`: the floating point side (float kernels, conversions of floats into
  the library's exact values), which Verus does not see.
