//! The value of a uniform tensor, held exactly without floating point (a
//! float is `mantissa * 2^exponent`), and the readings the simplification
//! rules take of it: as an `i64`, as zero, as an `f32`.

use vstd::prelude::*;
use vstd::arithmetic::power2::{pow2, lemma_pow2_unfold, lemma_pow2_pos, lemma_pow2_strictly_increases, lemma2_to64, lemma2_to64_rest};
use vstd::arithmetic::div_mod::{lemma_fundamental_div_mod, lemma_mod_multiples_basic};
use crate::datum::DatumType;

verus! {

/// The smallest `i64`.
pub const I64_LOW: i128 = -0x8000_0000_0000_0000;
/// The largest `i64`.
pub const I64_HIGH: i128 = 0x7fff_ffff_ffff_ffff;

/// `2^e` as an integer, for `e >= 0`.
pub open spec fn p2(e: int) -> int {
    pow2(e as nat) as int
}

/// `m * 2^e` rounded toward zero to an integer.
pub open spec fn trunc_scaled(m: int, e: int) -> int {
    if e >= 0 {
        m * p2(e)
    } else if m >= 0 {
        m / p2(-e)
    } else {
        -((-m) / p2(-e))
    }
}

/// Whether `m * 2^e` is an integer.
pub open spec fn is_integral(m: int, e: int) -> bool {
    e >= 0 || m % p2(-e) == 0
}

/// Whether `lo <= m * 2^t <= hi` holds of the real number `m * 2^t`.
pub open spec fn scaled_between(m: int, t: int, lo: int, hi: int) -> bool {
    if t >= 0 {
        lo <= m * p2(t) <= hi
    } else {
        lo * p2(-t) <= m <= hi * p2(-t)
    }
}

/// `n` clamped into the range of `i64`: what a saturating cast gives.
pub open spec fn saturate_i64(n: int) -> int {
    if n < I64_LOW {
        I64_LOW as int
    } else if n > I64_HIGH {
        I64_HIGH as int
    } else {
        n
    }
}

/// The `i64` congruent to `n` modulo 2^64: what a wrapping cast gives.
pub open spec fn wrap_i64(n: int) -> int {
    I64_LOW + (n - I64_LOW) % 0x1_0000_0000_0000_0000
}

/// The value of a uniform tensor, held without floating point.
#[derive(Clone, Copy, Debug, PartialEq, Eq, Structural)]
pub enum Scalar {
    /// An integer: the value of an integer type, the stored value of a
    /// quantized type, or a symbolic dimension known to be this integer.
    Int(i128),
    /// A finite floating point value, exactly `mantissa * 2^exponent`.
    Float { mantissa: i64, exponent: i32 },
    /// A floating point NaN.
    NaN,
    /// A floating point infinity.
    Infinity { negative: bool },
    /// A symbolic dimension that is not a known integer.
    Symbolic,
}

/// A uniform tensor: every element is `value`, of type `datum_type`.
#[derive(Clone, Copy, Debug, PartialEq, Eq, Structural)]
pub struct Uniform {
    pub datum_type: DatumType,
    pub value: Scalar,
}

impl Uniform {
    /// The value is one that the datum type can hold.
    pub open spec fn wf(self) -> bool {
        match self.value {
            Scalar::Int(v) => (self.datum_type.spec_is_integer() && self.datum_type.holds(v as int)) || (
            self.datum_type is TDim && I64_LOW <= v <= I64_HIGH),
            Scalar::Float { .. } | Scalar::NaN | Scalar::Infinity { .. } => self.datum_type.spec_is_float(),
            Scalar::Symbolic => self.datum_type is TDim,
        }
    }
}

impl Scalar {
    /// The value read as an `i64`, as a cast of the tensor to `i64` gives it:
    /// integers wrap, floats are truncated toward zero and saturate, NaN
    /// gives 0. A symbolic dimension has no such reading.
    pub open spec fn i64_reading(self) -> Option<int> {
        match self {
            Scalar::Int(v) => Some(wrap_i64(v as int)),
            Scalar::Float { mantissa, exponent } => Some(
                saturate_i64(trunc_scaled(mantissa as int, exponent as int)),
            ),
            Scalar::NaN => Some(0),
            Scalar::Infinity { negative } => Some(
                if negative {
                    I64_LOW as int
                } else {
                    I64_HIGH as int
                },
            ),
            Scalar::Symbolic => None,
        }
    }

    /// Whether the `i64` reading, cast back to the value's own type, gives
    /// the value again: always for integers; for a float, exactly when it
    /// is an integer between -2^63 and 2^63.
    pub open spec fn i64_reading_is_exact(self) -> bool {
        match self {
            Scalar::Int(_) => true,
            Scalar::Float { mantissa, exponent } => is_integral(mantissa as int, exponent as int)
                && I64_LOW <= trunc_scaled(mantissa as int, exponent as int) <= I64_HIGH + 1,
            _ => false,
        }
    }

    /// Whether the value read as an `f64` is zero.
    pub open spec fn is_zero(self) -> bool {
        match self {
            Scalar::Int(v) => v == 0,
            Scalar::Float { mantissa, .. } => mantissa == 0,
            _ => false,
        }
    }

    /// Whether the value rounds to `2.0` as an `f32`: the reals that do are
    /// those between `2 - 2^-24` and `2 + 2^-23`.
    pub open spec fn f32_reading_is_two(self) -> bool {
        match self {
            Scalar::Int(v) => v == 2,
            Scalar::Float { mantissa, exponent } => scaled_between(
                mantissa as int,
                exponent + 24,
                0x1ff_ffff as int,
                0x200_0002 as int,
            ),
            _ => false,
        }
    }

    /// Whether the value rounds to `0.5` as an `f32`: the reals that do are
    /// those between `0.5 - 2^-26` and `0.5 + 2^-25`.
    pub open spec fn f32_reading_is_half(self) -> bool {
        match self {
            Scalar::Float { mantissa, exponent } => scaled_between(
                mantissa as int,
                exponent + 26,
                0x1ff_ffff as int,
                0x200_0002 as int,
            ),
            _ => false,
        }
    }

    /// Whether the value is exactly the integer `n`, as a real number: an
    /// integer equal to `n`, or a finite float with `mantissa * 2^exponent`
    /// equal to `n`.
    pub open spec fn is_exactly(self, n: int) -> bool {
        match self {
            Scalar::Int(v) => v == n,
            Scalar::Float { mantissa, exponent } => if exponent >= 0 {
                mantissa * p2(exponent as int) == n
            } else {
                mantissa == n * p2(-exponent as int)
            },
            _ => false,
        }
    }

    /// Whether the value has a numeric reading at all.
    pub open spec fn is_numeric(self) -> bool {
        !(self is Symbolic)
    }
}

/// The value of the IEEE 754 double precision float whose bits are `bits`.
pub open spec fn f64_bits_value(bits: u64) -> Scalar {
    let negative = bits >= 0x8000_0000_0000_0000u64;
    let biased = (bits / 0x10_0000_0000_0000u64) % 0x800;
    let fraction = bits % 0x10_0000_0000_0000u64;
    if biased == 0x7ff {
        if fraction == 0 {
            Scalar::Infinity { negative }
        } else {
            Scalar::NaN
        }
    } else {
        let magnitude = if biased == 0 {
            fraction as int
        } else {
            fraction + 0x10_0000_0000_0000
        };
        Scalar::Float {
            mantissa: (if negative {
                -magnitude
            } else {
                magnitude
            }) as i64,
            exponent: (if biased == 0 {
                -1074
            } else {
                biased - 1075
            }) as i32,
        }
    }
}

impl Scalar {
    /// The value of a float given by its IEEE 754 double precision bits
    /// (a half or single precision float widens to a double exactly).
    pub fn from_f64_bits(bits: u64) -> (r: Scalar)
        ensures
            r == f64_bits_value(bits),
    {
        let negative = bits >= 0x8000_0000_0000_0000u64;
        let biased = (bits / 0x10_0000_0000_0000u64) % 0x800;
        let fraction = bits % 0x10_0000_0000_0000u64;
        if biased == 0x7ff {
            if fraction == 0 {
                Scalar::Infinity { negative }
            } else {
                Scalar::NaN
            }
        } else {
            let magnitude: i64 = if biased == 0 {
                fraction as i64
            } else {
                (fraction + 0x10_0000_0000_0000u64) as i64
            };
            let exponent: i32 = if biased == 0 {
                -1074
            } else {
                biased as i32 - 1075
            };
            Scalar::Float {
                mantissa: if negative {
                    -magnitude
                } else {
                    magnitude
                },
                exponent,
            }
        }
    }
}

/// `2^k` as an `i128`.
pub fn pow2_i128(k: u32) -> (r: i128)
    requires
        k <= 126,
    ensures
        r == pow2(k as nat),
{
    let mut r: i128 = 1;
    let mut i: u32 = 0;
    proof {
        lemma2_to64();
    }
    while i < k
        invariant
            i <= k <= 126,
            r == pow2(i as nat),
        decreases k - i,
    {
        proof {
            lemma_pow2_unfold((i + 1) as nat);
            lemma_pow2_strictly_increases((i + 1) as nat, 127);
            lemma_pow2_unfold(127);
            assert(pow2(127) == 0x8000_0000_0000_0000_0000_0000_0000_0000) by {
                lemma2_to64_rest();
                vstd::arithmetic::power2::lemma_pow2_adds(63, 64);
            }
        }
        r = r * 2;
        i = i + 1;
    }
    r
}

/// `v` wrapped into the range of `i64`.
fn wrap_to_i64(v: i128) -> (r: i64)
    ensures
        r == wrap_i64(v as int),
{
    let m: i128 = 0x1_0000_0000_0000_0000;
    let mut t = v % m;
    if t < 0 {
        t = t + m;
    }
    if t > I64_HIGH {
        t = t - m;
    }
    proof {
        let mi = m as int;
        let d = (v - I64_LOW) / mi;
        assert((v - I64_LOW) == d * mi + (v - I64_LOW) % mi);
    }
    t as i64
}

/// `a` is a multiple of `p` exactly when `-a` is.
proof fn lemma_neg_mod_zero(a: int, p: int)
    requires
        p > 0,
    ensures
        (a % p == 0) == ((-a) % p == 0),
{
    lemma_fundamental_div_mod(a, p);
    lemma_fundamental_div_mod(-a, p);
    if a % p == 0 {
        lemma_mod_multiples_basic(-(a / p), p);
        assert(-a == (-(a / p)) * p) by (nonlinear_arith)
            requires a == p * (a / p);
    }
    if (-a) % p == 0 {
        lemma_mod_multiples_basic(-((-a) / p), p);
        assert(a == (-((-a) / p)) * p) by (nonlinear_arith)
            requires -a == p * ((-a) / p);
    }
}

/// `m * 2^e` truncated toward zero and saturated into the range of `i64`.
fn float_to_i64(m: i64, e: i32) -> (r: i64)
    ensures
        r == saturate_i64(trunc_scaled(m as int, e as int)),
{
    if m == 0 {
        proof {
            assert(0int * p2(e as int) == 0);
            assert(0int / p2(-e as int) == 0) by {
                lemma_pow2_pos((-e) as nat);
            }
        }
        return 0;
    }
    if e >= 0 {
        if e >= 64 {
            proof {
                if e > 64 {
                    lemma_pow2_strictly_increases(64, e as nat);
                }
                lemma2_to64_rest();
                if m > 0 {
                    assert(m * p2(e as int) >= p2(e as int)) by (nonlinear_arith)
                        requires m > 0, p2(e as int) > 0;
                } else {
                    assert(m * p2(e as int) <= -p2(e as int)) by (nonlinear_arith)
                        requires m < 0, p2(e as int) > 0;
                }
            }
            if m > 0 {
                i64::MAX
            } else {
                i64::MIN
            }
        } else {
            let p = pow2_i128(e as u32);
            proof {
                if e < 63 {
                    lemma_pow2_strictly_increases(e as nat, 63);
                }
                lemma_pow2_pos(e as nat);
                lemma2_to64_rest();
                assert(-0x4000_0000_0000_0000_0000_0000_0000_0000 <= (m as int) * p <= 0x4000_0000_0000_0000_0000_0000_0000_0000) by (nonlinear_arith)
                    requires -0x8000_0000_0000_0000 <= m <= 0x8000_0000_0000_0000, 0 < p <= 0x8000_0000_0000_0000;
            }
            let prod = (m as i128) * p;
            if prod < I64_LOW {
                i64::MIN
            } else if prod > I64_HIGH {
                i64::MAX
            } else {
                prod as i64
            }
        }
    } else {
        let s: i64 = -(e as i64);
        if s >= 64 {
            proof {
                if s > 64 {
                    lemma_pow2_strictly_increases(64, s as nat);
                }
                lemma2_to64_rest();
                if m >= 0 {
                    assert((m as int) / p2(s as int) == 0) by (nonlinear_arith)
                        requires 0 <= m < p2(s as int);
                } else {
                    assert((-m as int) / p2(s as int) == 0) by (nonlinear_arith)
                        requires 0 <= -m < p2(s as int);
                }
            }
            0
        } else {
            let p = pow2_i128(s as u32);
            proof {
                lemma_pow2_pos(s as nat);
            }
            let a: i128 = if m < 0 { -(m as i128) } else { m as i128 };
            let q = a / p;
            proof {
                assert(q <= a) by (nonlinear_arith)
                    requires 0 <= a, p >= 1, q == a / p;
                assert(q >= 0) by (nonlinear_arith)
                    requires 0 <= a, p >= 1, q == a / p;
            }
            if m < 0 {
                (-q) as i64
            } else {
                q as i64
            }
        }
    }
}

impl Scalar {
    /// Reads the value as an `i64`; `None` where it has no numeric reading.
    pub fn read_i64(&self) -> (r: Option<i64>)
        ensures
            match r {
                Some(n) => self.i64_reading() == Some(n as int),
                None => self.i64_reading() is None,
            },
    {
        match *self {
            Scalar::Int(v) => Some(wrap_to_i64(v)),
            Scalar::Float { mantissa, exponent } => Some(float_to_i64(mantissa, exponent)),
            Scalar::NaN => Some(0),
            Scalar::Infinity { negative } => Some(
                if negative {
                    i64::MIN
                } else {
                    i64::MAX
                },
            ),
            Scalar::Symbolic => None,
        }
    }

    /// Whether the `i64` reading cast back to the value's type gives the
    /// value again.
    pub fn reads_back_exactly(&self) -> (r: bool)
        ensures
            r == self.i64_reading_is_exact(),
    {
        match *self {
            Scalar::Int(_) => true,
            Scalar::Float { mantissa, exponent } => float_is_i64_exact(mantissa, exponent),
            _ => false,
        }
    }

    /// Whether the value read as an `f64` is zero; `None` where the value has
    /// no numeric reading.
    pub fn read_is_zero(&self) -> (r: Option<bool>)
        ensures
            match r {
                Some(z) => self.is_numeric() && z == self.is_zero(),
                None => !self.is_numeric(),
            },
    {
        match *self {
            Scalar::Int(v) => Some(v == 0),
            Scalar::Float { mantissa, .. } => Some(mantissa == 0),
            Scalar::Symbolic => None,
            _ => Some(false),
        }
    }

    /// Whether the value read as an `f32` is `2.0`, and whether it is `0.5`;
    /// `None` where the value has no numeric reading.
    pub fn read_f32_two_or_half(&self) -> (r: Option<(bool, bool)>)
        ensures
            match r {
                Some((two, half)) => self.is_numeric() && two == self.f32_reading_is_two()
                    && half == self.f32_reading_is_half(),
                None => !self.is_numeric(),
            },
    {
        match *self {
            Scalar::Int(v) => Some((v == 2, false)),
            Scalar::Float { mantissa, exponent } => Some(
                (
                    scaled_in_f32_rounding_interval(mantissa, exponent as i64 + 24),
                    scaled_in_f32_rounding_interval(mantissa, exponent as i64 + 26),
                ),
            ),
            Scalar::Symbolic => None,
            _ => Some((false, false)),
        }
    }
}

/// Whether `m * 2^e` is an integer between -2^63 and 2^63.
fn float_is_i64_exact(m: i64, e: i32) -> (r: bool)
    ensures
        r == (is_integral(m as int, e as int) && I64_LOW <= trunc_scaled(m as int, e as int)
            <= I64_HIGH + 1),
{
    if m == 0 {
        proof {
            assert(0int * p2(e as int) == 0);
            lemma_pow2_pos((-e) as nat);
            assert(0int / p2(-e as int) == 0);
            assert(0int % p2(-e as int) == 0);
        }
        return true;
    }
    if e >= 0 {
        if e >= 64 {
            proof {
                if e > 64 {
                    lemma_pow2_strictly_increases(64, e as nat);
                }
                lemma2_to64_rest();
                if m > 0 {
                    assert(m * p2(e as int) >= p2(e as int)) by (nonlinear_arith)
                        requires m > 0, p2(e as int) > 0;
                } else {
                    assert(m * p2(e as int) <= -p2(e as int)) by (nonlinear_arith)
                        requires m < 0, p2(e as int) > 0;
                }
            }
            false
        } else {
            let p = pow2_i128(e as u32);
            proof {
                if e < 63 {
                    lemma_pow2_strictly_increases(e as nat, 63);
                }
                lemma_pow2_pos(e as nat);
                lemma2_to64_rest();
                assert(-0x4000_0000_0000_0000_0000_0000_0000_0000 <= (m as int) * p <= 0x4000_0000_0000_0000_0000_0000_0000_0000) by (nonlinear_arith)
                    requires -0x8000_0000_0000_0000 <= m <= 0x8000_0000_0000_0000, 0 < p <= 0x8000_0000_0000_0000;
            }
            let prod = (m as i128) * p;
            I64_LOW <= prod && prod <= I64_HIGH + 1
        }
    } else {
        let s: i64 = -(e as i64);
        if s >= 64 {
            proof {
                if s > 64 {
                    lemma_pow2_strictly_increases(64, s as nat);
                }
                lemma2_to64_rest();
                let q = p2(s as int);
                assert((m as int) % q != 0) by (nonlinear_arith)
                    requires m != 0, -0x8000_0000_0000_0000 <= m < 0x8000_0000_0000_0000, q >= 0x1_0000_0000_0000_0000;
            }
            false
        } else {
            let p = pow2_i128(s as u32);
            proof {
                lemma_pow2_pos(s as nat);
                lemma_pow2_strictly_increases(0, s as nat);
                vstd::arithmetic::power2::lemma2_to64();
            }
            let a: i128 = if m < 0 { -(m as i128) } else { m as i128 };
            let q = a / p;
            proof {
                assert(q <= a / 2) by (nonlinear_arith)
                    requires 0 <= a, p >= 2, q == a / p;
                assert(q >= 0) by (nonlinear_arith)
                    requires 0 <= a, p >= 1, q == a / p;
                lemma_neg_mod_zero(m as int, p as int);
            }
            (m as i128) % p == 0
        }
    }
}

/// Whether `2^25 - 1 <= m * 2^t <= 2^25 + 2`.
fn scaled_in_f32_rounding_interval(m: i64, t: i64) -> (r: bool)
    requires
        -0x1_0000_0000 <= t <= 0x1_0000_0000,
    ensures
        r == scaled_between(m as int, t as int, 0x1ff_ffff as int, 0x200_0002 as int),
{
    let lo: i128 = 0x1ff_ffff;
    let hi: i128 = 0x200_0002;
    if m <= 0 {
        proof {
            if t >= 0 {
                lemma_pow2_pos(t as nat);
                assert((m as int) * p2(t as int) <= 0) by (nonlinear_arith)
                    requires m <= 0, p2(t as int) > 0;
            } else {
                lemma_pow2_pos((-t) as nat);
                assert(lo * p2(-t as int) > 0) by (nonlinear_arith)
                    requires lo > 0, p2(-t as int) > 0;
            }
        }
        return false;
    }
    if t >= 0 {
        if t >= 26 {
            proof {
                if t > 26 {
                    lemma_pow2_strictly_increases(26, t as nat);
                }
                lemma2_to64();
                lemma2_to64_rest();
                assert((m as int) * p2(t as int) >= p2(t as int)) by (nonlinear_arith)
                    requires m >= 1, p2(t as int) > 0;
            }
            false
        } else {
            let p = pow2_i128(t as u32);
            proof {
                if t < 26 {
                    lemma_pow2_strictly_increases(t as nat, 26);
                }
                lemma_pow2_pos(t as nat);
                lemma2_to64();
                lemma2_to64_rest();
                assert(0 < (m as int) * p <= 0x8000_0000_0000_0000 * 0x400_0000) by (nonlinear_arith)
                    requires 0 < m <= 0x8000_0000_0000_0000, 0 < p <= 0x400_0000;
            }
            let v = (m as i128) * p;
            lo <= v && v <= hi
        }
    } else {
        let s: i64 = -t;
        if s >= 40 {
            proof {
                if s > 40 {
                    lemma_pow2_strictly_increases(40, s as nat);
                }
                lemma2_to64();
                lemma2_to64_rest();
                assert(lo * p2(s as int) > 0x8000_0000_0000_0000) by (nonlinear_arith)
                    requires lo == 0x1ff_ffff, p2(s as int) >= 0x100_0000_0000;
            }
            false
        } else {
            let p = pow2_i128(s as u32);
            proof {
                if s < 40 {
                    lemma_pow2_strictly_increases(s as nat, 40);
                }
                lemma_pow2_pos(s as nat);
                lemma2_to64();
                lemma2_to64_rest();
                assert(hi * p <= 0x200_0002 * 0x100_0000_0000) by (nonlinear_arith)
                    requires hi == 0x200_0002, 0 < p <= 0x100_0000_0000;
                assert(lo * p <= hi * p) by (nonlinear_arith)
                    requires lo <= hi, 0 < p;
            }
            lo * p <= m as i128 && m as i128 <= hi * p
        }
    }
}

} // verus!
