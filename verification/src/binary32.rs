//! IEEE 754 single precision values held exactly, and the rounding of an
//! exact value to the nearest of them (ties to even), as the hardware does for
//! `f32` arithmetic; with it, the `f32` operations the quantized kernels use:
//! products, reciprocals, conversions from integers, rounding to an integer
//! and conversions back to integers.

use vstd::prelude::*;
use vstd::arithmetic::power2::{pow2, lemma_pow2_pos, lemma_pow2_adds, lemma_pow2_unfold, lemma_pow2_strictly_increases, lemma2_to64, lemma2_to64_rest};
use vstd::arithmetic::div_mod::{lemma_fundamental_div_mod, lemma_fundamental_div_mod_converse};
use crate::scalar::{p2, pow2_i128};

verus! {

/// `n / d` rounded to the nearest integer, ties to even.
pub open spec fn round_half_even(n: int, d: int) -> int {
    let q = n / d;
    let r = n % d;
    if 2 * r > d {
        q + 1
    } else if 2 * r < d {
        q
    } else if q % 2 == 0 {
        q
    } else {
        q + 1
    }
}

/// `n * 2^k / d` rounded to the nearest integer, ties to even.
pub open spec fn round_scaled(n: int, d: int, k: int) -> int {
    if k >= 0 {
        round_half_even(n * p2(k), d)
    } else {
        round_half_even(n, d * p2(-k))
    }
}

/// `n / d` rounded to the nearest integer, ties to even.
pub fn round_half_even_u128(n: u128, d: u128) -> (r: u128)
    requires
        d > 0,
        n < 0x8000_0000_0000_0000_0000_0000_0000_0000,
    ensures
        r == round_half_even(n as int, d as int),
{
    let q = n / d;
    let r = n % d;
    proof {
        lemma_fundamental_div_mod(n as int, d as int);
        assert(q <= n) by (nonlinear_arith)
            requires q == n / d, d > 0, n >= 0;
    }
    if r > d - r {
        q + 1
    } else if r < d - r {
        q
    } else if q % 2 == 0 {
        q
    } else {
        q + 1
    }
}

/// An IEEE 754 single precision value, held exactly: a finite one is
/// `(-1)^negative * mantissa * 2^exponent`.
#[derive(Clone, Copy, Debug, PartialEq, Eq, Structural)]
pub enum Binary32 {
    Finite { negative: bool, mantissa: u32, exponent: i32 },
    Infinite { negative: bool },
    NaN,
}

impl Binary32 {
    /// The mantissa and exponent of a finite value lie in the format's
    /// ranges.
    pub open spec fn wf(self) -> bool {
        match self {
            Binary32::Finite { mantissa, exponent, .. } => mantissa < 0x100_0000 && -149 <= exponent
                <= 104,
            _ => true,
        }
    }
}

/// Whether `n * 2^s < d * 2^j`, compared as `n * 2^(s + 64) < d * 2^(j + 64)`
/// so that both exponents are natural for `s, j >= -64`.
pub open spec fn below(n: int, d: int, s: int, j: int) -> bool {
    n * p2(s + 64) < d * p2(j + 64)
}

/// Whether `2^23 <= n * 2^s / d < 2^24`: scaled by `2^s`, the quotient has 24
/// significant bits.
pub open spec fn in_binade(n: int, d: int, s: int) -> bool {
    -64 <= s && !below(n, d, s, 23) && below(n, d, s, 24)
}

/// The scaling that gives `n / d` 24 significant bits.
pub open spec fn binade(n: int, d: int) -> int {
    choose|s: int| in_binade(n, d, s)
}

/// The value `(-1)^negative * n / d * 2^k` rounded to single precision:
/// to 24 significant bits, but no finer than `2^-149`, to the nearest value,
/// ties to even; infinite where the rounded value reaches `2^128`.
pub open spec fn rounded(negative: bool, n: int, d: int, k: int) -> Binary32 {
    if n == 0 {
        Binary32::Finite { negative, mantissa: 0, exponent: -149i32 }
    } else {
        let s = binade(n, d);
        let t = if k - s >= -149 {
            s
        } else {
            k + 149
        };
        let e = k - t;
        let m = round_scaled(n, d, t);
        let m2 = if m == 0x100_0000 {
            0x80_0000
        } else {
            m
        };
        let e2 = if m == 0x100_0000 {
            e + 1
        } else {
            e
        };
        if e2 > 104 {
            Binary32::Infinite { negative }
        } else {
            Binary32::Finite { negative, mantissa: m2 as u32, exponent: e2 as i32 }
        }
    }
}

/// The comparison `below` written with the exponent of `n`'s side moved to
/// whichever side keeps it natural.
proof fn lemma_below_forms(n: int, d: int, s: int, j: int)
    requires
        n >= 0,
        d > 0,
        -64 <= s,
        0 <= j <= 64,
    ensures
        s >= 0 ==> (below(n, d, s, j) <==> n * p2(s) < d * p2(j)),
        s < 0 ==> (below(n, d, s, j) <==> n < d * p2(j - s)),
{
    lemma_pow2_pos(64);
    lemma_pow2_pos((s + 64) as nat);
    if s >= 0 {
        lemma_pow2_adds(s as nat, 64);
        lemma_pow2_adds(j as nat, 64);
        let a = n * p2(s);
        let b = d * p2(j);
        let q = p2(64);
        assert(n * p2(s + 64) == a * q) by (nonlinear_arith)
            requires p2(s + 64) == p2(s) * q, a == n * p2(s);
        assert(d * p2(j + 64) == b * q) by (nonlinear_arith)
            requires p2(j + 64) == p2(j) * q, b == d * p2(j);
        assert((a * q < b * q) <==> (a < b)) by (nonlinear_arith)
            requires q > 0;
    } else {
        lemma_pow2_adds((j - s) as nat, (s + 64) as nat);
        let q = p2(s + 64);
        let b = d * p2(j - s);
        assert(d * p2(j + 64) == b * q) by (nonlinear_arith)
            requires p2(j + 64) == p2(j - s) * q, b == d * p2(j - s);
        assert((n * q < b * q) <==> (n < b)) by (nonlinear_arith)
            requires q > 0;
    }
}

/// Halving the bound is doubling the scaling.
proof fn lemma_below_double(n: int, d: int, s: int)
    requires
        -64 <= s,
    ensures
        below(n, d, s, 23) <==> below(n, d, s + 1, 24),
{
    lemma_pow2_unfold((s + 65) as nat);
    lemma_pow2_unfold(88);
    assert(n * p2(s + 65) == 2 * (n * p2(s + 64))) by (nonlinear_arith)
        requires p2(s + 65) == 2 * p2(s + 64);
    assert(d * p2(88) == 2 * (d * p2(87))) by (nonlinear_arith)
        requires p2(88) == 2 * p2(87);
}

/// A smaller scaling stays below.
proof fn lemma_below_mono(n: int, d: int, t: int, s: int, j: int)
    requires
        n >= 0,
        -64 <= t <= s,
        below(n, d, s, j),
    ensures
        below(n, d, t, j),
{
    if t < s {
        lemma_pow2_strictly_increases((t + 64) as nat, (s + 64) as nat);
    }
    assert(n * p2(t + 64) <= n * p2(s + 64)) by (nonlinear_arith)
        requires n >= 0, p2(t + 64) <= p2(s + 64);
}

/// There is one scaling that gives a quotient 24 significant bits.
proof fn lemma_binade_unique(n: int, d: int, s1: int, s2: int)
    requires
        n >= 0,
        in_binade(n, d, s1),
        in_binade(n, d, s2),
    ensures
        s1 == s2,
{
    if s1 < s2 {
        lemma_below_mono(n, d, s1 + 1, s2, 24);
        lemma_below_double(n, d, s1);
    } else if s2 < s1 {
        lemma_below_mono(n, d, s2 + 1, s1, 24);
        lemma_below_double(n, d, s2);
    }
}

/// Whether `n * 2^s < d * 2^24`.
fn below_24(n: u128, d: u128, s: i64) -> (r: bool)
    requires
        0 < n < 0x2_0000_0000_0000,
        0 < d < 0x200_0000,
        -64 <= s <= 49,
    ensures
        r == below(n as int, d as int, s as int, 24),
{
    proof {
        lemma_below_forms(n as int, d as int, s as int, 24);
        lemma2_to64();
        lemma2_to64_rest();
    }
    if s >= 0 {
        let p = pow2_i128(s as u32) as u128;
        proof {
            if s < 49 {
                lemma_pow2_strictly_increases(s as nat, 49);
            }
            assert(pow2(49) == 0x2_0000_0000_0000);
            assert(n * p < 0x4_0000_0000_0000_0000_0000_0000) by (nonlinear_arith)
                requires n < 0x2_0000_0000_0000, p <= 0x2_0000_0000_0000;
        }
        n * p < d * 0x100_0000
    } else {
        let p = pow2_i128((24 - s) as u32) as u128;
        proof {
            if 24 - s < 88 {
                lemma_pow2_strictly_increases((24 - s) as nat, 88);
            }
            assert(pow2(88) == 0x100_0000_0000_0000_0000_0000) by {
                lemma_pow2_adds(64, 24);
            }
            assert(d * p < 0x2_0000_0000_0000_0000_0000_0000_0000) by (nonlinear_arith)
                requires d < 0x200_0000, p <= 0x100_0000_0000_0000_0000_0000;
        }
        n < d * p
    }
}

/// `n * 2^t / d` rounded to nearest, ties to even.
fn round_scaled_exec(n: u128, d: u128, t: i64) -> (r: u128)
    requires
        n < 0x2_0000_0000_0000,
        0 < d < 0x200_0000,
        -0x1_0000 <= t <= 48,
    ensures
        r == round_scaled(n as int, d as int, t as int),
        t < -60 ==> r == 0,
{
    proof {
        lemma2_to64();
        lemma2_to64_rest();
    }
    if t >= 0 {
        let p = pow2_i128(t as u32) as u128;
        proof {
            if t < 48 {
                lemma_pow2_strictly_increases(t as nat, 48);
            }
            lemma_pow2_pos(t as nat);
            assert(n * p < 0x2_0000_0000_0000 * 0x1_0000_0000_0000) by (nonlinear_arith)
                requires n < 0x2_0000_0000_0000, p <= 0x1_0000_0000_0000;
        }
        round_half_even_u128(n * p, d)
    } else if t < -60 {
        proof {
            let dd = d * p2(-t as int);
            lemma_pow2_strictly_increases(60, (-t) as nat);
            lemma_pow2_adds(32, 28);
            assert(dd >= p2(-t as int)) by (nonlinear_arith)
                requires dd == d * p2(-t as int), d >= 1, p2(-t as int) > 0;
            assert(2 * n < dd);
            lemma_fundamental_div_mod_converse(n as int, dd, 0, n as int);
        }
        0
    } else {
        let p = pow2_i128((-t) as u32) as u128;
        proof {
            if -t < 60 {
                lemma_pow2_strictly_increases((-t) as nat, 60);
            }
            lemma_pow2_adds(32, 28);
            lemma_pow2_pos((-t) as nat);
            assert(0 < d * p < 0x200_0000 * 0x1000_0000_0000_0000) by (nonlinear_arith)
                requires 0 < d < 0x200_0000, 0 < p <= 0x1000_0000_0000_0000;
        }
        round_half_even_u128(n, d * p)
    }
}

/// A rounded quotient whose scaled value stays below `2^j` is at most `2^j`.
proof fn lemma_round_bound(n: int, d: int, t: int, j: int)
    requires
        n >= 0,
        d > 0,
        -64 <= t <= 48,
        0 <= j <= 24,
        below(n, d, t, j),
    ensures
        0 <= round_scaled(n, d, t) <= p2(j),
{
    lemma_below_forms(n, d, t, j);
    lemma2_to64();
    lemma_pow2_pos(j as nat);
    let bound = p2(j);
    let (nn, dd) = if t >= 0 {
        (n * p2(t), d)
    } else {
        (n, d * p2(-t))
    };
    lemma_pow2_pos(if t >= 0 { t as nat } else { (-t) as nat });
    if t >= 0 {
        assert(nn >= 0) by (nonlinear_arith)
            requires nn == n * p2(t), n >= 0, p2(t) > 0;
        assert(nn < dd * bound);
    } else {
        lemma_pow2_adds(j as nat, (-t) as nat);
        assert(dd > 0) by (nonlinear_arith)
            requires dd == d * p2(-t), d > 0, p2(-t) > 0;
        assert(d * p2(j - t) == dd * bound) by (nonlinear_arith)
            requires dd == d * p2(-t), p2(j - t) == p2(j) * p2(-t), p2(j) == bound;
    }
    lemma_fundamental_div_mod(nn, dd);
    assert(nn / dd < bound) by (nonlinear_arith)
        requires nn == dd * (nn / dd) + nn % dd, 0 <= nn % dd, nn < dd * bound, dd > 0;
    assert(nn / dd >= 0) by (nonlinear_arith)
        requires nn == dd * (nn / dd) + nn % dd, nn % dd < dd, nn >= 0, dd > 0;
}

/// The value `(-1)^negative * n / d * 2^k` rounded to single precision (see
/// `rounded`).
pub fn round_to_binary32(negative: bool, n: u128, d: u128, k: i64) -> (r: Binary32)
    requires
        n < 0x2_0000_0000_0000,
        0 < d < 0x200_0000,
        -400 <= k <= 400,
    ensures
        r == rounded(negative, n as int, d as int, k as int),
        r.wf(),
{
    if n == 0 {
        return Binary32::Finite { negative, mantissa: 0, exponent: -149 };
    }
    proof {
        lemma2_to64();
        lemma2_to64_rest();
        lemma_below_forms(n as int, d as int, 49, 24);
        lemma_pow2_adds(24, 25);
        assert(d * p2(24) < p2(49)) by (nonlinear_arith)
            requires d < 0x200_0000, p2(24) == 0x100_0000, p2(49) == p2(24) * p2(25), p2(25) == 0x200_0000;
        assert(n * p2(49) >= p2(49)) by (nonlinear_arith)
            requires n >= 1, p2(49) > 0;
    }
    let mut s: i64 = 48;
    while !below_24(n, d, s)
        invariant
            0 < n < 0x2_0000_0000_0000,
            0 < d < 0x200_0000,
            -49 <= s <= 48,
            !below(n as int, d as int, s + 1, 24),
        decreases s + 49,
    {
        proof {
            if s == -49 {
                lemma_below_forms(n as int, d as int, -49, 24);
                lemma2_to64();
                lemma2_to64_rest();
                lemma_pow2_adds(49, 24);
                assert(pow2(73) >= pow2(49));
                assert(d * p2(73) >= p2(49)) by (nonlinear_arith)
                    requires d >= 1, p2(73) >= p2(49);
                assert(false);
            }
        }
        s = s - 1;
    }
    proof {
        lemma_below_double(n as int, d as int, s as int);
        assert(in_binade(n as int, d as int, s as int));
        let c = binade(n as int, d as int);
        lemma_binade_unique(n as int, d as int, s as int, c);
    }
    let (t, e) = if k - s >= -149 {
        (s, k - s)
    } else {
        (k + 149, -149i64)
    };
    let m = round_scaled_exec(n, d, t);
    proof {
        if t < -60 {
            assert(m == 0);
        } else {
            lemma_below_mono(n as int, d as int, t as int, s as int, 24);
            lemma_round_bound(n as int, d as int, t as int, 24);
        }
    }
    let (m2, e2) = if m == 0x100_0000 {
        (0x80_0000u128, e + 1)
    } else {
        (m, e)
    };
    if e2 > 104 {
        Binary32::Infinite { negative }
    } else {
        Binary32::Finite { negative, mantissa: m2 as u32, exponent: e2 as i32 }
    }
}

/// The value of the single precision float whose IEEE 754 bits are `bits`.
pub open spec fn bits_value(bits: u32) -> Binary32 {
    let negative = bits >= 0x8000_0000u32;
    let biased = (bits / 0x80_0000u32) % 0x100;
    let fraction = bits % 0x80_0000u32;
    if biased == 0xff {
        if fraction == 0 {
            Binary32::Infinite { negative }
        } else {
            Binary32::NaN
        }
    } else if biased == 0 {
        Binary32::Finite { negative, mantissa: fraction, exponent: -149i32 }
    } else {
        Binary32::Finite {
            negative,
            mantissa: (fraction + 0x80_0000) as u32,
            exponent: (biased - 150) as i32,
        }
    }
}

/// The product `a * b` in single precision.
pub open spec fn product(a: Binary32, b: Binary32) -> Binary32 {
    match (a, b) {
        (Binary32::Finite { negative: na, mantissa: ma, exponent: ea }, Binary32::Finite {
            negative: nb,
            mantissa: mb,
            exponent: eb,
        }) => rounded(na != nb, ma * mb, 1, ea + eb),
        (Binary32::Infinite { negative: na }, Binary32::Infinite { negative: nb }) => Binary32::Infinite {
            negative: na != nb,
        },
        (Binary32::Infinite { negative: na }, Binary32::Finite { negative: nb, mantissa, .. }) | (
            Binary32::Finite { negative: nb, mantissa, .. },
            Binary32::Infinite { negative: na },
        ) => if mantissa == 0 {
            Binary32::NaN
        } else {
            Binary32::Infinite { negative: na != nb }
        },
        _ => Binary32::NaN,
    }
}

/// The reciprocal `1 / c` in single precision.
pub open spec fn reciprocal(c: Binary32) -> Binary32 {
    match c {
        Binary32::Finite { negative, mantissa, exponent } => if mantissa == 0 {
            Binary32::Infinite { negative }
        } else {
            rounded(negative, 1, mantissa as int, -exponent)
        },
        Binary32::Infinite { negative } => Binary32::Finite { negative, mantissa: 0, exponent: -149i32 },
        Binary32::NaN => Binary32::NaN,
    }
}

/// `v` with its sign flipped, as a product by `-1` gives it.
pub open spec fn negated(v: Binary32) -> Binary32 {
    match v {
        Binary32::Finite { negative, mantissa, exponent } => Binary32::Finite {
            negative: !negative,
            mantissa,
            exponent,
        },
        Binary32::Infinite { negative } => Binary32::Infinite { negative: !negative },
        Binary32::NaN => Binary32::NaN,
    }
}

/// `v` rounded to an integer, to the nearest, ties to even; infinities and
/// NaN unchanged.
pub open spec fn round_ties_even(v: Binary32) -> Binary32 {
    match v {
        Binary32::Finite { negative, mantissa, exponent } => if exponent >= 0 {
            v
        } else {
            Binary32::Finite {
                negative,
                mantissa: round_scaled(mantissa as int, 1, exponent as int) as u32,
                exponent: 0,
            }
        },
        _ => v,
    }
}

/// `v` converted to an integer between `lo` and `hi` as a saturating cast
/// does: truncated toward zero and clamped, an infinity to the bound of its
/// sign, NaN to zero.
pub open spec fn saturating_int(v: Binary32, lo: int, hi: int) -> int {
    match v {
        Binary32::Finite { negative, mantissa, exponent } => {
            let magnitude = if exponent >= 0 {
                mantissa * p2(exponent as int)
            } else {
                (mantissa as int) / p2(-exponent as int)
            };
            let value = if negative {
                -magnitude
            } else {
                magnitude
            };
            if value < lo {
                lo
            } else if value > hi {
                hi
            } else {
                value
            }
        },
        Binary32::Infinite { negative } => if negative {
            lo
        } else {
            hi
        },
        Binary32::NaN => 0,
    }
}

/// Single precision multiplication commutes.
pub proof fn lemma_product_commutes(a: Binary32, b: Binary32)
    ensures
        product(a, b) == product(b, a),
{
    match (a, b) {
        (Binary32::Finite { mantissa: ma, .. }, Binary32::Finite { mantissa: mb, .. }) => {
            assert(ma * mb == mb * ma) by (nonlinear_arith);
        },
        _ => {},
    }
}

/// The single precision one.
pub open spec fn one_binary32() -> Binary32 {
    Binary32::Finite { negative: false, mantissa: 0x80_0000, exponent: -23i32 }
}

/// The single precision one half.
pub open spec fn half_binary32() -> Binary32 {
    Binary32::Finite { negative: false, mantissa: 0x80_0000, exponent: -24i32 }
}

/// A positive integer below `2^24` has a scaling `s` in `[0, 23]` that gives
/// it 24 significant bits, and that is its binade.
proof fn lemma_binade_of_small(n: int) -> (s: int)
    requires
        0 < n < 0x100_0000,
    ensures
        0 <= s <= 23,
        0x80_0000 <= n * p2(s) < 0x100_0000,
        binade(n, 1) == s,
    decreases 0x100_0000 - n,
{
    lemma2_to64();
    let s: int = if n >= 0x80_0000 {
        assert(p2(0) == 1);
        assert(n * p2(0) == n);
        0
    } else {
        let s1 = lemma_binade_of_small(2 * n);
        lemma_pow2_unfold((s1 + 1) as nat);
        assert(n * p2(s1 + 1) == (2 * n) * p2(s1)) by (nonlinear_arith)
            requires p2(s1 + 1) == 2 * p2(s1);
        if s1 + 1 > 23 {
            lemma_pow2_strictly_increases(23, (s1 + 1) as nat);
            assert(n * p2(s1 + 1) >= p2(s1 + 1)) by (nonlinear_arith)
                requires n >= 1, p2(s1 + 1) > 0;
        }
        s1 + 1
    };
    lemma_below_forms(n, 1, s, 23);
    lemma_below_forms(n, 1, s, 24);
    assert(in_binade(n, 1, s));
    let b = binade(n, 1);
    assert(in_binade(n, 1, b));
    lemma_binade_unique(n, 1, s, b);
    s
}

/// A positive integer below `2^24` converts to single precision exactly.
proof fn lemma_rounded_small(negative: bool, n: int) -> (s: int)
    requires
        0 < n < 0x100_0000,
    ensures
        0 <= s <= 23,
        0x80_0000 <= n * p2(s) < 0x100_0000,
        rounded(negative, n, 1, 0) == (Binary32::Finite {
            negative,
            mantissa: (n * p2(s)) as u32,
            exponent: -s as i32,
        }),
{
    let s = lemma_binade_of_small(n);
    let m = n * p2(s);
    assert(m / 1 == m && m % 1 == 0);
    assert(round_scaled(n, 1, s) == m);
    s
}

/// A product by `2^-j` (`j` zero or one) of a value with 24 significant bits
/// that stays in the normal range is exact.
proof fn lemma_product_by_pow2(negative: bool, m: int, e: int, j: int)
    requires
        0x80_0000 <= m < 0x100_0000,
        0 <= j <= 1,
        -149 <= e - j,
        e <= 104,
    ensures
        product(
            Binary32::Finite { negative, mantissa: m as u32, exponent: e as i32 },
            Binary32::Finite { negative: false, mantissa: 0x80_0000, exponent: (-23 - j) as i32 },
        ) == (Binary32::Finite { negative, mantissa: m as u32, exponent: (e - j) as i32 }),
{
    lemma2_to64();
    let q = p2(23);
    let n = m * 0x80_0000;
    lemma_pow2_adds(23, 23);
    lemma_pow2_adds(24, 23);
    assert(p2(46) <= n < p2(47)) by (nonlinear_arith)
        requires
            0x80_0000 <= m < 0x100_0000,
            n == m * 0x80_0000,
            p2(46) == 0x80_0000 * 0x80_0000,
            p2(47) == 0x100_0000 * 0x80_0000,
    ;
    lemma_below_forms(n, 1, -23, 23);
    lemma_below_forms(n, 1, -23, 24);
    assert(in_binade(n, 1, -23));
    let b = binade(n, 1);
    assert(in_binade(n, 1, b));
    lemma_binade_unique(n, 1, -23, b);
    lemma_fundamental_div_mod_converse(n, 1 * q, m, 0);
    assert(round_scaled(n, 1, -23) == m);
    assert(m * 0x80_0000 == (m as u32) * (0x80_0000u32 as int));
}

/// `a * c / (d * c)` rounds as `a / d` does.
proof fn lemma_round_half_even_scaled(a: int, d: int, c: int)
    requires
        d > 0,
        c > 0,
    ensures
        round_half_even(a * c, d * c) == round_half_even(a, d),
{
    let q = a / d;
    let r = a % d;
    lemma_fundamental_div_mod(a, d);
    assert(a * c == (d * c) * q + r * c && 0 <= r * c < d * c) by (nonlinear_arith)
        requires a == d * q + r, 0 <= r < d, c > 0;
    lemma_fundamental_div_mod_converse(a * c, d * c, q, r * c);
    assert((2 * (r * c) > d * c) == (2 * r > d)) by (nonlinear_arith)
        requires c > 0;
    assert((2 * (r * c) < d * c) == (2 * r < d)) by (nonlinear_arith)
        requires c > 0;
}

/// Rescaling by one in single precision keeps an integer below `2^24` in
/// magnitude: `|x|` converts exactly, its product by one is itself, and
/// rounding it to an integer gives it back.
pub proof fn lemma_round_product_by_one(x: int)
    requires
        0 < x < 0x100_0000,
    ensures
        round_ties_even(product(rounded(false, x, 1, 0), one_binary32())) == (Binary32::Finite {
            negative: false,
            mantissa: x as u32,
            exponent: 0,
        }),
{
    let s = lemma_rounded_small(false, x);
    let m = x * p2(s);
    lemma_product_by_pow2(false, m, -s, 0);
    if s > 0 {
        lemma_pow2_pos(s as nat);
        lemma_fundamental_div_mod_converse(m, 1 * p2(s), x, 0);
        assert(round_scaled(m, 1, -s) == x);
    } else {
        lemma2_to64();
        assert(p2(s) == 1);
        assert(m == x) by (nonlinear_arith)
            requires m == x * p2(s), p2(s) == 1;
    }
}

/// Rescaling by one half in single precision, then rounding to an integer,
/// gives `x / 2` rounded to nearest, ties to even, for an integer `x` below
/// `2^24`.
pub proof fn lemma_round_product_by_half(x: int)
    requires
        0 < x < 0x100_0000,
    ensures
        round_ties_even(product(rounded(false, x, 1, 0), half_binary32())) == (Binary32::Finite {
            negative: false,
            mantissa: round_half_even(x, 2) as u32,
            exponent: 0,
        }),
{
    let s = lemma_rounded_small(false, x);
    let m = x * p2(s);
    lemma_product_by_pow2(false, m, -s, 1);
    lemma_pow2_pos(s as nat);
    lemma_pow2_unfold((s + 1) as nat);
    assert(1 * p2(s + 1) == 2 * p2(s));
    lemma_round_half_even_scaled(x, 2, p2(s));
    assert(round_scaled(m, 1, -(s + 1)) == round_half_even(x, 2));
    lemma_fundamental_div_mod(x, 2);
    assert(0 <= round_half_even(x, 2) <= x);
}

impl Binary32 {
    /// The value given by the IEEE 754 bits of an `f32`.
    pub fn from_bits(bits: u32) -> (r: Binary32)
        ensures
            r == bits_value(bits),
            r.wf(),
    {
        let negative = bits >= 0x8000_0000u32;
        let biased = (bits / 0x80_0000u32) % 0x100;
        let fraction = bits % 0x80_0000u32;
        if biased == 0xff {
            if fraction == 0 {
                Binary32::Infinite { negative }
            } else {
                Binary32::NaN
            }
        } else if biased == 0 {
            Binary32::Finite { negative, mantissa: fraction, exponent: -149 }
        } else {
            Binary32::Finite { negative, mantissa: fraction + 0x80_0000, exponent: biased as i32 - 150 }
        }
    }

    /// The product `self * other` in single precision.
    pub fn mul(&self, other: &Binary32) -> (r: Binary32)
        requires
            self.wf(),
            other.wf(),
        ensures
            r == product(*self, *other),
            r.wf(),
    {
        match (*self, *other) {
            (Binary32::Finite { negative: na, mantissa: ma, exponent: ea }, Binary32::Finite {
                negative: nb,
                mantissa: mb,
                exponent: eb,
            }) => {
                proof {
                    assert((ma as int) * (mb as int) < 0x1_0000_0000_0000) by (nonlinear_arith)
                        requires ma < 0x100_0000, mb < 0x100_0000;
                }
                round_to_binary32(na != nb, ma as u128 * mb as u128, 1, ea as i64 + eb as i64)
            },
            (Binary32::Infinite { negative: na }, Binary32::Infinite { negative: nb }) => Binary32::Infinite {
                negative: na != nb,
            },
            (Binary32::Infinite { negative: na }, Binary32::Finite { negative: nb, mantissa, .. }) => {
                if mantissa == 0 {
                    Binary32::NaN
                } else {
                    Binary32::Infinite { negative: na != nb }
                }
            },
            (Binary32::Finite { negative: nb, mantissa, .. }, Binary32::Infinite { negative: na }) => {
                if mantissa == 0 {
                    Binary32::NaN
                } else {
                    Binary32::Infinite { negative: na != nb }
                }
            },
            _ => Binary32::NaN,
        }
    }

    /// The reciprocal `1 / self` in single precision.
    pub fn recip(&self) -> (r: Binary32)
        requires
            self.wf(),
        ensures
            r == reciprocal(*self),
            r.wf(),
    {
        match *self {
            Binary32::Finite { negative, mantissa, exponent } => {
                if mantissa == 0 {
                    Binary32::Infinite { negative }
                } else {
                    round_to_binary32(negative, 1, mantissa as u128, -(exponent as i64))
                }
            },
            Binary32::Infinite { negative } => Binary32::Finite { negative, mantissa: 0, exponent: -149 },
            Binary32::NaN => Binary32::NaN,
        }
    }

    /// `self` with its sign flipped.
    pub fn neg(&self) -> (r: Binary32)
        requires
            self.wf(),
        ensures
            r == negated(*self),
            r.wf(),
    {
        match *self {
            Binary32::Finite { negative, mantissa, exponent } => Binary32::Finite {
                negative: !negative,
                mantissa,
                exponent,
            },
            Binary32::Infinite { negative } => Binary32::Infinite { negative: !negative },
            Binary32::NaN => Binary32::NaN,
        }
    }

    /// `self` rounded to an integer, ties to even.
    pub fn round_ties_even(&self) -> (r: Binary32)
        requires
            self.wf(),
        ensures
            r == round_ties_even(*self),
            r.wf(),
    {
        match *self {
            Binary32::Finite { negative, mantissa, exponent } => {
                if exponent >= 0 {
                    *self
                } else {
                    let q = round_scaled_exec(mantissa as u128, 1, exponent as i64);
                    proof {
                        if exponent >= -60 {
                            lemma2_to64();
                            lemma_below_forms(mantissa as int, 1, exponent as int, 23);
                            lemma_pow2_adds(23, (-exponent) as nat);
                            lemma_pow2_pos((-exponent - 1) as nat);
                            lemma_pow2_unfold((-exponent) as nat);
                            assert(p2(23 - exponent) >= 0x100_0000) by (nonlinear_arith)
                                requires p2(23 - exponent) == p2(23) * p2(-exponent as int),
                                    p2(23) == 0x80_0000, p2(-exponent as int) >= 2;
                            lemma_round_bound(mantissa as int, 1, exponent as int, 23);
                        }
                    }
                    Binary32::Finite { negative, mantissa: q as u32, exponent: 0 }
                }
            },
            _ => *self,
        }
    }

    /// `self` converted to an integer between `lo` and `hi` (see
    /// `saturating_int`).
    pub fn to_int_saturating(&self, lo: i64, hi: i64) -> (r: i64)
        requires
            self.wf(),
            -0x8000_0000 <= lo <= 0 <= hi < 0x8000_0000,
        ensures
            r == saturating_int(*self, lo as int, hi as int),
    {
        match *self {
            Binary32::Finite { negative, mantissa, exponent } => {
                let ghost exact = if exponent >= 0 {
                    mantissa * p2(exponent as int)
                } else {
                    (mantissa as int) / p2(-exponent as int)
                };
                let magnitude: i128 = if exponent >= 0 {
                    if exponent >= 32 {
                        proof {
                            lemma2_to64();
                            if exponent > 32 {
                                lemma_pow2_strictly_increases(32, exponent as nat);
                            }
                            assert(mantissa == 0 ==> mantissa * p2(exponent as int) == 0) by (nonlinear_arith);
                            assert(mantissa > 0 ==> mantissa * p2(exponent as int) >= 0x1_0000_0000) by (nonlinear_arith)
                                requires p2(exponent as int) >= 0x1_0000_0000;
                        }
                        if mantissa == 0 {
                            0
                        } else {
                            0x1_0000_0000
                        }
                    } else {
                        let p = pow2_i128(exponent as u32);
                        proof {
                            lemma2_to64();
                            if exponent < 32 {
                                lemma_pow2_strictly_increases(exponent as nat, 32);
                            }
                            assert((mantissa as int) * p < 0x100_0000 * 0x1_0000_0000) by (nonlinear_arith)
                                requires mantissa < 0x100_0000, 0 < p <= 0x1_0000_0000;
                            assert((mantissa as int) * p >= 0) by (nonlinear_arith)
                                requires 0 < p;
                        }
                        mantissa as i128 * p
                    }
                } else if exponent < -30 {
                    proof {
                        lemma2_to64();
                        lemma_pow2_strictly_increases(30, (-exponent) as nat);
                        vstd::arithmetic::div_mod::lemma_basic_div(mantissa as int, p2(-exponent as int));
                    }
                    0
                } else {
                    let p = pow2_i128((-exponent) as u32);
                    proof {
                        lemma_pow2_pos((-exponent) as nat);
                        assert((mantissa as int) / (p as int) <= mantissa) by (nonlinear_arith)
                            requires p >= 1, mantissa >= 0;
                        vstd::arithmetic::div_mod::lemma_div_pos_is_pos(mantissa as int, p as int);
                    }
                    mantissa as i128 / p
                };
                proof {
                    assert(magnitude == exact || (magnitude == 0x1_0000_0000 && exact >= 0x1_0000_0000));
                }
                let value: i128 = if negative { -magnitude } else { magnitude };
                if value < lo as i128 {
                    lo
                } else if value > hi as i128 {
                    hi
                } else {
                    value as i64
                }
            },
            Binary32::Infinite { negative } => if negative {
                lo
            } else {
                hi
            },
            Binary32::NaN => 0,
        }
    }
}

} // verus!
