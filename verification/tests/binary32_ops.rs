use tract_math::binary32::Binary32;
use tract_math::quant::scale_by;

/// A small deterministic generator of bit patterns.
struct Bits(u32);

impl Bits {
    fn next(&mut self) -> u32 {
        let mut x = self.0;
        x ^= x << 13;
        x ^= x >> 17;
        x ^= x << 5;
        self.0 = x;
        x
    }

    /// Any bit pattern, or one of a float of moderate magnitude.
    fn float(&mut self) -> f32 {
        let bits = self.next();
        if bits % 3 == 0 {
            f32::from_bits(bits)
        } else {
            let biased = 100 + (bits >> 8) % 56;
            f32::from_bits((bits & 0x807f_ffff) | (biased << 23))
        }
    }
}

fn exact(v: f32) -> Binary32 {
    Binary32::from_bits(v.to_bits())
}

#[test]
fn products_match_f32_multiplication() {
    let mut g = Bits(0x1234_5678);
    for _ in 0..100_000 {
        let (a, b) = (g.float(), g.float());
        assert_eq!(exact(a).mul(&exact(b)), exact(a * b), "{:e} * {:e}", a, b);
    }
    assert_eq!(exact(f32::MAX).mul(&exact(2.0)), Binary32::Infinite { negative: false });
    assert_eq!(exact(f32::from_bits(1)).mul(&exact(0.5)), exact(0.0));
    assert_eq!(exact(0.0).mul(&exact(f32::INFINITY)), Binary32::NaN);
}

#[test]
fn reciprocals_match_f32_division() {
    let mut g = Bits(0x0bad_cafe);
    for _ in 0..100_000 {
        let c = g.float();
        assert_eq!(exact(c).recip(), exact(1.0 / c), "1 / {:e}", c);
    }
    assert_eq!(exact(-0.0).recip(), Binary32::Infinite { negative: true });
}

#[test]
fn rounding_to_integers_matches_f32() {
    let mut g = Bits(0x5eed_0001);
    for _ in 0..100_000 {
        let v = g.float() * 0.001;
        let r = exact(v).round_ties_even().to_int_saturating(i32::MIN as i64, i32::MAX as i64);
        assert_eq!(r, v.round_ties_even() as i32 as i64, "{:e}", v);
    }
    assert_eq!(exact(2.5).round_ties_even().to_int_saturating(-100, 100), 2);
    assert_eq!(exact(-3.5).round_ties_even().to_int_saturating(-100, 100), -4);
    assert_eq!(exact(f32::NAN).to_int_saturating(-100, 100), 0);
}

/// The rescaling of a product written with `f32` arithmetic.
fn f32_scale_by(x: i32, m: f32) -> i32 {
    let b = x as f32;
    ((b.abs() * m).round_ties_even() * b.signum()) as i32
}

#[test]
fn rescaling_matches_f32_arithmetic() {
    let mut g = Bits(0x7777_1111);
    for _ in 0..100_000 {
        let x = g.next() as i32 >> (g.next() % 32);
        let m = g.float();
        assert_eq!(scale_by(x, &exact(m), i32::MIN, i32::MAX), f32_scale_by(x, m), "{} * {:e}", x, m);
    }
    assert_eq!(scale_by(5, &exact(0.1), i32::MIN, i32::MAX), 0);
    assert_eq!(scale_by(-3, &exact(0.5), i32::MIN, i32::MAX), -2);
    assert_eq!(scale_by(i32::MIN, &exact(4.0), i32::MIN, i32::MAX), i32::MIN);
}
