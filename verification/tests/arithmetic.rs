use adam::scalar::Scalar;

fn scalar(v: f64) -> Scalar {
    Scalar::from_bits(v.to_bits())
}

fn float(s: Scalar) -> f64 {
    f64::from_bits(s.to_bits())
}

/// Equal as results of an operation: the same bits, or both not a number.
fn agree(ours: Scalar, theirs: f64) -> bool {
    let ours = float(ours);
    (ours.is_nan() && theirs.is_nan()) || ours.to_bits() == theirs.to_bits()
}

const SAMPLES: [f64; 48] = [
    0.0, -0.0, 0.5, -0.5, 1.0, -1.0, 1.5, 3.9, -3.9, 10.0, 50.0, 100.0, 150.0, 200.0, 0.1, 0.2,
    0.3, -0.1, 1.0e-5, 1.0e16, 9_007_199_254_740_992.0, 9_007_199_254_740_993.0,
    9_007_199_254_740_991.0, 4_503_599_627_370_496.0, 4_503_599_627_370_495.5, 1.0e300, -1.0e300,
    1.0e-300, 5.0e-324, -5.0e-324, 1.0e-323, 1.5e-323, 2.2250738585072014e-308,
    2.2250738585072009e-308, 4.4501477170144028e-308, f64::MAX, f64::MIN, f64::EPSILON,
    1.0 + f64::EPSILON, 1.0 - f64::EPSILON / 2.0, 8.98846567431158e307, 1.7976931348623155e308,
    f64::INFINITY, f64::NEG_INFINITY, f64::NAN, 123_456.789, -987.654_321e-7, 2.0,
];

struct Lcg(u64);

impl Lcg {
    fn step(&mut self) -> u64 {
        self.0 = self.0.wrapping_mul(6_364_136_223_846_793_005);
        self.0 = self.0.wrapping_add(1_442_695_040_888_963_407);
        self.0 >> 32
    }

    fn next(&mut self) -> u64 {
        let hi = self.step();
        (hi << 32) | self.step()
    }
}

#[test]
fn plus_agrees_with_the_machine_on_samples() {
    for a in SAMPLES {
        for b in SAMPLES {
            assert!(agree(scalar(a).plus(scalar(b)), a + b), "{a:e} + {b:e}");
        }
    }
}

#[test]
fn minus_agrees_with_the_machine_on_samples() {
    for a in SAMPLES {
        for b in SAMPLES {
            assert!(agree(scalar(a).minus(scalar(b)), a - b), "{a:e} - {b:e}");
        }
    }
}

#[test]
fn halve_agrees_with_the_machine_on_samples() {
    for a in SAMPLES {
        assert!(agree(scalar(a).halve(), a / 2.0), "{a:e} / 2");
    }
}

#[test]
fn negate_agrees_with_the_machine_on_samples() {
    for a in SAMPLES {
        assert!(agree(scalar(a).negate(), -a), "-{a:e}");
    }
}

#[test]
fn plus_and_minus_agree_with_the_machine_on_any_bits() {
    let mut gen = Lcg(0x9e37_79b9_7f4a_7c15);
    for _ in 0..200_000 {
        let a = f64::from_bits(gen.next());
        let b = f64::from_bits(gen.next());
        assert!(agree(scalar(a).plus(scalar(b)), a + b), "{a:e} + {b:e}");
        assert!(agree(scalar(a).minus(scalar(b)), a - b), "{a:e} - {b:e}");
        assert!(agree(scalar(a).halve(), a / 2.0), "{a:e} / 2");
    }
}

#[test]
fn plus_and_minus_agree_with_the_machine_on_near_operands() {
    // Exponents at most 70 apart, so that the operands meet in the sum.
    let mut gen = Lcg(0x0123_4567_89ab_cdef);
    for _ in 0..200_000 {
        let a_bits = gen.next();
        let a = f64::from_bits(a_bits);
        let exponent = (a_bits >> 52) & 0x7ff;
        let shift = gen.next() % 141;
        let other = (exponent + shift).saturating_sub(70).min(0x7fe);
        let b_bits = (gen.next() & 0x800f_ffff_ffff_ffff) | (other << 52);
        let b = f64::from_bits(b_bits);
        assert!(agree(scalar(a).plus(scalar(b)), a + b), "{a:e} + {b:e}");
        assert!(agree(scalar(a).minus(scalar(b)), a - b), "{a:e} - {b:e}");
    }
}

#[test]
fn plus_and_halve_agree_with_the_machine_on_small_numbers() {
    let mut gen = Lcg(0xfeed_f00d_dead_beef);
    for _ in 0..100_000 {
        let a = f64::from_bits(gen.next() & 0x803f_ffff_ffff_ffff);
        let b = f64::from_bits(gen.next() & 0x803f_ffff_ffff_ffff);
        assert!(agree(scalar(a).plus(scalar(b)), a + b), "{a:e} + {b:e}");
        assert!(agree(scalar(a).minus(scalar(b)), a - b), "{a:e} - {b:e}");
        assert!(agree(scalar(a).halve(), a / 2.0), "{a:e} / 2");
    }
}

#[test]
fn sum_of_tenth_and_fifth_is_rounded() {
    assert_eq!(float(scalar(0.1).plus(scalar(0.2))), 0.300_000_000_000_000_04);
    assert_eq!(float(scalar(150.0).plus(scalar(100.0).halve())), 200.0);
    assert_eq!(float(scalar(200.0).minus(scalar(100.0).halve())), 150.0);
}

#[test]
fn sum_beyond_the_largest_double_is_infinite() {
    assert_eq!(float(scalar(f64::MAX).plus(scalar(f64::MAX))), f64::INFINITY);
    assert_eq!(float(scalar(f64::MIN).minus(scalar(f64::MAX))), f64::NEG_INFINITY);
}

#[test]
fn infinities_of_opposite_sign_have_no_sum() {
    assert!(float(scalar(f64::INFINITY).plus(scalar(f64::NEG_INFINITY))).is_nan());
    assert!(float(scalar(f64::INFINITY).minus(scalar(f64::INFINITY))).is_nan());
}

#[test]
fn zero_sum_is_negative_only_of_two_negative_zeros() {
    assert_eq!(scalar(-0.0).plus(scalar(-0.0)).to_bits(), (-0.0f64).to_bits());
    assert_eq!(scalar(0.0).plus(scalar(-0.0)).to_bits(), 0);
    assert_eq!(scalar(5.0).minus(scalar(5.0)).to_bits(), 0);
    assert_eq!(scalar(-5.0).plus(scalar(5.0)).to_bits(), 0);
}

#[test]
fn half_of_the_smallest_double_goes_to_even() {
    assert_eq!(scalar(5.0e-324).halve().to_bits(), 0);
    assert_eq!(scalar(1.5e-323).halve().to_bits(), 2);
    assert_eq!(scalar(-5.0e-324).halve().to_bits(), (-0.0f64).to_bits());
}
