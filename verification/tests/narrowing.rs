use adam::scalar::Scalar;

fn scalar(v: f64) -> Scalar {
    Scalar::from_bits(v.to_bits())
}

const SAMPLES: [f64; 40] = [
    0.0, -0.0, 0.5, -0.5, 0.999_999_999, 1.0, -1.0, 1.5, -1.5, 3.9, -3.9, 10.0, 100.0, 255.75,
    65_536.0, 1.0e9, -1.0e9, 2_147_483_646.5, 2_147_483_647.0, 2_147_483_647.5, 2_147_483_648.0,
    -2_147_483_648.0, -2_147_483_648.5, -2_147_483_649.0, 4_294_967_294.5, 4_294_967_295.0,
    4_294_967_295.5, 4_294_967_296.0, 1.0e10, -1.0e10, 1.0e300, -1.0e300, 5.0e-324, -5.0e-324,
    2.2250738585072014e-308, f64::MAX, f64::MIN, f64::INFINITY, f64::NEG_INFINITY, f64::NAN,
];

#[test]
fn to_i32_agrees_with_the_machine() {
    for v in SAMPLES {
        assert_eq!(scalar(v).to_i32(), v as i32, "{v}");
    }
}

#[test]
fn to_u32_agrees_with_the_machine() {
    for v in SAMPLES {
        assert_eq!(scalar(v).to_u32(), v as u32, "{v}");
    }
}

#[test]
fn fraction_is_dropped_toward_zero() {
    assert_eq!(scalar(3.9).to_i32(), 3);
    assert_eq!(scalar(-3.9).to_i32(), -3);
    assert_eq!(scalar(3.9).to_u32(), 3);
    assert_eq!(scalar(-3.9).to_u32(), 0);
}

#[test]
fn out_of_range_goes_to_the_bound() {
    assert_eq!(scalar(1.0e10).to_i32(), i32::MAX);
    assert_eq!(scalar(-1.0e10).to_i32(), i32::MIN);
    assert_eq!(scalar(f64::INFINITY).to_u32(), u32::MAX);
    assert_eq!(scalar(f64::NEG_INFINITY).to_i32(), i32::MIN);
    assert_eq!(scalar(f64::NAN).to_i32(), 0);
    assert_eq!(scalar(f64::NAN).to_u32(), 0);
}

#[test]
fn comparisons_agree_with_the_machine() {
    for a in SAMPLES {
        for b in SAMPLES {
            assert_eq!(scalar(a).lt(scalar(b)), a < b, "{a} < {b}");
            assert_eq!(scalar(a).le(scalar(b)), a <= b, "{a} <= {b}");
            assert_eq!(scalar(a).gt(scalar(b)), a > b, "{a} > {b}");
            assert_eq!(scalar(a).ge(scalar(b)), a >= b, "{a} >= {b}");
            assert_eq!(scalar(a) == scalar(b), a == b, "{a} == {b}");
        }
    }
}
