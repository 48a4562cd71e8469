use fsrs::double::Double;
use fsrs::single::Single;

fn single(x: f32) -> Single {
    Single::from_bits(x.to_bits())
}

fn double(x: f64) -> Double {
    Double::from_bits(x.to_bits())
}

const SAMPLES: [f32; 15] = [
    f32::NEG_INFINITY,
    f32::MIN,
    -2.5,
    -1.0,
    -f32::MIN_POSITIVE,
    -0.0,
    0.0,
    1e-45,
    f32::MIN_POSITIVE,
    0.3,
    1.0,
    365.0,
    f32::MAX,
    f32::INFINITY,
    f32::NAN,
];

#[test]
fn single_compares_as_floats_do() {
    for &a in &SAMPLES {
        for &b in &SAMPLES {
            assert_eq!(single(a).lt(single(b)), a < b, "{a} < {b}");
            assert_eq!(single(a).le(single(b)), a <= b, "{a} <= {b}");
            assert_eq!(single(a).eq_number(single(b)), a == b, "{a} == {b}");
            assert_eq!(single(a) == single(b), a == b, "{a} == {b}");
        }
        assert_eq!(single(a).is_nan(), a.is_nan());
        assert_eq!(single(a).is_finite(), a.is_finite());
        assert_eq!(single(a).is_infinite(), a.is_infinite());
    }
}

#[test]
fn single_chooses_as_floats_do() {
    for &a in &SAMPLES {
        for &b in &SAMPLES {
            if a == b {
                continue;
            }
            let larger = f32::from_bits(single(a).max(single(b)).to_bits());
            let smaller = f32::from_bits(single(a).min(single(b)).to_bits());
            if a.is_nan() && b.is_nan() {
                assert!(larger.is_nan() && smaller.is_nan());
            } else {
                assert_eq!(larger, a.max(b));
                assert_eq!(smaller, a.min(b));
            }
        }
    }
}

#[test]
fn single_clamps_as_floats_do() {
    for &a in &SAMPLES {
        let held = f32::from_bits(single(a).clamp(single(0.01), single(0.95)).to_bits());
        assert_eq!(held, a.max(0.01).min(0.95));
    }
}

#[test]
fn single_rounds_down() {
    for x in [0.0f32, 0.25, 0.999, 1.0, 1.5, 2.0, 6.99, 99.5, 8388607.5, 8388608.0, 1e30] {
        assert_eq!(single(x).floor(), single(x.floor()), "{x}");
    }
}

#[test]
fn single_knows_zero_and_one() {
    assert_eq!(Single::zero(), single(0.0));
    assert_eq!(Single::one(), single(1.0));
    assert_eq!(single(-0.0), Single::zero());
    assert_ne!(single(-0.0).to_bits(), Single::zero().to_bits());
    assert!(single(-0.0).eq_number(Single::zero()));
}

#[test]
fn double_compares_as_floats_do() {
    for &a in &SAMPLES {
        for &b in &SAMPLES {
            let (a, b) = (a as f64 * 1.000_000_001, b as f64);
            assert_eq!(double(a).lt(double(b)), a < b, "{a} < {b}");
            assert_eq!(double(a).le(double(b)), a <= b, "{a} <= {b}");
        }
        assert_eq!(double(a as f64).is_finite(), a.is_finite());
    }
}
