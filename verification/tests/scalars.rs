use flappy_bird::scalar::{Double, Single};

fn single(v: f32) -> Single {
    Single { bits: v.to_bits() }
}

fn double(v: f64) -> Double {
    Double { bits: v.to_bits() }
}

const SINGLES: [f32; 17] = [
    f32::NEG_INFINITY,
    f32::MIN,
    -300.0,
    -1.5,
    -1.0,
    -1e-30,
    -1e-42,
    -0.0,
    0.0,
    1e-42,
    1e-30,
    0.5,
    1.0,
    300.25,
    f32::MAX,
    f32::INFINITY,
    f32::NAN,
];

const DOUBLES: [f64; 14] = [
    f64::NEG_INFINITY,
    f64::MIN,
    -2.0,
    -1e-310,
    -0.0,
    0.0,
    5e-324,
    1e-310,
    0.06,
    1.0,
    1e300,
    f64::MAX,
    f64::INFINITY,
    f64::NAN,
];

#[test]
fn singles_compare_as_numbers_do() {
    for a in SINGLES {
        assert_eq!(single(a).is_nan(), a.is_nan());
        for b in SINGLES {
            assert_eq!(single(a).is_below(&single(b)), a < b, "{} {}", a, b);
        }
    }
    assert!(single(-f32::NAN).is_nan());
}

#[test]
fn doubles_compare_as_numbers_do() {
    for a in DOUBLES {
        assert_eq!(double(a).is_nan(), a.is_nan());
        for b in DOUBLES {
            assert_eq!(double(a).is_below(&double(b)), a < b, "{} {}", a, b);
            assert_eq!(double(a).is_at_most(&double(b)), a <= b, "{} {}", a, b);
        }
    }
    assert!(double(-f64::NAN).is_nan());
}

#[test]
fn zeroes_share_a_rank() {
    assert_eq!(single(-0.0).get_rank(), 0);
    assert_eq!(single(0.0).get_rank(), 0);
    assert_eq!(double(-0.0).get_rank(), 0);
    assert_eq!(single(1.0).get_rank(), 0x3f80_0000);
    assert_eq!(double(-1.0).get_rank(), -0x3ff0_0000_0000_0000);
}

#[test]
fn extremes_of_singles_skip_what_is_no_number() {
    let v = vec![single(f32::NAN), single(2.0), single(-7.5), single(3.25)];
    assert_eq!(Single::lowest(&v), Some(single(-7.5)));
    assert_eq!(Single::highest(&v), Some(single(3.25)));
    assert_eq!(Single::lowest(&vec![single(f32::NAN)]), None);
    assert_eq!(Single::highest(&vec![]), None);
}

#[test]
fn extremes_of_doubles_skip_what_is_no_number() {
    let v = vec![double(1.0), double(f64::NAN), double(f64::INFINITY), double(-2.0)];
    assert_eq!(Double::lowest(&v), Some(double(-2.0)));
    assert_eq!(Double::highest(&v), Some(double(f64::INFINITY)));
    assert_eq!(Double::lowest(&vec![]), None);
    assert_eq!(Double::highest(&vec![double(f64::NAN)]), None);
}

#[test]
fn floors_act_as_the_maximum_does() {
    for a in DOUBLES {
        for floor in [-50.0, 0.05, 1.0] {
            assert_eq!(f64::from_bits(double(a).at_least(double(floor)).bits), a.max(floor));
        }
    }
}
