use willow::{Aabb, Scalar, Vec2};

fn num(value: f32) -> Scalar {
    Scalar::from_bits(value.to_bits())
}

fn float(value: Scalar) -> f32 {
    f32::from_bits(value.to_bits())
}

fn vec2(x: f32, y: f32) -> Vec2 {
    Vec2::new(num(x), num(y))
}

fn boxed(min: (f32, f32), max: (f32, f32)) -> Aabb {
    Aabb { min: vec2(min.0, min.1), max: vec2(max.0, max.1) }
}

fn samples() -> Vec<f32> {
    vec![
        0.0,
        -0.0,
        1.0,
        -1.0,
        0.5,
        -0.5,
        1.0e-40,
        -1.0e-40,
        f32::MIN_POSITIVE,
        -f32::MIN_POSITIVE,
        3.25,
        -3.25,
        1.0e30,
        -1.0e30,
        f32::MAX,
        f32::MIN,
        f32::INFINITY,
        f32::NEG_INFINITY,
        f32::NAN,
        -f32::NAN,
        f32::EPSILON,
    ]
}

#[test]
fn less_than_is_the_order_of_the_numbers() {
    for a in samples() {
        for b in samples() {
            assert_eq!(num(a).lt(num(b)), a < b, "{} < {}", a, b);
        }
    }
}

#[test]
fn nan_is_told_from_numbers() {
    for a in samples() {
        assert_eq!(num(a).nan(), a.is_nan(), "{}", a);
    }
}

#[test]
fn min_and_max_are_those_of_the_numbers() {
    for a in samples() {
        for b in samples() {
            let min = float(num(a).min(num(b)));
            let max = float(num(a).max(num(b)));
            if a.is_nan() && b.is_nan() {
                assert!(min.is_nan() && max.is_nan());
            } else {
                assert_eq!(min, a.min(b), "min({}, {})", a, b);
                assert_eq!(max, a.max(b), "max({}, {})", a, b);
            }
            if !a.is_nan() && !b.is_nan() && a != b {
                assert_eq!(min.to_bits(), a.min(b).to_bits());
                assert_eq!(max.to_bits(), a.max(b).to_bits());
            }
        }
    }
}

#[test]
fn of_the_two_zeros_the_negative_is_the_smaller() {
    assert_eq!(num(0.0).min(num(-0.0)), num(-0.0));
    assert_eq!(num(-0.0).min(num(0.0)), num(-0.0));
    assert_eq!(num(0.0).max(num(-0.0)), num(0.0));
    assert_eq!(num(-0.0).max(num(0.0)), num(0.0));
}

#[test]
fn neg_flips_the_sign() {
    for a in samples() {
        assert_eq!(num(a).neg().to_bits(), (-a).to_bits(), "{}", a);
    }
}

#[test]
fn vec2_min_and_max_work_by_axis() {
    let a = vec2(1.0, 5.0);
    let b = vec2(2.0, -5.0);
    assert_eq!(a.min(b), vec2(1.0, -5.0));
    assert_eq!(a.max(b), vec2(2.0, 5.0));
    assert_eq!(Vec2::splat(num(3.0)), vec2(3.0, 3.0));
}

#[test]
fn invalid_box_lies_at_the_infinities() {
    let invalid = Aabb::invalid();
    assert_eq!(invalid, boxed((f32::INFINITY, f32::INFINITY), (f32::NEG_INFINITY, f32::NEG_INFINITY)));
    assert_eq!(Aabb::default(), boxed((0.0, 0.0), (0.0, 0.0)));
}

#[test]
fn union_with_the_invalid_box_changes_nothing() {
    let boxes = [
        boxed((-1.0, -2.0), (3.0, 4.0)),
        boxed((0.0, -0.0), (-0.0, 0.0)),
        boxed((f32::NEG_INFINITY, 0.0), (f32::INFINITY, 1.0)),
        Aabb::invalid(),
    ];
    for a in boxes {
        assert_eq!(Aabb::invalid().union(&a), a);
        assert_eq!(a.union(&Aabb::invalid()), a);
    }
}

#[test]
fn union_does_not_depend_on_the_order() {
    let a = boxed((-1.0, 0.0), (3.0, -0.0));
    let b = boxed((-2.0, -0.0), (1.0, 0.0));
    assert_eq!(a.union(&b), b.union(&a));
    assert_eq!(a.union(&b), boxed((-2.0, -0.0), (3.0, 0.0)));
}

#[test]
fn union_is_the_smallest_box_around_both() {
    let a = boxed((0.0, 0.0), (1.0, 1.0));
    let b = boxed((2.0, -3.0), (5.0, 0.5));
    assert_eq!(a.union(&b), boxed((0.0, -3.0), (5.0, 1.0)));
}

#[test]
fn boxes_that_touch_do_not_intersect() {
    let a = boxed((0.0, 0.0), (1.0, 1.0));
    assert!(a.is_intersecting(&boxed((0.5, 0.5), (2.0, 2.0))));
    assert!(a.is_intersecting(&a));
    assert!(!a.is_intersecting(&boxed((1.0, 0.0), (2.0, 1.0))));
    assert!(!a.is_intersecting(&boxed((0.0, 1.0), (1.0, 2.0))));
    assert!(!a.is_intersecting(&boxed((2.0, 2.0), (3.0, 3.0))));
    assert!(!a.is_intersecting(&Aabb::invalid()));
    assert!(!Aabb::invalid().is_intersecting(&a));
    assert!(!a.is_intersecting(&boxed((f32::NAN, 0.0), (1.0, 1.0))));
}

#[test]
fn intersecting_agrees_with_the_comparisons_of_the_numbers() {
    let values = [-1.0f32, 0.0, -0.0, 0.5, 1.0, 2.0, f32::INFINITY, f32::NEG_INFINITY, f32::NAN];
    let a = boxed((0.0, 0.0), (1.0, 1.0));
    for lo in values {
        for hi in values {
            let b = boxed((lo, lo), (hi, hi));
            let expected = 0.0 < hi && 1.0 > lo && 0.0 < hi && 1.0 > lo;
            assert_eq!(a.is_intersecting(&b), expected, "{} {}", lo, hi);
        }
    }
}

#[test]
fn corners_come_in_a_fixed_order() {
    let a = boxed((1.0, 2.0), (3.0, 4.0));
    assert_eq!(a.corners(), [vec2(1.0, 2.0), vec2(1.0, 4.0), vec2(3.0, 2.0), vec2(3.0, 4.0)]);
}

#[test]
fn around_is_the_box_of_four_points() {
    let points = [vec2(1.0, 7.0), vec2(-2.0, 3.0), vec2(5.0, 4.0), vec2(0.0, -1.0)];
    assert_eq!(Aabb::around(&points), boxed((-2.0, -1.0), (5.0, 7.0)));
}
