use pawcontrol::fixed::{floor_quotient, isqrt, Fx, ONE};
use pawcontrol::vector::{Vec2, Vec3};

#[test]
fn roots_are_rounded_down() {
    for (n, root) in [(0u128, 0u64), (1, 1), (3, 1), (4, 2), (99, 9), (100, 10)] {
        assert_eq!(isqrt(n), root);
    }
    assert_eq!(isqrt(u64::MAX as u128 * u64::MAX as u128), u64::MAX);
    assert_eq!(isqrt(u64::MAX as u128 * u64::MAX as u128 - 1), u64::MAX - 1);
}

#[test]
fn quotients_are_rounded_down() {
    assert_eq!(floor_quotient(7, 2), 3);
    assert_eq!(floor_quotient(-7, 2), -4);
    assert_eq!(floor_quotient(7, -2), -4);
    assert_eq!(floor_quotient(-7, -2), 3);
    assert_eq!(floor_quotient(-8, 2), -4);
}

#[test]
fn arithmetic_stops_at_the_ends() {
    let (lo, hi) = (Fx { raw: i64::MIN }, Fx { raw: i64::MAX });
    assert_eq!(hi.plus(Fx::one()), hi);
    assert_eq!(lo.minus(Fx::one()), lo);
    assert_eq!(hi.times(hi), hi);
    assert_eq!(hi.times(lo), lo);
    assert_eq!(lo.negated(), hi);
    assert_eq!(hi.over(Fx { raw: 1 }), hi);
}

#[test]
fn division_by_zero_goes_to_the_end() {
    assert_eq!(Fx::one().over(Fx::zero()).raw, i64::MAX);
    assert_eq!(Fx::one().negated().over(Fx::zero()).raw, i64::MIN);
    assert_eq!(Fx::zero().over(Fx::zero()), Fx::zero());
}

#[test]
fn numbers_have_exact_values() {
    assert_eq!(Fx::whole(-3).raw, -3 * ONE);
    assert_eq!(Fx::count(u32::MAX).raw, i64::MAX);
    assert_eq!(Fx::count(7), Fx::whole(7));
    assert_eq!(Fx::ratio(1, 4).raw, ONE / 4);
    assert_eq!(Fx::ratio(3, 2).times(Fx::ratio(1, 2)), Fx::ratio(3, 4));
    assert_eq!(Fx::whole(3).over(Fx::whole(4)), Fx::ratio(3, 4));
    assert_eq!(Fx::whole(2).min(Fx::whole(3)), Fx::whole(2));
    assert_eq!(Fx::whole(2).max(Fx::whole(3)), Fx::whole(3));
    assert_eq!(Fx::whole(9).clamp(Fx::zero(), Fx::one()), Fx::one());
    assert_eq!(Fx::whole(-9).clamp(Fx::zero(), Fx::one()), Fx::zero());
}

#[test]
fn lengths_have_exact_values() {
    let v = Vec2::new(Fx::whole(3), Fx::whole(-4));
    assert_eq!(v.length(), Fx::whole(5));
    assert_eq!(v.distance(Vec2::zero()), Fx::whole(5));
    assert_eq!(v.length_squared(), 25u128 << 64);
    assert_eq!(v.perp_dot(Vec2::new(Fx::whole(1), Fx::zero())), 4i128 << 64);
    assert_eq!(v.dot(Vec2::new(Fx::zero(), Fx::one())), Fx::whole(-4));
    let w = Vec3::new(Fx::whole(2), Fx::whole(3), Fx::whole(6));
    assert_eq!(w.length(), Fx::whole(7));
    assert_eq!(w.plus(w), w.times(Fx::whole(2)));
    assert_eq!(w.minus(w), Vec3::zero());
    assert_eq!(w.over(Fx::whole(2)).x, Fx::one());
    assert_eq!(w.truncate(), Vec2::new(Fx::whole(2), Fx::whole(3)));
}
