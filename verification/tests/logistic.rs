use pawcontrol::fixed::{Fx, ONE};
use pawcontrol::logistic::sigmoid;

fn true_value(x: Fx) -> f64 {
    1.0 / (1.0 + (-(x.raw as f64 / 4294967296.0)).exp())
}

#[test]
fn sigmoid_is_within_a_few_steps_of_the_true_value() {
    for i in -3000..=3000i64 {
        let x = Fx { raw: i * (ONE / 100) + i * 12345 };
        let p = sigmoid(x).raw as f64;
        assert!((p - true_value(x) * 4294967296.0).abs() <= 15.0, "at {i}: {p}");
    }
}

#[test]
fn sigmoid_of_zero_is_a_half() {
    assert_eq!(sigmoid(Fx::zero()), Fx::ratio(1, 2));
}

#[test]
fn sigmoid_holds_at_the_ends() {
    assert_eq!(sigmoid(Fx::whole(100)), Fx::one());
    assert_eq!(sigmoid(Fx { raw: i64::MAX }), Fx::one());
    assert_eq!(sigmoid(Fx::whole(-100)), Fx::zero());
    assert_eq!(sigmoid(Fx { raw: i64::MIN }), Fx::zero());
}

#[test]
fn opposite_scores_add_up_to_one() {
    for i in 1..200i64 {
        let x = Fx { raw: i * 98765432 };
        let sum = sigmoid(x).raw + sigmoid(x.negated()).raw;
        assert!(sum == ONE || sum == ONE - 1, "at {i}: {sum}");
    }
}
