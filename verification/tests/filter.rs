use pawcontrol::fixed::{Fx, ONE};
use pawcontrol::tracking::filter::{alpha, HandFilter, OneEuro, OneEuroConfig};
use pawcontrol::tracking::hand::LANDMARK_COUNT;
use pawcontrol::vector::Vec3;

fn f(x: f32) -> Fx {
    Fx { raw: (x as f64 * 4294967296.0) as i64 }
}

fn r(x: Fx) -> f32 {
    (x.raw as f64 / 4294967296.0) as f32
}

fn v3(x: f32, y: f32, z: f32) -> Vec3 {
    Vec3::new(f(x), f(y), f(z))
}

#[test]
fn converges_to_a_static_signal() {
    let mut filter = OneEuro::default();
    let target = v3(0.5, 0.5, 0.0);
    let mut out = Vec3::zero();
    for _ in 0..120 {
        out = filter.filter(target, f(1.0 / 60.0), &OneEuroConfig::default());
    }
    assert!(r(out.minus(target).length()) < 1e-3, "{out:?}");
}

#[test]
fn suppresses_jitter_around_a_fixed_point() {
    let cfg = OneEuroConfig::default();
    let mut filter = OneEuro::default();
    let mut worst: f32 = 0.0;
    // Alternating +/- noise around 0.5, like a landmark sitting still.
    for i in 0..200 {
        let noise = if i % 2 == 0 { 0.01 } else { -0.01 };
        let out = filter.filter(v3(0.5 + noise, 0.5, 0.0), f(1.0 / 60.0), &cfg);
        if i > 50 {
            worst = worst.max((r(out.x) - 0.5).abs());
        }
    }
    assert!(worst < 0.005, "jitter not suppressed: {worst}");
}

#[test]
fn tracks_fast_motion_without_excessive_lag() {
    let cfg = OneEuroConfig::default();
    let mut filter = OneEuro::default();
    let mut out = Vec3::zero();
    // A steady sweep; the filter should end up close to the true position.
    for i in 0..60 {
        let x = i as f32 * 0.01;
        out = filter.filter(v3(x, 0.0, 0.0), f(1.0 / 60.0), &cfg);
    }
    let truth = 59.0 * 0.01;
    assert!((r(out.x) - truth).abs() < 0.05, "lag too high: {} vs {truth}", r(out.x));
}

#[test]
fn defaults_are_tuned_for_landmarks() {
    let cfg = OneEuroConfig::default();
    assert_eq!(cfg.min_cutoff, Fx::one());
    assert_eq!(cfg.beta, Fx::whole(20));
    assert_eq!(cfg.derivative_cutoff, Fx::one());
}

#[test]
fn alpha_is_the_low_pass_share() {
    // w = 2 pi * 1 Hz * 1/60 s; alpha = w / (1 + w).
    let w = 2.0 * std::f32::consts::PI / 60.0;
    assert!((r(alpha(Fx::one(), f(1.0 / 60.0))) - w / (1.0 + w)).abs() < 1e-6);
    assert_eq!(alpha(Fx::zero(), f(0.1)), Fx::zero());
    // It grows with the cutoff and never passes one.
    let mut last = 0;
    for c in 1..200 {
        let a = alpha(Fx::whole(c), f(1.0 / 60.0)).raw;
        assert!(a >= last && a <= ONE);
        last = a;
    }
}

#[test]
fn first_sample_passes_and_reset_forgets() {
    let cfg = OneEuroConfig::default();
    let mut filter = OneEuro::default();
    assert_eq!(filter.filter(v3(0.3, 0.4, 0.1), f(0.02), &cfg), v3(0.3, 0.4, 0.1));
    let second = filter.filter(v3(0.9, 0.4, 0.1), f(0.02), &cfg);
    assert!(second.x.raw > f(0.3).raw && second.x.raw < f(0.9).raw, "no overshoot");
    filter.reset();
    assert_eq!(filter.filter(v3(0.9, 0.4, 0.1), f(0.02), &cfg), v3(0.9, 0.4, 0.1));
}

#[test]
fn one_step_has_the_exact_value() {
    // With the speed ignored, the output moves by alpha of the difference.
    let cfg = OneEuroConfig {
        min_cutoff: Fx::one(),
        beta: Fx::zero(),
        derivative_cutoff: Fx::one(),
    };
    let mut filter = OneEuro::default();
    filter.filter(Vec3::zero(), f(0.02), &cfg);
    let out = filter.filter(v3(1.0, 0.0, 0.0), f(0.02), &cfg);
    assert_eq!(out.x, alpha(Fx::one(), f(0.02)));
}

#[test]
fn time_never_counts_as_less_than_a_tenth_of_a_millisecond() {
    let cfg = OneEuroConfig::default();
    let (mut a, mut b) = (OneEuro::default(), OneEuro::default());
    a.filter(Vec3::zero(), f(0.01), &cfg);
    b.filter(Vec3::zero(), f(0.01), &cfg);
    let x = a.filter(v3(0.1, 0.0, 0.0), Fx::zero(), &cfg);
    let y = b.filter(v3(0.1, 0.0, 0.0), Fx::ratio(1, 10000), &cfg);
    assert_eq!(x, y);
}

#[test]
fn every_joint_is_filtered_on_its_own() {
    let mut hand = HandFilter::default();
    let mut joints = [Vec3::zero(); LANDMARK_COUNT];
    hand.apply(&mut joints, f(0.02));
    let mut next = [Vec3::zero(); LANDMARK_COUNT];
    next[3] = v3(1.0, 0.0, 0.0);
    hand.apply(&mut next, f(0.02));
    let mut single = OneEuro::default();
    single.filter(Vec3::zero(), f(0.02), &OneEuroConfig::default());
    let expected = single.filter(v3(1.0, 0.0, 0.0), f(0.02), &OneEuroConfig::default());
    assert_eq!(next[3], expected);
    assert_eq!(next[4], Vec3::zero());
    // Other settings apply from the next frame on; a reset forgets.
    hand.configure(OneEuroConfig { beta: Fx::zero(), ..OneEuroConfig::default() });
    hand.reset();
    let mut fresh = [v3(0.5, 0.5, 0.5); LANDMARK_COUNT];
    hand.apply(&mut fresh, f(0.02));
    assert_eq!(fresh[7], v3(0.5, 0.5, 0.5));
}
