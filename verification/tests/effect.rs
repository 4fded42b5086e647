use pawcontrol::effect::{
    dial, registry, update_knob, AnyEffect, Blur, EdgeGlow, Effect, EffectCtx, Pixelate, RgbShift,
    Swirl, KNOB_FINGER,
};
use pawcontrol::fixed::{Fx, ONE};
use pawcontrol::region::Region;
use pawcontrol::tracking::hand::{lm, Finger, Hand, HandFrame, Handedness, LANDMARK_COUNT};
use pawcontrol::vector::{Vec2, Vec3};

fn f(x: f32) -> Fx {
    Fx { raw: (x as f64 * 4294967296.0) as i64 }
}

fn r(x: Fx) -> f32 {
    (x.raw as f64 / 4294967296.0) as f32
}

fn v3(x: f32, y: f32, z: f32) -> Vec3 {
    Vec3::new(f(x), f(y), f(z))
}

#[test]
fn effect_names_are_unique() {
    let reg = registry();
    let mut names: Vec<&str> = reg.iter().map(|e| e.name()).collect();
    names.sort_unstable();
    let before = names.len();
    names.dedup();
    assert_eq!(before, names.len(), "duplicate effect names: {names:?}");
}

/// A hand whose middle fingertip sits `reach` palm-widths from its knuckle.
fn hand_with_middle_reach(reach: f32) -> Hand {
    let mut landmarks = [Vec3::zero(); LANDMARK_COUNT];
    // Palm width of 0.1: index/pinky knuckles 0.1 apart.
    landmarks[lm::INDEX_MCP] = v3(0.5, 0.5, 0.0);
    landmarks[lm::PINKY_MCP] = v3(0.6, 0.5, 0.0);
    landmarks[lm::WRIST] = v3(0.55, 0.5, 0.0);
    landmarks[lm::MIDDLE_MCP] = v3(0.55, 0.5, 0.0);
    // Tip placed straight "up" from the knuckle.
    landmarks[lm::MIDDLE_TIP] = v3(0.55, 0.5 - reach * 0.1, 0.0);
    Hand { landmarks, handedness: Handedness::Right, score: f(1.0) }
}

fn frame_with_reach(reach: f32) -> HandFrame {
    HandFrame { hands: vec![hand_with_middle_reach(reach)], seq: 0 }
}

#[test]
fn extended_middle_finger_reads_as_zero_curl() {
    // 0.88 palm-widths is the measured extended reach.
    let k = r(update_knob(f(0.5), &frame_with_reach(0.88), true));
    assert!(k < 0.05, "extended finger should rest at zero, got {k}");
}

#[test]
fn curled_middle_finger_reads_as_full_curl() {
    // 40% of extended is the fully-curled reference.
    let k = r(update_knob(f(0.5), &frame_with_reach(0.88 * 0.4), true));
    assert!(k > 0.95, "curled finger should reach one, got {k}");
}

#[test]
fn curl_is_monotonic_between_the_extremes() {
    let mut last = -1.0;
    for step in 0..10 {
        let reach = 0.88 - (step as f32 / 10.0) * 0.5;
        let k = r(update_knob(f(0.0), &frame_with_reach(reach), true));
        assert!(k >= last, "knob went backwards at reach {reach}: {k} < {last}");
        last = k;
    }
}

#[test]
fn knob_holds_its_value_while_the_region_is_off() {
    // Curling with no region up must not move the setting.
    let held = update_knob(f(0.25), &frame_with_reach(0.88 * 0.4), false);
    assert_eq!(held, f(0.25), "knob moved while the region was off");

    // ...and resumes tracking the moment the region returns.
    let live = r(update_knob(f(0.25), &frame_with_reach(0.88 * 0.4), true));
    assert!(live > 0.95, "knob did not resume: {live}");
}

#[test]
fn knob_holds_when_no_hands_are_tracked() {
    let held = update_knob(f(0.7), &HandFrame::default(), true);
    assert_eq!(held, f(0.7));
}

#[test]
fn knob_is_independent_of_the_region_fingers() {
    // Moving index and thumb (the quad corners) must not disturb the knob.
    let mut a = frame_with_reach(0.6);
    let before = update_knob(f(0.0), &a, true);
    a.hands[0].landmarks[lm::INDEX_TIP] = v3(0.9, 0.1, 0.0);
    a.hands[0].landmarks[lm::THUMB_TIP] = v3(0.1, 0.9, 0.0);
    let after = update_knob(f(0.0), &a, true);
    assert_eq!(before, after, "quad fingers leaked into the knob");
}

#[test]
fn params_are_finite_without_hands() {
    let ctx = EffectCtx { region: Region::Empty, knob: f(0.0) };
    for e in registry() {
        for v in e.params(&ctx) {
            assert!(r(v).is_finite(), "{} produced a non-finite param", e.name());
        }
    }
}

#[test]
fn registry_is_in_cycle_order() {
    let reg = registry();
    let names: Vec<&str> = reg.iter().map(|e| e.name()).collect();
    assert_eq!(names, vec!["pixelate", "blur", "rgb-shift", "edge-glow", "swirl"]);
    let shaders: Vec<&str> = reg.iter().map(|e| e.shader()).collect();
    assert_eq!(
        shaders,
        vec!["pixelate.wgsl", "blur.wgsl", "rgb_shift.wgsl", "edge_glow.wgsl", "swirl.wgsl"]
    );
}

fn ctx(knob: Fx) -> EffectCtx {
    EffectCtx { region: Region::Empty, knob }
}

#[test]
fn params_run_from_end_to_end() {
    let half = Fx::ratio(1, 2);
    let cases: [(AnyEffect, i32, i32); 4] = [
        (AnyEffect::Pixelate(Pixelate::default()), 12, 64),
        (AnyEffect::Blur(Blur::default()), 2, 12),
        (AnyEffect::RgbShift(RgbShift), 3, 36),
        (AnyEffect::EdgeGlow(EdgeGlow), 3, 12),
    ];
    for (e, low, high) in cases {
        assert_eq!(e.params(&ctx(Fx::zero()))[0], Fx::whole(low), "{}", e.name());
        assert_eq!(e.params(&ctx(Fx::one()))[0], Fx::whole(high), "{}", e.name());
        let middle = e.params(&ctx(half))[0].raw;
        assert_eq!(2 * middle, Fx::whole(low + high).raw, "{}", e.name());
        // A knob past its ends is held there.
        assert_eq!(e.params(&ctx(Fx::whole(7)))[0], Fx::whole(high));
        assert_eq!(e.params(&ctx(Fx::whole(-7)))[0], Fx::whole(low));
    }
    assert_eq!(EdgeGlow.params(&ctx(half))[1], Fx::ratio(3, 2));
    assert_eq!(EdgeGlow.params(&ctx(half))[2], Fx::zero());
}

#[test]
fn swirl_fills_the_region() {
    let p = |x: i32, y: i32| Vec2::new(Fx::ratio(x, 10), Fx::ratio(y, 10));
    let region = Region::Quad([p(0, 0), p(3, 0), p(3, 4), p(0, 4)]);
    let wide = EffectCtx { region, knob: Fx::zero() };
    assert!((r(wide.region_extent()) - 0.5).abs() < 1e-6);
    assert!((r(Swirl.params(&wide)[1]) - 0.3).abs() < 1e-6);
    assert!((r(Swirl.params(&wide)[0]) - 0.6).abs() < 1e-6);
    // Without a region the falloff rests at its least.
    assert_eq!(ctx(Fx::zero()).region_extent(), Fx::zero());
    assert!((r(Swirl.params(&ctx(Fx::one()))[1]) - 0.09).abs() < 1e-6);
    assert!((r(Swirl.params(&ctx(Fx::one()))[0]) - 5.0).abs() < 1e-6);
}

#[test]
fn degenerate_region_keeps_an_extent() {
    let region = Region::Quad([Vec2::zero(); 4]);
    let c = EffectCtx { region, knob: Fx::zero() };
    assert_eq!(c.region_extent(), Fx::ratio(1, 10000));
}

#[test]
fn effects_are_tuned_in_place() {
    let mut e = AnyEffect::Pixelate(Pixelate::default());
    {
        let mut knobs = e.tunables();
        assert_eq!(knobs.len(), 2);
        assert_eq!((knobs[0].label, knobs[1].label), ("smallest block", "largest block"));
        assert_eq!((knobs[0].min, knobs[0].max), (Fx::one(), Fx::whole(64)));
        *knobs[0].value = Fx::whole(20);
    }
    assert_eq!(e.params(&ctx(Fx::zero()))[0], Fx::whole(20));
    let mut blur = AnyEffect::Blur(Blur::default());
    *blur.tunables()[0].value = Fx::whole(4);
    assert_eq!(blur.params(&ctx(Fx::one()))[0], Fx::whole(6));
    assert_eq!(blur.tunables()[0].label, "largest radius");
    assert!(AnyEffect::Swirl(Swirl).tunables().is_empty());
}

#[test]
fn dial_never_leaves_its_range() {
    let (low, span) = (Fx::whole(12), Fx::whole(52));
    let mut last = low.raw;
    for k in 0..=64i64 {
        let v = dial(low, span, Fx { raw: k * (ONE / 64) }).raw;
        assert!(v >= last && v <= Fx::whole(64).raw);
        last = v;
    }
    assert_eq!(last, Fx::whole(64).raw);
}

#[test]
fn knob_follows_the_most_curled_hand() {
    let hands = vec![hand_with_middle_reach(0.88), hand_with_middle_reach(0.352)];
    let strongest = hands[1].curl(KNOB_FINGER);
    let frame = HandFrame { hands, seq: 0 };
    assert_eq!(KNOB_FINGER, Finger::Middle);
    assert_eq!(update_knob(f(0.0), &frame, true), strongest);
}
