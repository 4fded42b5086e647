use pawcontrol::fixed::Fx;
use pawcontrol::frame::Frame;
use pawcontrol::settings::TrackingSettings;
use pawcontrol::tracking::hand::{Hand, Handedness, LANDMARK_COUNT};
use pawcontrol::tracking::palm::{NUM_ANCHORS, VALUES_PER_BOX};
use pawcontrol::tracking::roi::{Heading, Roi};
use pawcontrol::tracking::{to_pixels, Backend, HandTracker, TrackerConfig};
use pawcontrol::vector::{Vec2, Vec3};

fn f(x: f32) -> Fx {
    Fx { raw: (x as f64 * 4294967296.0) as i64 }
}

fn r(x: Fx) -> f32 {
    (x.raw as f64 / 4294967296.0) as f32
}

fn v2(x: f32, y: f32) -> Vec2 {
    Vec2::new(f(x), f(y))
}

/// The raw score that stands for a probability.
fn logit(p: f64) -> Fx {
    Fx { raw: ((p / (1.0 - p)).ln() * 4294967296.0) as i64 }
}

fn frame() -> Frame {
    Frame::new(192, 192)
}

/// Palms at these places of the frame, with these scores. The frame is as
/// large as the model's input, so regressions are in pixels too.
fn palms(at: &[(f32, f32, f32)]) -> (Vec<Fx>, Vec<Fx>) {
    let mut scores = vec![f(-20.0); NUM_ANCHORS];
    let mut boxes = vec![Fx::zero(); NUM_ANCHORS * VALUES_PER_BOX];
    for (row, (x, y, score)) in at.iter().enumerate() {
        // The first rows all belong to the first two cells; use row pairs of
        // the first cell, whose anchor is at (4, 4).
        assert!(row < 2);
        scores[row] = logit(*score as f64);
        let b = row * VALUES_PER_BOX;
        boxes[b] = f(x - 4.0);
        boxes[b + 1] = f(y - 4.0);
        boxes[b + 2] = f(20.0);
        boxes[b + 3] = f(20.0);
        for k in 0..7 {
            boxes[b + 4 + 2 * k] = f(x - 4.0);
            boxes[b + 5 + 2 * k] = f(y - 4.0);
        }
        // The palm points up: base below, knuckle above.
        boxes[b + 5] = f(y - 4.0 + 10.0);
        boxes[b + 9] = f(y - 4.0 - 10.0);
    }
    (boxes, scores)
}

fn hand(score: f32, x: f32) -> Hand {
    let mut landmarks = [Vec3::new(f(x), f(0.5), Fx::zero()); LANDMARK_COUNT];
    landmarks[9] = Vec3::new(f(x), f(0.25), Fx::zero());
    Hand { landmarks, handedness: Handedness::Right, score: f(score) }
}

#[test]
fn palms_are_looked_for_every_few_frames() {
    let mut t = HandTracker::new(TrackerConfig::default());
    let settings = TrackingSettings::default();
    let due: Vec<bool> = (0..8).map(|_| t.begin(&settings)).collect();
    assert_eq!(due, vec![false, false, false, true, false, false, false, true]);
}

#[test]
fn seeded_palms_are_followed() {
    let mut t = HandTracker::new(TrackerConfig::default());
    let settings = TrackingSettings::default();
    let (boxes, scores) = palms(&[(40.0, 60.0, 0.9), (150.0, 100.0, 0.8)]);
    t.seed(&frame(), &boxes, &scores, &settings);
    assert_eq!(t.count(), 2);
    // The best palm first; its crop is three times its keypoints' extent.
    let roi = t.roi(0);
    assert!((r(roi.center.x) - 40.0).abs() < 1e-3 && (r(roi.center.y) - 60.0).abs() < 1e-3);
    assert!((r(roi.side) - 60.0).abs() < 1e-3);
    assert_eq!(roi.angle, Heading::level());
    // With both hands up, detection stays idle.
    for _ in 0..8 {
        assert!(!t.begin(&settings));
    }
    // The same palms again change nothing.
    t.seed(&frame(), &boxes, &scores, &settings);
    assert_eq!(t.count(), 2);
}

#[test]
fn a_followed_palm_is_not_seeded_twice() {
    let mut t = HandTracker::new(TrackerConfig::default());
    let settings = TrackingSettings::default();
    let (boxes, scores) = palms(&[(40.0, 60.0, 0.9)]);
    t.seed(&frame(), &boxes, &scores, &settings);
    // Still inside the first crop, whose half side is 30.
    let (near, scores) = palms(&[(60.0, 60.0, 0.9)]);
    t.seed(&frame(), &near, &scores, &settings);
    assert_eq!(t.count(), 1);
    let (far, scores) = palms(&[(75.0, 60.0, 0.9)]);
    t.seed(&frame(), &far, &scores, &settings);
    assert_eq!(t.count(), 2);
}

#[test]
fn settings_apply_live() {
    let mut t = HandTracker::new(TrackerConfig::default());
    let mut settings = TrackingSettings::default();
    settings.max_hands = 1;
    settings.redetect_interval = 1;
    assert!(t.begin(&settings));
    let (boxes, scores) = palms(&[(40.0, 60.0, 0.6), (150.0, 100.0, 0.9)]);
    settings.palm_score_threshold = f(0.7);
    t.seed(&frame(), &boxes, &scores, &settings);
    assert_eq!(t.count(), 1);
    assert!((r(t.roi(0).center.x) - 150.0).abs() < 1e-3);
    assert!(!t.begin(&settings), "one hand is all that is asked for");
    settings.max_hands = 2;
    assert!(t.begin(&settings));
    // The tracker's own limit caps the setting.
    settings.max_hands = 9;
    settings.palm_score_threshold = f(0.5);
    t.seed(&frame(), &boxes, &scores, &settings);
    assert_eq!(t.count(), 2);
    assert!(!t.begin(&settings));
}

#[test]
fn confident_hands_are_reported_and_followed() {
    let mut t = HandTracker::new(TrackerConfig::default());
    let settings = TrackingSettings::default();
    let (boxes, scores) = palms(&[(40.0, 60.0, 0.9), (150.0, 100.0, 0.8)]);
    t.begin(&settings);
    t.seed(&frame(), &boxes, &scores, &settings);
    // The first is unsure, the second is there: only the second survives.
    let seen = vec![Some(hand(0.59, 0.2)), Some(hand(0.6, 0.75))];
    let out = t.finish(&seen, &frame(), f(0.02), &settings);
    assert_eq!(out.seq, 1);
    assert_eq!(out.hands.len(), 1);
    // A hand that has just been found is reported where it was seen.
    assert_eq!(out.hands[0].landmarks, seen[1].unwrap().landmarks);
    assert_eq!(out.hands[0].score, f(0.6));
    assert_eq!(t.count(), 1);
    // Its next crop encloses it: 48 px tall, 1.65 times that, up a tenth.
    let roi = t.roi(0);
    assert!((r(roi.side) - 48.0 * 1.65).abs() < 1e-2);
    assert!((r(roi.center.x) - 144.0).abs() < 1e-2);
    assert!((r(roi.center.y) - (72.0 - 4.8)).abs() < 1e-2);

    // From the second frame on its joints are smoothed.
    let moved = vec![Some(hand(0.9, 0.76))];
    let out = t.finish(&moved, &frame(), f(0.02), &settings);
    let x = out.hands[0].point(0).x;
    assert!(x.raw > f(0.75).raw && x.raw < f(0.76).raw);
    // A crop without a hand in it loses the track.
    let out = t.finish(&vec![None], &frame(), f(0.02), &settings);
    assert!(out.hands.is_empty());
    assert_eq!(t.count(), 0);
}

#[test]
fn a_failed_model_loses_every_hand() {
    let mut t = HandTracker::new(TrackerConfig::default());
    let settings = TrackingSettings::default();
    let (boxes, scores) = palms(&[(40.0, 60.0, 0.9)]);
    t.seed(&frame(), &boxes, &scores, &settings);
    t.lose();
    assert_eq!(t.count(), 0);
}

#[test]
fn probe_falls_back_to_the_middle() {
    let mut t = HandTracker::new(TrackerConfig::default());
    let wide = Frame::new(640, 480);
    let expected = Roi {
        center: v2(320.0, 240.0),
        side: Fx::whole(480).times(Fx::ratio(6, 10)),
        angle: Heading::level(),
    };
    assert_eq!(t.probe_roi(&wide), expected);
    let (boxes, scores) = palms(&[(40.0, 60.0, 0.9)]);
    t.seed(&frame(), &boxes, &scores, &TrackingSettings::default());
    assert_eq!(t.probe_roi(&wide), t.roi(0));
}

#[test]
fn model_inputs_have_their_shape() {
    let mut wide = Frame::new(64, 32);
    wide.rgba.fill(255);
    let mut out = Vec::new();
    HandTracker::palm_input(&wide, &mut out);
    assert_eq!(out.len(), 192 * 192 * 3);
    // A quarter of the square above and below the picture is padding.
    assert_eq!(out[(47 * 192 + 96) * 3], Fx::zero());
    assert_eq!(out[(48 * 192 + 96) * 3 + 2], Fx::one());
    assert_eq!(out[(144 * 192 + 96) * 3], Fx::zero());
    let roi = Roi { center: v2(32.0, 16.0), side: f(8.0), angle: Heading::level() };
    HandTracker::crop_input(&wide, &roi, &mut out);
    assert_eq!(out.len(), 224 * 224 * 3);
    assert!(out.iter().all(|c| *c == Fx::one()));
}

#[test]
fn landmarks_scale_to_pixels() {
    let h = hand(1.0, 0.75);
    let px = to_pixels(&h.landmarks, v2(640.0, 480.0));
    assert_eq!(px.len(), LANDMARK_COUNT);
    assert_eq!(px[0], v2(480.0, 240.0));
    assert_eq!(px[9], v2(480.0, 120.0));
}

#[test]
fn tracking_defaults() {
    let s = TrackingSettings::default();
    assert_eq!(s.max_hands, 2);
    assert_eq!(s.presence_threshold, Fx::ratio(6, 10));
    assert_eq!(s.palm_score_threshold, Fx::ratio(1, 2));
    assert_eq!(s.redetect_interval, 4);
    let cfg = TrackerConfig::default();
    assert_eq!(cfg.max_hands, 2);
    assert!(cfg.use_gpu);
}

#[test]
fn models_fall_back_to_the_cpu() {
    assert_eq!(Backend::first(false), Backend::Cpu);
    let gpu = Backend::first(true);
    assert_eq!(gpu.name(), "DirectML");
    assert_eq!(gpu.after_failure(), Some(Backend::Cpu));
    assert_eq!(Backend::Cpu.name(), "CPU");
    assert_eq!(Backend::Cpu.after_failure(), None);
}
