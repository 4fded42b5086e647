use pawcontrol::fixed::Fx;
use pawcontrol::gesture::{
    Detector, FingerTouch, GestureDetector, GestureEngine, GestureEvent, HandCount,
};
use pawcontrol::tracking::hand::{lm, Finger, Hand, HandFrame, Handedness, LANDMARK_COUNT};
use pawcontrol::vector::Vec3;

fn f(x: f32) -> Fx {
    Fx { raw: (x as f64 * 4294967296.0) as i64 }
}

fn v3(x: f32, y: f32, z: f32) -> Vec3 {
    Vec3::new(f(x), f(y), f(z))
}

/// A synthetic hand with a controllable thumb/pinky gap.
fn hand_with_gap(gap: f32) -> Hand {
    let mut landmarks = [Vec3::zero(); LANDMARK_COUNT];
    // Give the hand a palm width of 0.1 so gaps are easy to reason about.
    landmarks[lm::INDEX_MCP] = v3(0.5, 0.5, 0.0);
    landmarks[lm::PINKY_MCP] = v3(0.6, 0.5, 0.0);
    landmarks[lm::WRIST] = v3(0.5, 0.5, 0.0);
    landmarks[lm::MIDDLE_MCP] = v3(0.5, 0.5, 0.0);
    landmarks[lm::THUMB_TIP] = v3(0.5, 0.5, 0.0);
    landmarks[lm::PINKY_TIP] = v3(0.5 + gap, 0.5, 0.0);
    Hand { landmarks, handedness: Handedness::Right, score: f(1.0) }
}

fn frame(gap: f32) -> HandFrame {
    HandFrame { hands: vec![hand_with_gap(gap)], seq: 0 }
}

#[test]
fn touch_fires_once_on_contact() {
    let mut d = FingerTouch::new(Finger::Thumb, Finger::Pinky);
    let mut out = Vec::new();

    // Far apart: silence.
    d.update(&frame(0.08), f(0.016), &mut out);
    assert!(out.is_empty());

    // Closed: one event.
    out.clear();
    d.update(&frame(0.01), f(0.016), &mut out);
    assert_eq!(out.len(), 1, "{out:?}");

    // Still closed: must not repeat.
    out.clear();
    d.update(&frame(0.01), f(0.016), &mut out);
    assert!(out.is_empty(), "re-fired while held: {out:?}");
}

#[test]
fn hysteresis_prevents_flicker_at_the_boundary() {
    let mut d = FingerTouch::new(Finger::Thumb, Finger::Pinky);
    let mut out = Vec::new();
    d.update(&frame(0.01), f(0.016), &mut out); // contact
    out.clear();

    // Nudge just past the enter threshold but inside the exit threshold:
    // this must NOT count as a release.
    d.update(&frame(0.035), f(0.016), &mut out);
    assert!(out.is_empty(), "released too eagerly: {out:?}");

    // Well past the exit threshold: now it releases.
    d.update(&frame(0.06), f(0.016), &mut out);
    assert!(matches!(out[0], GestureEvent::TouchEnd { .. }), "{out:?}");
}

#[test]
fn cooldown_blocks_rapid_retrigger() {
    let mut d = FingerTouch::new(Finger::Thumb, Finger::Pinky);
    let mut out = Vec::new();
    d.update(&frame(0.01), f(0.016), &mut out);
    d.update(&frame(0.06), f(0.016), &mut out); // release
    out.clear();
    // Immediate re-touch inside the cooldown window is swallowed.
    d.update(&frame(0.01), f(0.016), &mut out);
    assert!(out.is_empty(), "{out:?}");
}

#[test]
fn hand_count_reports_changes_only() {
    let mut d = HandCount::default();
    let mut out = Vec::new();
    d.update(&frame(0.05), f(0.016), &mut out);
    assert_eq!(out.len(), 1);
    out.clear();
    d.update(&frame(0.05), f(0.016), &mut out);
    assert!(out.is_empty());
}

#[test]
fn touch_fires_again_after_the_cooldown() {
    let mut d = FingerTouch::new(Finger::Thumb, Finger::Pinky);
    let mut out = Vec::new();
    d.update(&frame(0.01), f(0.016), &mut out);
    d.update(&frame(0.06), f(0.2), &mut out);
    d.update(&frame(0.01), f(0.2), &mut out);
    let start = GestureEvent::TouchStart { hand: 0, a: Finger::Thumb, b: Finger::Pinky };
    let end = GestureEvent::TouchEnd { hand: 0, a: Finger::Thumb, b: Finger::Pinky };
    assert_eq!(out, vec![start, end, start]);
}

#[test]
fn each_hand_touches_on_its_own() {
    let mut d = FingerTouch::new(Finger::Thumb, Finger::Pinky);
    let mut out = Vec::new();
    let both = HandFrame { hands: vec![hand_with_gap(0.08), hand_with_gap(0.01)], seq: 0 };
    d.update(&both, f(0.016), &mut out);
    let second = GestureEvent::TouchStart { hand: 1, a: Finger::Thumb, b: Finger::Pinky };
    assert_eq!(out, vec![second]);
    // The first hand leaves: what is now hand 0 is taken for the first one.
    out.clear();
    d.update(&frame(0.01), f(0.016), &mut out);
    let first = GestureEvent::TouchStart { hand: 0, a: Finger::Thumb, b: Finger::Pinky };
    assert_eq!(out, vec![first]);
}

#[test]
fn a_lost_hand_forgets_its_touch() {
    let mut d = FingerTouch::new(Finger::Thumb, Finger::Pinky);
    let mut out = Vec::new();
    d.update(&frame(0.01), f(0.016), &mut out);
    d.update(&HandFrame::default(), f(0.016), &mut out);
    out.clear();
    // Back, with the fingers apart: nothing to release.
    d.update(&frame(0.08), f(0.016), &mut out);
    assert!(out.is_empty());
}

#[test]
fn engine_collects_from_every_detector() {
    let mut engine: GestureEngine<Detector> = GestureEngine::new()
        .with(Detector::Touch(FingerTouch::new(Finger::Thumb, Finger::Pinky)))
        .with(Detector::Count(HandCount::default()));
    assert_eq!(engine.count(), 2);
    let events = engine.update(&frame(0.01), f(0.016)).to_vec();
    assert_eq!(
        events,
        vec![
            GestureEvent::TouchStart { hand: 0, a: Finger::Thumb, b: Finger::Pinky },
            GestureEvent::HandCountChanged { count: 1 },
        ]
    );
    // Events are those of this frame alone.
    assert!(engine.update(&frame(0.01), f(0.016)).is_empty());
    assert_eq!(engine.update(&HandFrame::default(), f(0.016)).len(), 1);
}

#[test]
fn detectors_are_tuned_in_place() {
    let mut engine: GestureEngine<Detector> = GestureEngine::default()
        .with(Detector::Touch(FingerTouch::new(Finger::Thumb, Finger::Pinky)))
        .with(Detector::Count(HandCount::default()));
    assert_eq!(engine.detector(0).name(), "finger-touch");
    assert_eq!(engine.detector(1).name(), "hand-count");
    assert!(engine.detector(1).tunables().is_empty());
    {
        let mut knobs = engine.detector(0).tunables();
        assert_eq!(knobs.len(), 3);
        assert_eq!(knobs[0].label, "touch below");
        assert_eq!(knobs[1].label, "release above");
        assert_eq!(knobs[2].label, "debounce");
        assert_eq!(*knobs[0].value, Fx::ratio(32, 100));
        assert_eq!(*knobs[1].value, Fx::ratio(45, 100));
        assert_eq!(*knobs[2].value, Fx::ratio(35, 100));
        // Touch only when the fingertips all but meet.
        *knobs[0].value = f(0.05);
    }
    assert!(engine.update(&frame(0.01), f(0.016)).len() == 1, "only the hand count");
    assert_eq!(engine.update(&frame(0.001), f(0.016)).len(), 1);
}
