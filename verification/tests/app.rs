use pawcontrol::app::{App, FrameCounter, KeyPress, Poll, Poller};
use pawcontrol::effect::Effect;
use pawcontrol::fixed::Fx;
use pawcontrol::region::Region;
use pawcontrol::tracking::face::eye::lm as eye;
use pawcontrol::tracking::face::{Face, FaceFrame};
use pawcontrol::tracking::hand::{lm, Hand, HandFrame, Handedness, LANDMARK_COUNT};
use pawcontrol::vector::{Vec2, Vec3};

fn f(x: f32) -> Fx {
    Fx { raw: (x as f64 * 4294967296.0) as i64 }
}

fn v3(x: f32, y: f32, z: f32) -> Vec3 {
    Vec3::new(f(x), f(y), f(z))
}

/// A hand around `x` with a palm width of 0.1. Its thumb and pinky are a
/// `gap` apart, and its middle finger is half curled.
fn hand(x: f32, gap: f32) -> Hand {
    let mut landmarks = [v3(x, 0.5, 0.0); LANDMARK_COUNT];
    landmarks[lm::PINKY_MCP] = v3(x + 0.1, 0.5, 0.0);
    landmarks[lm::INDEX_TIP] = v3(x, 0.25, 0.0);
    landmarks[lm::THUMB_TIP] = v3(x, 0.75, 0.0);
    landmarks[lm::PINKY_TIP] = v3(x + gap, 0.75, 0.0);
    landmarks[lm::MIDDLE_TIP] = v3(x, 0.5 - 0.0616, 0.0);
    Hand { landmarks, handedness: Handedness::Right, score: f(1.0) }
}

fn hands(gap: f32) -> HandFrame {
    HandFrame { hands: vec![hand(0.2, gap), hand(0.7, 0.5)], seq: 1 }
}

/// A face whose right eye is open this wide.
fn face(gap: f32) -> FaceFrame {
    let mut landmarks = vec![Vec2::zero(); 468];
    let e = eye::RIGHT_EYE;
    landmarks[e[3]] = Vec2::new(Fx::one(), Fx::zero());
    landmarks[e[1]] = Vec2::new(Fx::zero(), f(-gap / 2.0));
    landmarks[e[2]] = Vec2::new(Fx::zero(), f(-gap / 2.0));
    landmarks[e[5]] = Vec2::new(Fx::zero(), f(gap / 2.0));
    landmarks[e[4]] = Vec2::new(Fx::zero(), f(gap / 2.0));
    FaceFrame { faces: vec![Face { landmarks, score: Fx::one() }] }
}

#[test]
fn effects_cycle_round() {
    let mut app = App::new();
    assert_eq!(app.effect_index, 0);
    app.cycle_effect(-1);
    assert_eq!(app.effect_index, 4);
    app.cycle_effect(1);
    assert_eq!(app.effect_index, 0);
    app.cycle_effect(7);
    assert_eq!(app.effect_index, 2);
    app.cycle_effect(i32::MIN);
    // -2147483648 + 2 = -2147483646, which is 4 more than a multiple of 5.
    assert_eq!(app.effect_index, 4);

    // Without effects there is nowhere to go.
    app.effects.clear();
    app.effect_index = 0;
    app.cycle_effect(1);
    assert_eq!(app.effect_index, 0);
}

#[test]
fn keys_do_what_they_say() {
    let mut app = App::new();
    assert!(app.press(KeyPress::Escape));
    assert!(!app.press(KeyPress::Space));
    assert_eq!(app.effect_index, 1);
    assert!(app.mirror && !app.press(KeyPress::Letter('m')) && !app.mirror);
    assert!(!app.show_skeleton && !app.press(KeyPress::Letter('d')) && app.show_skeleton);
    assert!(app.show_outline && !app.press(KeyPress::Letter('o')) && !app.show_outline);
    assert!(!app.freeze && !app.press(KeyPress::Letter('f')) && app.freeze);
    assert!(app.panel_open && !app.press(KeyPress::Letter('h')) && !app.panel_open);
    assert!(!app.press(KeyPress::Letter('M')));
    assert!(!app.press(KeyPress::Other));
    assert!(!app.mirror && app.freeze);
    // Pressed again, each switches back.
    for c in ['m', 'd', 'o', 'f', 'h'] {
        app.press(KeyPress::Letter(c));
    }
    assert!(app.mirror && !app.show_skeleton && app.show_outline && !app.freeze && app.panel_open);
}

#[test]
fn thumb_to_pinky_steps_to_the_next_effect() {
    let mut app = App::new();
    let none = FaceFrame::default();
    app.step(&hands(0.08), &none, f(0.016));
    assert_eq!(app.effect_index, 0);
    app.step(&hands(0.01), &none, f(0.016));
    assert_eq!(app.effect_index, 1);
    // Held: no further step.
    app.step(&hands(0.01), &none, f(0.016));
    assert_eq!(app.effect_index, 1);
    assert_eq!(app.effects[app.effect_index].name(), "blur");
}

#[test]
fn scene_is_seen_as_the_user_sees_it() {
    let mut app = App::new();
    let none = FaceFrame::default();
    let mirrored = app.step(&hands(0.5), &none, f(0.016));
    assert_eq!(mirrored.hands.hands[0].wrist().x, Fx { raw: Fx::one().raw - f(0.2).raw });
    app.press(KeyPress::Letter('m'));
    let plain = app.step(&hands(0.5), &none, f(0.016));
    assert_eq!(plain.hands.hands[0].wrist().x, f(0.2));
    assert_eq!(plain.hands.seq, 1);
    // Either way the two hands span a region.
    assert!(mirrored.region.is_active() && plain.region.is_active());
    let c = plain.region.corners().unwrap();
    assert_eq!(c[0], Vec2::new(f(0.2), f(0.25)));
    assert_eq!(c[2], Vec2::new(f(0.7), f(0.75)));
}

#[test]
fn frozen_zone_stays_while_the_knob_follows() {
    let mut app = App::new();
    let none = FaceFrame::default();
    app.press(KeyPress::Letter('m'));
    app.press(KeyPress::Letter('f'));
    let first = app.step(&hands(0.5), &none, f(0.016)).region;
    let mut moved = hands(0.5);
    moved.hands[0] = hand(0.3, 0.5);
    let scene = app.step(&moved, &none, f(0.016));
    assert_eq!(scene.region, first);
    assert_ne!(scene.live, first);
    // The hands leave: the zone stays, and the knob holds.
    let knob = app.knob;
    let gone = app.step(&HandFrame::default(), &none, f(0.016));
    assert_eq!(gone.region, first);
    assert_eq!(gone.live, Region::Empty);
    assert_eq!(app.knob, knob);
    app.press(KeyPress::Letter('f'));
    assert_eq!(app.step(&HandFrame::default(), &none, f(0.016)).region, Region::Empty);
}

#[test]
fn knob_reads_the_middle_finger_unless_set_by_hand() {
    let mut app = App::new();
    let none = FaceFrame::default();
    let scene = app.step(&hands(0.5), &none, f(0.016));
    assert!((app.knob.raw - Fx::ratio(1, 2).raw).abs() < 10_000, "{:?}", app.knob);
    // Half way between 12 and 64.
    let middle = Fx::whole(38).raw;
    assert!((scene.params[0].raw - middle).abs() < 600_000);
    app.knob_manual = true;
    app.knob = Fx::one();
    let scene = app.step(&hands(0.5), &none, f(0.016));
    assert_eq!(app.knob, Fx::one());
    assert_eq!(scene.params[0], Fx::whole(64));
}

#[test]
fn long_right_blink_freezes_and_unfreezes() {
    let mut app = App::new();
    let empty = HandFrame::default();
    let blink = |app: &mut App| {
        app.step(&empty, &face(0.3), f(0.1));
        for _ in 0..12 {
            app.step(&empty, &face(0.1), f(0.1));
        }
    };
    blink(&mut app);
    assert!(app.freeze);
    blink(&mut app);
    assert!(!app.freeze);
    // An ordinary blink, or a lost face, changes nothing.
    app.step(&empty, &face(0.3), f(0.1));
    for _ in 0..3 {
        app.step(&empty, &face(0.1), f(0.1));
    }
    for _ in 0..20 {
        app.step(&empty, &FaceFrame::default(), f(0.1));
    }
    assert!(!app.freeze);
}

#[test]
fn skeleton_is_drawn_when_asked_for() {
    let mut app = App::new();
    let none = FaceFrame::default();
    assert!(app.step(&hands(0.5), &none, f(0.016)).lines.is_empty());
    app.press(KeyPress::Letter('d'));
    assert_eq!(app.step(&hands(0.5), &none, f(0.016)).lines.len(), 52);
}

#[test]
fn frame_rate_is_smoothed() {
    let mut app = App::new();
    let none = FaceFrame::default();
    let empty = HandFrame::default();
    app.step(&empty, &none, Fx::ratio(1, 4));
    assert_eq!(app.fps, Fx::whole(4));
    // Nine parts of four, one of two.
    app.step(&empty, &none, Fx::ratio(1, 2));
    assert!((app.fps.raw - Fx::ratio(38, 10).raw).abs() < 8);
    let before = app.fps;
    app.step(&empty, &none, Fx::zero());
    assert_eq!(app.fps, before);
}

#[test]
fn tracking_takes_each_frame_once() {
    let mut p = Poller::new();
    assert_eq!(Poll::Wait.pause_ms(), Some(4));
    assert_eq!(Poll::Stale.pause_ms(), Some(1));
    assert_eq!(Poll::Fresh.pause_ms(), None);
    assert_eq!(p.poll(None), Poll::Wait);
    assert_eq!(p.poll(Some(1)), Poll::Fresh);
    assert_eq!(p.poll(Some(1)), Poll::Stale);
    assert_eq!(p.poll(Some(3)), Poll::Fresh);
    assert_eq!(p.last_seq, 3);
}

#[test]
fn app_starts_as_documented() {
    let app = App::new();
    assert!(app.mirror && app.show_outline && app.panel_open);
    assert!(!app.show_skeleton && !app.freeze && !app.knob_manual);
    assert_eq!(app.outline().width, Fx::ratio(12, 10));
    assert_eq!(app.outline().color, [Fx::one(); 3]);
    assert!(app.outline().show);
    assert_eq!(app.effects.len(), 5);
    assert_eq!(app.gestures.count(), 2);
}

#[test]
fn readout_comes_every_two_seconds() {
    let mut counter = FrameCounter::new();
    for _ in 0..99 {
        assert_eq!(counter.drawn(f(1.9)), None);
    }
    assert_eq!(counter.drawn(f(2.0)), Some(Fx::whole(50)));
    assert_eq!(counter.frames, 0);
}
