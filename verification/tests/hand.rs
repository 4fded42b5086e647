use pawcontrol::fixed::Fx;
use pawcontrol::tracking::hand::{lm, Finger, Hand, HandFrame, Handedness, BONES, LANDMARK_COUNT};
use pawcontrol::vector::Vec3;

fn f(x: f32) -> Fx {
    Fx { raw: (x as f64 * 4294967296.0) as i64 }
}

fn r(x: Fx) -> f32 {
    (x.raw as f64 / 4294967296.0) as f32
}

fn v3(x: f32, y: f32, z: f32) -> Vec3 {
    Vec3::new(f(x), f(y), f(z))
}

/// A hand of palm width 0.25 whose fingers reach up from a level knuckle line.
fn open_hand(x: f32) -> Hand {
    let mut landmarks = [v3(x, 0.75, 0.0); LANDMARK_COUNT];
    for (k, finger) in Finger::ALL.iter().enumerate() {
        let fx = x + 0.0625 * k as f32;
        landmarks[finger.mcp()] = v3(fx, 0.5, 0.0);
        landmarks[finger.pip()] = v3(fx, 0.375, 0.0);
        landmarks[finger.tip()] = v3(fx, 0.25, 0.0);
    }
    landmarks[lm::WRIST] = v3(x + 0.125, 0.75, 0.0);
    Hand { landmarks, handedness: Handedness::Right, score: f(1.0) }
}

#[test]
fn landmarks_of_each_finger() {
    let tips: Vec<usize> = Finger::ALL.iter().map(|g| g.tip()).collect();
    assert_eq!(tips, vec![4, 8, 12, 16, 20]);
    let mcps: Vec<usize> = Finger::ALL.iter().map(|g| g.mcp()).collect();
    assert_eq!(mcps, vec![1, 5, 9, 13, 17]);
    let pips: Vec<usize> = Finger::ALL.iter().map(|g| g.pip()).collect();
    assert_eq!(pips, vec![2, 6, 10, 14, 18]);
    assert_eq!(Finger::Thumb.extended_reference(), Fx::ratio(112, 100));
    assert_eq!(Finger::Pinky.extended_reference(), Fx::ratio(68, 100));
    for (a, b) in BONES {
        assert!(a < LANDMARK_COUNT && b < LANDMARK_COUNT && a != b);
    }
}

#[test]
fn palm_width_is_the_larger_measure() {
    let hand = open_hand(0.25);
    // Wrist to middle knuckle is 0.25 high and level with it.
    assert_eq!(hand.scale(), f(0.25));
    let dot = Hand { landmarks: [Vec3::zero(); LANDMARK_COUNT], ..hand };
    assert_eq!(dot.scale(), Fx::ratio(1, 10000));
}

#[test]
fn pinch_is_in_palm_widths() {
    let hand = open_hand(0.25);
    // Thumb and pinky tips are a palm width apart.
    assert_eq!(hand.pinch_distance(Finger::Thumb, Finger::Pinky), Fx::one());
    assert_eq!(hand.pinch_distance(Finger::Index, Finger::Index), Fx::zero());
}

#[test]
fn measures_do_not_depend_on_place_or_mirroring() {
    let (a, b) = (open_hand(0.25), open_hand(0.5));
    let m = a.mirrored();
    for g in Finger::ALL {
        assert_eq!(a.curl(g), b.curl(g));
        assert_eq!(a.curl(g), m.curl(g));
        assert_eq!(a.is_extended(g), m.is_extended(g));
        assert_eq!(
            a.pinch_distance(g, Finger::Thumb),
            m.pinch_distance(g, Finger::Thumb)
        );
    }
    assert_eq!(m.mirrored().landmarks, a.landmarks);
    assert_eq!(m.point(0).x, Fx { raw: Fx::one().raw - a.point(0).x.raw });
}

#[test]
fn curl_ignores_the_distance_from_the_camera() {
    let a = open_hand(0.25);
    let mut near = a;
    for p in near.landmarks.iter_mut() {
        *p = p.times(Fx::whole(2));
    }
    assert_eq!(near.scale().raw, 2 * a.scale().raw);
    for g in Finger::ALL {
        assert_eq!(near.curl(g), a.curl(g));
        assert_eq!(near.pinch_distance(g, Finger::Thumb), a.pinch_distance(g, Finger::Thumb));
    }
}

#[test]
fn curl_has_exact_ends() {
    let mut hand = open_hand(0.25);
    // A palm width's reach is past extended for every finger but the thumb.
    for g in Finger::ALL {
        if g != Finger::Thumb {
            assert_eq!(hand.curl(g), Fx::zero(), "{g:?}");
        }
    }
    hand.landmarks[lm::MIDDLE_TIP] = hand.landmarks[lm::MIDDLE_MCP];
    assert_eq!(hand.curl(Finger::Middle), Fx::one());
    // 0.616 of a palm width is halfway between 0.88 and 0.352.
    hand.landmarks[lm::MIDDLE_TIP] =
        Vec3::new(hand.landmarks[lm::MIDDLE_MCP].x, f(0.5 - 0.25 * 0.616), f(0.0));
    assert!((r(hand.curl(Finger::Middle)) - 0.5).abs() < 1e-4);
}

#[test]
fn extended_fingers_are_counted() {
    let mut hand = open_hand(0.25);
    assert_eq!(hand.extended_count(), 5);
    hand.landmarks[lm::INDEX_TIP] = hand.landmarks[lm::INDEX_MCP];
    hand.landmarks[lm::PINKY_TIP] = hand.landmarks[lm::PINKY_PIP];
    assert!(!hand.is_extended(Finger::Index));
    assert_eq!(hand.extended_count(), 3);
}

#[test]
fn palm_center_is_the_mean() {
    let hand = open_hand(0.25);
    let c = hand.palm_center();
    // Wrist and four knuckles: x = (0.375 + 0.3125 + 0.375 + 0.4375 + 0.5) / 5.
    assert!((r(c.x) - 0.4).abs() < 1e-6);
    assert!((r(c.y) - 0.55).abs() < 1e-6);
    assert_eq!(hand.wrist(), hand.point(lm::WRIST));
    assert_eq!(hand.tip(Finger::Ring), hand.point(lm::RING_TIP));
}

#[test]
fn frame_finds_hands() {
    let mut left = open_hand(0.6);
    left.handedness = Handedness::Left;
    let right = open_hand(0.1);
    let frame = HandFrame { hands: vec![left, right], seq: 3 };
    assert_eq!(frame.get(Handedness::Left).unwrap().point(0), left.point(0));
    let (a, b) = frame.left_right_pair().unwrap();
    assert_eq!(a.point(0), right.point(0), "order goes by place, not by handedness");
    assert_eq!(b.point(0), left.point(0));
    assert!(HandFrame::default().get(Handedness::Left).is_none());
    assert!(HandFrame::default().max_curl(Finger::Middle).is_none());
    assert_eq!(frame.max_curl(Finger::Middle), Some(Fx::zero()));
    assert_eq!(frame.mirrored().seq, 3);
    assert_eq!(frame.mirrored().hands.len(), 2);
}

#[test]
fn curl_ignores_rotation_and_distance() {
    let hand = open_hand(0.25);
    for (angle, k) in [(0.3f64, 1.0f64), (1.2, 0.5), (2.5, 0.25), (-0.7, 1.5), (3.1, 0.08)] {
        let (c, s) = (k * angle.cos(), k * angle.sin());
        let mut turned = hand;
        for p in turned.landmarks.iter_mut() {
            let x = p.x.raw as f64 / 4294967296.0 - 0.4;
            let y = p.y.raw as f64 / 4294967296.0 - 0.5;
            p.x = Fx { raw: ((c * x - s * y + 0.5) * 4294967296.0) as i64 };
            p.y = Fx { raw: ((s * x + c * y + 0.5) * 4294967296.0) as i64 };
        }
        for finger in Finger::ALL {
            let d = r(turned.curl(finger)) - r(hand.curl(finger));
            assert!(d.abs() <= 1e-3, "{finger:?} at {angle}, {k}: {d}");
            let d = r(turned.pinch_distance(Finger::Thumb, finger))
                - r(hand.pinch_distance(Finger::Thumb, finger));
            assert!(d.abs() <= 1e-3, "{finger:?} at {angle}, {k}: {d}");
        }
    }
}
