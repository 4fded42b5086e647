use pawcontrol::fixed::Fx;
use pawcontrol::frame::Frame;
use pawcontrol::tracking::face::detect::{
    decode_head, Anchors, FaceDetection, KP_LEFT_EYE, KP_RIGHT_EYE, NUM_KEYPOINTS,
};
use pawcontrol::tracking::face::eye::{
    aspect_ratio, lm, BlinkConfig, BlinkDetector, BlinkEvent, Eye,
};
use pawcontrol::tracking::face::landmark::{decode, LANDMARK_COUNT};
use pawcontrol::tracking::face::{
    mesh_rotation, FaceFrame, FaceSettings, FaceStep, FaceTracker,
};
use pawcontrol::tracking::roi::{Heading, Roi};
use pawcontrol::tracking::ssd::{check_boxes, Letterbox};
use pawcontrol::vector::Vec2;

fn f(x: f32) -> Fx {
    Fx { raw: (x as f64 * 4294967296.0) as i64 }
}

fn r(x: Fx) -> f32 {
    (x.raw as f64 / 4294967296.0) as f32
}

fn v2(x: f32, y: f32) -> Vec2 {
    Vec2::new(f(x), f(y))
}

/// The raw score that stands for a probability.
fn logit(p: f64) -> Fx {
    Fx { raw: ((p / (1.0 - p)).ln() * 4294967296.0) as i64 }
}

fn angle(h: Heading) -> f32 {
    r(h.sin).atan2(r(h.cos))
}

#[test]
fn anchor_counts_match_the_two_heads() {
    let a = Anchors::new();
    assert_eq!(a.head(0).len(), 512, "stride-16 head");
    assert_eq!(a.head(1).len(), 384, "stride-32 head");
}

#[test]
fn rotation_is_zero_for_level_eyes() {
    let mut keypoints = [Vec2::zero(); NUM_KEYPOINTS];
    keypoints[KP_RIGHT_EYE] = v2(100.0, 50.0);
    keypoints[KP_LEFT_EYE] = v2(140.0, 50.0);
    let d = FaceDetection {
        score: f(1.0),
        center: v2(120.0, 60.0),
        size: v2(80.0, 80.0),
        keypoints,
    };
    assert!(angle(d.rotation()).abs() < 1e-6, "{}", angle(d.rotation()));
}

#[test]
fn rotation_follows_a_tilted_head() {
    // Left eye lower on screen => head rolled clockwise => negative angle.
    let mut keypoints = [Vec2::zero(); NUM_KEYPOINTS];
    keypoints[KP_RIGHT_EYE] = v2(100.0, 50.0);
    keypoints[KP_LEFT_EYE] = v2(140.0, 90.0);
    let d = FaceDetection {
        score: f(1.0),
        center: v2(120.0, 70.0),
        size: v2(80.0, 80.0),
        keypoints,
    };
    let expected = -std::f32::consts::FRAC_PI_4;
    assert!((angle(d.rotation()) - expected).abs() < 1e-5, "{}", angle(d.rotation()));
}

/// A synthetic eye: `gap` is the lid separation, width fixed at 1.0.
fn eye_landmarks(gap: f32) -> Vec<Vec2> {
    let mut pts = vec![Vec2::zero(); 468];
    let idx = lm::RIGHT_EYE;
    pts[idx[0]] = v2(0.0, 0.0); // outer corner
    pts[idx[3]] = v2(1.0, 0.0); // inner corner
    pts[idx[1]] = v2(0.33, -gap / 2.0);
    pts[idx[2]] = v2(0.66, -gap / 2.0);
    pts[idx[5]] = v2(0.33, gap / 2.0);
    pts[idx[4]] = v2(0.66, gap / 2.0);
    pts
}

#[test]
fn aspect_ratio_matches_the_lid_gap() {
    // Width 1.0, both lid gaps equal `gap`, so EAR == gap.
    let ear = r(aspect_ratio(&eye_landmarks(0.3), Eye::Right).unwrap());
    assert!((ear - 0.3).abs() < 1e-5, "{ear}");
}

#[test]
fn aspect_ratio_is_scale_free() {
    // Doubling the whole eye must not change the ratio.
    let small = r(aspect_ratio(&eye_landmarks(0.3), Eye::Right).unwrap());
    let mut big = eye_landmarks(0.3);
    for p in big.iter_mut() {
        *p = p.times(f(3.0));
    }
    let large = r(aspect_ratio(&big, Eye::Right).unwrap());
    assert!((small - large).abs() < 1e-5, "{small} vs {large}");
}

fn tick() -> Fx {
    f(1.0 / 60.0)
}

#[test]
fn short_blink_does_not_fire() {
    let cfg = BlinkConfig::default();
    let mut d = BlinkDetector::default();
    // Shut for 0.3s: an ordinary involuntary blink.
    for _ in 0..18 {
        assert!(d.update(Some(f(0.1)), tick(), &cfg).is_none());
    }
    // Then open again.
    assert!(d.update(Some(f(0.3)), tick(), &cfg).is_none());
}

#[test]
fn long_blink_fires_once() {
    let cfg = BlinkConfig::default();
    let mut d = BlinkDetector::default();
    let mut fired = 0;
    // Held shut for a full second, well past hold_secs.
    for _ in 0..60 {
        if d.update(Some(f(0.1)), tick(), &cfg).is_some() {
            fired += 1;
        }
    }
    assert_eq!(fired, 1, "long blink should fire exactly once while held");
}

#[test]
fn reopening_allows_another_blink() {
    let cfg = BlinkConfig::default();
    let mut d = BlinkDetector::default();
    for _ in 0..60 {
        d.update(Some(f(0.1)), tick(), &cfg);
    }
    // Open well past the hysteresis threshold, then blink again.
    d.update(Some(f(0.35)), tick(), &cfg);
    let mut fired = 0;
    for _ in 0..60 {
        if d.update(Some(f(0.1)), tick(), &cfg).is_some() {
            fired += 1;
        }
    }
    assert_eq!(fired, 1);
}

#[test]
fn hysteresis_keeps_a_marginal_eye_shut() {
    let cfg = BlinkConfig::default();
    let mut d = BlinkDetector::default();
    d.update(Some(f(0.1)), tick(), &cfg); // closed
    // Between close_below and open_above: must still count as closed.
    for _ in 0..60 {
        d.update(Some(f(0.21)), tick(), &cfg);
    }
    assert!(r(d.closed_for()) > 0.5, "reopened too eagerly");
}

#[test]
fn losing_the_face_resets_rather_than_counting_as_closed() {
    let cfg = BlinkConfig::default();
    let mut d = BlinkDetector::default();
    for _ in 0..20 {
        d.update(Some(f(0.1)), tick(), &cfg);
    }
    // Face lost part-way through a closure.
    assert!(d.update(None, tick(), &cfg).is_none());
    assert_eq!(r(d.closed_for()), 0.0, "a lost face must not accumulate");
    // And it must not fire on the next frame either.
    assert!(d.update(Some(f(0.1)), tick(), &cfg).is_none());
}

#[test]
fn blink_is_reported_as_a_long_blink() {
    let cfg = BlinkConfig::default();
    let mut d = BlinkDetector::default();
    assert!(d.update(Some(f(0.1)), f(1.0), &cfg).is_none());
    assert_eq!(d.update(Some(f(0.1)), f(1.0), &cfg), Some(BlinkEvent::LongBlink));
}

#[test]
fn unmeasurable_eyes_read_as_none() {
    assert!(aspect_ratio(&[Vec2::zero(); 160], Eye::Right).is_none(), "mesh too short");
    assert!(aspect_ratio(&[Vec2::zero(); 387], Eye::Left).is_none(), "mesh too short");
    assert!(aspect_ratio(&[Vec2::zero(); 468], Eye::Left).is_none(), "no width");
    assert_eq!(Eye::Right.landmarks(), lm::RIGHT_EYE);
    assert_eq!(Eye::Left.landmarks(), lm::LEFT_EYE);
}

fn roi() -> Roi {
    Roi { center: v2(320.0, 240.0), side: f(192.0), angle: Heading::level() }
}

#[test]
fn crop_centre_maps_to_roi_centre() {
    // 0.5 is the centre in normalized crop space.
    let raw = vec![f(0.5), f(0.5), f(0.0)].repeat(LANDMARK_COUNT);
    let pts = decode(&raw, &roi()).unwrap();
    assert_eq!(pts.len(), LANDMARK_COUNT);
    assert!(r(pts[0].minus(roi().center).length()) < 1e-4, "{:?}", pts[0]);
}

#[test]
fn mesh_spans_the_crop_at_full_scale() {
    // A point at the crop's right edge must land half a side away, not a
    // fraction of a pixel: this is the scale the ratio-based eye tests
    // cannot see.
    let mut raw = vec![f(0.5), f(0.5), f(0.0)].repeat(LANDMARK_COUNT);
    raw[0] = f(1.0); // landmark 0 at the right edge
    raw[1] = f(0.0); // and the top edge
    let pts = decode(&raw, &roi()).unwrap();
    let w = roi();
    assert!(
        (r(pts[0].x) - (r(w.center.x) + r(w.side) * 0.5)).abs() < 1e-3,
        "x landed at {} not {}",
        r(pts[0].x),
        r(w.center.x) + r(w.side) * 0.5
    );
    assert!(
        (r(pts[0].y) - (r(w.center.y) - r(w.side) * 0.5)).abs() < 1e-3,
        "y landed at {}",
        r(pts[0].y)
    );
}

#[test]
fn short_tensor_is_rejected() {
    let roi = Roi { center: Vec2::zero(), side: f(1.0), angle: Heading::level() };
    assert!(decode(&[f(0.0); 30], &roi).is_none());
    assert!(decode(&[f(0.0); 468 * 3 - 1], &roi).is_none());
    assert!(decode(&[f(0.0); 468 * 3], &roi).is_some());
}

/// One confident row in the second head: a face in the middle of the frame.
fn second_head(eye_drop: f32) -> (Vec<Fx>, Vec<Fx>) {
    let mut scores = vec![logit(0.1); 384];
    let mut boxes = vec![Fx::zero(); 384 * 16];
    // Row 216 lies in cell 36: column 4, row 4 of 8, so at (0.5625, 0.5625).
    scores[216] = logit(0.9);
    let at = 216 * 16;
    boxes[at] = f(-16.0);
    boxes[at + 1] = f(-16.0);
    boxes[at + 2] = f(64.0);
    boxes[at + 3] = f(64.0);
    boxes[at + 4] = f(-32.0); // right eye
    boxes[at + 5] = f(-16.0);
    boxes[at + 6] = f(0.0); // left eye
    boxes[at + 7] = f(-16.0 + eye_drop);
    (boxes, scores)
}

#[test]
fn head_rows_are_read_against_their_anchors() {
    let (boxes, scores) = second_head(0.0);
    let lb = Letterbox::fit_to(640, 480, 256);
    let anchors = Anchors::new();
    let mut out = Vec::new();
    decode_head(&boxes, &scores, anchors.head(1), lb, f(0.6), &mut out);
    assert_eq!(out.len(), 1);
    let d = out[0];
    assert!((r(d.score) - 0.9).abs() < 1e-6);
    // 0.5625 - 16/256 = 0.5 of the padded square: the middle of the frame.
    assert_eq!(d.center, v2(320.0, 240.0));
    assert_eq!(d.size, v2(160.0, 160.0));
    assert_eq!(d.keypoints[KP_RIGHT_EYE], v2(280.0, 240.0));
    assert_eq!(d.keypoints[KP_LEFT_EYE], v2(360.0, 240.0));
}

#[test]
fn tracker_looks_for_a_face_every_few_frames() {
    let mut t = FaceTracker::new();
    let settings = FaceSettings::default();
    let steps: Vec<FaceStep> = (0..12).map(|_| t.begin(&settings)).collect();
    for (i, s) in steps.iter().enumerate() {
        let expected = if (i + 1) % 6 == 0 { FaceStep::Detect } else { FaceStep::Idle };
        assert_eq!(*s, expected, "frame {}", i + 1);
    }
}

#[test]
fn tracker_follows_and_loses_a_face() {
    let mut t = FaceTracker::new();
    let mut settings = FaceSettings::default();
    settings.redetect_interval = 1;
    let frame = Frame::new(640, 480);
    assert_eq!(t.begin(&settings), FaceStep::Detect);
    let none = vec![f(-20.0); 512];
    let (boxes, scores) = second_head(0.0);
    assert!(check_boxes(boxes.len(), &scores, 384, 16, settings.detect_threshold));
    let step = t.detected(&frame, &[], &none, &boxes, &scores, &settings);
    let FaceStep::Mesh(crop) = step else { panic!("{step:?}") };
    // The box, half as large again.
    assert_eq!(crop.center, v2(320.0, 240.0));
    assert_eq!(crop.side, f(240.0));
    assert_eq!(crop.angle, Heading::level());

    // A confident mesh is reported, and followed next frame.
    let mut raw = vec![f(0.5), f(0.5), f(0.0)].repeat(LANDMARK_COUNT);
    raw[0] = f(0.0);
    raw[3] = f(1.0);
    let out = t.finish(&frame, &crop, &raw, f(0.8), &settings);
    let face = out.first().expect("a face");
    assert_eq!(face.score, f(0.8));
    assert_eq!(face.landmarks.len(), LANDMARK_COUNT);
    assert!((r(face.landmarks[5].x) - 0.5).abs() < 1e-6);
    assert!((r(face.landmarks[0].x) - 200.0 / 640.0).abs() < 1e-6);
    let FaceStep::Mesh(next) = t.begin(&settings) else { panic!("not followed") };
    assert!((r(next.side) - 240.0 * 1.4).abs() < 1e-3);

    // An unsure one loses it.
    let lost = t.finish(&frame, &next, &raw, f(0.39), &settings);
    assert!(lost.first().is_none());
    assert_eq!(t.begin(&settings), FaceStep::Detect);
    // So does a tensor that is too short.
    t.detected(&frame, &[], &none, &boxes, &scores, &settings);
    assert!(t.finish(&frame, &next, &raw[..9], f(0.8), &settings).first().is_none());
    assert_eq!(t.begin(&settings), FaceStep::Detect);
}

#[test]
fn crop_of_a_tilted_face_is_upright() {
    let mut t = FaceTracker::new();
    let mut settings = FaceSettings::default();
    settings.redetect_interval = 1;
    let frame = Frame::new(640, 480);
    t.begin(&settings);
    // The left eye is lower on screen by as much as it is to the right.
    let (boxes, scores) = second_head(32.0);
    let FaceStep::Mesh(crop) = t.detected(&frame, &[], &[], &boxes, &scores, &settings) else {
        panic!("no face")
    };
    // The crop's own +x axis runs along the eyes.
    let (u, _) = crop.axes();
    assert!((r(u.x) - std::f32::consts::FRAC_1_SQRT_2).abs() < 1e-6);
    assert!((r(u.y) - std::f32::consts::FRAC_1_SQRT_2).abs() < 1e-6);
}

#[test]
fn no_confident_row_finds_no_face() {
    let mut t = FaceTracker::new();
    let settings = FaceSettings::default();
    let frame = Frame::new(640, 480);
    let weak = logit(0.5);
    let step = t.detected(&frame, &[], &vec![weak; 512], &[], &vec![weak; 384], &settings);
    assert_eq!(step, FaceStep::Idle);
}

#[test]
fn disabled_tracker_forgets_the_face() {
    let mut t = FaceTracker::new();
    let mut settings = FaceSettings::default();
    settings.redetect_interval = 0;
    let frame = Frame::new(640, 480);
    let (boxes, scores) = second_head(0.0);
    assert_eq!(t.begin(&settings), FaceStep::Detect);
    t.detected(&frame, &[], &[], &boxes, &scores, &settings);
    settings.enabled = false;
    assert_eq!(t.begin(&settings), FaceStep::Idle);
    settings.enabled = true;
    assert_eq!(t.begin(&settings), FaceStep::Detect);
}

#[test]
fn mesh_roll_follows_the_eye_corners() {
    let mut pts = vec![Vec2::zero(); 468];
    assert_eq!(mesh_rotation(&pts), Heading::level());
    pts[33] = v2(10.0, 10.0);
    pts[263] = v2(13.0, 14.0);
    let h = mesh_rotation(&pts);
    assert!((r(h.cos) - 0.6).abs() < 1e-6 && (r(h.sin) - 0.8).abs() < 1e-6);
    assert_eq!(mesh_rotation(&pts[..263]), Heading::level());
}

#[test]
fn network_inputs_have_the_models_shape() {
    let mut frame = Frame::new(64, 48);
    frame.rgba.fill(255);
    let mut out = Vec::new();
    FaceTracker::detect_input(&frame, &mut out);
    assert_eq!(out.len(), 3 * 256 * 256);
    // Padding above the picture is black, the picture itself is white.
    assert_eq!(out[128], Fx::zero());
    assert_eq!(out[128 * 256 + 128], Fx::one());
    FaceTracker::mesh_input(&frame, &roi(), &mut out);
    assert_eq!(out.len(), 3 * 192 * 192);
    assert_eq!(out[0], Fx::one());
}

#[test]
fn face_defaults() {
    let s = FaceSettings::default();
    assert!(s.enabled);
    assert_eq!(s.detect_threshold, Fx::ratio(6, 10));
    assert_eq!(s.presence_threshold, Fx::ratio(4, 10));
    assert_eq!(s.redetect_interval, 6);
    assert_eq!(s.track_roi_scale, Fx::ratio(14, 10));
    assert!(FaceFrame::default().first().is_none());
}

#[test]
fn openness_ignores_distance() {
    let mut near = vec![v2(0.0, 0.0); LANDMARK_COUNT];
    for (i, k) in lm::RIGHT_EYE.iter().enumerate() {
        near[*k] = [
            v2(-0.3, 0.1),
            v2(-0.17, 0.031),
            v2(0.02, 0.029),
            v2(0.11, 0.13),
            v2(0.03, 0.171),
            v2(-0.15, 0.19),
        ][i];
    }
    let x = aspect_ratio(&near, Eye::Right).unwrap();
    for k in [1.0, 1.7, 3.0, 42.5, 100.0] {
        let nearer: Vec<Vec2> = near.iter().map(|p| p.times(f(k))).collect();
        let y = aspect_ratio(&nearer, Eye::Right).unwrap();
        assert!((y.raw - x.raw).abs() < 42949, "at {k}: {x:?} {y:?}");
    }
}

#[test]
fn every_long_blink_needs_its_own_closure() {
    let cfg = BlinkConfig::default();
    let mut d = BlinkDetector::default();
    let mut opened = true;
    // Shut for a second, open for a tenth, again and again.
    for i in 0..200 {
        let shut = i % 11 != 10;
        let ear = if shut { f(0.1) } else { f(0.3) };
        opened = opened || !shut;
        if d.update(Some(ear), f(0.1), &cfg).is_some() {
            assert!(opened, "frame {i}: no reopening since the last long blink");
            assert!(i % 11 >= 7, "frame {i}: shut for too short a time");
            opened = false;
        }
    }
    assert!(!opened || d.closed);
}
