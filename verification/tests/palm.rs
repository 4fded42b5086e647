use pawcontrol::fixed::Fx;
use pawcontrol::tracking::palm::{
    decode, nms, Anchors, Letterbox, PalmDetection, NUM_ANCHORS, NUM_KEYPOINTS, VALUES_PER_BOX,
};
use pawcontrol::tracking::roi::Heading;
use pawcontrol::tracking::ssd::check_boxes;
use pawcontrol::vector::Vec2;

fn f(x: f32) -> Fx {
    Fx { raw: (x as f64 * 4294967296.0) as i64 }
}

fn r(x: Fx) -> f32 {
    (x.raw as f64 / 4294967296.0) as f32
}

fn v2(x: f32, y: f32) -> Vec2 {
    Vec2::new(f(x), f(y))
}

/// The raw score that stands for a probability.
fn logit(p: f64) -> Fx {
    Fx { raw: ((p / (1.0 - p)).ln() * 4294967296.0) as i64 }
}

#[test]
fn anchor_count_matches_model() {
    assert_eq!(Anchors::new().len(), NUM_ANCHORS);
}

#[test]
fn letterbox_roundtrips_center() {
    let lb = Letterbox::fit(640, 480);
    // Center of the padded square must land on the center of the frame.
    let p = lb.to_pixels(v2(0.5, 0.5));
    assert!((r(p.x) - 320.0).abs() < 0.01, "x was {}", r(p.x));
    assert!((r(p.y) - 240.0).abs() < 0.01, "y was {}", r(p.y));
}

fn mk(score: f32, x: f32) -> PalmDetection {
    PalmDetection {
        score: f(score),
        center: v2(x, 0.0),
        size: v2(10.0, 10.0),
        keypoints: [Vec2::zero(); NUM_KEYPOINTS],
    }
}

#[test]
fn nms_drops_overlapping_boxes() {
    // Two nearly-identical boxes plus one far away.
    let out = nms(vec![mk(0.9, 0.0), mk(0.8, 1.0), mk(0.7, 100.0)], f(0.3), 4);
    assert_eq!(out.len(), 2);
    assert_eq!(out[0].score, f(0.9));
}

#[test]
fn nms_keeps_the_best_first() {
    let out = nms(vec![mk(0.2, 0.0), mk(0.9, 50.0), mk(0.5, 100.0)], f(0.3), 4);
    let scores: Vec<Fx> = out.iter().map(|d| d.score).collect();
    assert_eq!(scores, vec![f(0.9), f(0.5), f(0.2)]);
}

#[test]
fn nms_stops_at_the_limit() {
    let dets: Vec<PalmDetection> = (0..6).map(|i| mk(0.5, 50.0 * i as f32)).collect();
    assert_eq!(nms(dets.clone(), f(0.3), 2).len(), 2);
    assert_eq!(nms(dets.clone(), f(0.3), 0).len(), 0);
    // Equal scores keep their order.
    let out = nms(dets, f(0.3), 6);
    let xs: Vec<f32> = out.iter().map(|d| r(d.center.x)).collect();
    assert_eq!(xs, vec![0.0, 50.0, 100.0, 150.0, 200.0, 250.0]);
}

#[test]
fn overlap_at_the_threshold_suppresses() {
    // Two 10-wide boxes 5 apart share 50 of 150: a third.
    let third = Fx::ratio(1, 3);
    let pair = || vec![mk(0.9, 0.0), mk(0.8, 5.0)];
    assert_eq!(nms(pair(), third, 4).len(), 1);
    assert_eq!(nms(pair(), Fx { raw: third.raw + 1 }, 4).len(), 2);
}

#[test]
fn boxes_without_area_never_overlap() {
    let mut a = mk(0.9, 0.0);
    a.size = Vec2::zero();
    assert_eq!(nms(vec![a, a], f(0.3), 4).len(), 2);
    assert!(nms(Vec::new(), f(0.3), 4).is_empty());
}

#[test]
fn rows_are_read_against_their_anchors() {
    let mut scores = vec![logit(0.2); NUM_ANCHORS];
    let mut boxes = vec![Fx::zero(); NUM_ANCHORS * VALUES_PER_BOX];
    // Row 1152 is the first of the coarse grid: its anchor is (1/24, 1/24).
    scores[1152] = logit(0.75);
    let at = 1152 * VALUES_PER_BOX;
    boxes[at] = f(88.0);
    boxes[at + 1] = f(88.0);
    boxes[at + 2] = f(48.0);
    boxes[at + 3] = f(96.0);
    boxes[at + 4] = f(-8.0); // palm base at the corner of the square
    boxes[at + 5] = f(-8.0);
    boxes[at + 16] = f(184.0); // last keypoint at its other corner
    boxes[at + 17] = f(184.0);
    let lb = Letterbox::fit(640, 480);
    let out = decode(&boxes, &scores, &Anchors::new(), lb, f(0.5));
    assert_eq!(out.len(), 1);
    let d = out[0];
    assert!((r(d.score) - 0.75).abs() < 1e-6);
    assert!((r(d.center.x) - 320.0).abs() < 1e-3 && (r(d.center.y) - 240.0).abs() < 1e-3);
    assert!((r(d.size.x) - 160.0).abs() < 1e-3 && (r(d.size.y) - 320.0).abs() < 1e-3);
    assert!(r(d.keypoints[0].x).abs() < 1e-3 && (r(d.keypoints[0].y) + 80.0).abs() < 1e-3);
    assert!((r(d.keypoints[6].x) - 640.0).abs() < 1e-3);
    assert!((r(d.keypoints[6].y) - 560.0).abs() < 1e-3);
}

#[test]
fn only_confident_rows_are_decoded() {
    let mut scores = vec![logit(0.49); 10];
    scores[3] = Fx::zero();
    scores[7] = logit(0.9);
    let boxes = vec![Fx::zero(); 8 * VALUES_PER_BOX];
    assert!(check_boxes(boxes.len(), &scores, NUM_ANCHORS, VALUES_PER_BOX, f(0.5)));
    let out = decode(&boxes, &scores, &Anchors::default(), Letterbox::fit(64, 64), f(0.5));
    assert_eq!(out.len(), 2);
    assert_eq!(out[0].score, f(0.5));
    assert!((r(out[1].score) - 0.9).abs() < 1e-6);
}

#[test]
fn missing_boxes_are_noticed() {
    let mut scores = vec![f(-20.0); 10];
    scores[7] = logit(0.9);
    let enough = 8 * VALUES_PER_BOX;
    assert!(check_boxes(enough, &scores, NUM_ANCHORS, VALUES_PER_BOX, f(0.5)));
    assert!(!check_boxes(enough - 1, &scores, NUM_ANCHORS, VALUES_PER_BOX, f(0.5)));
    // A row without an anchor is not decoded, so it needs no box.
    assert!(check_boxes(0, &scores, 7, VALUES_PER_BOX, f(0.5)));
}

#[test]
fn palm_rotation_points_up_the_hand() {
    let mut d = mk(0.9, 0.0);
    d.keypoints[0] = v2(10.0, 10.0);
    d.keypoints[2] = v2(10.0, 0.0);
    assert_eq!(d.rotation(), Heading::level());
    d.keypoints[2] = v2(20.0, 10.0);
    assert_eq!(d.rotation(), Heading { cos: Fx::zero(), sin: Fx::one() });
    d.keypoints[2] = v2(10.0, 10.0);
    assert_eq!(d.rotation(), Heading { cos: Fx::zero(), sin: Fx::one() });
}

#[test]
fn letterbox_pads_the_short_side() {
    let lb = Letterbox::fit(640, 480);
    assert!((r(lb.scale()) - 0.3).abs() < 1e-6);
    assert!((r(lb.pad().x)).abs() < 1e-4);
    assert!((r(lb.pad().y) - 24.0).abs() < 1e-4);
    assert_eq!(lb.to_pixels(v2(0.0, 0.0)), v2(0.0, -80.0));
    assert_eq!(lb.to_pixels(v2(1.0, 1.0)), v2(640.0, 560.0));
    // Lengths carry the scale but not the padding.
    assert_eq!(lb.len_to_pixels(v2(0.5, 0.5)), v2(320.0, 320.0));
    let tall = Letterbox::fit_to(480, 640, 256);
    assert_eq!(tall.to_pixels(v2(0.0, 0.0)), v2(-80.0, 0.0));
    assert!((r(tall.scale()) - 0.4).abs() < 1e-6);
}

#[test]
fn frame_points_survive_the_letterbox() {
    for (w, h) in [(640, 480), (480, 640), (1920, 1080), (1, 10000), (7, 3)] {
        let lb = Letterbox::fit(w, h);
        for (a, b) in [(0.0f32, 0.0f32), (1.0, 1.0), (0.3, 0.8), (0.999, 0.001)] {
            let q = v2(a * w as f32, b * h as f32);
            let p = q.times(lb.scale()).plus(lb.pad()).over(lb.size);
            let back = lb.to_pixels(p);
            assert!((r(back.x) - r(q.x)).abs() <= 0.01, "{w}x{h} at {a}, {b}");
            assert!((r(back.y) - r(q.y)).abs() <= 0.01, "{w}x{h} at {a}, {b}");
        }
    }
}
