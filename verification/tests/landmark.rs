use pawcontrol::fixed::Fx;
use pawcontrol::tracking::hand::{lm, Handedness, LANDMARK_COUNT};
use pawcontrol::tracking::landmark::{
    decode, landmark_rotation, roi_from_landmarks, HAND_BOX_ENLARGE, HAND_BOX_SHIFT, INPUT_SIZE,
    PALM_BOX_ENLARGE,
};
use pawcontrol::tracking::roi::{Heading, Roi};
use pawcontrol::tracking::ssd::first_or;
use pawcontrol::vector::Vec2;

fn f(x: f32) -> Fx {
    Fx { raw: (x as f64 * 4294967296.0) as i64 }
}

fn r(x: Fx) -> f32 {
    (x.raw as f64 / 4294967296.0) as f32
}

fn v2(x: f32, y: f32) -> Vec2 {
    Vec2::new(f(x), f(y))
}

fn angle(h: Heading) -> f32 {
    r(h.sin).atan2(r(h.cos))
}

fn upright_roi() -> Roi {
    Roi { center: v2(320.0, 240.0), side: f(224.0), angle: Heading::level() }
}

#[test]
fn decode_places_crop_center_at_roi_center() {
    // Every landmark at the crop center must land on the ROI center.
    let raw = vec![f(112.0), f(112.0), f(0.0)].repeat(LANDMARK_COUNT);
    let frame = v2(640.0, 480.0);
    let hand = decode(&raw, f(0.99), f(1.0), &upright_roi(), frame).unwrap();
    let p = hand.point(0);
    assert!((r(p.x) - 0.5).abs() < 1e-5, "{p:?}");
    assert!((r(p.y) - 0.5).abs() < 1e-5, "{p:?}");
    assert_eq!(hand.handedness, Handedness::Right);
}

#[test]
fn decode_scales_with_roi_size() {
    // Same crop offset in a 2x larger ROI must move 2x as far in the image.
    let frame = v2(640.0, 480.0);
    let mut raw = vec![f(112.0), f(112.0), f(0.0)].repeat(LANDMARK_COUNT);
    raw[0] = f(224.0); // landmark 0 at the right edge of the crop

    let small = decode(&raw, f(1.0), f(0.0), &upright_roi(), frame).unwrap();
    let big_roi = Roi { side: f(448.0), ..upright_roi() };
    let big = decode(&raw, f(1.0), f(0.0), &big_roi, frame).unwrap();

    let d_small = r(small.point(0).x) - 0.5;
    let d_big = r(big.point(0).x) - 0.5;
    assert!((d_big - d_small * 2.0).abs() < 1e-5, "{d_small} {d_big}");
}

#[test]
fn rotation_is_zero_for_upward_hand() {
    let mut pts = [Vec2::zero(); LANDMARK_COUNT];
    pts[lm::WRIST] = v2(100.0, 200.0);
    pts[lm::MIDDLE_MCP] = v2(100.0, 100.0); // straight up (y is down)
    assert!(angle(landmark_rotation(&pts)).abs() < 1e-6);
}

#[test]
fn rotation_is_quarter_turn_for_rightward_hand() {
    let mut pts = [Vec2::zero(); LANDMARK_COUNT];
    pts[lm::WRIST] = v2(100.0, 100.0);
    pts[lm::MIDDLE_MCP] = v2(200.0, 100.0); // pointing right
    let a = angle(landmark_rotation(&pts));
    assert!((a - std::f32::consts::FRAC_PI_2).abs() < 1e-6, "{a}");
}

#[test]
fn hand_tensor_that_is_too_short_is_rejected() {
    let raw = vec![f(1.0); 62];
    assert!(decode(&raw, f(1.0), f(1.0), &upright_roi(), v2(640.0, 480.0)).is_none());
}

#[test]
fn handedness_splits_at_one_half() {
    let raw = vec![f(0.0); 63];
    let side = |h: f32| {
        decode(&raw, f(1.0), f(h), &upright_roi(), v2(640.0, 480.0)).unwrap().handedness
    };
    assert_eq!(side(0.0), Handedness::Left);
    assert_eq!(side(0.49), Handedness::Left);
    assert_eq!(side(0.5), Handedness::Right);
    assert_eq!(side(1.0), Handedness::Right);
}

#[test]
fn decode_has_exact_values() {
    // Crop pixel (0, 224) in a crop twice the model's size: offset (-224, 224).
    let raw = vec![f(0.0), f(224.0), f(32.0)].repeat(LANDMARK_COUNT);
    let roi = Roi { side: f(448.0), ..upright_roi() };
    let hand = decode(&raw, f(0.7), f(0.0), &roi, v2(640.0, 480.0)).unwrap();
    assert_eq!(hand.score, f(0.7));
    let p = hand.landmarks[20];
    assert_eq!(p.x, Fx::ratio(96, 640));
    assert_eq!(p.y, Fx::ratio(464, 480));
    assert_eq!(p.z, Fx::ratio(64, 640));
}

#[test]
fn joints_land_where_their_texel_was_sampled() {
    let roi = Roi {
        center: v2(100.0, 50.0),
        side: f(300.0),
        angle: Heading { cos: f(0.6), sin: f(0.8) },
    };
    let frame = v2(1.0, 1.0);
    let mut raw = vec![f(0.0); 63];
    raw[0] = f(10.5);
    raw[1] = f(200.5);
    let hand = decode(&raw, f(1.0), f(1.0), &roi, frame).unwrap();
    assert_eq!(hand.point(0), roi.texel(10, 200, INPUT_SIZE));
}

#[test]
fn next_crop_encloses_the_hand() {
    let mut pts = vec![v2(100.0, 100.0); LANDMARK_COUNT];
    pts[lm::WRIST] = v2(100.0, 200.0);
    pts[lm::MIDDLE_MCP] = v2(100.0, 150.0);
    pts[20] = v2(140.0, 120.0);
    let roi = roi_from_landmarks(&pts);
    assert_eq!(roi.angle, Heading::level());
    // 40 x 100, enlarged by 1.65 and shifted up by a tenth of the height.
    assert!((r(roi.side) - 165.0).abs() < 1e-3);
    assert!((r(roi.center.x) - 120.0).abs() < 1e-3);
    assert!((r(roi.center.y) - 140.0).abs() < 1e-3);
}

#[test]
fn crop_constants() {
    assert_eq!(r(Fx { raw: PALM_BOX_ENLARGE }), 3.0);
    assert!((r(Fx { raw: HAND_BOX_ENLARGE }) - 1.65).abs() < 1e-6);
    assert_eq!(HAND_BOX_SHIFT.0, 0);
    assert!((r(Fx { raw: HAND_BOX_SHIFT.1 }) + 0.1).abs() < 1e-6);
}

#[test]
fn missing_scalars_take_their_default() {
    assert_eq!(first_or(&[], f(1.0)), f(1.0));
    assert_eq!(first_or(&[f(0.25), f(0.5)], f(1.0)), f(0.25));
}
