use pawcontrol::fixed::Fx;
use pawcontrol::frame::Frame;
use pawcontrol::region::Region;
use pawcontrol::render::overlay::{build_lines, grow, tip_color, LineInstance, Rgba};
use pawcontrol::render::{
    assemble, initial_size, pick_format, pipeline_index, resized, surface_action, CameraTexture,
    Globals, Outline, SurfaceAction, SurfaceStatus, Upload,
};
use pawcontrol::tracking::hand::{lm, Finger, Hand, HandFrame, Handedness, BONES, LANDMARK_COUNT};
use pawcontrol::vector::{Vec2, Vec3};

fn p(x: i32, y: i32) -> Vec2 {
    Vec2::new(Fx::whole(x), Fx::whole(y))
}

fn outline() -> Outline {
    Outline {
        show: true,
        color: [Fx::ratio(1, 2), Fx::zero(), Fx::one()],
        width: Fx::whole(3),
    }
}

#[test]
fn globals_carry_the_scene() {
    let region = Region::Quad([p(1, 2), p(3, 4), p(5, 6), p(7, 8)]);
    let params = [Fx::whole(9), Fx::whole(10), Fx::whole(11), Fx::whole(12)];
    let g = Globals::compose(&region, 800, 600, Fx::whole(5), params, false, &outline());
    assert_eq!(g.quad_a, [Fx::whole(1), Fx::whole(2), Fx::whole(3), Fx::whole(4)]);
    assert_eq!(g.quad_b, [Fx::whole(5), Fx::whole(6), Fx::whole(7), Fx::whole(8)]);
    assert_eq!(g.view, [Fx::whole(800), Fx::whole(600), Fx::whole(5), Fx::one()]);
    assert_eq!(g.params, params);
    assert_eq!(g.outline, [Fx::ratio(1, 2), Fx::zero(), Fx::one(), Fx::whole(3)]);
    assert_eq!(g.flags, [Fx::zero(), Fx::one(), Fx::zero(), Fx::zero()]);
}

#[test]
fn globals_without_a_region() {
    let params = [Fx::zero(); 4];
    let mut o = outline();
    o.show = false;
    let g = Globals::compose(&Region::Empty, 1, 1, Fx::zero(), params, true, &o);
    assert_eq!(g.quad_a, [Fx::zero(); 4]);
    assert_eq!(g.quad_b, [Fx::zero(); 4]);
    assert_eq!(g.view[3], Fx::zero());
    assert_eq!(g.flags, [Fx::one(), Fx::zero(), Fx::zero(), Fx::zero()]);
    let d = Globals::default();
    assert_eq!(d.outline[3], Fx::ratio(12, 10));
    assert_eq!(d.flags[1], Fx::one());
    assert_eq!(d.view, [Fx::one(), Fx::one(), Fx::zero(), Fx::zero()]);
}

fn frame(w: u32, h: u32, seq: u64) -> Frame {
    let mut f = Frame::new(w, h);
    f.seq = seq;
    f
}

#[test]
fn frames_are_uploaded_once() {
    let mut t = CameraTexture::new((4, 2));
    assert_eq!(t.receive(&frame(4, 2, 1)), Upload::Write);
    assert_eq!(t.receive(&frame(4, 2, 1)), Upload::Skip);
    assert_eq!(t.receive(&frame(4, 2, 2)), Upload::Write);
    // A new resolution makes a new texture, once.
    assert_eq!(t.receive(&frame(8, 6, 3)), Upload::Resize);
    assert_eq!(t.size, (8, 6));
    assert_eq!(t.receive(&frame(8, 6, 4)), Upload::Write);
}

#[test]
fn transient_surface_states_skip_a_frame() {
    let cases = [
        (SurfaceStatus::Success, SurfaceAction::Draw),
        (SurfaceStatus::Suboptimal, SurfaceAction::DrawThenReconfigure),
        (SurfaceStatus::Outdated, SurfaceAction::ReconfigureAndSkip),
        (SurfaceStatus::Lost, SurfaceAction::ReconfigureAndSkip),
        (SurfaceStatus::Timeout, SurfaceAction::Skip),
        (SurfaceStatus::Occluded, SurfaceAction::Skip),
        (SurfaceStatus::Failed, SurfaceAction::Fail),
    ];
    for (status, action) in cases {
        assert_eq!(surface_action(status), action);
    }
}

#[test]
fn minimized_windows_are_not_configured() {
    assert_eq!(resized(0, 5), None);
    assert_eq!(resized(5, 0), None);
    assert_eq!(resized(5, 7), Some((5, 7)));
}

#[test]
fn pipelines_are_picked_in_range() {
    assert_eq!(pipeline_index(2, 5), Some(2));
    assert_eq!(pipeline_index(7, 5), Some(4));
    assert_eq!(pipeline_index(0, 0), None);
}

#[test]
fn shader_body_sits_between_the_preludes() {
    assert_eq!(assemble("head", "body", "tail"), "head\nbody\ntail");
}

fn hand() -> Hand {
    let mut landmarks = [Vec3::zero(); LANDMARK_COUNT];
    for (i, q) in landmarks.iter_mut().enumerate() {
        *q = Vec3::new(Fx::ratio(i as i32, 32), Fx::ratio(1, 2), Fx::zero());
    }
    Hand { landmarks, handedness: Handedness::Left, score: Fx::one() }
}

#[test]
fn skeleton_draws_bones_and_fingertips() {
    let frame = HandFrame { hands: vec![hand(), hand()], seq: 0 };
    assert!(build_lines(&frame, false).is_empty());
    let lines = build_lines(&frame, true);
    assert_eq!(lines.len(), 2 * (BONES.len() + Finger::ALL.len()));
    let first = LineInstance::new(
        hand().point(BONES[0].0),
        hand().point(BONES[0].1),
        Rgba::tenths(2, 10, 7, 9),
        Fx::ratio(3, 2),
    );
    assert_eq!(lines[0], first);
    assert_eq!(lines[26], first);
    let thumb = lines[21];
    assert_eq!(thumb.color, Rgba::tenths(10, 3, 4, 10));
    assert_eq!(thumb.width, Fx::whole(3));
    let tip = hand().point(lm::THUMB_TIP);
    assert_eq!(thumb.a.x.raw, tip.x.raw - Fx::ratio(6, 1000).raw);
    assert_eq!(thumb.b.x.raw, tip.x.raw + Fx::ratio(6, 1000).raw);
    assert_eq!(thumb.a.y, tip.y);
}

#[test]
fn fingertips_show_their_role() {
    assert_eq!(tip_color(Finger::Index), tip_color(Finger::Thumb));
    assert_eq!(tip_color(Finger::Middle), Rgba::tenths(10, 8, 2, 10));
    assert_eq!(tip_color(Finger::Ring), Rgba::tenths(4, 6, 10, 8));
    assert_eq!(tip_color(Finger::Pinky), tip_color(Finger::Ring));
}

#[test]
fn line_buffer_grows_geometrically() {
    assert_eq!(grow(0, 0), None);
    assert_eq!(grow(0, 1), Some(64));
    assert_eq!(grow(64, 64), None);
    assert_eq!(grow(64, 65), Some(128));
    assert_eq!(grow(0, 1000), Some(1024));
    assert_eq!(grow(2048, 1000), None);
}

#[test]
fn srgb_formats_are_preferred() {
    assert_eq!(pick_format(&vec![false, true, true]), 1);
    assert_eq!(pick_format(&vec![true, false]), 0);
    assert_eq!(pick_format(&vec![false, false]), 0);
}

#[test]
fn new_window_has_at_least_a_pixel() {
    assert_eq!(initial_size(640, 480), (640, 480));
    assert_eq!(initial_size(0, 480), (1, 480));
    assert_eq!(initial_size(0, 0), (1, 1));
}
