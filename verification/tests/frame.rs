use pawcontrol::fixed::{Fx, ONE};
use pawcontrol::frame::Frame;
use pawcontrol::vector::Vec2;

fn half(x: i32, y: i32) -> Vec2 {
    Vec2::new(Fx::ratio(x, 2), Fx::ratio(y, 2))
}

fn board() -> Frame {
    let mut frame = Frame::new(2, 2);
    // Red 0, 100, 200, 255; green 10 everywhere; blue 0.
    for (i, red) in [0u8, 100, 200, 255].iter().enumerate() {
        frame.rgba[i * 4] = *red;
        frame.rgba[i * 4 + 1] = 10;
    }
    frame
}

#[test]
fn new_frames_are_black() {
    let frame = Frame::new(3, 5);
    assert_eq!(frame.rgba, vec![0; 60]);
    assert_eq!(frame.seq, 0);
    assert_eq!(frame.size(), Vec2::new(Fx::whole(3), Fx::whole(5)));
}

#[test]
fn pixel_centers_are_exact() {
    let frame = board();
    assert_eq!(frame.sample(half(1, 1))[0], Fx::zero());
    assert_eq!(frame.sample(half(3, 1))[0].raw, 100 * ONE / 255);
    assert_eq!(frame.sample(half(1, 3))[0].raw, 200 * ONE / 255);
    assert_eq!(frame.sample(half(3, 3))[0], Fx::one());
}

#[test]
fn between_pixels_colours_blend() {
    let frame = board();
    // The middle of all four: (0 + 100 + 200 + 255) / 4.
    let c = frame.sample(half(2, 2));
    assert_eq!(c[0].raw, 555 * ONE / 4 / 255);
    // A flat channel stays flat.
    assert_eq!(c[1].raw, 10 * ONE / 255);
    assert_eq!(c[2], Fx::zero());
}

#[test]
fn outside_the_frame_the_edge_continues() {
    let frame = board();
    assert_eq!(frame.sample(half(-100, 1)), frame.sample(half(1, 1)));
    assert_eq!(frame.sample(half(100, 100)), frame.sample(half(3, 3)));
    assert_eq!(frame.sample(half(2, -7)), frame.sample(half(2, 1)));
    let far = Fx { raw: i64::MAX };
    assert_eq!(frame.sample(Vec2::new(far, far))[0], Fx::one());
    let low = Fx { raw: i64::MIN };
    assert_eq!(frame.sample(Vec2::new(low, low))[0], Fx::zero());
}

#[test]
fn every_edge_and_corner_extends() {
    let frame = board();
    let outside = [(-9, 1, 1, 1), (40, 1, 3, 1), (1, -9, 1, 1), (1, 40, 1, 3)];
    let corners = [(-9, -9, 1, 1), (40, 40, 3, 3), (-9, 40, 1, 3), (40, -9, 3, 1)];
    for (x, y, a, b) in outside.into_iter().chain(corners) {
        assert_eq!(frame.sample(half(x, y)), frame.sample(half(a, b)), "at {x}, {y}");
    }
}
