use pawcontrol::fixed::{Fx, ONE};
use pawcontrol::frame::Frame;
use pawcontrol::tracking::roi::{Heading, Roi};
use pawcontrol::vector::Vec2;

fn f(x: f32) -> Fx {
    Fx { raw: (x as f64 * 4294967296.0) as i64 }
}

fn r(x: Fx) -> f32 {
    (x.raw as f64 / 4294967296.0) as f32
}

fn v2(x: f32, y: f32) -> Vec2 {
    Vec2::new(f(x), f(y))
}

/// The rotation by an angle in radians.
fn heading(angle: f32) -> Heading {
    Heading { cos: f(angle.cos()), sin: f(angle.sin()) }
}

#[test]
fn quarter_turn_rotates_local_axes() {
    let roi = Roi {
        center: Vec2::zero(),
        side: f(2.0),
        angle: heading(std::f32::consts::FRAC_PI_2),
    };
    let (u, v) = roi.axes();
    // Local +x should point down the image, local +y to the left.
    assert!(r(u.minus(v2(0.0, 1.0)).length()) < 1e-6, "{u:?}");
    assert!(r(v.minus(v2(-1.0, 0.0)).length()) < 1e-6, "{v:?}");
}

#[test]
fn enclosing_centers_on_points() {
    let pts = [v2(10.0, 10.0), v2(30.0, 10.0), v2(30.0, 20.0), v2(10.0, 20.0)];
    let roi = Roi::enclosing(&pts, heading(0.0), f(1.0), Vec2::zero());
    assert!(r(roi.center.minus(v2(20.0, 15.0)).length()) < 1e-4, "{:?}", roi.center);
    // Square on the long side.
    assert!((r(roi.side) - 20.0).abs() < 1e-4, "{}", r(roi.side));
}

fn gradient() -> Frame {
    let mut frame = Frame::new(64, 64);
    for y in 0..64 {
        for x in 0..64 {
            let i = (y * 64 + x) * 4;
            frame.rgba[i] = (x * 4) as u8;
            frame.rgba[i + 1] = (y * 4) as u8;
        }
    }
    frame
}

#[test]
fn sampling_is_inverse_of_mapping() {
    // A gradient frame lets us verify the sampler hits the right texels.
    let frame = gradient();
    let roi = Roi { center: v2(32.0, 32.0), side: f(16.0), angle: heading(0.0) };
    let mut buf = Vec::new();
    roi.sample_into(&frame, 8, &mut buf);
    assert_eq!(buf.len(), 8 * 8 * 3);
    // Values must increase left-to-right in red and top-to-bottom in green.
    let px = |x: usize, y: usize, c: usize| buf[(y * 8 + x) * 3 + c].raw;
    assert!(px(7, 0, 0) > px(0, 0, 0));
    assert!(px(0, 7, 1) > px(0, 0, 1));
}

#[test]
fn samples_have_exact_values() {
    let frame = gradient();
    // Eight texels over sixteen pixels: texel 0 is centered on pixel edge 25.
    let roi = Roi { center: v2(32.0, 32.0), side: f(16.0), angle: Heading::level() };
    assert_eq!(roi.texel(0, 0, 8), v2(25.0, 25.0));
    assert_eq!(roi.texel(7, 3, 8), v2(39.0, 31.0));
    let mut buf = Vec::new();
    roi.sample_into(&frame, 8, &mut buf);
    // Halfway between columns 24 and 25.
    assert_eq!(buf[0].raw, 98 * ONE / 255);
    assert_eq!(buf[1].raw, 98 * ONE / 255);
    assert_eq!(buf[2], Fx::zero());
}

#[test]
fn planar_and_interleaved_samples_agree() {
    let frame = gradient();
    let roi = Roi { center: v2(20.0, 40.0), side: f(30.0), angle: heading(0.7) };
    let (mut nhwc, mut nchw) = (vec![Fx::one(); 5], vec![Fx::one(); 5]);
    roi.sample_into(&frame, 6, &mut nhwc);
    roi.sample_into_planar(&frame, 6, &mut nchw);
    assert_eq!(nchw.len(), nhwc.len());
    for k in 0..36 {
        for c in 0..3 {
            assert_eq!(nchw[c * 36 + k], nhwc[k * 3 + c], "texel {k}, colour {c}");
        }
    }
    roi.sample_into(&frame, 0, &mut nhwc);
    assert!(nhwc.is_empty());
}

#[test]
fn enclosing_follows_the_rotation() {
    // A diagonal strip measured along its own axes is long and thin.
    let pts = [v2(0.0, 0.0), v2(3.0, 4.0)];
    let roi = Roi::enclosing(&pts, Heading { cos: f(0.6), sin: f(0.8) }, f(2.0), v2(0.5, 0.0));
    assert!((r(roi.side) - 10.0).abs() < 1e-4);
    // The center moves half the strip's length along it.
    assert!((r(roi.center.x) - 3.0).abs() < 1e-4, "{:?}", roi.center);
    assert!((r(roi.center.y) - 4.0).abs() < 1e-4, "{:?}", roi.center);
}

#[test]
fn crop_offsets_scale_and_rotate() {
    let roi = Roi {
        center: v2(7.0, 9.0),
        side: f(200.0),
        angle: Heading { cos: Fx::zero(), sin: Fx::one() },
    };
    let off = roi.crop_offset_to_image(v2(10.0, 0.0), f(100.0));
    assert_eq!(off, v2(0.0, 20.0));
    assert_eq!(roi.place(Vec2::zero(), f(100.0)), roi.center);
}

#[test]
fn headings_have_exact_values() {
    assert_eq!(Heading::along(v2(3.0, 4.0)), Heading { cos: Fx::ratio(3, 5), sin: Fx::ratio(4, 5) });
    assert_eq!(Heading::along(Vec2::zero()), Heading::level());
    assert_eq!(Heading::upright(v2(0.0, -9.0)), Heading::level());
    assert_eq!(
        Heading::upright(v2(4.0, -3.0)),
        Heading { cos: Fx::ratio(3, 5), sin: Fx::ratio(4, 5) }
    );
    let h = Heading { cos: f(0.5), sin: f(0.25) };
    assert_eq!(h.reversed().sin, f(-0.25));
    assert_eq!(h.reversed().reversed(), h);
}

#[test]
fn turned_windows_enclose_their_points() {
    let pts = [v2(10.0, 10.0), v2(300.0, 40.0), v2(35.0, 220.0), v2(110.0, 90.0)];
    for i in 0..12 {
        let angle = heading(0.5 * i as f32);
        let roi = Roi::enclosing(&pts, angle, f(1.0), Vec2::zero());
        let (u, v) = roi.axes();
        for p in pts {
            let (a, b) = (r(p.dot(u)) - r(roi.center.dot(u)), r(p.dot(v)) - r(roi.center.dot(v)));
            assert!(2.0 * a.abs() <= r(roi.side) + 0.001, "at {i}: {a}");
            assert!(2.0 * b.abs() <= r(roi.side) + 0.001, "at {i}: {b}");
        }
    }
}

#[test]
fn headings_have_unit_length() {
    for (x, y) in [(1.0, 0.0), (0.7, 0.8), (-300.5, 41.25), (3.0, -4000.0), (-1.0, -1.0)] {
        for h in [Heading::along(v2(x, y)), Heading::upright(v2(x, y))] {
            let n = h.cos.raw as i128 * h.cos.raw as i128 + h.sin.raw as i128 * h.sin.raw as i128;
            assert!((n - ONE as i128 * ONE as i128).abs() <= 8 * ONE as i128, "{h:?}");
        }
    }
}
