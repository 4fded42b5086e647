use pawcontrol::fixed::Fx;
use pawcontrol::region::hull::convex_hull;
use pawcontrol::region::{resolve, Region, RegionSource, TwoHandQuad};
use pawcontrol::tracking::hand::{lm, Hand, HandFrame, Handedness, LANDMARK_COUNT};
use pawcontrol::vector::{Vec2, Vec3};

fn f(x: f32) -> Fx {
    Fx { raw: (x as f64 * 4294967296.0) as i64 }
}

fn r(x: Fx) -> f32 {
    (x.raw as f64 / 4294967296.0) as f32
}

fn v2(x: f32, y: f32) -> Vec2 {
    Vec2::new(f(x), f(y))
}

fn v3(x: f32, y: f32, z: f32) -> Vec3 {
    Vec3::new(f(x), f(y), f(z))
}

fn hand_at(x: f32, index_y: f32, thumb_y: f32) -> Hand {
    let mut landmarks = [Vec3::zero(); LANDMARK_COUNT];
    for p in landmarks.iter_mut() {
        *p = v3(x, 0.5, 0.0);
    }
    landmarks[lm::INDEX_TIP] = v3(x, index_y, 0.0);
    landmarks[lm::THUMB_TIP] = v3(x, thumb_y, 0.0);
    // Palm landmarks decide which hand is "left" via palm_center.
    landmarks[lm::WRIST] = v3(x, 0.5, 0.0);
    Hand { landmarks, handedness: Handedness::Right, score: f(1.0) }
}

fn square(offset: f32) -> Region {
    Region::quad([
        v2(0.1 + offset, 0.1),
        v2(0.9 + offset, 0.1),
        v2(0.9 + offset, 0.9),
        v2(0.1 + offset, 0.9),
    ])
}

#[test]
fn unfrozen_follows_the_live_region() {
    let mut latched = None;
    let a = resolve(square(0.0), &mut latched, false);
    let b = resolve(square(0.5), &mut latched, false);
    assert_ne!(a, b, "should track the hands when not frozen");
    assert!(latched.is_none());
}

#[test]
fn freezing_latches_the_region_in_place() {
    let mut latched = None;
    let frozen = resolve(square(0.0), &mut latched, true);
    // The hands move; the drawn region must not.
    let after = resolve(square(0.5), &mut latched, true);
    assert_eq!(frozen, after, "frozen region moved with the hands");
}

#[test]
fn frozen_region_survives_losing_the_hands() {
    let mut latched = None;
    let frozen = resolve(square(0.0), &mut latched, true);
    let after = resolve(Region::Empty, &mut latched, true);
    assert_eq!(frozen, after, "frozen region vanished when hands were lost");
    assert!(after.is_active());
}

#[test]
fn unfreezing_returns_to_the_live_region() {
    let mut latched = None;
    resolve(square(0.0), &mut latched, true);
    let live = resolve(square(0.5), &mut latched, false);
    assert_eq!(live, square(0.5));
    assert!(latched.is_none(), "latch must be released");
}

#[test]
fn freezing_with_no_region_latches_once_one_appears() {
    let mut latched = None;
    // Asked for with no hands up: nothing to latch yet.
    assert_eq!(resolve(Region::Empty, &mut latched, true), Region::Empty);
    assert!(latched.is_none());
    // Hands appear: now it latches.
    let latched_region = resolve(square(0.2), &mut latched, true);
    assert_eq!(latched_region, square(0.2));
    assert_eq!(resolve(square(0.9), &mut latched, true), square(0.2));
}

#[test]
fn no_region_with_fewer_than_two_hands() {
    let src = TwoHandQuad::default();
    assert_eq!(src.region(&HandFrame::default()), Region::Empty);
    let one = HandFrame { hands: vec![hand_at(0.3, 0.2, 0.6)], seq: 0 };
    assert_eq!(src.region(&one), Region::Empty);
}

#[test]
fn quad_orders_corners_left_to_right() {
    // Deliberately pass the right-most hand first: the source must sort.
    let frame = HandFrame {
        hands: vec![hand_at(0.8, 0.2, 0.6), hand_at(0.2, 0.2, 0.6)],
        seq: 0,
    };
    let region = TwoHandQuad::default().region(&frame);
    let c = region.corners().expect("expected a quad");
    assert!(c[0].x.raw < c[1].x.raw, "top edge runs left to right: {c:?}");
    assert!(c[3].x.raw < c[2].x.raw, "bottom edge runs left to right: {c:?}");
    assert!(c[0].y.raw < c[3].y.raw, "index tip sits above thumb tip: {c:?}");
}

/// Every edge must turn the same way for the SDF to be valid.
///
/// The tolerance is loose because a padded triangle intentionally carries
/// one collinear vertex (it splits an existing edge), whose cross product
/// is zero up to rounding.
fn is_convex(c: &[Vec2; 4]) -> bool {
    let mut pos = false;
    let mut neg = false;
    for i in 0..4 {
        let a = c[i];
        let b = c[(i + 1) % 4];
        let d = c[(i + 2) % 4];
        let (abx, aby) = (r(b.x) - r(a.x), r(b.y) - r(a.y));
        let (bdx, bdy) = (r(d.x) - r(b.x), r(d.y) - r(b.y));
        let cross = abx * bdy - aby * bdx;
        if cross > 1e-5 {
            pos = true;
        }
        if cross < -1e-5 {
            neg = true;
        }
    }
    !(pos && neg)
}

#[test]
fn hull_is_convex_for_any_corner_order() {
    let pts = [v2(0.2, 0.3), v2(0.8, 0.3), v2(0.8, 0.7), v2(0.2, 0.7)];
    // Every permutation of the same four points must yield a convex quad
    // enclosing their centre.
    let idx = [
        [0, 1, 2, 3],
        [0, 2, 1, 3],
        [3, 1, 2, 0],
        [1, 0, 3, 2],
        [2, 0, 1, 3],
        [3, 2, 1, 0],
        [0, 3, 1, 2],
        [1, 3, 0, 2],
    ];
    for order in idx {
        let input = [pts[order[0]], pts[order[1]], pts[order[2]], pts[order[3]]];
        let region = Region::quad(input);
        let c = region.corners().unwrap();
        assert!(is_convex(&c), "order {order:?} produced a non-convex quad: {c:?}");
        // The hull must keep all four input points, just reordered.
        for p in input {
            assert!(
                c.iter().any(|q| r(q.distance(p)) < 1e-6),
                "order {order:?} dropped corner {p:?}"
            );
        }
    }
}

#[test]
fn hull_handles_a_point_inside_the_others() {
    // One fingertip inside the triangle of the other three: the hull is a
    // triangle, padded with an edge midpoint rather than a duplicate.
    let region = Region::quad([
        v2(0.1, 0.1),
        v2(0.9, 0.1),
        v2(0.5, 0.9),
        v2(0.5, 0.4), // interior
    ]);
    let c = region.corners().unwrap();
    assert!(is_convex(&c), "{c:?}");
    for i in 0..4 {
        let d = r(c[i].distance(c[(i + 1) % 4]));
        assert!(d > 1e-6, "degenerate edge {i} has no normal: {c:?}");
    }
}

#[test]
fn flipping_one_hand_keeps_a_usable_region() {
    // Palms facing the camera: each hand's index tip is above its thumb
    // tip, so L.index -> R.index -> R.thumb -> L.thumb traces a rectangle.
    let normal = Region::quad([
        v2(0.2, 0.3), // left index  (top-left)
        v2(0.8, 0.3), // right index (top-right)
        v2(0.8, 0.7), // right thumb (bottom-right)
        v2(0.2, 0.7), // left thumb  (bottom-left)
    ]);
    assert!(is_convex(&normal.corners().unwrap()), "baseline should work");

    // Now flip ONLY the left hand. Its thumb swings above its index, so
    // the first and last corners swap vertically and the path crosses
    // itself: a bow-tie, not a rectangle.
    let flipped = Region::quad([
        v2(0.2, 0.7), // left index  (now BELOW)
        v2(0.8, 0.3), // right index
        v2(0.8, 0.7), // right thumb
        v2(0.2, 0.3), // left thumb  (now ABOVE)
    ]);
    assert!(
        is_convex(&flipped.corners().unwrap()),
        "flipping one hand produced a self-intersecting quad"
    );
    assert_eq!(normal, flipped);
}

fn whole(x: i32, y: i32) -> Vec2 {
    Vec2::new(Fx::whole(x), Fx::whole(y))
}

#[test]
fn hull_starts_at_the_leftmost_point() {
    let h = convex_hull(&[whole(4, 4), whole(0, 4), whole(4, 0), whole(0, 0)]).unwrap();
    assert_eq!(h, vec![whole(0, 0), whole(4, 0), whole(4, 4), whole(0, 4)]);
}

#[test]
fn interior_point_leaves_a_triangle() {
    let h = convex_hull(&[whole(0, 0), whole(6, 0), whole(2, 2), whole(0, 6)]).unwrap();
    assert_eq!(h, vec![whole(0, 0), whole(6, 0), whole(0, 6)]);
}

#[test]
fn a_point_on_an_edge_is_no_corner() {
    let h = convex_hull(&[whole(0, 0), whole(3, 0), whole(6, 0), whole(0, 6)]).unwrap();
    assert_eq!(h, vec![whole(0, 0), whole(6, 0), whole(0, 6)]);
}

#[test]
fn points_on_a_line_have_no_hull() {
    assert!(convex_hull(&[whole(0, 0), whole(1, 1), whole(2, 2), whole(5, 5)]).is_none());
    assert!(convex_hull(&[whole(3, 3), whole(3, 3), whole(3, 3), whole(3, 3)]).is_none());
}

#[test]
fn collinear_corners_pass_through() {
    let pts = [whole(2, 2), whole(0, 0), whole(5, 5), whole(1, 1)];
    assert_eq!(Region::quad(pts), Region::Quad(pts));
}

#[test]
fn triangle_is_padded_on_its_longest_edge() {
    let region = Region::quad([whole(0, 0), whole(6, 0), whole(2, 2), whole(0, 6)]);
    let c = region.corners().unwrap();
    assert_eq!(c, [whole(0, 0), whole(6, 0), whole(3, 3), whole(0, 6)]);
}

#[test]
fn equal_edges_split_the_last() {
    // The two legs are equally long and longer than the base.
    let region = Region::quad([whole(0, 0), whole(6, -1), whole(6, 1), whole(4, 0)]);
    let c = region.corners().unwrap();
    assert_eq!(c, [whole(0, 0), whole(6, -1), whole(6, 1), Vec2::new(f(3.0), f(0.5))]);
}

#[test]
fn nearly_coincident_corners_are_merged() {
    let near = Vec2::new(Fx { raw: Fx::whole(4).raw + 100 }, Fx { raw: 50 });
    let region = Region::quad([whole(0, 0), whole(4, 0), near, whole(0, 4)]);
    let c = region.corners().unwrap();
    // Three corners remain, and the longest edge is split.
    assert_eq!(c.iter().filter(|p| **p == near).count(), 0);
    assert!(is_convex(&c));
    for i in 0..4 {
        assert!(r(c[i].distance(c[(i + 1) % 4])) > 1e-6);
    }
}

#[test]
fn four_points_round_an_area_too_small_pass_through() {
    let p = |x: i64, y: i64| Vec2::new(Fx { raw: x }, Fx { raw: y });
    let pts = [p(0, 0), p(10, 0), p(10, 10), p(0, 10)];
    assert_eq!(Region::quad(pts), Region::Quad(pts));
}

#[test]
fn hull_is_exact_at_the_ends_of_the_range() {
    let p = |x: i64, y: i64| Vec2::new(Fx { raw: x }, Fx { raw: y });
    let (lo, hi) = (i64::MIN, i64::MAX);
    let h = convex_hull(&[p(hi, hi), p(lo, hi), p(hi, lo), p(lo, lo)]).unwrap();
    assert_eq!(h, vec![p(lo, lo), p(hi, lo), p(hi, hi), p(lo, hi)]);
}

#[test]
fn region_accessors() {
    assert!(!Region::Empty.is_active());
    assert!(Region::Empty.corners().is_none());
    assert!(square(0.0).is_active());
    assert_eq!(TwoHandQuad::default().name(), "two-hand-quad");
}

#[test]
fn hands_found_in_either_order_span_the_same_region() {
    let (a, b) = (hand_at(0.2, 0.2, 0.6), hand_at(0.8, 0.3, 0.7));
    let src = TwoHandQuad::default();
    let one = src.region(&HandFrame { hands: vec![a, b], seq: 0 });
    let two = src.region(&HandFrame { hands: vec![b, a], seq: 0 });
    assert_eq!(one, two);
    // With a third hand further right, the first two from the left still win.
    let three = src.region(&HandFrame { hands: vec![hand_at(0.9, 0.1, 0.9), b, a], seq: 0 });
    assert_eq!(one, three);
}
