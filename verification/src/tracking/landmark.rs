//! Hand landmark stage: turns an upright hand crop into 21 positioned joints.

use crate::fixed::{fx, Fx, ONE};
use crate::tracking::hand::{Hand, Handedness, LANDMARK_COUNT};
use crate::tracking::roi::{
    are_ends, enclosure, extent, is_pictured, law_heading_is_bounded, law_placing_turns_and_scales,
    law_rightward_is_quarter_turn, law_upright_points_along, law_upward_is_level,
    law_window_is_placed_by_its_ends, middle, points_along, sizes, Heading, Roi,
};
use crate::vector::{Vec2, Vec3};
use vstd::prelude::*;

verus! {

/// Square input resolution the landmark model expects.
pub const INPUT_SIZE: usize = 224;

/// Enlargement applied to the palm-keypoint box to get the landmark crop:
/// three times, in steps.
pub const PALM_BOX_ENLARGE: i64 = 0x3_0000_0000;

/// Enlargement and shift used to re-derive the ROI from the previous frame's
/// landmarks, which is what makes frame-to-frame tracking stable: 1.65 times,
/// in steps.
pub const HAND_BOX_ENLARGE: i64 = 7086696038;

/// A tenth of the box upwards, in steps.
pub const HAND_BOX_SHIFT: (i64, i64) = (0, -429496730);

/// Where the joint at (x, y) of the crop, in crop pixels, lies in the image.
#[verifier::allow_in_spec]
pub fn joint_place(x: Fx, y: Fx, roi: &Roi) -> Vec2
    returns
        roi.place(
            Vec2 { x: x.minus(Fx::whole(112)), y: y.minus(Fx::whole(112)) },
            Fx::whole(224),
        ),
{
    // Crop-space offset from the crop center, rotated into image space.
    roi.place(
        Vec2 { x: x.minus(Fx::whole(112)), y: y.minus(Fx::whole(112)) },
        Fx::whole(224),
    )
}

/// A joint in normalized image space. Depth shares the landmark model's x/y
/// units, so it scales the same way.
#[verifier::allow_in_spec]
pub fn joint(x: Fx, y: Fx, z: Fx, roi: &Roi, frame_size: Vec2) -> Vec3
    returns
        (Vec3 {
            x: joint_place(x, y, roi).x.over(frame_size.x),
            y: joint_place(x, y, roi).y.over(frame_size.y),
            z: z.times(roi.side.over(Fx::whole(224))).over(frame_size.x),
        }),
{
    let px: Vec2 = joint_place(x, y, roi);
    let depth: Fx = z.times(roi.side.over(Fx::whole(224))).over(frame_size.x);
    Vec3 { x: px.x.over(frame_size.x), y: px.y.over(frame_size.y), z: depth }
}

/// Decode the landmark model's outputs into a `Hand` in normalized image space.
///
/// `raw` is the 63-value `[x, y, z] * 21` tensor in crop-pixel coordinates,
/// `handedness` is the model's 0=left / 1=right scalar.
pub fn decode(
    raw: &[Fx],
    score: Fx,
    handedness: Fx,
    roi: &Roi,
    frame_size: Vec2,
) -> (hand: Option<Hand>)
    ensures
        hand is None <==> raw@.len() < LANDMARK_COUNT * 3,
        hand matches Some(h) ==> {
            &&& h.score == score
            &&& h.handedness == if handedness.raw < Fx::ratio(1, 2).raw {
                Handedness::Left
            } else {
                Handedness::Right
            }
            &&& forall|i: int|
                0 <= i < LANDMARK_COUNT ==> #[trigger] h.landmarks[i] == joint(
                    raw@[3 * i],
                    raw@[3 * i + 1],
                    raw@[3 * i + 2],
                    roi,
                    frame_size,
                )
        },
{
    if raw.len() < LANDMARK_COUNT * 3 {
        return None;
    }
    let mut landmarks = [Vec3::zero(); 21];
    let mut i: usize = 0;
    while i < LANDMARK_COUNT
        invariant
            i <= LANDMARK_COUNT,
            raw@.len() >= LANDMARK_COUNT * 3,
            forall|j: int|
                0 <= j < i ==> #[trigger] landmarks[j] == joint(
                    raw@[3 * j],
                    raw@[3 * j + 1],
                    raw@[3 * j + 2],
                    roi,
                    frame_size,
                ),
        decreases LANDMARK_COUNT - i,
    {
        landmarks[i] = joint(raw[3 * i], raw[3 * i + 1], raw[3 * i + 2], roi, frame_size);
        i += 1;
    }
    let side = if handedness.raw < Fx::ratio(1, 2).raw {
        Handedness::Left
    } else {
        Handedness::Right
    };
    Some(Hand { landmarks, handedness: side, score })
}

/// Rotation implied by the wrist -> middle-knuckle vector.
///
/// Matches the palm detector's convention: level when the hand points up.
pub fn landmark_rotation(points: &[Vec2]) -> (angle: Heading)
    requires
        points@.len() > 9,
    ensures
        angle == Heading::upright(points@[9].minus(points@[0])),
{
    Heading::upright(points[9].minus(points[0]))
}

/// The crop that follows a hand with these joints.
pub open spec fn next_roi(points: Seq<Vec2>) -> Roi {
    enclosure(
        points,
        Heading::upright(points[9].minus(points[0])),
        Fx { raw: HAND_BOX_ENLARGE },
        Vec2 { x: Fx { raw: HAND_BOX_SHIFT.0 }, y: Fx { raw: HAND_BOX_SHIFT.1 } },
    )
}

/// Derive the next frame's ROI from this frame's landmarks.
///
/// This is the tracking fast path: as long as it keeps producing confident
/// landmarks we never have to re-run palm detection.
pub fn roi_from_landmarks(points: &[Vec2]) -> (roi: Roi)
    requires
        points@.len() > 9,
    ensures
        roi == next_roi(points@),
{
    Roi::enclosing(
        points,
        landmark_rotation(points),
        Fx { raw: HAND_BOX_ENLARGE },
        Vec2 { x: Fx { raw: HAND_BOX_SHIFT.0 }, y: Fx { raw: HAND_BOX_SHIFT.1 } },
    )
}

/// A joint at the middle of the crop lands on the middle of the window.
pub proof fn law_crop_center_maps_to_roi_center(roi: Roi)
    ensures
        joint_place(Fx::whole(112), Fx::whole(112), &roi) == roi.center,
{
    crate::tracking::roi::law_crop_center_is_roi_center(roi, Fx::whole(224));
}

/// A joint that the model reports at the middle of texel (x, y) lands exactly
/// where that texel was sampled.
pub proof fn law_mapping_inverts_sampling(roi: Roi, x: usize, y: usize)
    requires
        x < INPUT_SIZE,
        y < INPUT_SIZE,
    ensures
        joint_place(
            crate::fixed::fx((2 * x + 1) * 0x8000_0000),
            crate::fixed::fx((2 * y + 1) * 0x8000_0000),
            &roi,
        ) == roi.texel(x, y, INPUT_SIZE),
{
}

/// In the crop that follows a hand the hand stands upright: whichever way it
/// points, the crop's local "up" has the direction from the wrist to the
/// knuckle of the middle finger.
pub proof fn law_hand_is_upright_in_its_crop(points: Seq<Vec2>)
    requires
        points.len() > 9,
        points[9] != points[0],
        -0x1000_0000_0000_0000 <= points[0].x.raw <= 0x1000_0000_0000_0000,
        -0x1000_0000_0000_0000 <= points[0].y.raw <= 0x1000_0000_0000_0000,
        -0x1000_0000_0000_0000 <= points[9].x.raw <= 0x1000_0000_0000_0000,
        -0x1000_0000_0000_0000 <= points[9].y.raw <= 0x1000_0000_0000_0000,
    ensures
        points_along(
            next_roi(points).axes().1,
            Vec2 {
                x: crate::fixed::fx(points[9].x.raw - points[0].x.raw),
                y: crate::fixed::fx(points[9].y.raw - points[0].y.raw),
            },
        ),
        points[9].x.raw > points[0].x.raw && points[9].y.raw == points[0].y.raw ==> next_roi(
            points,
        ).axes().1 == (Vec2 { x: Fx::whole(1).negated(), y: Fx::zero() }),
        points[9].x.raw == points[0].x.raw && points[9].y.raw < points[0].y.raw ==> next_roi(
            points,
        ).axes().1 == (Vec2 { x: Fx::zero(), y: Fx::whole(1) }),
{
    let d = points[9].minus(points[0]);
    assert(d.x.raw == points[9].x.raw - points[0].x.raw);
    assert(d.y.raw == points[9].y.raw - points[0].y.raw);
    law_upright_points_along(d);
    if d.x.raw > 0 && d.y.raw == 0 {
        law_rightward_is_quarter_turn(d);
    }
    if d.x.raw == 0 && d.y.raw < 0 {
        law_upward_is_level(d);
    }
}

/// Points of the size of pictures.
pub open spec fn pictured(points: Seq<Vec2>) -> bool {
    forall|i: int|
        0 <= i < points.len() ==> -0x1000_0000_0000 <= (#[trigger] points[i]).x.raw
            <= 0x1000_0000_0000 && -0x1000_0000_0000 <= points[i].y.raw <= 0x1000_0000_0000
}

/// The crop that follows a hand is 1.65 times as long as the hand's longer
/// extent along the crop's own axes, and its middle lies a tenth of the hand's
/// height above the middle of the hand.
pub proof fn law_crop_frames_the_hand(
    points: Seq<Vec2>,
    left: int,
    right: int,
    top: int,
    bottom: int,
)
    requires
        points.len() > 9,
        pictured(points),
        are_ends(points, next_roi(points).axes().0, left, right),
        are_ends(points, next_roi(points).axes().1, top, bottom),
    ensures
        ({
            let roi = next_roi(points);
            let (u, v) = roi.axes();
            let (w, h) = (extent(points, u, left, right), extent(points, v, top, bottom));
            let m = if w > h { w } else { h };
            let across = middle(points, u, left, right, Fx::zero());
            let down = middle(points, v, top, bottom, fx(-429496730));
            let (cos, sin) = (roi.angle.cos.raw, roi.angle.sin.raw);
            let unit2 = 0x1_0000_0000_0000_0000int;
            &&& 0 <= m * 7086696038 - roi.side.raw * 0x1_0000_0000 < 0x1_0000_0000
            &&& -10 * unit2 <= 2 * (unit2 * roi.center.x.raw) - (cos * across - sin * down) <= 10
                * unit2
            &&& -10 * unit2 <= 2 * (unit2 * roi.center.y.raw) - (sin * across + cos * down) <= 10
                * unit2
        }),
{
    let d = points[9].minus(points[0]);
    assert(-0x1000_0000_0000 <= points[9].x.raw <= 0x1000_0000_0000);
    assert(-0x1000_0000_0000 <= points[0].x.raw <= 0x1000_0000_0000);
    lemma_small_offset(d);
    law_heading_is_bounded(d);
    law_window_is_placed_by_its_ends(
        points,
        next_roi(points).angle,
        Fx { raw: 7086696038 },
        Vec2 { x: Fx { raw: 0 }, y: fx(-429496730) },
        left,
        right,
        top,
        bottom,
    );
}

/// An offset within a picture is short of the ends of the range.
pub(crate) proof fn lemma_small_offset(d: Vec2)
    requires
        -0x2000_0000_0000 <= d.x.raw <= 0x2000_0000_0000,
        -0x2000_0000_0000 <= d.y.raw <= 0x2000_0000_0000,
    ensures
        crate::vector::norm2(d) <= 0x3fff_ffff_ffff_ffff_ffff_ffff_ffff_ffff,
{
    let (x, y) = (d.x.raw as int, d.y.raw as int);
    assert(x * x <= 0x2000_0000_0000 * 0x2000_0000_0000 && y * y <= 0x2000_0000_0000
        * 0x2000_0000_0000) by (nonlinear_arith)
        requires
            -0x2000_0000_0000 <= x <= 0x2000_0000_0000,
            -0x2000_0000_0000 <= y <= 0x2000_0000_0000,
    ;
}

/// A joint lies where the crop shows it: its offset from the middle of the
/// 224-pixel crop, turned by the window's angle and scaled by the window's
/// side, leads there from the middle of the window.
pub proof fn law_joint_lies_where_the_crop_shows_it(x: Fx, y: Fx, roi: Roi)
    requires
        is_pictured(
            roi,
            Vec2 { x: fx(x.raw - 112 * 0x1_0000_0000), y: fx(y.raw - 112 * 0x1_0000_0000) },
            fx(0xe0_0000_0000),
        ),
        -0x1000_0000_0000 <= x.raw <= 0x1000_0000_0000,
        -0x1000_0000_0000 <= y.raw <= 0x1000_0000_0000,
    ensures
        ({
            let p = joint_place(x, y, &roi);
            let (a, b) = (x.raw - 112 * 0x1_0000_0000, y.raw - 112 * 0x1_0000_0000);
            let (cos, sin) = (roi.angle.cos.raw, roi.angle.sin.raw);
            let m = 224 * 0x1_0000_0000 * 0x1_0000_0000;
            let slack = 224 * 0x1_0000_0000 * (sizes(Vec2 { x: fx(a), y: fx(b) }) + 0x4_0000_0000);
            &&& -slack <= m * (p.x.raw - roi.center.x.raw) - roi.side.raw * (a * cos - b * sin) <= slack
            &&& -slack <= m * (p.y.raw - roi.center.y.raw) - roi.side.raw * (a * sin + b * cos) <= slack
        }),
{
    let offset = Vec2 { x: fx(x.raw - 112 * 0x1_0000_0000), y: fx(y.raw - 112 * 0x1_0000_0000) };
    law_placing_turns_and_scales(roi, offset, fx(0xe0_0000_0000));
    assert(Fx::whole(112).raw == 112 * 0x1_0000_0000);
    assert(Fx::whole(224).raw == 224 * 0x1_0000_0000);
    assert(x.minus(Fx::whole(112)) == offset.x && y.minus(Fx::whole(112)) == offset.y);
}

/// A joint's place is reported as a share of the frame, and its depth on the
/// scale of its place: the depth times the frame's width is the model's depth
/// times the window's side over the crop's, up to rounding.
pub proof fn law_joint_is_a_share_of_the_frame(x: Fx, y: Fx, z: Fx, roi: Roi, frame_size: Vec2)
    requires
        ONE <= frame_size.x.raw <= 0x1000_0000_0000,
        ONE <= frame_size.y.raw <= 0x1000_0000_0000,
        0 <= roi.side.raw <= 0x1000_0000_0000,
        -0x1000_0000_0000 <= z.raw <= 0x1000_0000_0000,
        -0x1000_0000_0000_0000 <= joint_place(x, y, &roi).x.raw <= 0x1000_0000_0000_0000,
        -0x1000_0000_0000_0000 <= joint_place(x, y, &roi).y.raw <= 0x1000_0000_0000_0000,
    ensures
        ({
            let (p, j) = (joint_place(x, y, &roi), joint(x, y, z, &roi, frame_size));
            let (w, h) = (frame_size.x.raw, frame_size.y.raw);
            let far = if z.raw < 0 { -z.raw } else { z.raw as int };
            let slack = 224 * (w + far + 0x1_0000_0000);
            &&& 0 <= p.x.raw * 0x1_0000_0000 - j.x.raw * w < w
            &&& 0 <= p.y.raw * 0x1_0000_0000 - j.y.raw * h < h
            &&& -slack <= 224 * (w * j.z.raw) - z.raw * roi.side.raw <= slack
        }),
{
    let p = joint_place(x, y, &roi);
    lemma_share_of(p.x, frame_size.x);
    lemma_share_of(p.y, frame_size.y);
    let side = roi.side.raw as int;
    let k = side / 224;
    assert(Fx::whole(224).raw == 224 * 0x1_0000_0000);
    assert((side * 0x1_0000_0000) / 0xe0_0000_0000 == side / 224) by (nonlinear_arith);
    assert(roi.side.over(Fx::whole(224)).raw == k);
    let c = z.raw as int;
    let far = if c < 0 { -c } else { c };
    assert(-0x0100_0000_0000_0000_0000_0000 <= c * k <= 0x0100_0000_0000_0000_0000_0000)
        by (nonlinear_arith)
        requires
            -0x1000_0000_0000 <= c <= 0x1000_0000_0000,
            0 <= k <= 0x1000_0000_0000,
    ;
    let t = (c * k) / 0x1_0000_0000;
    let depth = z.times(roi.side.over(Fx::whole(224)));
    assert(depth.raw == t);
    lemma_share_of(depth, frame_size.x);
    let r = side - 224 * k;
    assert(224 * (c * k) == c * side - c * r) by (nonlinear_arith)
        requires
            r == side - 224 * k,
    ;
    assert(-(224 * far) <= c * r <= 224 * far) by (nonlinear_arith)
        requires
            0 <= r < 224,
            -far <= c <= far,
    ;
    let (w, q) = (frame_size.x.raw as int, depth.over(frame_size.x).raw as int);
    assert(q * w == w * q) by (nonlinear_arith);
}

/// A length over another, times that other, is the length, up to rounding.
proof fn lemma_share_of(p: Fx, w: Fx)
    requires
        -0x1000_0000_0000_0000 <= p.raw <= 0x1000_0000_0000_0000,
        ONE <= w.raw,
    ensures
        0 <= p.raw * 0x1_0000_0000 - p.over(w).raw * w.raw < w.raw,
{
    let (n, d) = (p.raw * 0x1_0000_0000, w.raw as int);
    let q = n / d;
    vstd::arithmetic::div_mod::lemma_fundamental_div_mod(n, d);
    vstd::arithmetic::div_mod::lemma_mod_bound(n, d);
    assert(-0x1000_0000_0000_0000 <= q <= 0x1000_0000_0000_0000) by (nonlinear_arith)
        requires
            d * q <= n < d * q + d,
            -0x1000_0000_0000_0000 * 0x1_0000_0000 <= n <= 0x1000_0000_0000_0000 * 0x1_0000_0000,
            d >= 0x1_0000_0000,
    ;
    assert(q * d == d * q) by (nonlinear_arith);
}

/// A hand whose wrist and knuckle fall together has no direction: its crop is
/// turned as for one that points right.
pub proof fn law_hand_without_direction_is_a_quarter_turn(points: Seq<Vec2>)
    requires
        points.len() > 9,
        points[9] == points[0],
    ensures
        next_roi(points).axes().0 == (Vec2 { x: Fx::zero(), y: Fx::one() }),
{
    assert(points[9].minus(points[0]) == Vec2::zero());
}

} // verus!
