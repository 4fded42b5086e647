//! Face landmark stage: 468 mesh points from an upright face crop.

use crate::fixed::{fx, Fx};
use crate::tracking::roi::{is_pictured, law_placing_turns_and_scales, sizes, Roi};
use crate::vector::Vec2;
use vstd::prelude::*;

verus! {

/// Square input resolution the landmark model expects.
pub const INPUT_SIZE: usize = 192;

pub const LANDMARK_COUNT: usize = 468;

/// How much to enlarge the detector's box to frame the landmark crop.
///
/// The detector box hugs the face; the mesh model expects some margin around
/// it, including forehead and chin: half as much again, in steps.
pub const FACE_BOX_ENLARGE: i64 = 0x1_8000_0000;

/// Where the mesh point at (x, y) of the crop, 0..1 across it, lies in the
/// image.
#[verifier::allow_in_spec]
pub fn mesh_place(x: Fx, y: Fx, roi: &Roi) -> Vec2
    returns
        roi.place(
            Vec2 { x: x.minus(Fx::ratio(1, 2)), y: y.minus(Fx::ratio(1, 2)) }.times(
                Fx::whole(192),
            ),
            Fx::whole(192),
        ),
{
    // Normalized -> crop pixels relative to the crop centre.
    let offset: Vec2 = Vec2 {
        x: x.minus(Fx::ratio(1, 2)),
        y: y.minus(Fx::ratio(1, 2)),
    }.times(Fx::whole(192));
    roi.place(offset, Fx::whole(192))
}

/// Decode the mesh into image-space pixels.
///
/// `raw` is `[x, y, z] * 468` in **normalized** crop coordinates: 0..1 across
/// the crop, not crop pixels. (The hand landmark model emits pixels, so the
/// two decoders differ here.)
pub fn decode(raw: &[Fx], roi: &Roi) -> (points: Option<Vec<Vec2>>)
    ensures
        points is None <==> raw@.len() < LANDMARK_COUNT * 3,
        points matches Some(pts) ==> pts@.len() == LANDMARK_COUNT && forall|i: int|
            0 <= i < LANDMARK_COUNT ==> #[trigger] pts@[i] == mesh_place(
                raw@[3 * i],
                raw@[3 * i + 1],
                roi,
            ),
{
    if raw.len() < LANDMARK_COUNT * 3 {
        return None;
    }
    let mut out: Vec<Vec2> = Vec::new();
    let mut i: usize = 0;
    while i < LANDMARK_COUNT
        invariant
            i <= LANDMARK_COUNT,
            raw@.len() >= LANDMARK_COUNT * 3,
            out@.len() == i,
            forall|j: int|
                0 <= j < i ==> #[trigger] out@[j] == mesh_place(
                    raw@[3 * j],
                    raw@[3 * j + 1],
                    roi,
                ),
        decreases LANDMARK_COUNT - i,
    {
        out.push(mesh_place(raw[3 * i], raw[3 * i + 1], roi));
        i += 1;
    }
    Some(out)
}

/// The middle of the crop lands on the middle of the window.
pub proof fn law_crop_centre_maps_to_roi_centre(roi: Roi)
    ensures
        mesh_place(Fx::ratio(1, 2), Fx::ratio(1, 2), &roi) == roi.center,
{
    let half = Fx::ratio(1, 2);
    let offset = Vec2 { x: half.minus(half), y: half.minus(half) }.times(Fx::whole(192));
    let k = Fx::whole(192).raw as int;
    assert(0 * k == 0);
    assert(offset == Vec2::zero());
    crate::tracking::roi::law_crop_center_is_roi_center(roi, Fx::whole(192));
}

/// A mesh point lies where the crop shows it: its share of the crop from the
/// middle, turned by the window's angle and scaled by the window's side, leads
/// there from the middle of the window.
pub proof fn law_mesh_point_lies_where_the_crop_shows_it(x: Fx, y: Fx, roi: Roi)
    requires
        -0x10_0000_0000 <= x.raw <= 0x10_0000_0000,
        -0x10_0000_0000 <= y.raw <= 0x10_0000_0000,
        is_pictured(roi, Vec2::zero(), Fx::whole(192)),
    ensures
        ({
            let p = mesh_place(x, y, &roi);
            let (a, b) = (192 * (x.raw - 0x8000_0000), 192 * (y.raw - 0x8000_0000));
            let (cos, sin) = (roi.angle.cos.raw, roi.angle.sin.raw);
            let crop = 0xc0_0000_0000int;
            let slack = crop * (sizes(Vec2 { x: fx(a), y: fx(b) }) + 0x4_0000_0000);
            &&& -slack <= (crop * 0x1_0000_0000) * (p.x.raw - roi.center.x.raw) - roi.side.raw * (a
                * cos - b * sin) <= slack
            &&& -slack <= (crop * 0x1_0000_0000) * (p.y.raw - roi.center.y.raw) - roi.side.raw * (a
                * sin + b * cos) <= slack
        }),
{
    let (a, b) = (192 * (x.raw - 0x8000_0000), 192 * (y.raw - 0x8000_0000));
    let offset = Vec2 { x: fx(a), y: fx(b) };
    assert(Fx::whole(192).raw == 0xc0_0000_0000);
    assert(Fx::ratio(1, 2).raw == 0x8000_0000);
    let (c, d) = (x.raw - 0x8000_0000, y.raw - 0x8000_0000);
    assert((c * 0xc0_0000_0000) / 0x1_0000_0000 == 192 * c) by (nonlinear_arith);
    assert((d * 0xc0_0000_0000) / 0x1_0000_0000 == 192 * d) by (nonlinear_arith);
    assert(offset == Vec2 { x: x.minus(Fx::ratio(1, 2)), y: y.minus(Fx::ratio(1, 2)) }.times(
        Fx::whole(192),
    ));
    law_placing_turns_and_scales(roi, offset, Fx::whole(192));
}

} // verus!
