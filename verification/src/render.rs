//! Rendering: what is uploaded, drawn and reconfigured for each frame.

pub mod overlay;

use crate::fixed::Fx;
use crate::frame::Frame;
use crate::region::Region;
use crate::vector::Vec2;
use vstd::prelude::*;
use vstd::string::StringExecFns;

verus! {

/// Uniform block shared by every effect, as four-component vectors.
#[derive(Debug, Clone, Copy)]
pub struct Globals {
    pub quad_a: [Fx; 4],
    pub quad_b: [Fx; 4],
    /// xy = resolution, z = time, w = region active
    pub view: [Fx; 4],
    pub params: [Fx; 4],
    /// rgb = outline colour, a = half-width px
    pub outline: [Fx; 4],
    /// x = mirror, y = outline enabled
    pub flags: [Fx; 4],
}

impl Default for Globals {
    fn default() -> (g: Globals)
        ensures
            g.quad_a@ == seq![Fx::zero(), Fx::zero(), Fx::zero(), Fx::zero()],
            g.quad_b@ == seq![Fx::zero(), Fx::zero(), Fx::zero(), Fx::zero()],
            g.view@ == seq![Fx::one(), Fx::one(), Fx::zero(), Fx::zero()],
            g.params@ == seq![Fx::zero(), Fx::zero(), Fx::zero(), Fx::zero()],
            g.outline@ == seq![Fx::one(), Fx::one(), Fx::one(), Fx::ratio(12, 10)],
            g.flags@ == seq![Fx::one(), Fx::one(), Fx::zero(), Fx::zero()],
    {
        let (o, l) = (Fx::zero(), Fx::one());
        let g = Globals {
            quad_a: [o, o, o, o],
            quad_b: [o, o, o, o],
            view: [l, l, o, o],
            params: [o, o, o, o],
            outline: [l, l, l, Fx::ratio(12, 10)],
            flags: [l, l, o, o],
        };
        assert(g.quad_a@ =~= seq![o, o, o, o]);
        assert(g.quad_b@ =~= seq![o, o, o, o]);
        assert(g.view@ =~= seq![l, l, o, o]);
        assert(g.params@ =~= seq![o, o, o, o]);
        assert(g.outline@ =~= seq![l, l, l, Fx::ratio(12, 10)]);
        assert(g.flags@ =~= seq![l, l, o, o]);
        g
    }
}

/// A switch as the shader reads it.
#[verifier::allow_in_spec]
pub fn flag(on: bool) -> Fx
    returns
        (if on {
            Fx { raw: crate::fixed::ONE }
        } else {
            Fx { raw: 0 }
        }),
{
    if on {
        Fx { raw: crate::fixed::ONE }
    } else {
        Fx { raw: 0 }
    }
}

/// The corners that the shader masks by; all at the origin when there is no
/// region.
pub open spec fn masked(region: Region) -> Seq<Vec2> {
    match region {
        Region::Quad(c) => c@,
        Region::Empty => seq![Vec2::zero(), Vec2::zero(), Vec2::zero(), Vec2::zero()],
    }
}

/// How the outline is drawn.
#[derive(Debug, Clone, Copy)]
pub struct Outline {
    pub show: bool,
    pub color: [Fx; 3],
    pub width: Fx,
}

impl Globals {
    /// The uniform block for one frame on a `width x height` surface.
    pub fn compose(
        region: &Region,
        width: u32,
        height: u32,
        time: Fx,
        params: [Fx; 4],
        mirror: bool,
        outline: &Outline,
    ) -> (g: Globals)
        ensures
            g.quad_a@ == seq![
                masked(*region)[0].x,
                masked(*region)[0].y,
                masked(*region)[1].x,
                masked(*region)[1].y,
            ],
            g.quad_b@ == seq![
                masked(*region)[2].x,
                masked(*region)[2].y,
                masked(*region)[3].x,
                masked(*region)[3].y,
            ],
            g.view@ == seq![
                Fx::count(width),
                Fx::count(height),
                time,
                flag(region.is_active()),
            ],
            g.params == params,
            g.outline@ == outline.color@.push(outline.width),
            g.flags@ == seq![flag(mirror), flag(outline.show), Fx::zero(), Fx::zero()],
    {
        let corners: [Vec2; 4] = match region.corners() {
            Some(c) => c,
            None => [Vec2::zero(), Vec2::zero(), Vec2::zero(), Vec2::zero()],
        };
        assert(corners@ =~= masked(*region));
        let g = Globals {
            quad_a: [corners[0].x, corners[0].y, corners[1].x, corners[1].y],
            quad_b: [corners[2].x, corners[2].y, corners[3].x, corners[3].y],
            view: [Fx::count(width), Fx::count(height), time, flag(region.is_active())],
            params,
            outline: [outline.color[0], outline.color[1], outline.color[2], outline.width],
            flags: [flag(mirror), flag(outline.show), Fx::zero(), Fx::zero()],
        };
        assert(g.outline@ =~= outline.color@.push(outline.width));
        g
    }
}

/// What to do with the latest camera frame.
#[derive(Debug, Clone, Copy, PartialEq, Eq, Structural)]
pub enum Upload {
    /// It has been uploaded already.
    Skip,
    /// Write it to the texture.
    Write,
    /// The camera's resolution changed: make a texture of the new size, then
    /// write it.
    Resize,
}

/// What the camera texture holds.
#[derive(Debug, Clone, Copy)]
pub struct CameraTexture {
    pub size: (u32, u32),
    /// Last camera frame uploaded, so we skip redundant transfers.
    pub last_uploaded: u64,
}

impl CameraTexture {
    /// A texture of this size that holds no frame yet.
    pub fn new(size: (u32, u32)) -> (texture: CameraTexture)
        ensures
            texture.size == size,
            texture.last_uploaded == 0,
    {
        CameraTexture { size, last_uploaded: 0 }
    }

    /// What to do with a frame; afterwards the texture counts as holding it.
    pub fn receive(&mut self, frame: &Frame) -> (upload: Upload)
        ensures
            frame.seq == old(self).last_uploaded ==> upload == Upload::Skip && *final(self) == *old(self),
            frame.seq != old(self).last_uploaded ==> {
                &&& final(self).size == (frame.width, frame.height)
                &&& final(self).last_uploaded == frame.seq
                &&& upload == if (frame.width, frame.height) == old(self).size {
                    Upload::Write
                } else {
                    Upload::Resize
                }
            },
    {
        if frame.seq == self.last_uploaded {
            return Upload::Skip;
        }
        self.last_uploaded = frame.seq;
        if frame.width == self.size.0 && frame.height == self.size.1 {
            Upload::Write
        } else {
            self.size = (frame.width, frame.height);
            Upload::Resize
        }
    }
}

/// What came back when the next surface image was asked for.
#[derive(Debug, Clone, Copy, PartialEq, Eq, Structural)]
pub enum SurfaceStatus {
    Success,
    Suboptimal,
    Outdated,
    Lost,
    Timeout,
    Occluded,
    Failed,
}

/// What to do about it.
#[derive(Debug, Clone, Copy, PartialEq, Eq, Structural)]
pub enum SurfaceAction {
    /// Draw into the image.
    Draw,
    /// Draw, and reconfigure before the next frame to get back on the fast
    /// path.
    DrawThenReconfigure,
    /// Reconfigure now and skip this frame.
    ReconfigureAndSkip,
    /// Skip this frame.
    Skip,
    /// Report the failure.
    Fail,
}

/// Transient states skip a frame rather than being treated as an error.
#[verifier::allow_in_spec]
pub fn surface_action(status: SurfaceStatus) -> SurfaceAction
    returns
        (match status {
            SurfaceStatus::Success => SurfaceAction::Draw,
            SurfaceStatus::Suboptimal => SurfaceAction::DrawThenReconfigure,
            SurfaceStatus::Outdated => SurfaceAction::ReconfigureAndSkip,
            SurfaceStatus::Lost => SurfaceAction::ReconfigureAndSkip,
            SurfaceStatus::Timeout => SurfaceAction::Skip,
            SurfaceStatus::Occluded => SurfaceAction::Skip,
            SurfaceStatus::Failed => SurfaceAction::Fail,
        }),
{
    match status {
        SurfaceStatus::Success => SurfaceAction::Draw,
        SurfaceStatus::Suboptimal => SurfaceAction::DrawThenReconfigure,
        SurfaceStatus::Outdated => SurfaceAction::ReconfigureAndSkip,
        SurfaceStatus::Lost => SurfaceAction::ReconfigureAndSkip,
        SurfaceStatus::Timeout => SurfaceAction::Skip,
        SurfaceStatus::Occluded => SurfaceAction::Skip,
        SurfaceStatus::Failed => SurfaceAction::Fail,
    }
}

/// The surface format to render to: the first that is sRGB, so the shader can
/// work in linear light and still round-trip the camera image exactly, or the
/// first of all if none is.
pub fn pick_format(srgb: &Vec<bool>) -> (index: usize)
    requires
        srgb@.len() > 0,
    ensures
        index < srgb@.len(),
        srgb@[index as int] || index == 0,
        srgb@.contains(true) ==> srgb@[index as int],
        forall|i: int| 0 <= i < index ==> !(#[trigger] srgb@[i]),
{
    let mut i: usize = 0;
    while i < srgb.len()
        invariant
            i <= srgb@.len(),
            forall|k: int| 0 <= k < i ==> !(#[trigger] srgb@[k]),
        decreases srgb.len() - i,
    {
        if srgb[i] {
            return i;
        }
        i += 1;
    }
    0
}

/// The surface size to configure for a new window, which has at least a pixel.
#[verifier::allow_in_spec]
pub fn initial_size(width: u32, height: u32) -> (u32, u32)
    returns
        (
            if width == 0 {
                1u32
            } else {
                width
            },
            if height == 0 {
                1u32
            } else {
                height
            },
        ),
{
    (
        if width == 0 {
            1
        } else {
            width
        },
        if height == 0 {
            1
        } else {
            height
        },
    )
}

/// The surface size to configure after a window resize; none for a window
/// without area, such as a minimized one.
#[verifier::allow_in_spec]
pub fn resized(width: u32, height: u32) -> Option<(u32, u32)>
    returns
        (if width == 0 || height == 0 {
            None
        } else {
            Some((width, height))
        }),
{
    if width == 0 || height == 0 {
        None
    } else {
        Some((width, height))
    }
}

/// The pipeline to draw with: that of the effect, or the last one if there are
/// fewer; none if there are none.
#[verifier::allow_in_spec]
pub fn pipeline_index(effect_index: usize, pipelines: usize) -> Option<usize>
    returns
        (if pipelines == 0 {
            None
        } else if effect_index < pipelines {
            Some(effect_index)
        } else {
            Some((pipelines - 1) as usize)
        }),
{
    if pipelines == 0 {
        None
    } else if effect_index < pipelines {
        Some(effect_index)
    } else {
        Some(pipelines - 1)
    }
}

/// Assemble an effect's full shader.
///
/// Order matters: WGSL has no forward declarations, so the effect body must
/// sit between the bindings it uses and the entry points that call it.
pub fn assemble(head: &str, body: &str, tail: &str) -> (source: String)
    ensures
        source@ == head@ + "\n"@ + body@ + "\n"@ + tail@,
{
    let mut source: String = String::new();
    source.append(head);
    source.append("\n");
    source.append(body);
    source.append("\n");
    source.append(tail);
    assert(source@ =~= head@ + "\n"@ + body@ + "\n"@ + tail@);
    source
}

/// The corners of a region are masked by as they are, and no region masks
/// nothing.
pub proof fn law_mask_is_the_region(region: Region, i: int)
    requires
        0 <= i < 4,
    ensures
        masked(region).len() == 4,
        region matches Region::Quad(c) ==> masked(region)[i] == c[i],
        region is Empty ==> masked(region)[i].x.raw == 0 && masked(region)[i].y.raw == 0,
        flag(region.is_active()).raw == if region is Empty {
            0int
        } else {
            0x1_0000_0000
        },
{
}

/// A surface has at least a pixel, and otherwise the window's own size; a
/// window without area is not resized to.
pub proof fn law_surface_has_area(width: u32, height: u32)
    ensures
        initial_size(width, height).0 >= 1,
        initial_size(width, height).1 >= 1,
        width > 0 ==> initial_size(width, height).0 == width,
        height > 0 ==> initial_size(width, height).1 == height,
        resized(width, height) is Some <==> width > 0 && height > 0,
        resized(width, height) matches Some(size) ==> size == initial_size(width, height),
{
}

/// Each effect is drawn with its own pipeline, as long as there is one.
pub proof fn law_pipeline_is_the_effects(effect_index: usize, pipelines: usize)
    ensures
        effect_index < pipelines ==> pipeline_index(effect_index, pipelines) == Some(effect_index),
        pipelines == 0 <==> pipeline_index(effect_index, pipelines) is None,
        pipeline_index(effect_index, pipelines) matches Some(i) ==> i < pipelines && i
            <= effect_index,
{
}

} // verus!
