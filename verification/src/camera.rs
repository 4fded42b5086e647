//! Camera capture: the frame mailbox, the modes a device offers, and what the
//! capture thread does next.
//!
//! Capture, inference and rendering all run at different rates, so they are
//! decoupled through `FrameBus`: the camera publishes the newest frame and
//! consumers take whatever is current. Nobody blocks anybody.

use crate::frame::Frame;
use crate::sort::{is_sorting, sort, sorts_before};
use crate::text::{
    contains_ignoring_case, decimal, law_occurring_part_is_there, law_part_occurs, occurs, push_decimal,
    reads_as,
};
use crate::tracking::face::{count_on, successor};
use std::sync::Arc;
use vstd::prelude::*;
use vstd::string::StringExecFns;

verus! {

/// A single-slot mailbox holding the most recent frame.
///
/// Deliberately lossy: if a consumer is slow it skips frames rather than
/// building a backlog, which is what you want for a live effect.
pub struct FrameBus {
    slot: Option<Arc<Frame>>,
}

impl View for FrameBus {
    type V = Option<Arc<Frame>>;

    closed spec fn view(&self) -> Option<Arc<Frame>> {
        self.slot
    }
}

impl Default for FrameBus {
    fn default() -> (bus: FrameBus)
        ensures
            bus@ is None,
    {
        FrameBus { slot: None }
    }
}

impl FrameBus {
    pub fn publish(&mut self, frame: Arc<Frame>)
        ensures
            final(self)@ == Some(frame),
    {
        self.slot = Some(frame);
    }

    pub fn latest(&self) -> (frame: Option<Arc<Frame>>)
        ensures
            frame == self@,
    {
        match &self.slot {
            Some(frame) => Some(frame.clone()),
            None => None,
        }
    }
}

/// What the mailbox holds after a run of frames was published.
pub open spec fn slot_after(start: Option<Arc<Frame>>, frames: Seq<Arc<Frame>>) -> Option<Arc<Frame>>
    decreases frames.len(),
{
    if frames.len() == 0 {
        start
    } else {
        slot_after(Some(frames[0]), frames.skip(1))
    }
}

/// However many frames came while nobody looked, only the newest is there.
pub proof fn law_only_the_newest_is_kept(start: Option<Arc<Frame>>, frames: Seq<Arc<Frame>>)
    requires
        frames.len() > 0,
    ensures
        slot_after(start, frames) == Some(frames.last()),
    decreases frames.len(),
{
    reveal_with_fuel(slot_after, 2);
    if frames.len() > 1 {
        law_only_the_newest_is_kept(Some(frames[0]), frames.skip(1));
        assert(frames.skip(1).last() == frames.last());
    } else {
        assert(frames.skip(1).len() == 0);
    }
}

/// A frame size in pixels.
#[derive(Debug, Clone, Copy, PartialEq, Eq, Hash, Structural)]
pub struct Resolution {
    pub width_x: u32,
    pub height_y: u32,
}

impl Resolution {
    #[verifier::allow_in_spec]
    pub fn new(width_x: u32, height_y: u32) -> Resolution
        returns
            (Resolution { width_x, height_y }),
    {
        Resolution { width_x, height_y }
    }

    /// The number of pixels.
    #[verifier::allow_in_spec]
    pub fn area(&self) -> u64
        returns
            (self.width_x * self.height_y) as u64,
    {
        proof {
            lemma_area(*self);
        }
        self.width_x as u64 * self.height_y as u64
    }
}

proof fn lemma_area(r: Resolution)
    ensures
        0 <= r.width_x * r.height_y <= u64::MAX,
{
    assert(0 <= r.width_x * r.height_y <= 0xffff_ffff * 0xffff_ffff) by (nonlinear_arith)
        requires
            0 <= r.width_x <= 0xffff_ffff,
            0 <= r.height_y <= 0xffff_ffff,
    ;
}

/// How a camera encodes its pixels.
#[derive(Debug, Clone, Copy, PartialEq, Eq, Hash, Structural)]
pub enum FrameFormat {
    MJPEG,
    YUYV,
    NV12,
    GRAY,
    RAWRGB,
    RAWBGR,
}

/// A webcam mode: resolution, pixel format and frame rate together.
#[derive(Debug, Clone, Copy, PartialEq, Eq, Hash, Structural)]
pub struct CameraFormat {
    pub resolution: Resolution,
    pub format: FrameFormat,
    pub frame_rate: u32,
}

impl CameraFormat {
    #[verifier::allow_in_spec]
    pub fn new(resolution: Resolution, format: FrameFormat, frame_rate: u32) -> CameraFormat
        returns
            (CameraFormat { resolution, format, frame_rate }),
    {
        CameraFormat { resolution, format, frame_rate }
    }

    /// Width and height.
    #[verifier::allow_in_spec]
    pub fn size(&self) -> (u32, u32)
        returns
            (self.resolution.width_x, self.resolution.height_y),
    {
        (self.resolution.width_x, self.resolution.height_y)
    }
}

/// A request to the capture thread. The camera device cannot leave its own
/// thread, so it can only be reconfigured from inside it.
#[derive(Debug, Clone, Copy, PartialEq, Eq, Structural)]
pub enum CameraCommand {
    /// Carries the whole format triple, not just a size: a webcam mode is
    /// (resolution, pixel format, frame rate) and only complete triples it
    /// advertises are accepted.
    SetFormat(CameraFormat),
}

/// How the device is asked for a mode.
#[derive(Debug, Clone, Copy, PartialEq, Eq, Structural)]
pub enum Request {
    /// For exactly this one.
    Exact(CameraFormat),
    /// For the nearest that it will grant.
    Closest(CameraFormat),
}

impl Request {
    /// The request to begin with: the advertised mode itself.
    #[verifier::allow_in_spec]
    pub fn first(mode: CameraFormat) -> Request
        returns
            Request::Exact(mode),
    {
        Request::Exact(mode)
    }

    /// The request to go on with after a refusal: the nearest match, rather than
    /// giving up, since a device can list a mode that it will not actually
    /// grant. None once that was refused too.
    #[verifier::allow_in_spec]
    pub fn after_refusal(self) -> Option<Request>
        returns
            (match self {
                Request::Exact(mode) => Some(Request::Closest(mode)),
                Request::Closest(_) => None,
            }),
    {
        match self {
            Request::Exact(mode) => Some(Request::Closest(mode)),
            Request::Closest(_) => None,
        }
    }
}

/// What the control panel needs to know about the camera.
#[derive(Debug)]
pub struct CameraState {
    /// Every mode the device advertises, sorted by pixel count then frame rate.
    pub available: Vec<CameraFormat>,
    /// The resolution actually in use: the driver may not honour a request.
    pub current: (u32, u32),
    /// The full mode in use, for display.
    pub current_format: Option<CameraFormat>,
    /// Set when the last change was rejected.
    pub last_error: Option<String>,
}

impl Default for CameraState {
    fn default() -> (state: CameraState)
        ensures
            state.available@.len() == 0,
            state.current == (0u32, 0u32),
            state.current_format is None,
            state.last_error is None,
    {
        CameraState {
            available: Vec::new(),
            current: (0, 0),
            current_format: None,
            last_error: None,
        }
    }
}

impl Clone for CameraState {
    fn clone(&self) -> (state: CameraState)
        ensures
            state.available@ == self.available@,
            state.current == self.current,
            state.current_format == self.current_format,
            state.last_error is Some <==> self.last_error is Some,
            state.last_error matches Some(text) ==> text@ == self.last_error->0@,
    {
        let mut available: Vec<CameraFormat> = Vec::new();
        let mut i: usize = 0;
        while i < self.available.len()
            invariant
                i <= self.available.len(),
                available@ == self.available@.take(i as int),
            decreases self.available.len() - i,
        {
            available.push(self.available[i]);
            i += 1;
        }
        assert(self.available@.take(i as int) =~= self.available@);
        let last_error: Option<String> = match &self.last_error {
            Some(text) => Some(text.clone()),
            None => None,
        };
        CameraState {
            available,
            current: self.current,
            current_format: self.current_format,
            last_error,
        }
    }
}

/// What modes are sorted by: pixel count, then frame rate.
pub open spec fn mode_keys(modes: Seq<CameraFormat>) -> Seq<(u64, u32)> {
    modes.map_values(|m: CameraFormat| (m.resolution.area(), m.frame_rate))
}

/// Modes sorted by pixel count then frame rate.
pub fn sort_modes(modes: &Vec<CameraFormat>) -> (sorted: Vec<CameraFormat>)
    ensures
        exists|order: Seq<int>| #[trigger]
            is_sorting(mode_keys(modes@), order) && sorted@ == order.map_values(
                |i: int| modes@[i],
            ),
{
    let mut keys: Vec<(u64, u32)> = Vec::new();
    let mut i: usize = 0;
    while i < modes.len()
        invariant
            i <= modes.len(),
            keys@.len() == i,
            forall|k: int| 0 <= k < i ==> #[trigger] keys@[k] == mode_keys(modes@)[k],
        decreases modes.len() - i,
    {
        keys.push((modes[i].resolution.area(), modes[i].frame_rate));
        i += 1;
    }
    assert(keys@ =~= mode_keys(modes@));
    let order: Vec<usize> = sort(&keys);
    let ghost view = order@.map_values(|i: usize| i as int);
    let mut sorted: Vec<CameraFormat> = Vec::new();
    let mut n: usize = 0;
    while n < order.len()
        invariant
            n <= order.len(),
            view == order@.map_values(|i: usize| i as int),
            is_sorting(mode_keys(modes@), view),
            sorted@.len() == n,
            forall|k: int| 0 <= k < n ==> #[trigger] sorted@[k] == modes@[view[k]],
        decreases order.len() - n,
    {
        assert(view[n as int] == order@[n as int]);
        sorted.push(modes[order[n]]);
        n += 1;
    }
    assert(sorted@ =~= view.map_values(|i: int| modes@[i]));
    sorted
}

/// The sizes of the first `n` modes, each once, in the order they come up.
pub open spec fn distinct_sizes(modes: Seq<CameraFormat>, n: int) -> Seq<(u32, u32)>
    decreases n,
{
    if n <= 0 {
        seq![]
    } else {
        let before = distinct_sizes(modes, n - 1);
        if before.contains(modes[n - 1].size()) {
            before
        } else {
            before.push(modes[n - 1].size())
        }
    }
}

/// What sizes are sorted by.
pub open spec fn size_keys(sizes: Seq<(u32, u32)>) -> Seq<(u64, u32)> {
    sizes.map_values(|s: (u32, u32)| (Resolution::new(s.0, s.1).area(), 0u32))
}

/// The distinct sizes, smallest first.
pub open spec fn is_size_list(modes: Seq<CameraFormat>, out: Seq<(u32, u32)>) -> bool {
    let sizes = distinct_sizes(modes, modes.len() as int);
    exists|order: Seq<int>| #[trigger]
        is_sorting(size_keys(sizes), order) && out == order.map_values(|i: int| sizes[i])
}

impl CameraState {
    /// The state of a camera that has just been opened; none if it reports a
    /// size without pixels.
    pub fn opened(available: Vec<CameraFormat>, mode: CameraFormat) -> (state: Option<CameraState>)
        ensures
            state is None <==> mode.resolution.width_x == 0 || mode.resolution.height_y == 0,
            state matches Some(s) ==> s.available == available && s.current == mode.size()
                && s.current_format == Some(mode) && s.last_error is None,
    {
        if mode.resolution.width_x == 0 || mode.resolution.height_y == 0 {
            return None;
        }
        Some(
            CameraState {
                available,
                current: mode.size(),
                current_format: Some(mode),
                last_error: None,
            },
        )
    }

    /// The distinct sizes of the modes, in the order they come up.
    fn sizes(&self) -> (sizes: Vec<(u32, u32)>)
        ensures
            sizes@ == distinct_sizes(self.available@, self.available@.len() as int),
    {
        let mut sizes: Vec<(u32, u32)> = Vec::new();
        let mut n: usize = 0;
        while n < self.available.len()
            invariant
                n <= self.available.len(),
                sizes@ == distinct_sizes(self.available@, n as int),
            decreases self.available.len() - n,
        {
            let size: (u32, u32) = self.available[n].size();
            let mut known: bool = false;
            let mut i: usize = 0;
            while i < sizes.len() && !known
                invariant
                    i <= sizes.len(),
                    known ==> sizes@.contains(size),
                    !known ==> forall|k: int| 0 <= k < i ==> #[trigger] sizes@[k] != size,
                decreases sizes.len() - i,
            {
                if sizes[i].0 == size.0 && sizes[i].1 == size.1 {
                    known = true;
                    assert(sizes@[i as int] == size);
                }
                i += 1;
            }
            if !known {
                sizes.push(size);
            }
            n += 1;
        }
        sizes
    }

    /// Distinct resolutions, for the panel's dropdown.
    pub fn resolutions(&self) -> (out: Vec<(u32, u32)>)
        ensures
            is_size_list(self.available@, out@),
    {
        let sizes: Vec<(u32, u32)> = self.sizes();
        let mut keys: Vec<(u64, u32)> = Vec::new();
        let mut i: usize = 0;
        while i < sizes.len()
            invariant
                i <= sizes.len(),
                keys@.len() == i,
                forall|k: int| 0 <= k < i ==> #[trigger] keys@[k] == size_keys(sizes@)[k],
            decreases sizes.len() - i,
        {
            keys.push((Resolution::new(sizes[i].0, sizes[i].1).area(), 0));
            i += 1;
        }
        assert(keys@ =~= size_keys(sizes@));
        let order: Vec<usize> = sort(&keys);
        let ghost view = order@.map_values(|i: usize| i as int);
        let mut out: Vec<(u32, u32)> = Vec::new();
        let mut n: usize = 0;
        while n < order.len()
            invariant
                n <= order.len(),
                view == order@.map_values(|i: usize| i as int),
                is_sorting(size_keys(sizes@), view),
                out@.len() == n,
                forall|k: int| 0 <= k < n ==> #[trigger] out@[k] == sizes@[view[k]],
            decreases order.len() - n,
        {
            assert(view[n as int] == order@[n as int]);
            out.push(sizes[order[n]]);
            n += 1;
        }
        assert(out@ =~= view.map_values(|i: int| sizes@[i]));
        out
    }

    /// The sizes that the panel offers: those of the device, or the current
    /// one alone if the device would not enumerate.
    pub fn choices(&self) -> (out: Vec<(u32, u32)>)
        ensures
            self.available@.len() > 0 ==> is_size_list(self.available@, out@),
            self.available@.len() == 0 ==> out@ == seq![self.current],
    {
        let mut out: Vec<(u32, u32)> = self.resolutions();
        proof {
            lemma_sizes_not_empty(self.available@, self.available@.len() as int);
        }
        if out.len() == 0 {
            out.push(self.current);
        }
        out
    }

    /// A resolution is answered with the command for the best mode that has it,
    /// which leaves the last error as it was, or with an error if none does.
    pub open spec fn answers(
        &self,
        width: u32,
        height: u32,
        command: Option<CameraCommand>,
        error: Option<String>,
    ) -> bool {
        match command {
            Some(CameraCommand::SetFormat(mode)) => {
                &&& is_best_mode(self.available@, width, height, mode)
                &&& error == self.last_error
            },
            None => {
                &&& no_mode(self.available@, width, height)
                &&& error is Some
                &&& error->0@ == decimal(width as nat) + "x"@ + decimal(height as nat)
                    + " is not an advertised mode"@
            },
        }
    }

    /// Request a resolution, resolved against the device's advertised modes.
    ///
    /// Gives the command for the capture thread, or records why there is none.
    pub fn set_resolution(&mut self, width: u32, height: u32) -> (command: Option<CameraCommand>)
        ensures
            final(self).available == old(self).available,
            final(self).current == old(self).current,
            final(self).current_format == old(self).current_format,
            old(self).answers(width, height, command, final(self).last_error),
    {
        match best_mode(self.available.as_slice(), width, height) {
            Some(mode) => Some(CameraCommand::SetFormat(mode)),
            None => {
                let mut text: String = String::new();
                push_decimal(&mut text, width as u64);
                text.append("x");
                push_decimal(&mut text, height as u64);
                text.append(" is not an advertised mode");
                assert(text@ =~= decimal(width as nat) + "x"@ + decimal(height as nat)
                    + " is not an advertised mode"@);
                self.last_error = Some(text);
                None
            },
        }
    }

    /// What the panel's choice asks of the camera. Requesting the size already
    /// in use would pointlessly restart the stream, so it asks nothing.
    pub fn choose_size(&mut self, chosen: (u32, u32)) -> (command: Option<CameraCommand>)
        ensures
            final(self).available == old(self).available,
            final(self).current == old(self).current,
            final(self).current_format == old(self).current_format,
            chosen == old(self).current ==> command is None && final(self).last_error == old(self).last_error,
            chosen != old(self).current ==> old(self).answers(
                chosen.0,
                chosen.1,
                command,
                final(self).last_error,
            ),
    {
        if chosen.0 == self.current.0 && chosen.1 == self.current.1 {
            None
        } else {
            self.set_resolution(chosen.0, chosen.1)
        }
    }

    /// The camera settled on a mode, which is not always the one requested.
    pub fn settled(&mut self, actual: CameraFormat)
        ensures
            final(self).available == old(self).available,
            final(self).current == actual.size(),
            final(self).current_format == Some(actual),
            final(self).last_error is None,
    {
        self.current = actual.size();
        self.current_format = Some(actual);
        self.last_error = None;
    }

    /// The camera rejected a mode; the one in use stays.
    pub fn rejected(&mut self, reason: String)
        ensures
            final(self).available == old(self).available,
            final(self).current == old(self).current,
            final(self).current_format == old(self).current_format,
            final(self).last_error == Some(reason),
    {
        self.last_error = Some(reason);
    }
}

/// How a mode ranks: MJPEG before anything else, then the frame rate, where
/// anything above 60 counts as none.
pub open spec fn mode_rank(mode: CameraFormat) -> (int, int) {
    (
        if mode.format == FrameFormat::MJPEG {
            1
        } else {
            0
        },
        if mode.frame_rate <= 60 {
            mode.frame_rate as int
        } else {
            0
        },
    )
}

/// Mode `a` ranks above mode `b`.
pub open spec fn ranks_above(a: CameraFormat, b: CameraFormat) -> bool {
    mode_rank(a).0 > mode_rank(b).0 || (mode_rank(a).0 == mode_rank(b).0 && mode_rank(a).1
        > mode_rank(b).1)
}

/// No mode has this size.
pub open spec fn no_mode(available: Seq<CameraFormat>, width: u32, height: u32) -> bool {
    forall|i: int| 0 <= i < available.len() ==> (#[trigger] available[i]).size() != (width, height)
}

/// `best` is the last of the modes of this size that none ranks above.
pub open spec fn is_best_mode(
    available: Seq<CameraFormat>,
    width: u32,
    height: u32,
    best: CameraFormat,
) -> bool {
    exists|i: int| #[trigger] is_best_at(available, width, height, i) && available[i] == best
}

/// Mode `i` has this size, no other of this size ranks above it, and none that
/// comes later ranks as high.
pub open spec fn is_best_at(available: Seq<CameraFormat>, width: u32, height: u32, i: int) -> bool {
    &&& 0 <= i < available.len()
    &&& available[i].size() == (width, height)
    &&& forall|j: int|
        0 <= j < available.len() && (#[trigger] available[j]).size() == (width, height)
            ==> !ranks_above(available[j], available[i]) && (j > i ==> ranks_above(
            available[i],
            available[j],
        ))
}

/// Whether mode `a` ranks above mode `b`.
fn outranks(a: &CameraFormat, b: &CameraFormat) -> (above: bool)
    ensures
        above == ranks_above(*a, *b),
{
    let a_mjpeg: bool = a.format == FrameFormat::MJPEG;
    let b_mjpeg: bool = b.format == FrameFormat::MJPEG;
    // Prefer the fastest mode that is still a sane capture rate; anything
    // above 60 is ranked below it rather than chased.
    let a_rate: u32 = if a.frame_rate <= 60 {
        a.frame_rate
    } else {
        0
    };
    let b_rate: u32 = if b.frame_rate <= 60 {
        b.frame_rate
    } else {
        0
    };
    (a_mjpeg && !b_mjpeg) || (a_mjpeg == b_mjpeg && a_rate > b_rate)
}

/// Pick the best advertised mode at a given resolution.
///
/// Preferring MJPEG matters: uncompressed modes (YUYV/NV12) are limited by USB
/// bandwidth, so a webcam typically offers 1080p only as MJPEG.
pub fn best_mode(available: &[CameraFormat], width: u32, height: u32) -> (best: Option<
    CameraFormat,
>)
    ensures
        match best {
            Some(mode) => is_best_mode(available@, width, height, mode),
            None => no_mode(available@, width, height),
        },
{
    let mut best: Option<usize> = None;
    let mut i: usize = 0;
    while i < available.len()
        invariant
            i <= available@.len(),
            best is None ==> forall|j: int|
                0 <= j < i ==> (#[trigger] available@[j]).size() != (width, height),
            best matches Some(b) ==> b < i && available@[b as int].size() == (width, height)
                && forall|j: int|
                0 <= j < i && (#[trigger] available@[j]).size() == (width, height)
                    ==> !ranks_above(available@[j], available@[b as int]) && (j > b
                    ==> ranks_above(available@[b as int], available@[j])),
        decreases available@.len() - i,
    {
        let (w, h) = available[i].size();
        if w == width && h == height {
            best = match best {
                Some(b) => {
                    if outranks(&available[b], &available[i]) {
                        Some(b)
                    } else {
                        Some(i)
                    }
                },
                None => Some(i),
            };
        }
        i += 1;
    }
    match best {
        Some(b) => {
            assert(is_best_at(available@, width, height, b as int));
            Some(available[b])
        },
        None => None,
    }
}

#[derive(Debug, Clone, Copy, PartialEq, Eq, Structural)]
pub struct CameraConfig {
    pub index: u32,
    /// Requested capture size. The driver may pick something close instead.
    pub width: u32,
    pub height: u32,
}

impl Default for CameraConfig {
    fn default() -> (cfg: CameraConfig)
        ensures
            cfg == (CameraConfig { index: 0, width: 640, height: 480 }),
    {
        // 640x480 keeps the CPU-side ROI sampling cheap while giving the
        // landmark model plenty of detail.
        CameraConfig { index: 0, width: 640, height: 480 }
    }
}

impl CameraConfig {
    /// The mode to ask for when opening the camera.
    #[verifier::allow_in_spec]
    pub fn request(&self) -> CameraFormat
        returns
            (CameraFormat {
                resolution: Resolution { width_x: self.width, height_y: self.height },
                format: FrameFormat::MJPEG,
                frame_rate: 30,
            }),
    {
        CameraFormat {
            resolution: Resolution { width_x: self.width, height_y: self.height },
            format: FrameFormat::MJPEG,
            frame_rate: 30,
        }
    }
}

/// A name that hints at a virtual capture source rather than a real camera.
pub open spec fn is_virtual(name: Seq<char>) -> bool {
    ||| occurs(name, "ndi"@)
    ||| occurs(name, "virtual"@)
    ||| occurs(name, "obs"@)
    ||| occurs(name, "dummy"@)
    ||| occurs(name, "screen"@)
    ||| occurs(name, "capture card"@)
}

/// Whether a device name hints at a virtual capture source.
///
/// Machines with OBS, NDI or similar tools installed often expose several of
/// these ahead of the physical webcam, so index 0 is a poor default.
pub fn looks_virtual(name: &str) -> (hinted: bool)
    ensures
        hinted == is_virtual(name@),
{
    contains_ignoring_case(name, "ndi") || contains_ignoring_case(name, "virtual")
        || contains_ignoring_case(name, "obs") || contains_ignoring_case(name, "dummy")
        || contains_ignoring_case(name, "screen") || contains_ignoring_case(name, "capture card")
}

/// A capture device: its name, and its number if it has one.
#[derive(Debug, Clone)]
pub struct Device {
    pub name: String,
    pub index: Option<u32>,
}

/// A device that can be opened and does not look virtual.
pub open spec fn is_physical(device: Device) -> bool {
    device.index is Some && !is_virtual(device.name@)
}

/// The first physical device among the first `n`.
pub open spec fn first_physical(devices: Seq<Device>, n: int) -> Option<int>
    decreases n,
{
    if n <= 0 {
        None
    } else {
        match first_physical(devices, n - 1) {
            Some(i) => Some(i),
            None => if is_physical(devices[n - 1]) {
                Some(n - 1)
            } else {
                None
            },
        }
    }
}

/// Pick a sensible default camera: the first device that does not look like a
/// virtual source, falling back to index 0.
pub fn pick_index(devices: &Vec<Device>) -> (index: u32)
    ensures
        match first_physical(devices@, devices@.len() as int) {
            Some(i) => devices@[i].index == Some(index),
            None => index == 0,
        },
{
    let mut i: usize = 0;
    while i < devices.len()
        invariant
            i <= devices.len(),
            first_physical(devices@, i as int) is None,
        decreases devices.len() - i,
    {
        if !looks_virtual(devices[i].name.as_str()) {
            match devices[i].index {
                Some(index) => {
                    proof {
                        lemma_first_physical(devices@, i + 1, devices@.len() as int);
                    }
                    return index;
                },
                None => {},
            }
        }
        i += 1;
    }
    0
}

/// Devices that come later do not change which is first.
proof fn lemma_first_physical(devices: Seq<Device>, n: int, m: int)
    requires
        0 <= n <= m,
        first_physical(devices, n) is Some,
    ensures
        first_physical(devices, m) == first_physical(devices, n),
    decreases m - n,
{
    if n < m {
        lemma_first_physical(devices, n, m - 1);
    }
}

/// What the capture thread counts: the frames it has published, and the reads
/// that have failed since the last good one.
#[derive(Debug, Clone, Copy)]
pub struct CaptureCount {
    seq: u64,
    failures: u32,
}

impl CaptureCount {
    /// The number of the last frame.
    pub closed spec fn seq(&self) -> u64 {
        self.seq
    }

    /// Reads that have failed in a row.
    pub closed spec fn failures(&self) -> u32 {
        self.failures
    }

    pub fn new() -> (count: CaptureCount)
        ensures
            count.seq() == 0,
            count.failures() == 0,
    {
        CaptureCount { seq: 0, failures: 0 }
    }

    /// The stream restarted underneath us, or a read succeeded: earlier
    /// failures no longer count.
    pub fn recovered(&mut self)
        ensures
            final(self).seq() == old(self).seq(),
            final(self).failures() == 0,
    {
        self.failures = 0;
    }

    /// A frame was decoded; gives its number.
    pub fn decoded(&mut self) -> (seq: u64)
        ensures
            seq == successor(old(self).seq()),
            final(self).seq() == seq,
            final(self).failures() == old(self).failures(),
    {
        self.seq = count_on(self.seq);
        self.seq
    }

    /// A read failed. A few dropped frames are normal; a sustained failure
    /// means the device is gone, and the thread should stop.
    pub fn failed(&mut self) -> (stop: bool)
        ensures
            final(self).seq() == old(self).seq(),
            final(self).failures() == failures_after(old(self).failures()),
            stop == (final(self).failures() > 60),
    {
        if self.failures < u32::MAX {
            self.failures += 1;
        }
        self.failures > 60
    }
}

/// The number of failures after one more.
pub open spec fn failures_after(failures: u32) -> u32 {
    if failures < u32::MAX {
        (failures + 1) as u32
    } else {
        failures
    }
}

/// The number of failures after a run of reads, of which each was good or not.
pub open spec fn failures_over(start: u32, reads: Seq<bool>) -> u32
    decreases reads.len(),
{
    if reads.len() == 0 {
        start
    } else if reads.last() {
        0
    } else {
        failures_after(failures_over(start, reads.drop_last()))
    }
}

/// However many frames are lost, one good read within every sixty keeps the
/// thread going.
pub proof fn law_occasional_failures_are_survived(start: u32, reads: Seq<bool>, good: int)
    requires
        0 <= good < reads.len(),
        reads[good],
        reads.len() - good <= 61,
    ensures
        failures_over(start, reads) <= 60,
    decreases reads.len(),
{
    lemma_failures_since(start, reads, good);
}

proof fn lemma_failures_since(start: u32, reads: Seq<bool>, good: int)
    requires
        0 <= good < reads.len(),
        reads[good],
    ensures
        failures_over(start, reads) <= reads.len() - 1 - good,
    decreases reads.len(),
{
    if good < reads.len() - 1 {
        lemma_failures_since(start, reads.drop_last(), good);
    }
}

/// Sixty-one failures in a row stop the thread.
pub proof fn law_sustained_failure_stops(start: u32, reads: Seq<bool>)
    requires
        reads.len() > 60,
        forall|i: int| 0 <= i < reads.len() ==> !#[trigger] reads[i],
    ensures
        failures_over(start, reads) > 60,
{
    lemma_failures_add_up(start, reads);
}

proof fn lemma_failures_add_up(start: u32, reads: Seq<bool>)
    requires
        forall|i: int| 0 <= i < reads.len() ==> !#[trigger] reads[i],
    ensures
        failures_over(start, reads) >= reads.len() || failures_over(start, reads) == u32::MAX,
    decreases reads.len(),
{
    if reads.len() > 0 {
        let before = reads.drop_last();
        assert forall|i: int| 0 <= i < before.len() implies !#[trigger] before[i] by {
            assert(before[i] == reads[i]);
        }
        lemma_failures_add_up(start, before);
        assert(!reads[reads.len() - 1]);
    }
}

proof fn lemma_sizes_not_empty(modes: Seq<CameraFormat>, n: int)
    requires
        0 <= n <= modes.len(),
    ensures
        distinct_sizes(modes, n).len() > 0 <==> n > 0,
    decreases n,
{
    if n > 0 {
        lemma_sizes_not_empty(modes, n - 1);
    }
}

/// The dropdown lists each resolution of the device exactly once, from the
/// fewest pixels to the most.
pub proof fn law_resolutions_are_distinct(modes: Seq<CameraFormat>, out: Seq<(u32, u32)>)
    requires
        is_size_list(modes, out),
    ensures
        forall|i: int| 0 <= i < modes.len() ==> out.contains((#[trigger] modes[i]).size()),
        forall|a: int|
            0 <= a < out.len() ==> exists|i: int|
                0 <= i < modes.len() && (#[trigger] modes[i]).size() == #[trigger] out[a],
        forall|a: int, b: int|
            0 <= a < b < out.len() ==> #[trigger] out[a] != #[trigger] out[b] && Resolution::new(
                out[a].0,
                out[a].1,
            ).area() <= Resolution::new(out[b].0, out[b].1).area(),
{
    let sizes = distinct_sizes(modes, modes.len() as int);
    let order = choose|order: Seq<int>| #[trigger]
        is_sorting(size_keys(sizes), order) && out == order.map_values(|i: int| sizes[i]);
    lemma_distinct_sizes(modes, modes.len() as int);
    assert forall|i: int| 0 <= i < modes.len() implies out.contains((#[trigger] modes[i]).size()) by {
        assert(sizes.contains(modes[i].size()));
        let k = choose|k: int| 0 <= k < sizes.len() && sizes[k] == modes[i].size();
        assert(order.contains(k));
        let a = choose|a: int| 0 <= a < order.len() && order[a] == k;
        assert(out[a] == modes[i].size());
    }
    assert forall|a: int| 0 <= a < out.len() implies exists|i: int|
        0 <= i < modes.len() && (#[trigger] modes[i]).size() == #[trigger] out[a] by {
        assert(0 <= order[a] < sizes.len());
        assert(out[a] == sizes[order[a]]);
        let i = choose|i: int| 0 <= i < modes.len() && (#[trigger] modes[i]).size() == sizes[order[a]];
        assert(modes[i].size() == out[a]);
    }
    assert forall|a: int, b: int| 0 <= a < b < out.len() implies #[trigger] out[a]
        != #[trigger] out[b] && Resolution::new(out[a].0, out[a].1).area() <= Resolution::new(
        out[b].0,
        out[b].1,
    ).area() by {
        assert(sorts_before(size_keys(sizes), order[a], order[b]));
        assert(order[a] != order[b]);
        assert(out[a] == sizes[order[a]] && out[b] == sizes[order[b]]);
    }
}

proof fn lemma_distinct_sizes(modes: Seq<CameraFormat>, n: int)
    requires
        0 <= n <= modes.len(),
    ensures
        forall|i: int| 0 <= i < n ==> distinct_sizes(modes, n).contains((#[trigger] modes[i]).size()),
        forall|a: int|
            0 <= a < distinct_sizes(modes, n).len() ==> exists|i: int|
                0 <= i < n && (#[trigger] modes[i]).size() == #[trigger] distinct_sizes(
                    modes,
                    n,
                )[a],
        forall|a: int, b: int|
            0 <= a < distinct_sizes(modes, n).len() && 0 <= b < distinct_sizes(modes, n).len() && a
                != b ==> #[trigger] distinct_sizes(modes, n)[a] != #[trigger] distinct_sizes(
                modes,
                n,
            )[b],
    decreases n,
{
    if n > 0 {
        lemma_distinct_sizes(modes, n - 1);
        let before = distinct_sizes(modes, n - 1);
        let now = distinct_sizes(modes, n);
        assert forall|i: int| 0 <= i < n implies now.contains((#[trigger] modes[i]).size()) by {
            if i < n - 1 {
                assert(before.contains(modes[i].size()));
                let k = choose|k: int| 0 <= k < before.len() && before[k] == modes[i].size();
                assert(now[k] == modes[i].size());
            } else if !before.contains(modes[i].size()) {
                assert(now[before.len() as int] == modes[i].size());
            }
        }
        assert forall|a: int| 0 <= a < now.len() implies exists|i: int|
            0 <= i < n && (#[trigger] modes[i]).size() == #[trigger] now[a] by {
            if a < before.len() {
                assert(now[a] == before[a]);
                let i = choose|i: int|
                    0 <= i < n - 1 && (#[trigger] modes[i]).size() == before[a];
                assert(modes[i].size() == now[a]);
            } else {
                assert(modes[n - 1].size() == now[a]);
            }
        }
        assert forall|a: int, b: int|
            0 <= a < now.len() && 0 <= b < now.len() && a != b implies #[trigger] now[a]
            != #[trigger] now[b] by {
            if a < before.len() && b < before.len() {
                assert(before[a] != before[b]);
            } else if a < before.len() {
                assert(before.contains(before[a]));
            } else {
                assert(before.contains(before[b]));
            }
        }
    }
}

/// A size that the dropdown lists is always granted a mode.
pub proof fn law_listed_resolutions_have_a_mode(modes: Seq<CameraFormat>, i: int)
    requires
        0 <= i < modes.len(),
    ensures
        !no_mode(modes, modes[i].size().0, modes[i].size().1),
{
}

/// MJPEG is preferred whenever a size is offered in it.
pub proof fn law_best_mode_prefers_mjpeg(
    modes: Seq<CameraFormat>,
    width: u32,
    height: u32,
    best: CameraFormat,
    i: int,
)
    requires
        is_best_mode(modes, width, height, best),
        0 <= i < modes.len(),
        modes[i].size() == (width, height),
        modes[i].format == FrameFormat::MJPEG,
    ensures
        best.format == FrameFormat::MJPEG,
        best.size() == (width, height),
{
    let b = choose|b: int| #[trigger] is_best_at(modes, width, height, b) && modes[b] == best;
    assert(!ranks_above(modes[i], modes[b]));
}

/// Of the modes of a size in the same encoding the fastest up to 60 frames a
/// second is taken, and one above that only where there is no other.
pub proof fn law_best_mode_is_the_fastest_sane(
    modes: Seq<CameraFormat>,
    width: u32,
    height: u32,
    best: CameraFormat,
    i: int,
)
    requires
        is_best_mode(modes, width, height, best),
        0 <= i < modes.len(),
        modes[i].resolution.width_x == width,
        modes[i].resolution.height_y == height,
        (modes[i].format == FrameFormat::MJPEG) == (best.format == FrameFormat::MJPEG),
        0 < modes[i].frame_rate <= 60,
    ensures
        modes[i].frame_rate <= best.frame_rate <= 60,
        best.resolution == modes[i].resolution,
        modes.contains(best),
{
    let b = choose|b: int| #[trigger] is_best_at(modes, width, height, b) && modes[b] == best;
    assert(modes[i].size() == (width, height));
    assert(!ranks_above(modes[i], modes[b]));
}

/// A size is without a mode only if no mode has that width and that height.
pub proof fn law_size_without_mode(modes: Seq<CameraFormat>, width: u32, height: u32, i: int)
    requires
        no_mode(modes, width, height),
        0 <= i < modes.len(),
    ensures
        modes[i].resolution.width_x != width || modes[i].resolution.height_y != height,
{
    assert(modes[i].size() != (width, height));
}

/// Sorted modes go from the fewest pixels to the most, and among as many from
/// the slowest to the fastest, in the order they came in where they are alike;
/// each mode of the device is there.
pub proof fn law_modes_are_sorted(modes: Seq<CameraFormat>, order: Seq<int>, a: int, b: int)
    requires
        is_sorting(mode_keys(modes), order),
        0 <= a < b < order.len(),
    ensures
        ({
            let (m, n) = (modes[order[a]], modes[order[b]]);
            let (p, q) = (
                m.resolution.width_x * m.resolution.height_y,
                n.resolution.width_x * n.resolution.height_y,
            );
            p < q || (p == q && m.frame_rate < n.frame_rate) || (p == q && m.frame_rate
                == n.frame_rate && order[a] < order[b])
        }),
        order.len() == modes.len(),
        forall|i: int| 0 <= i < modes.len() ==> order.contains(i),
{
    assert(sorts_before(mode_keys(modes), order[a], order[b]));
    lemma_area(modes[order[a]].resolution);
    lemma_area(modes[order[b]].resolution);
}

/// The camera that is picked is the first that has a number and whose name
/// hints at nothing virtual.
pub proof fn law_first_physical_is_first(devices: Seq<Device>, n: int)
    requires
        0 <= n <= devices.len(),
    ensures
        match first_physical(devices, n) {
            Some(i) => 0 <= i < n && devices[i].index is Some && !is_virtual(devices[i].name@)
                && forall|j: int|
                0 <= j < i ==> (#[trigger] devices[j]).index is None || is_virtual(devices[j].name@),
            None => forall|j: int|
                0 <= j < n ==> (#[trigger] devices[j]).index is None || is_virtual(devices[j].name@),
        },
    decreases n,
{
    if n > 0 {
        law_first_physical_is_first(devices, n - 1);
    }
}

/// A failed read counts one more, and a good one starts the count over.
pub proof fn law_failures_are_counted(start: u32, reads: Seq<bool>)
    ensures
        failures_over(start, reads.push(true)) == 0,
        failures_over(start, reads) < u32::MAX ==> failures_over(start, reads.push(false))
            == failures_over(start, reads) + 1,
{
    assert(reads.push(false).drop_last() =~= reads);
}

/// Of modes that rank alike the one that comes last is taken.
pub proof fn law_last_of_equal_modes_is_taken(
    modes: Seq<CameraFormat>,
    width: u32,
    height: u32,
    i: int,
    j: int,
)
    requires
        is_best_at(modes, width, height, i),
        0 <= j < modes.len(),
        modes[j].size() == (width, height),
        (modes[j].format == FrameFormat::MJPEG) == (modes[i].format == FrameFormat::MJPEG),
        modes[j].frame_rate == modes[i].frame_rate || (modes[j].frame_rate > 60
            && modes[i].frame_rate > 60),
    ensures
        j <= i,
{
}

/// A mode is asked for as it is, then for the nearest to it, and then no more.
pub proof fn law_requests_relax_once(mode: CameraFormat)
    ensures
        Request::first(mode) == Request::Exact(mode),
        Request::first(mode).after_refusal() == Some(Request::Closest(mode)),
        Request::Closest(mode).after_refusal() is None,
{
}

/// The words that hint at a virtual source.
pub open spec fn is_hint(word: Seq<char>) -> bool {
    word == "ndi"@ || word == "virtual"@ || word == "obs"@ || word == "dummy"@ || word == "screen"@
        || word == "capture card"@
}

/// A name hints at a virtual source if and only if one of the six words stands
/// in it, wherever that is and in whichever case it is written.
pub proof fn law_hints_are_words_in_the_name(
    name: Seq<char>,
    before: Seq<char>,
    written: Seq<char>,
    after: Seq<char>,
    word: Seq<char>,
)
    ensures
        is_hint(word) && reads_as(written, word) ==> is_virtual(before + written + after),
        is_virtual(name) ==> exists|w: Seq<char>, at: int|
            is_hint(w) && 0 <= at && at + w.len() <= name.len() && #[trigger] reads_as(
                name.subrange(at, at + w.len()),
                w,
            ),
{
    reveal_strlit("ndi");
    reveal_strlit("virtual");
    reveal_strlit("obs");
    reveal_strlit("dummy");
    reveal_strlit("screen");
    reveal_strlit("capture card");
    if is_hint(word) && reads_as(written, word) {
        law_part_occurs(before, word, written, after);
    }
    if is_virtual(name) {
        let w = if occurs(name, "ndi"@) {
            "ndi"@
        } else if occurs(name, "virtual"@) {
            "virtual"@
        } else if occurs(name, "obs"@) {
            "obs"@
        } else if occurs(name, "dummy"@) {
            "dummy"@
        } else if occurs(name, "screen"@) {
            "screen"@
        } else {
            "capture card"@
        };
        law_occurring_part_is_there(name, w);
        let at = choose|at: int|
            0 <= at && at + w.len() <= name.len() && #[trigger] reads_as(
                name.subrange(at, at + w.len()),
                w,
            );
        assert(is_hint(w));
        assert(reads_as(name.subrange(at, at + w.len()), w));
    }
}

} // verus!
