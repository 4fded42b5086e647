//! Two-stage hand tracking.
//!
//! Stage 1 (palm detection) is expensive and only answers "where are hands?".
//! Stage 2 (landmarks) is cheap and precise but needs a tight crop to work.
//! So we run stage 1 only when we are short of hands, and otherwise re-derive
//! each crop from the previous frame's landmarks.
//!
//! The tracker here decides what to run and reads what came back; running the
//! models is the caller's part. One frame goes like this:
//! [`HandTracker::begin`] says whether palms are to be looked for,
//! [`HandTracker::seed`] takes what the palm model found, the landmark model
//! runs over [`HandTracker::roi`] of each track, and [`HandTracker::finish`]
//! takes what it found.

pub mod face;
pub mod filter;
pub mod hand;
pub mod landmark;
pub mod nms;
pub mod palm;
pub mod roi;
pub mod ssd;

use crate::fixed::Fx;
use crate::frame::Frame;
use crate::settings::TrackingSettings;
use crate::vector::{Vec2, Vec3};
use face::{count_on, due, is_due, successor};
use filter::{HandFilter, Memory, OneEuroConfig};
use hand::{Hand, HandFrame, LANDMARK_COUNT};
use nms::{is_ranking, kept_of};
use palm::{is_decoded, model_anchors, Anchors, Letterbox, PalmDetection};
use roi::{enclosure, Heading, Roi};
use ssd::{boxes_fit, padded_color, passing, rows, write_letterbox};
use vstd::prelude::*;

verus! {

pub struct TrackerConfig {
    pub max_hands: usize,
    /// Try the GPU (DirectML) first, falling back to CPU automatically.
    pub use_gpu: bool,
}

impl Default for TrackerConfig {
    fn default() -> (cfg: TrackerConfig)
        ensures
            cfg == (TrackerConfig { max_hands: 2, use_gpu: true }),
    {
        TrackerConfig { max_hands: 2, use_gpu: true }
    }
}

/// A hand we are actively tracking between frames.
#[derive(Debug, Clone, Copy)]
pub struct Track {
    roi: Roi,
    filter: HandFilter,
}

impl Track {
    /// Where the hand is looked for.
    pub closed spec fn roi(&self) -> Roi {
        self.roi
    }

    /// What the filter of each of its joints remembers.
    pub closed spec fn memory(&self) -> Seq<Memory> {
        self.filter.memory()
    }

    /// A track that has just been seeded.
    pub open spec fn is_new(&self, roi: Roi) -> bool {
        self.roi() == roi && self.memory() == Seq::new(
            LANDMARK_COUNT as nat,
            |i: int| filter::blank(),
        )
    }
}

/// The crop for a detected palm.
pub open spec fn palm_roi(det: PalmDetection) -> Roi {
    enclosure(
        det.keypoints@,
        det.rotation(),
        Fx { raw: landmark::PALM_BOX_ENLARGE },
        Vec2::zero(),
    )
}

/// A palm that lands inside a hand we already follow.
pub open spec fn is_followed(rois: Seq<Roi>, center: Vec2) -> bool {
    exists|i: int|
        0 <= i < rois.len() && (#[trigger] rois[i]).center.distance(center).raw
            < rois[i].side.over(Fx::whole(2)).raw
}

/// The crops that are followed once the first `n` palms have been looked at:
/// each palm that is not followed yet is added, until there are enough.
pub open spec fn seeded(rois: Seq<Roi>, dets: Seq<PalmDetection>, limit: usize, n: int) -> Seq<Roi>
    decreases n,
{
    if n <= 0 {
        rois
    } else {
        let before = seeded(rois, dets, limit, n - 1);
        if before.len() < limit && !is_followed(before, dets[n - 1].center) {
            before.push(palm_roi(dets[n - 1]))
        } else {
            before
        }
    }
}

/// The crops that are followed after palm detection: overlapping detections
/// are suppressed, and what remains is seeded best first.
pub open spec fn after_palms(
    rois: Seq<Roi>,
    dets: Seq<PalmDetection>,
    order: Seq<int>,
    limit: usize,
) -> Seq<Roi> {
    let kept = kept_of(dets, order, Fx::ratio(3, 10), limit as nat, dets.len() as int);
    seeded(rois, kept, limit, kept.len() as int)
}

/// The palms that the detector reports.
pub open spec fn reported(
    dets: Seq<PalmDetection>,
    boxes: Seq<Fx>,
    scores: Seq<Fx>,
    lb: Letterbox,
    threshold: Fx,
) -> bool {
    let confident = passing(scores, threshold, rows(palm::NUM_ANCHORS as nat, scores.len()));
    &&& dets.len() == confident.len()
    &&& forall|j: int|
        0 <= j < dets.len() ==> is_decoded(
            #[trigger] dets[j],
            boxes,
            scores,
            model_anchors(),
            lb,
            confident[j],
        )
}

/// The tracks among the first `n` whose hand was seen with enough confidence.
pub open spec fn survivors(seen: Seq<Option<Hand>>, threshold: Fx, n: int) -> Seq<int>
    decreases n,
{
    if n <= 0 {
        seq![]
    } else {
        let before = survivors(seen, threshold, n - 1);
        match seen[n - 1] {
            Some(hand) if hand.score.raw >= threshold.raw => before.push(n - 1),
            _ => before,
        }
    }
}

/// Landmarks as pixel positions.
pub open spec fn pixels(landmarks: Seq<Vec3>, size: Vec2) -> Seq<Vec2> {
    landmarks.map_values(|p: Vec3| Vec2 { x: p.x.times(size.x), y: p.y.times(size.y) })
}

/// A hand was followed from one frame to the next: `out` is `seen` with its
/// joints smoothed, and the track that remains looks for it there.
pub open spec fn is_step(
    before: Track,
    seen: Hand,
    dt: Fx,
    cfg: OneEuroConfig,
    size: Vec2,
    after: Track,
    out: Hand,
) -> bool {
    &&& out.score == seen.score
    &&& out.handedness == seen.handedness
    &&& forall|i: int|
        0 <= i < LANDMARK_COUNT ==> #[trigger] out.landmarks[i] == before.memory()[i].filtered(
            seen.landmarks[i],
            dt,
            cfg,
        )
    &&& forall|i: int|
        0 <= i < LANDMARK_COUNT ==> #[trigger] after.memory()[i] == before.memory()[i].next(
            seen.landmarks[i],
            dt,
            cfg,
        )
    &&& after.roi() == landmark::next_roi(pixels(out.landmarks@, size))
}

/// The number of hands to follow.
pub open spec fn hand_limit(cfg: TrackerConfig, settings: TrackingSettings) -> usize {
    if settings.max_hands < cfg.max_hands {
        settings.max_hands
    } else {
        cfg.max_hands
    }
}

pub struct HandTracker {
    anchors: Anchors,
    tracks: Vec<Track>,
    cfg: TrackerConfig,
    seq: u64,
}

impl HandTracker {
    pub closed spec fn tracks(&self) -> Seq<Track> {
        self.tracks@
    }

    /// Where each hand is looked for.
    pub open spec fn rois(&self) -> Seq<Roi> {
        self.tracks().map_values(|t: Track| t.roi())
    }

    pub closed spec fn cfg(&self) -> TrackerConfig {
        self.cfg
    }

    /// The number of frames seen.
    pub closed spec fn seq(&self) -> u64 {
        self.seq
    }

    pub fn new(cfg: TrackerConfig) -> (tracker: HandTracker)
        ensures
            tracker.tracks() == Seq::<Track>::empty(),
            tracker.cfg() == cfg,
            tracker.seq() == 0,
    {
        HandTracker { anchors: Anchors::new(), tracks: Vec::new(), cfg, seq: 0 }
    }

    /// The number of hands being followed.
    pub fn count(&self) -> (n: usize)
        ensures
            n == self.tracks().len(),
    {
        self.tracks.len()
    }

    /// Where hand `i` is looked for.
    pub fn roi(&self, i: usize) -> (roi: Roi)
        requires
            i < self.tracks().len(),
        ensures
            roi == self.rois()[i as int],
    {
        self.tracks[i].roi
    }

    fn limit(&self, settings: &TrackingSettings) -> (n: usize)
        ensures
            n == hand_limit(self.cfg(), *settings),
    {
        if settings.max_hands < self.cfg.max_hands {
            settings.max_hands
        } else {
            self.cfg.max_hands
        }
    }

    /// Start a frame: is it time to look for palms?
    ///
    /// Only while we are short of hands, and then only every few frames:
    /// every frame would be wasteful; this still reacquires a hand quickly.
    pub fn begin(&mut self, settings: &TrackingSettings) -> (detect: bool)
        ensures
            final(self).tracks() == old(self).tracks(),
            final(self).cfg() == old(self).cfg(),
            final(self).seq() == successor(old(self).seq()),
            detect <==> old(self).tracks().len() < hand_limit(old(self).cfg(), *settings) && is_due(
                final(self).seq(),
                settings.redetect_interval,
            ),
    {
        self.seq = count_on(self.seq);
        let short_of_hands: bool = self.tracks.len() < self.limit(settings);
        short_of_hands && due(self.seq, settings.redetect_interval)
    }

    /// The palm model's input: the frame letterboxed into its square, NHWC.
    pub fn palm_input(frame: &Frame, out: &mut Vec<Fx>)
        requires
            frame.visible(),
        ensures
            final(out)@.len() == 110592,
            forall|k: int, c: int|
                0 <= k < 36864 && 0 <= c < 3 ==> #[trigger] final(out)@[k * 3 + c] == padded_color(
                    *frame,
                    Letterbox::fit(frame.width as usize, frame.height as usize),
                    192,
                    k,
                    c,
                ),
    {
        let lb: Letterbox = Letterbox::fit(frame.width as usize, frame.height as usize);
        write_letterbox(frame, lb, 192, out);
    }

    /// Seed new tracks from the palm model's output, skipping palms we already
    /// track.
    pub fn seed(
        &mut self,
        frame: &Frame,
        boxes: &[Fx],
        scores: &[Fx],
        settings: &TrackingSettings,
    )
        requires
            boxes_fit(
                boxes@.len(),
                scores@,
                palm::NUM_ANCHORS as nat,
                palm::VALUES_PER_BOX as int,
                settings.palm_score_threshold,
            ),
        ensures
            final(self).cfg() == old(self).cfg(),
            final(self).seq() == old(self).seq(),
            old(self).tracks().is_prefix_of(final(self).tracks()),
            forall|j: int|
                old(self).tracks().len() <= j < final(self).tracks().len() ==> (
                #[trigger] final(self).tracks()[j]).is_new(final(self).rois()[j]),
            exists|dets: Seq<PalmDetection>, order: Seq<int>|
                reported(
                    dets,
                    boxes@,
                    scores@,
                    Letterbox::fit(frame.width as usize, frame.height as usize),
                    settings.palm_score_threshold,
                ) && #[trigger] is_ranking(dets, order) && final(self).rois() == after_palms(
                    old(self).rois(),
                    dets,
                    order,
                    hand_limit(old(self).cfg(), *settings),
                ),
    {
        let lb: Letterbox = Letterbox::fit(frame.width as usize, frame.height as usize);
        let limit: usize = self.limit(settings);
        let dets: Vec<PalmDetection> = palm::decode(
            boxes,
            scores,
            &self.anchors,
            lb,
            settings.palm_score_threshold,
        );
        let ghost all = dets@;
        assert(reported(all, boxes@, scores@, lb, settings.palm_score_threshold));
        let kept: Vec<PalmDetection> = palm::nms(dets, Fx::ratio(3, 10), limit);
        let ghost order = choose|order: Seq<int>| #[trigger]
            is_ranking(all, order) && kept@ == kept_of(
                all,
                order,
                Fx::ratio(3, 10),
                limit as nat,
                all.len() as int,
            );
        self.adopt(&kept, limit);
        assert(is_ranking(all, order) && self.rois() == after_palms(
            old(self).rois(),
            all,
            order,
            limit,
        ));
    }

    /// Follow each of these palms that is not followed yet, up to the limit.
    fn adopt(&mut self, dets: &Vec<PalmDetection>, limit: usize)
        ensures
            final(self).cfg() == old(self).cfg(),
            final(self).seq() == old(self).seq(),
            old(self).tracks().is_prefix_of(final(self).tracks()),
            forall|j: int|
                old(self).tracks().len() <= j < final(self).tracks().len() ==> (
                #[trigger] final(self).tracks()[j]).is_new(final(self).rois()[j]),
            final(self).rois() == seeded(old(self).rois(), dets@, limit, dets@.len() as int),
    {
        let mut n: usize = 0;
        while n < dets.len()
            invariant
                n <= dets.len(),
                self.cfg == old(self).cfg,
                self.seq == old(self).seq,
                old(self).tracks().is_prefix_of(self.tracks()),
                forall|j: int|
                    old(self).tracks().len() <= j < self.tracks().len() ==> (
                    #[trigger] self.tracks()[j]).is_new(self.rois()[j]),
                self.rois() == seeded(old(self).rois(), dets@, limit, n as int),
            decreases dets.len() - n,
        {
            let det: PalmDetection = dets[n];
            let ghost before = self.rois();
            if self.tracks.len() < limit && !self.follows(det.center) {
                let roi: Roi = Roi::enclosing(
                    &det.keypoints,
                    det.rotation(),
                    Fx { raw: landmark::PALM_BOX_ENLARGE },
                    Vec2::zero(),
                );
                let ghost tracks = self.tracks@;
                self.tracks.push(Track { roi, filter: HandFilter::default() });
                proof {
                    assert(self.rois() =~= before.push(palm_roi(det)));
                    assert forall|j: int|
                        old(self).tracks().len() <= j < self.tracks().len() implies (
                    #[trigger] self.tracks()[j]).is_new(self.rois()[j]) by {
                        if j < tracks.len() {
                            assert(tracks[j].is_new(before[j]));
                        }
                    }
                }
            }
            n += 1;
        }
    }

    /// Whether a palm here lands inside a hand we already follow.
    fn follows(&self, center: Vec2) -> (followed: bool)
        ensures
            followed == is_followed(self.rois(), center),
    {
        let mut i: usize = 0;
        while i < self.tracks.len()
            invariant
                i <= self.tracks.len(),
                forall|j: int|
                    0 <= j < i ==> !((#[trigger] self.rois()[j]).center.distance(center).raw
                        < self.rois()[j].side.over(Fx::whole(2)).raw),
            decreases self.tracks.len() - i,
        {
            let roi: Roi = self.tracks[i].roi;
            assert(roi == self.rois()[i as int]);
            if roi.center.distance(center).raw < roi.side.over(Fx::whole(2)).raw {
                return true;
            }
            i += 1;
        }
        false
    }

    /// The landmark model's input: the crop, NHWC.
    pub fn crop_input(frame: &Frame, roi: &Roi, out: &mut Vec<Fx>)
        requires
            frame.visible(),
        ensures
            final(out)@.len() == 150528,
            forall|k: int, c: int|
                0 <= k < 50176 && 0 <= c < 3 ==> #[trigger] final(out)@[k * 3 + c] == roi.color(
                    *frame,
                    224,
                    k % 224,
                    k / 224,
                    c,
                ),
    {
        roi.sample_into(frame, landmark::INPUT_SIZE, out);
    }

    /// Take what the landmark model saw in each track's crop.
    ///
    /// A confident hand is smoothed, reported, and followed on; any other is
    /// lost, so that palm detection can find it again.
    pub fn finish(
        &mut self,
        seen: &Vec<Option<Hand>>,
        frame: &Frame,
        dt: Fx,
        settings: &TrackingSettings,
    ) -> (out: HandFrame)
        requires
            seen@.len() == old(self).tracks().len(),
        ensures
            final(self).cfg() == old(self).cfg(),
            final(self).seq() == old(self).seq(),
            out.seq == old(self).seq(),
            ({
                let kept = survivors(seen@, settings.presence_threshold, seen@.len() as int);
                &&& out.hands@.len() == kept.len()
                &&& final(self).tracks().len() == kept.len()
                &&& forall|j: int|
                    0 <= j < kept.len() ==> is_step(
                        old(self).tracks()[kept[j]],
                        seen@[kept[j]]->0,
                        dt,
                        settings.filter,
                        frame.size(),
                        #[trigger] final(self).tracks()[j],
                        out.hands@[j],
                    )
            }),
    {
        let size: Vec2 = frame.size();
        let mut hands: Vec<Hand> = Vec::new();
        let mut surviving: Vec<Track> = Vec::new();
        let mut n: usize = 0;
        while n < self.tracks.len()
            invariant
                n <= self.tracks.len(),
                *self == *old(self),
                seen@.len() == self.tracks@.len(),
                size == frame.size(),
                hands@.len() == survivors(seen@, settings.presence_threshold, n as int).len(),
                surviving@.len() == hands@.len(),
                forall|j: int|
                    0 <= j < hands@.len() ==> is_step(
                        self.tracks@[survivors(
                            seen@,
                            settings.presence_threshold,
                            n as int,
                        )[j]],
                        seen@[survivors(seen@, settings.presence_threshold, n as int)[j]]->0,
                        dt,
                        settings.filter,
                        size,
                        #[trigger] surviving@[j],
                        hands@[j],
                    ),
            decreases self.tracks.len() - n,
        {
            match seen[n] {
                Some(hand) => {
                    if hand.score.raw >= settings.presence_threshold.raw {
                        let (track, out) = follow(self.tracks[n], hand, dt, settings.filter, size);
                        hands.push(out);
                        surviving.push(track);
                    }
                },
                // Lost: drop the track so palm detection reacquires it.
                None => {},
            }
            n += 1;
        }
        self.tracks = surviving;
        HandFrame { hands, seq: self.seq }
    }

    /// Forget every hand: the landmark model failed, so nothing is known of
    /// where they are.
    pub fn lose(&mut self)
        ensures
            final(self).cfg() == old(self).cfg(),
            final(self).seq() == old(self).seq(),
            final(self).tracks().len() == 0,
    {
        self.tracks = Vec::new();
    }

    /// A crop to try the landmark model on: that of the first hand, or else
    /// the middle of the frame, so that a run without a camera covers both
    /// models.
    pub fn probe_roi(&self, frame: &Frame) -> (roi: Roi)
        ensures
            self.tracks().len() > 0 ==> roi == self.rois()[0],
            self.tracks().len() == 0 ==> roi == (Roi {
                center: frame.size().over(Fx::whole(2)),
                side: frame.size().y.times(Fx::ratio(6, 10)),
                angle: Heading::level(),
            }),
    {
        if self.tracks.len() > 0 {
            self.tracks[0].roi
        } else {
            Roi {
                center: frame.size().over(Fx::whole(2)),
                side: frame.size().y.times(Fx::ratio(6, 10)),
                angle: Heading::level(),
            }
        }
    }
}

/// Smooth a hand, and move its track to where it is now.
fn follow(track: Track, seen: Hand, dt: Fx, cfg: OneEuroConfig, size: Vec2) -> (step: (Track, Hand))
    ensures
        is_step(track, seen, dt, cfg, size, step.0, step.1),
{
    let mut filter: HandFilter = track.filter;
    filter.configure(cfg);
    let mut landmarks = seen.landmarks;
    filter.apply(&mut landmarks, dt);
    let out = Hand { landmarks, handedness: seen.handedness, score: seen.score };
    // Re-seed the next crop from the smoothed landmarks.
    let px: Vec<Vec2> = to_pixels(&landmarks, size);
    let roi: Roi = landmark::roi_from_landmarks(px.as_slice());
    (Track { roi, filter }, out)
}

/// Landmarks as pixel positions, a conversion several layers want.
pub fn to_pixels(landmarks: &[Vec3; LANDMARK_COUNT], size: Vec2) -> (out: Vec<Vec2>)
    ensures
        out@ == pixels(landmarks@, size),
        out@.len() == LANDMARK_COUNT,
{
    let mut out: Vec<Vec2> = Vec::new();
    let mut i: usize = 0;
    while i < LANDMARK_COUNT
        invariant
            i <= LANDMARK_COUNT,
            landmarks@.len() == LANDMARK_COUNT,
            out@.len() == i,
            forall|j: int|
                0 <= j < i ==> #[trigger] out@[j] == (Vec2 {
                    x: landmarks@[j].x.times(size.x),
                    y: landmarks@[j].y.times(size.y),
                }),
        decreases LANDMARK_COUNT - i,
    {
        let p: Vec3 = landmarks[i];
        out.push(Vec2 { x: p.x.times(size.x), y: p.y.times(size.y) });
        i += 1;
    }
    out
}

/// What the models run on.
#[derive(Debug, Clone, Copy, PartialEq, Eq, Structural)]
pub enum Backend {
    DirectMl,
    Cpu,
}

impl Backend {
    /// The backend to try first.
    #[verifier::allow_in_spec]
    pub fn first(use_gpu: bool) -> Backend
        returns
            (if use_gpu {
                Backend::DirectMl
            } else {
                Backend::Cpu
            }),
    {
        if use_gpu {
            Backend::DirectMl
        } else {
            Backend::Cpu
        }
    }

    /// The backend to fall back to; none after the last.
    #[verifier::allow_in_spec]
    pub fn after_failure(self) -> Option<Backend>
        returns
            (match self {
                Backend::DirectMl => Some(Backend::Cpu),
                Backend::Cpu => None,
            }),
    {
        match self {
            Backend::DirectMl => Some(Backend::Cpu),
            Backend::Cpu => None,
        }
    }

    /// What to report it as.
    pub fn name(self) -> (name: &'static str)
        ensures
            name@ == match self {
                Backend::DirectMl => "DirectML"@,
                Backend::Cpu => "CPU"@,
            },
    {
        match self {
            Backend::DirectMl => "DirectML",
            Backend::Cpu => "CPU",
        }
    }
}

/// What a run of both models over one frame showed.
#[derive(Debug, Clone, Copy)]
pub struct ProbeReport {
    pub backend: &'static str,
    pub palm_ms: Fx,
    pub landmark_ms: Fx,
    pub palm_candidates: usize,
    pub landmark_score: Fx,
}

/// Seeding never follows more hands than the limit, unless more were followed
/// already, and drops none of those.
pub proof fn law_seeding_respects_the_limit(
    rois: Seq<Roi>,
    dets: Seq<PalmDetection>,
    limit: usize,
    n: int,
)
    requires
        0 <= n <= dets.len(),
    ensures
        rois.len() <= seeded(rois, dets, limit, n).len(),
        seeded(rois, dets, limit, n).len() <= limit || seeded(rois, dets, limit, n) == rois,
        rois.is_prefix_of(seeded(rois, dets, limit, n)),
    decreases n,
{
    if n > 0 {
        law_seeding_respects_the_limit(rois, dets, limit, n - 1);
    }
}

/// While as many hands are followed as there may be, palm detection changes
/// nothing.
pub proof fn law_full_tracker_ignores_palms(
    rois: Seq<Roi>,
    dets: Seq<PalmDetection>,
    limit: usize,
    n: int,
)
    requires
        rois.len() >= limit,
        0 <= n <= dets.len(),
    ensures
        seeded(rois, dets, limit, n) == rois,
    decreases n,
{
    if n > 0 {
        law_full_tracker_ignores_palms(rois, dets, limit, n - 1);
    }
}

/// A palm inside a hand that is followed is not followed twice.
pub proof fn law_followed_palm_is_skipped(
    rois: Seq<Roi>,
    dets: Seq<PalmDetection>,
    limit: usize,
    n: int,
)
    requires
        0 < n <= dets.len(),
        is_followed(rois, dets[n - 1].center),
    ensures
        seeded(rois, dets, limit, n) == seeded(rois, dets, limit, n - 1),
{
    law_seeding_respects_the_limit(rois, dets, limit, n - 1);
    let before = seeded(rois, dets, limit, n - 1);
    let i = choose|i: int|
        0 <= i < rois.len() && (#[trigger] rois[i]).center.distance(dets[n - 1].center).raw
            < rois[i].side.over(Fx::whole(2)).raw;
    assert(before[i] == rois[i]);
}

/// A hand is followed on if and only if it was seen with enough confidence;
/// the order of the hands does not change.
pub proof fn law_only_confident_hands_survive(seen: Seq<Option<Hand>>, threshold: Fx, n: int)
    requires
        0 <= n <= seen.len(),
    ensures
        ({
            let kept = survivors(seen, threshold, n);
            &&& kept.len() <= n
            &&& forall|j: int|
                0 <= j < kept.len() ==> 0 <= #[trigger] kept[j] < n && seen[kept[j]] is Some
                    && seen[kept[j]]->0.score.raw >= threshold.raw
            &&& forall|j: int, k: int|
                0 <= j < k < kept.len() ==> #[trigger] kept[j] < #[trigger] kept[k]
            &&& forall|i: int|
                0 <= i < n && (#[trigger] seen[i]) is Some && seen[i]->0.score.raw
                    >= threshold.raw ==> kept.contains(i)
        }),
    decreases n,
{
    if n > 0 {
        law_only_confident_hands_survive(seen, threshold, n - 1);
        let before = survivors(seen, threshold, n - 1);
        let kept = survivors(seen, threshold, n);
        assert forall|i: int|
            0 <= i < n && (#[trigger] seen[i]) is Some && seen[i]->0.score.raw
                >= threshold.raw implies kept.contains(i) by {
            if i < n - 1 {
                assert(before.contains(i));
                let k = choose|k: int| 0 <= k < before.len() && before[k] == i;
                assert(kept[k] == i);
            } else {
                assert(kept[kept.len() - 1] == i);
            }
        }
    }
}

/// A hand that has just been found is reported where it was seen, unsmoothed.
pub proof fn law_new_hand_is_reported_as_seen(
    before: Track,
    seen: Hand,
    dt: Fx,
    cfg: OneEuroConfig,
    size: Vec2,
    after: Track,
    out: Hand,
)
    requires
        before.is_new(before.roi()),
        is_step(before, seen, dt, cfg, size, after, out),
    ensures
        out == seen,
{
    assert forall|i: int| 0 <= i < LANDMARK_COUNT implies out.landmarks[i] == seen.landmarks[i] by {
        assert(before.memory()[i] == filter::blank());
        filter::law_first_sample_passes(seen.landmarks[i], dt, cfg);
    }
    assert(out.landmarks =~= seen.landmarks);
}

/// A palm in the image's middle ground: far from the ends of the range.
pub open spec fn pictured_palm(det: PalmDetection) -> bool {
    landmark::pictured(det.keypoints@)
}

/// The crop for a palm stands upright along it: the crop's local "up" has the
/// direction from the base of the palm to the knuckle of the middle finger.
pub proof fn law_palm_is_upright_in_its_crop(det: PalmDetection)
    requires
        pictured_palm(det),
        det.keypoints[2] != det.keypoints[0],
    ensures
        roi::points_along(
            palm_roi(det).axes().1,
            Vec2 {
                x: crate::fixed::fx(det.keypoints[2].x.raw - det.keypoints[0].x.raw),
                y: crate::fixed::fx(det.keypoints[2].y.raw - det.keypoints[0].y.raw),
            },
        ),
{
    let (a, b) = (det.keypoints@[0], det.keypoints@[2]);
    assert(-0x1000_0000_0000 <= a.x.raw <= 0x1000_0000_0000);
    assert(-0x1000_0000_0000 <= b.x.raw <= 0x1000_0000_0000);
    let d = det.keypoints[2].minus(det.keypoints[0]);
    assert(d.x.raw == b.x.raw - a.x.raw && d.y.raw == b.y.raw - a.y.raw);
    roi::law_upright_points_along(d);
}

/// The crop for a palm is three times as long as the longer extent of its seven
/// keypoints along the crop's own axes, around the middle of them.
pub proof fn law_palm_crop_frames_the_palm(
    det: PalmDetection,
    left: int,
    right: int,
    top: int,
    bottom: int,
)
    requires
        pictured_palm(det),
        roi::are_ends(det.keypoints@, palm_roi(det).axes().0, left, right),
        roi::are_ends(det.keypoints@, palm_roi(det).axes().1, top, bottom),
    ensures
        ({
            let (points, crop) = (det.keypoints@, palm_roi(det));
            let (u, v) = crop.axes();
            let (w, h) = (
                roi::extent(points, u, left, right),
                roi::extent(points, v, top, bottom),
            );
            let across = roi::middle(points, u, left, right, Fx::zero());
            let down = roi::middle(points, v, top, bottom, Fx::zero());
            let (cos, sin) = (crop.angle.cos.raw, crop.angle.sin.raw);
            let unit2 = 0x1_0000_0000_0000_0000int;
            &&& crop.side.raw == if w > h {
                3 * w
            } else {
                3 * h
            }
            &&& -10 * unit2 <= 2 * (unit2 * crop.center.x.raw) - (cos * across - sin * down) <= 10
                * unit2
            &&& -10 * unit2 <= 2 * (unit2 * crop.center.y.raw) - (sin * across + cos * down) <= 10
                * unit2
        }),
{
    let (a, b) = (det.keypoints@[0], det.keypoints@[2]);
    assert(-0x1000_0000_0000 <= a.x.raw <= 0x1000_0000_0000);
    assert(-0x1000_0000_0000 <= b.x.raw <= 0x1000_0000_0000);
    let d = det.keypoints[2].minus(det.keypoints[0]);
    landmark::lemma_small_offset(d);
    roi::law_heading_is_bounded(d);
    roi::law_window_is_placed_by_its_ends(
        det.keypoints@,
        palm_roi(det).angle,
        Fx { raw: 0x3_0000_0000 },
        Vec2::zero(),
        left,
        right,
        top,
        bottom,
    );
}

/// `center` lies in the circle that a crop's sides touch.
pub open spec fn covers(crop: Roi, center: Vec2) -> bool {
    let half = crop.side.raw as int / 2;
    let (x, y) = (crop.center.x.raw - center.x.raw, crop.center.y.raw - center.y.raw);
    half > 0 && x * x + y * y < half * half
}

/// A crop and a place that are of the size of pictures.
pub open spec fn in_picture(crop: Roi, center: Vec2) -> bool {
    &&& -0x1000_0000_0000 <= crop.center.x.raw <= 0x1000_0000_0000
    &&& -0x1000_0000_0000 <= crop.center.y.raw <= 0x1000_0000_0000
    &&& 0 <= crop.side.raw
    &&& -0x1000_0000_0000 <= center.x.raw <= 0x1000_0000_0000
    &&& -0x1000_0000_0000 <= center.y.raw <= 0x1000_0000_0000
}

/// Whether a crop covers a place, by the distance and by the coordinates.
proof fn lemma_covers(crop: Roi, center: Vec2)
    requires
        in_picture(crop, center),
    ensures
        covers(crop, center) <==> crop.center.distance(center).raw < crop.side.over(
            Fx::whole(2),
        ).raw,
{
    let side = crop.side.raw as int;
    let half = side / 2;
    assert(Fx::whole(2).raw == 0x2_0000_0000);
    assert((side * 0x1_0000_0000) / 0x2_0000_0000 == side / 2) by (nonlinear_arith);
    assert(crop.side.over(Fx::whole(2)).raw == half);
    let d = crop.center.minus(center);
    landmark::lemma_small_offset(d);
    let n = crate::vector::norm2(d);
    crate::vector::lemma_square_bound(d.x.raw);
    crate::vector::lemma_square_bound(d.y.raw);
    crate::fixed::lemma_root(n);
    let r = crate::fixed::root(n);
    assert(r <= 0x7fff_ffff_ffff_ffff) by {
        if r > 0x7fff_ffff_ffff_ffff {
            assert(r * r >= 0x8000_0000_0000_0000 * 0x8000_0000_0000_0000) by (nonlinear_arith)
                requires
                    r >= 0x8000_0000_0000_0000,
            ;
        }
    }
    if r < half {
        assert((r + 1) * (r + 1) <= half * half) by (nonlinear_arith)
            requires
                0 <= r,
                r + 1 <= half,
        ;
    } else {
        assert(half * half <= r * r) by (nonlinear_arith)
            requires
                0 <= half <= r,
        ;
    }
}

/// A palm is followed anew if and only if there is room and none of the hands
/// that are followed by then covers it; the crop for it is added at the end.
pub proof fn law_uncovered_palm_is_followed(
    rois: Seq<Roi>,
    dets: Seq<PalmDetection>,
    limit: usize,
    n: int,
)
    requires
        0 < n <= dets.len(),
        forall|i: int|
            0 <= i < seeded(rois, dets, limit, n - 1).len() ==> in_picture(
                #[trigger] seeded(rois, dets, limit, n - 1)[i],
                dets[n - 1].center,
            ),
    ensures
        ({
            let before = seeded(rois, dets, limit, n - 1);
            let covered = exists|i: int|
                0 <= i < before.len() && covers(#[trigger] before[i], dets[n - 1].center);
            seeded(rois, dets, limit, n) == if before.len() < limit && !covered {
                before.push(palm_roi(dets[n - 1]))
            } else {
                before
            }
        }),
{
    let before = seeded(rois, dets, limit, n - 1);
    let c = dets[n - 1].center;
    assert forall|i: int| 0 <= i < before.len() implies (covers(#[trigger] before[i], c)
        <==> before[i].center.distance(c).raw < before[i].side.over(Fx::whole(2)).raw) by {
        lemma_covers(before[i], c);
    }
    if is_followed(before, c) {
        let i = choose|i: int|
            0 <= i < before.len() && (#[trigger] before[i]).center.distance(c).raw
                < before[i].side.over(Fx::whole(2)).raw;
        assert(covers(before[i], c));
    }
}

/// With nothing followed, the surest palm is, and the first of those that are as
/// sure.
pub proof fn law_surest_palm_is_followed(dets: Seq<PalmDetection>, order: Seq<int>, limit: usize, i: int)
    requires
        is_ranking(dets, order),
        limit > 0,
        0 <= i < dets.len(),
        forall|j: int|
            0 <= j < dets.len() && j != i ==> (#[trigger] dets[j]).score.raw < dets[i].score.raw || (
            dets[j].score.raw == dets[i].score.raw && i < j),
    ensures
        after_palms(seq![], dets, order, limit).len() > 0,
        after_palms(seq![], dets, order, limit)[0] == palm_roi(dets[i]),
{
    let kept = kept_of(dets, order, Fx::ratio(3, 10), limit as nat, dets.len() as int);
    nms::law_best_is_kept(dets, order, Fx::ratio(3, 10), limit as nat, i);
    assert(0 <= order[0] < dets.len());
    assert(order.contains(i));
    let a = choose|a: int| 0 <= a < order.len() && order[a] == i;
    if a > 0 {
        nms::law_surest_come_first(dets, order, 0, a);
    }
    assert(order[0] == i);
    lemma_first_palm_stays(kept, limit, kept.len() as int);
}

proof fn lemma_first_palm_stays(dets: Seq<PalmDetection>, limit: usize, n: int)
    requires
        0 < n <= dets.len(),
        limit > 0,
    ensures
        seeded(seq![], dets, limit, n).len() > 0,
        seeded(seq![], dets, limit, n)[0] == palm_roi(dets[0]),
    decreases n,
{
    if n > 1 {
        lemma_first_palm_stays(dets, limit, n - 1);
    } else {
        assert(seeded(seq![], dets, limit, 0) =~= seq![]);
    }
}

/// As many hands are followed as both the tracker and the settings allow.
pub proof fn law_limit_is_the_smaller(cfg: TrackerConfig, settings: TrackingSettings)
    ensures
        hand_limit(cfg, settings) <= cfg.max_hands,
        hand_limit(cfg, settings) <= settings.max_hands,
        hand_limit(cfg, settings) == cfg.max_hands || hand_limit(cfg, settings)
            == settings.max_hands,
{
}

/// A landmark's pixel is its share of the frame's width and height, rounded
/// down.
pub proof fn law_pixels_are_shares_of_the_frame(landmarks: Seq<Vec3>, size: Vec2, i: int)
    requires
        0 <= i < landmarks.len(),
        0 <= size.x.raw <= 0x1000_0000_0000,
        0 <= size.y.raw <= 0x1000_0000_0000,
        -0x1000_0000_0000 <= landmarks[i].x.raw <= 0x1000_0000_0000,
        -0x1000_0000_0000 <= landmarks[i].y.raw <= 0x1000_0000_0000,
    ensures
        pixels(landmarks, size).len() == landmarks.len(),
        0 <= landmarks[i].x.raw * size.x.raw - pixels(landmarks, size)[i].x.raw * 0x1_0000_0000
            < 0x1_0000_0000,
        0 <= landmarks[i].y.raw * size.y.raw - pixels(landmarks, size)[i].y.raw * 0x1_0000_0000
            < 0x1_0000_0000,
{
    let (x, y) = (landmarks[i].x.raw as int, landmarks[i].y.raw as int);
    let (w, h) = (size.x.raw as int, size.y.raw as int);
    assert(-0x100_0000_0000_0000_0000_0000 <= x * w <= 0x100_0000_0000_0000_0000_0000)
        by (nonlinear_arith)
        requires
            -0x1000_0000_0000 <= x <= 0x1000_0000_0000,
            0 <= w <= 0x1000_0000_0000,
    ;
    assert(-0x100_0000_0000_0000_0000_0000 <= y * h <= 0x100_0000_0000_0000_0000_0000)
        by (nonlinear_arith)
        requires
            -0x1000_0000_0000 <= y <= 0x1000_0000_0000,
            0 <= h <= 0x1000_0000_0000,
    ;
}

/// Palms that overlap each other by three tenths or more are one hand: however
/// many of them are found, one is followed.
pub proof fn law_overlapping_palms_are_one_hand(
    dets: Seq<PalmDetection>,
    order: Seq<int>,
    limit: usize,
)
    requires
        is_ranking(dets, order),
        dets.len() > 0,
        limit > 0,
        forall|i: int, j: int|
            0 <= i < dets.len() && 0 <= j < dets.len() && i != j ==> 10 * nms::iou_of(
                #[trigger] dets[i],
                #[trigger] dets[j],
            ).raw >= 3 * 0x1_0000_0000,
    ensures
        after_palms(seq![], dets, order, limit).len() == 1,
{
    let threshold = Fx::ratio(3, 10);
    assert(threshold.raw == 1288490188);
    let n = dets.len() as int;
    lemma_one_is_kept(dets, order, threshold, limit as nat, n);
    let kept = kept_of(dets, order, threshold, limit as nat, n);
    lemma_first_palm_stays(kept, limit, 1);
    assert(seeded(seq![], kept, limit, 0) =~= seq![]);
    assert(seeded(seq![], kept, limit, 1).len() == 1);
}

proof fn lemma_one_is_kept(
    dets: Seq<PalmDetection>,
    order: Seq<int>,
    threshold: Fx,
    max_out: nat,
    n: int,
)
    requires
        is_ranking(dets, order),
        max_out > 0,
        0 < n <= dets.len(),
        forall|i: int, j: int|
            0 <= i < dets.len() && 0 <= j < dets.len() && i != j ==> nms::iou_of(
                #[trigger] dets[i],
                #[trigger] dets[j],
            ).raw >= threshold.raw,
    ensures
        kept_of(dets, order, threshold, max_out, n) == seq![dets[order[0]]],
    decreases n,
{
    if n == 1 {
        assert(kept_of(dets, order, threshold, max_out, 0) =~= seq![]);
        assert(kept_of(dets, order, threshold, max_out, 1) =~= seq![dets[order[0]]]);
    } else {
        lemma_one_is_kept(dets, order, threshold, max_out, n - 1);
        let kept = kept_of(dets, order, threshold, max_out, n - 1);
        assert(nms::outranks(dets, order[0], order[n - 1]));
        assert(0 <= order[0] < dets.len() && 0 <= order[n - 1] < dets.len());
        assert(order[0] != order[n - 1]);
        assert(nms::iou_of(dets[order[0]], dets[order[n - 1]]).raw >= threshold.raw);
        assert(!nms::clear_of(kept, dets[order[n - 1]], threshold)) by {
            assert(kept[0] == dets[order[0]]);
        }
    }
}

/// Palms that overlap each other by less are different hands: as long as there
/// is room, all of them are looked at, the surest first.
pub proof fn law_separate_palms_are_separate_hands(
    dets: Seq<PalmDetection>,
    order: Seq<int>,
    limit: usize,
)
    requires
        is_ranking(dets, order),
        dets.len() <= limit,
        forall|i: int, j: int|
            0 <= i < dets.len() && 0 <= j < dets.len() && i != j ==> 10 * nms::iou_of(
                #[trigger] dets[i],
                #[trigger] dets[j],
            ).raw < 3 * 0x1_0000_0000 - 10,
    ensures
        after_palms(seq![], dets, order, limit) == seeded(
            seq![],
            Seq::new(dets.len(), |k: int| dets[order[k]]),
            limit,
            dets.len() as int,
        ),
{
    let threshold = Fx::ratio(3, 10);
    assert(threshold.raw == 1288490188);
    let n = dets.len() as int;
    lemma_all_are_kept(dets, order, threshold, limit as nat, n);
    assert(kept_of(dets, order, threshold, limit as nat, n) =~= Seq::new(
        dets.len(),
        |k: int| dets[order[k]],
    ));
}

proof fn lemma_all_are_kept(
    dets: Seq<PalmDetection>,
    order: Seq<int>,
    threshold: Fx,
    max_out: nat,
    n: int,
)
    requires
        is_ranking(dets, order),
        dets.len() <= max_out,
        0 <= n <= dets.len(),
        forall|i: int, j: int|
            0 <= i < dets.len() && 0 <= j < dets.len() && i != j ==> nms::iou_of(
                #[trigger] dets[i],
                #[trigger] dets[j],
            ).raw < threshold.raw,
    ensures
        kept_of(dets, order, threshold, max_out, n) =~= Seq::new(
            n as nat,
            |k: int| dets[order[k]],
        ),
    decreases n,
{
    if n > 0 {
        lemma_all_are_kept(dets, order, threshold, max_out, n - 1);
        let kept = kept_of(dets, order, threshold, max_out, n - 1);
        let d = dets[order[n - 1]];
        assert forall|i: int| 0 <= i < kept.len() implies nms::iou_of(
            #[trigger] kept[i],
            d,
        ).raw < threshold.raw by {
            assert(kept[i] == dets[order[i]]);
            assert(nms::outranks(dets, order[i], order[n - 1]));
            assert(0 <= order[i] < dets.len() && 0 <= order[n - 1] < dets.len());
        }
        assert(nms::clear_of(kept, d, threshold));
    }
}

/// A hand that is followed keeps its score and its side; each joint is
/// remembered as it was seen and as it was reported; and the track looks on
/// where the reported joints are, upright along them.
pub proof fn law_followed_hand_keeps_its_identity(
    before: Track,
    seen: Hand,
    dt: Fx,
    cfg: OneEuroConfig,
    size: Vec2,
    after: Track,
    out: Hand,
    i: int,
)
    requires
        is_step(before, seen, dt, cfg, size, after, out),
        0 <= i < LANDMARK_COUNT,
    ensures
        out.score == seen.score,
        out.handedness == seen.handedness,
        after.memory()[i].prev == Some(seen.landmarks[i]),
        after.memory()[i].x == Some(out.landmarks[i]),
        before.memory()[i].x is None ==> out.landmarks[i] == seen.landmarks[i],
        ({
            let points = pixels(out.landmarks@, size);
            landmark::pictured(points) && points[9] != points[0] ==> roi::points_along(
                after.roi().axes().1,
                Vec2 {
                    x: crate::fixed::fx(points[9].x.raw - points[0].x.raw),
                    y: crate::fixed::fx(points[9].y.raw - points[0].y.raw),
                },
            )
        }),
{
    assert(out.landmarks[i] == before.memory()[i].filtered(seen.landmarks[i], dt, cfg));
    assert(after.memory()[i] == before.memory()[i].next(seen.landmarks[i], dt, cfg));
    let points = pixels(out.landmarks@, size);
    if landmark::pictured(points) && points[9] != points[0] {
        assert(-0x1000_0000_0000 <= points[9].x.raw <= 0x1000_0000_0000);
        assert(-0x1000_0000_0000 <= points[0].x.raw <= 0x1000_0000_0000);
        landmark::law_hand_is_upright_in_its_crop(points);
    }
}

/// The models run on the GPU if it is wanted and works, and on the CPU if not;
/// there is nothing after that.
pub proof fn law_backends_fall_back_to_the_cpu()
    ensures
        Backend::first(true) == Backend::DirectMl,
        Backend::first(true).after_failure() == Some(Backend::first(false)),
        Backend::first(false) == Backend::Cpu,
        Backend::first(false).after_failure() is None,
{
}

} // verus!
