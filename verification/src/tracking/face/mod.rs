//! Face tracking, used for eye/blink input.
//!
//! Same two-stage shape as hand tracking: a cheap-to-run detector locates the
//! face, then a landmark model refines it from a tight crop. Unlike the hand
//! models these take **NCHW** input, so the crop is written plane by plane.
//!
//! The tracker here decides what to run and reads what came back; running the
//! models is the caller's part. One frame goes like this: [`FaceTracker::begin`]
//! says what is needed, [`FaceTracker::detected`] takes the detector's output
//! if it was asked for, and [`FaceTracker::finish`] takes the mesh.

pub mod detect;
pub mod eye;
pub mod landmark;

use crate::fixed::{fx, Fx};
use crate::frame::Frame;
use crate::tracking::nms::{is_ranking, kept_of, law_best_is_kept, nms, outranks};
use crate::tracking::landmark::lemma_small_offset;
use crate::tracking::roi::{
    center_along, enclosure, law_along_points_along, law_heading_is_bounded, points_along, Heading, Roi,
};
use crate::tracking::ssd::{
    boxes_fit, passing, planar_at, rows, write_planar_letterbox, Letterbox,
};
use crate::vector::{norm2, Vec2};
use detect::{
    decode_head, head_anchors, is_decoded, Anchors, FaceDetection, HEAD_ROWS, VALUES_PER_BOX,
};
use vstd::prelude::*;

verus! {

/// One tracked face for one frame.
#[derive(Debug, Clone)]
pub struct Face {
    /// 468 mesh points, normalized to the image (0..1, origin top-left).
    pub landmarks: Vec<Vec2>,
    pub score: Fx,
}

#[derive(Debug, Clone)]
pub struct FaceFrame {
    pub faces: Vec<Face>,
}

impl Default for FaceFrame {
    /// A frame without faces.
    fn default() -> (frame: FaceFrame)
        ensures
            frame.faces@.len() == 0,
    {
        FaceFrame { faces: Vec::new() }
    }
}

impl FaceFrame {
    pub fn first(&self) -> (face: Option<&Face>)
        ensures
            face is None <==> self.faces@.len() == 0,
            face matches Some(f) ==> *f == self.faces@[0],
    {
        if self.faces.len() > 0 {
            Some(&self.faces[0])
        } else {
            None
        }
    }
}

/// Settings the face stage reads each frame.
#[derive(Debug, Clone, Copy, PartialEq, Eq, Structural)]
pub struct FaceSettings {
    pub enabled: bool,
    pub detect_threshold: Fx,
    /// Landmark confidence below which the face is considered lost.
    pub presence_threshold: Fx,
    /// Frames between detection attempts while no face is tracked.
    pub redetect_interval: u64,
    /// How much to enlarge the mesh's own bounding box when re-deriving the
    /// crop for the next frame. Too tight and the mesh model degrades, which
    /// shows up as tracking that flickers once per detection interval.
    pub track_roi_scale: Fx,
}

/// The settings that face tracking starts with.
pub open spec fn default_settings() -> FaceSettings {
    FaceSettings {
        enabled: true,
        detect_threshold: Fx::ratio(6, 10),
        presence_threshold: Fx::ratio(4, 10),
        redetect_interval: 6,
        track_roi_scale: Fx::ratio(14, 10),
    }
}

impl Default for FaceSettings {
    fn default() -> (settings: FaceSettings)
        ensures
            settings == default_settings(),
    {
        FaceSettings {
            enabled: true,
            detect_threshold: Fx::ratio(6, 10),
            presence_threshold: Fx::ratio(4, 10),
            redetect_interval: 6,
            track_roi_scale: Fx::ratio(14, 10),
        }
    }
}

/// The next number of a counter that starts over at its end.
pub open spec fn successor(seq: u64) -> u64 {
    if seq == u64::MAX {
        0
    } else {
        (seq + 1) as u64
    }
}

/// A counter's turn has come: every `interval` numbers, and always if the
/// interval is zero.
pub open spec fn is_due(seq: u64, interval: u64) -> bool {
    interval <= 1 || seq as int % interval as int == 0
}

/// Counts one frame on.
pub(crate) fn count_on(seq: u64) -> (next: u64)
    ensures
        next == successor(seq),
{
    if seq == u64::MAX {
        0
    } else {
        seq + 1
    }
}

/// Whether a counter's turn has come.
pub(crate) fn due(seq: u64, interval: u64) -> (now: bool)
    ensures
        now == is_due(seq, interval),
{
    interval <= 1 || seq % interval == 0
}

/// What the tracker needs run for this frame.
#[derive(Debug, Clone, Copy, PartialEq, Eq, Structural)]
pub enum FaceStep {
    /// Nothing: there is no face to follow.
    Idle,
    /// The detector, over the whole frame.
    Detect,
    /// The mesh model, over this crop.
    Mesh(Roi),
}

pub struct FaceTracker {
    anchors: Anchors,
    /// Carried between frames so detection only runs when the face is lost.
    roi: Option<Roi>,
    seq: u64,
}

/// The crop for a detected face: its box, turned so that the eyes are level.
///
/// A crop's axes turn with the image's y, against the sense in which a face's
/// rotation is measured.
pub open spec fn face_roi(det: FaceDetection) -> Roi {
    let half = det.size.over(Fx::whole(2));
    enclosure(
        seq![det.center.minus(half), det.center.plus(half)],
        det.rotation().reversed(),
        Fx { raw: landmark::FACE_BOX_ENLARGE },
        Vec2::zero(),
    )
}

/// The detections that both heads of the detector report.
pub open spec fn reported(
    dets: Seq<FaceDetection>,
    boxes1: Seq<Fx>,
    scores1: Seq<Fx>,
    boxes2: Seq<Fx>,
    scores2: Seq<Fx>,
    lb: Letterbox,
    threshold: Fx,
) -> bool {
    let fine = passing(scores1, threshold, rows(512, scores1.len()));
    let coarse = passing(scores2, threshold, rows(384, scores2.len()));
    &&& dets.len() == fine.len() + coarse.len()
    &&& forall|j: int|
        0 <= j < fine.len() ==> is_decoded(
            #[trigger] dets[j],
            boxes1,
            scores1,
            head_anchors(0),
            lb,
            fine[j],
        )
    &&& forall|j: int|
        fine.len() <= j < dets.len() ==> is_decoded(
            #[trigger] dets[j],
            boxes2,
            scores2,
            head_anchors(1),
            lb,
            coarse[j - fine.len()],
        )
}

/// Detection `i` is the most confident, the first of them among equals.
pub open spec fn is_best(dets: Seq<FaceDetection>, i: int) -> bool {
    &&& 0 <= i < dets.len()
    &&& forall|j: int| 0 <= j < dets.len() && j != i ==> #[trigger] outranks(dets, i, j)
}

/// `roi` is the crop for the most confident detection, if there is any.
pub open spec fn is_crop_of_best(dets: Seq<FaceDetection>, roi: Option<Roi>) -> bool {
    match roi {
        Some(roi) => exists|i: int| #[trigger] is_best(dets, i) && roi == face_roi(dets[i]),
        None => dets.len() == 0,
    }
}

/// Roll of the mesh, from the outer eye corners.
///
/// Returned in `Roi`'s convention: the rect's local +x axis runs along the
/// eye line, so the crop comes out upright.
pub open spec fn roll(points: Seq<Vec2>) -> Heading {
    if points.len() <= 263 {
        Heading::level()
    } else {
        Heading::along(points[263].minus(points[33]))
    }
}

/// Roll of the mesh, from the outer eye corners.
pub fn mesh_rotation(points: &[Vec2]) -> (angle: Heading)
    ensures
        angle == roll(points@),
{
    if points.len() <= 263 {
        return Heading::level();
    }
    Heading::along(points[263].minus(points[33]))
}

/// The mesh was found: there was enough of it, with enough confidence.
pub open spec fn present(raw: Seq<Fx>, score: Fx, settings: FaceSettings) -> bool {
    raw.len() >= landmark::LANDMARK_COUNT * 3 && score.raw >= settings.presence_threshold.raw
}

/// The mesh points that a tensor puts in the image.
pub open spec fn mesh_points(raw: Seq<Fx>, roi: Roi) -> Seq<Vec2> {
    Seq::new(
        landmark::LANDMARK_COUNT as nat,
        |i: int| landmark::mesh_place(raw[3 * i], raw[3 * i + 1], &roi),
    )
}

impl FaceTracker {
    /// The crop that the face is followed with.
    pub closed spec fn roi(&self) -> Option<Roi> {
        self.roi
    }

    /// The number of frames seen.
    pub closed spec fn seq(&self) -> u64 {
        self.seq
    }

    pub fn new() -> (tracker: FaceTracker)
        ensures
            tracker.roi() is None,
            tracker.seq() == 0,
    {
        FaceTracker { anchors: Anchors::new(), roi: None, seq: 0 }
    }

    /// Start a frame: what has to be run for it?
    ///
    /// Disabled, the tracker forgets the face. Otherwise it follows the one it
    /// has, or looks for one every few frames.
    pub fn begin(&mut self, settings: &FaceSettings) -> (step: FaceStep)
        ensures
            !settings.enabled ==> step == FaceStep::Idle && final(self).roi() is None && final(self).seq() == old(self).seq(),
            settings.enabled ==> final(self).seq() == successor(old(self).seq()) && final(self).roi() == old(self).roi() && step == match old(self).roi() {
                Some(roi) => FaceStep::Mesh(roi),
                None => if is_due(final(self).seq(), settings.redetect_interval) {
                    FaceStep::Detect
                } else {
                    FaceStep::Idle
                },
            },
    {
        if !settings.enabled {
            self.roi = None;
            return FaceStep::Idle;
        }
        self.seq = count_on(self.seq);
        match self.roi {
            Some(roi) => FaceStep::Mesh(roi),
            None => {
                if due(self.seq, settings.redetect_interval) {
                    FaceStep::Detect
                } else {
                    FaceStep::Idle
                }
            },
        }
    }

    /// The detector's input: the frame letterboxed into its square, NCHW.
    pub fn detect_input(frame: &Frame, out: &mut Vec<Fx>)
        requires
            frame.visible(),
        ensures
            final(out)@.len() == 3 * 65536,
            forall|k: int|
                0 <= k < 65536 ==> #[trigger] planar_at(
                    *frame,
                    Letterbox::fit_to(frame.width as usize, frame.height as usize, 256),
                    256,
                    final(out)@,
                    65536,
                    k,
                ),
    {
        let lb: Letterbox = Letterbox::fit_to(
            frame.width as usize,
            frame.height as usize,
            detect::INPUT_SIZE,
        );
        write_planar_letterbox(frame, lb, 256, out);
    }

    /// Take the detector's output: the most confident face, if there is one,
    /// gives the crop to follow.
    pub fn detected(
        &mut self,
        frame: &Frame,
        boxes1: &[Fx],
        scores1: &[Fx],
        boxes2: &[Fx],
        scores2: &[Fx],
        settings: &FaceSettings,
    ) -> (step: FaceStep)
        requires
            boxes_fit(
                boxes1@.len(),
                scores1@,
                HEAD_ROWS.0 as nat,
                VALUES_PER_BOX as int,
                settings.detect_threshold,
            ),
            boxes_fit(
                boxes2@.len(),
                scores2@,
                HEAD_ROWS.1 as nat,
                VALUES_PER_BOX as int,
                settings.detect_threshold,
            ),
        ensures
            final(self).seq() == old(self).seq(),
            step == match final(self).roi() {
                Some(roi) => FaceStep::Mesh(roi),
                None => FaceStep::Idle,
            },
            exists|dets: Seq<FaceDetection>|
                {
                    &&& #[trigger] reported(
                        dets,
                        boxes1@,
                        scores1@,
                        boxes2@,
                        scores2@,
                        Letterbox::fit_to(frame.width as usize, frame.height as usize, 256),
                        settings.detect_threshold,
                    )
                    &&& is_crop_of_best(dets, final(self).roi())
                },
    {
        let lb: Letterbox = Letterbox::fit_to(
            frame.width as usize,
            frame.height as usize,
            detect::INPUT_SIZE,
        );
        let dets: Vec<FaceDetection> = self.decode(
            boxes1,
            scores1,
            boxes2,
            scores2,
            lb,
            settings.detect_threshold,
        );
        let ghost all = dets@;
        self.roi = best_roi(dets);
        assert(reported(
            all,
            boxes1@,
            scores1@,
            boxes2@,
            scores2@,
            Letterbox::fit_to(frame.width as usize, frame.height as usize, 256),
            settings.detect_threshold,
        ));
        match self.roi {
            Some(roi) => FaceStep::Mesh(roi),
            None => FaceStep::Idle,
        }
    }

    /// The detections of both heads.
    fn decode(
        &self,
        boxes1: &[Fx],
        scores1: &[Fx],
        boxes2: &[Fx],
        scores2: &[Fx],
        lb: Letterbox,
        threshold: Fx,
    ) -> (dets: Vec<FaceDetection>)
        requires
            boxes_fit(boxes1@.len(), scores1@, HEAD_ROWS.0 as nat, VALUES_PER_BOX as int, threshold),
            boxes_fit(boxes2@.len(), scores2@, HEAD_ROWS.1 as nat, VALUES_PER_BOX as int, threshold),
        ensures
            reported(dets@, boxes1@, scores1@, boxes2@, scores2@, lb, threshold),
    {
        let mut dets: Vec<FaceDetection> = Vec::new();
        decode_head(boxes1, scores1, self.anchors.head(0), lb, threshold, &mut dets);
        let ghost fine = dets@;
        decode_head(boxes2, scores2, self.anchors.head(1), lb, threshold, &mut dets);
        proof {
            assert forall|j: int| 0 <= j < fine.len() implies is_decoded(
                #[trigger] dets@[j],
                boxes1@,
                scores1@,
                head_anchors(0),
                lb,
                passing(scores1@, threshold, rows(512, scores1@.len()))[j],
            ) by {
                assert(dets@[j] == fine[j]);
            }
        }
        dets
    }

    /// The mesh model's input: the crop, NCHW.
    pub fn mesh_input(frame: &Frame, roi: &Roi, out: &mut Vec<Fx>)
        requires
            frame.visible(),
        ensures
            final(out)@.len() == 3 * 36864,
            forall|k: int|
                0 <= k < 36864 ==> #[trigger] roi.planar_at(*frame, 192, final(out)@, 36864, k),
    {
        roi.sample_into_planar(frame, landmark::INPUT_SIZE, out);
    }

    /// Take the mesh model's output for the crop that was asked for.
    ///
    /// A confident mesh gives this frame's face and re-seeds the crop, so
    /// detection can stay idle; anything else loses the face.
    pub fn finish(
        &mut self,
        frame: &Frame,
        roi: &Roi,
        raw: &[Fx],
        score: Fx,
        settings: &FaceSettings,
    ) -> (out: FaceFrame)
        ensures
            final(self).seq() == old(self).seq(),
            !present(raw@, score, *settings) ==> out.faces@.len() == 0 && final(self).roi() is None,
            present(raw@, score, *settings) ==> {
                &&& out.faces@.len() == 1
                &&& out.faces@[0].score == score
                &&& out.faces@[0].landmarks@ == mesh_points(raw@, *roi).map_values(
                    |p: Vec2| Vec2 { x: p.x.over(frame.size().x), y: p.y.over(frame.size().y) },
                )
                &&& final(self).roi() == Some(
                    enclosure(
                        mesh_points(raw@, *roi),
                        roll(mesh_points(raw@, *roi)),
                        settings.track_roi_scale,
                        Vec2::zero(),
                    ),
                )
            },
    {
        let mut frame_out = FaceFrame { faces: Vec::new() };
        let decoded: Option<Vec<Vec2>> = landmark::decode(raw, roi);
        if score.raw < settings.presence_threshold.raw {
            self.roi = None;
            return frame_out;
        }
        match decoded {
            Some(points) => {
                assert(points@ =~= mesh_points(raw@, *roi));
                // Re-seed the crop from the mesh so detection can stay idle.
                self.roi = Some(
                    Roi::enclosing(
                        points.as_slice(),
                        mesh_rotation(points.as_slice()),
                        settings.track_roi_scale,
                        Vec2::zero(),
                    ),
                );
                let landmarks: Vec<Vec2> = normalized(&points, frame.size());
                frame_out.faces.push(Face { landmarks, score });
                frame_out
            },
            None => {
                self.roi = None;
                frame_out
            },
        }
    }
}

/// The crop for the most confident face.
fn best_roi(dets: Vec<FaceDetection>) -> (roi: Option<Roi>)
    ensures
        is_crop_of_best(dets@, roi),
{
    let ghost all = dets@;
    let best: Vec<FaceDetection> = nms(dets, Fx::ratio(3, 10), 1);
    let ghost order = choose|order: Seq<int>| #[trigger]
        is_ranking(all, order) && best@ == kept_of(
            all,
            order,
            Fx::ratio(3, 10),
            1,
            all.len() as int,
        );
    proof {
        if all.len() > 0 {
            law_best_is_kept(all, order, Fx::ratio(3, 10), 1, 0);
            lemma_first_is_best(all, order);
        }
    }
    if best.len() > 0 {
        let d: FaceDetection = best[0];
        let half: Vec2 = d.size.over(Fx::whole(2));
        let corners = [d.center.minus(half), d.center.plus(half)];
        assert(corners@ =~= seq![d.center.minus(half), d.center.plus(half)]);
        Some(
            Roi::enclosing(
                &corners,
                d.rotation().reversed(),
                Fx { raw: landmark::FACE_BOX_ENLARGE },
                Vec2::zero(),
            ),
        )
    } else {
        None
    }
}

/// Points in pixels as shares of the frame.
fn normalized(points: &Vec<Vec2>, size: Vec2) -> (out: Vec<Vec2>)
    ensures
        out@ == points@.map_values(
            |p: Vec2| Vec2 { x: p.x.over(size.x), y: p.y.over(size.y) },
        ),
{
    let mut out: Vec<Vec2> = Vec::new();
    let mut i: usize = 0;
    while i < points.len()
        invariant
            i <= points.len(),
            out@.len() == i,
            forall|j: int|
                0 <= j < i ==> #[trigger] out@[j] == (Vec2 {
                    x: points@[j].x.over(size.x),
                    y: points@[j].y.over(size.y),
                }),
        decreases points.len() - i,
    {
        let p: Vec2 = points[i];
        out.push(Vec2 { x: p.x.over(size.x), y: p.y.over(size.y) });
        i += 1;
    }
    out
}

/// What a ranking puts first is the best.
proof fn lemma_first_is_best(dets: Seq<FaceDetection>, order: Seq<int>)
    requires
        is_ranking(dets, order),
        dets.len() > 0,
    ensures
        is_best(dets, order[0]),
{
    assert forall|j: int| 0 <= j < dets.len() && j != order[0] implies #[trigger] outranks(
        dets,
        order[0],
        j,
    ) by {
        assert(order.contains(j));
        let a = choose|a: int| 0 <= a < order.len() && order[a] == j;
        assert(outranks(dets, order[0], order[a]));
    }
}

/// The crop of a detected face is upright: its local +x axis runs from the
/// right eye to the left one.
pub proof fn law_detected_crop_is_upright(det: FaceDetection)
    requires
        ({
            let d = det.keypoints[1].minus(det.keypoints[0]);
            d.x.raw > i64::MIN && d.y.raw > i64::MIN && norm2(d)
                <= 0x3fff_ffff_ffff_ffff_ffff_ffff_ffff_ffff
        }),
    ensures
        face_roi(det).angle == Heading::along(det.keypoints[1].minus(det.keypoints[0])),
{
    law_heading_is_bounded(det.keypoints[1].minus(det.keypoints[0]));
}

/// A lost face is looked for again within the interval: of that many numbers
/// in a row, one is due.
pub proof fn law_search_comes_round(seq: u64, interval: u64) -> (k: u64)
    requires
        0 < interval,
        seq + interval <= u64::MAX,
    ensures
        0 < k <= interval,
        is_due((seq + k) as u64, interval),
{
    let (s, n) = (seq as int, interval as int);
    let k = n - s % n;
    vstd::arithmetic::div_mod::lemma_fundamental_div_mod(s, n);
    vstd::arithmetic::div_mod::lemma_mod_bound(s, n);
    assert(s + k == n * (s / n + 1)) by (nonlinear_arith)
        requires
            s == n * (s / n) + s % n,
            k == n - s % n,
    ;
    vstd::arithmetic::div_mod::lemma_fundamental_div_mod_converse(s + k, n, s / n + 1, 0);
    k as u64
}

/// The crop that follows a mesh is upright: its first axis runs along the line
/// from the outer corner of the right eye to that of the left.
pub proof fn law_mesh_crop_is_upright(points: Seq<Vec2>)
    requires
        points.len() > 263,
        points[263] != points[33],
        -0x1000_0000_0000 <= points[33].x.raw <= 0x1000_0000_0000,
        -0x1000_0000_0000 <= points[33].y.raw <= 0x1000_0000_0000,
        -0x1000_0000_0000 <= points[263].x.raw <= 0x1000_0000_0000,
        -0x1000_0000_0000 <= points[263].y.raw <= 0x1000_0000_0000,
    ensures
        runs_along(roll(points).axes().0, points[33], points[263]),
{
    let d = points[263].minus(points[33]);
    assert(d.x.raw == points[263].x.raw - points[33].x.raw);
    assert(d.y.raw == points[263].y.raw - points[33].y.raw);
    law_along_points_along(d);
}

/// The axis has the direction from `a` to `b`.
pub open spec fn runs_along(axis: Vec2, a: Vec2, b: Vec2) -> bool {
    points_along(
        Vec2 { x: axis.x.negated(), y: axis.y.negated() },
        Vec2 { x: fx(b.x.raw - a.x.raw), y: fx(b.y.raw - a.y.raw) },
    )
}

/// The crop of a detected face has the eyes level: its first axis runs from the
/// right eye to the left one.
pub proof fn law_face_is_level_in_its_crop(det: FaceDetection)
    requires
        det.keypoints[1] != det.keypoints[0],
        -0x1000_0000_0000 <= det.keypoints[0].x.raw <= 0x1000_0000_0000,
        -0x1000_0000_0000 <= det.keypoints[0].y.raw <= 0x1000_0000_0000,
        -0x1000_0000_0000 <= det.keypoints[1].x.raw <= 0x1000_0000_0000,
        -0x1000_0000_0000 <= det.keypoints[1].y.raw <= 0x1000_0000_0000,
    ensures
        runs_along(face_roi(det).axes().0, det.keypoints[0], det.keypoints[1]),
{
    let d = det.keypoints[1].minus(det.keypoints[0]);
    assert(d.x.raw == det.keypoints[1].x.raw - det.keypoints[0].x.raw);
    assert(d.y.raw == det.keypoints[1].y.raw - det.keypoints[0].y.raw);
    lemma_small_offset(d);
    law_heading_is_bounded(d);
    law_along_points_along(d);
}

/// The crop of a face with level eyes is half as long again as the longer side
/// of its box, around the same middle, each to within a few steps.
pub proof fn law_face_crop_frames_the_face(det: FaceDetection)
    requires
        det.keypoints[1].y == det.keypoints[0].y,
        det.keypoints[1].x.raw > det.keypoints[0].x.raw,
        -0x1000_0000_0000 <= det.center.x.raw <= 0x1000_0000_0000,
        -0x1000_0000_0000 <= det.center.y.raw <= 0x1000_0000_0000,
        0 <= det.size.x.raw <= 0x1000_0000_0000,
        0 <= det.size.y.raw <= 0x1000_0000_0000,
    ensures
        ({
            let roi = face_roi(det);
            let m = if det.size.x.raw > det.size.y.raw {
                det.size.x.raw
            } else {
                det.size.y.raw
            };
            &&& -4 <= 2 * roi.side.raw - 3 * m <= 4
            &&& roi.center == det.center
            &&& roi.angle == Heading::level()
        }),
{
    detect::law_level_eyes_are_level(det);
    let half = det.size.over(Fx::whole(2));
    let (w, h) = (det.size.x.raw as int, det.size.y.raw as int);
    assert(Fx::whole(2).raw == 0x2_0000_0000);
    assert((w * 0x1_0000_0000) / 0x2_0000_0000 == w / 2) by (nonlinear_arith);
    assert((h * 0x1_0000_0000) / 0x2_0000_0000 == h / 2) by (nonlinear_arith);
    assert(half.x.raw == w / 2 && half.y.raw == h / 2);
    let (p, q) = (det.center.minus(half), det.center.plus(half));
    let points = seq![p, q];
    let (u, v) = Heading::level().axes();
    lemma_level_point(p);
    lemma_level_point(q);
    assert(points.drop_last() =~= seq![p]);
    reveal_with_fuel(crate::tracking::roi::least, 3);
    reveal_with_fuel(crate::tracking::roi::most, 3);
    let (x, y) = (det.center.x.raw as int, det.center.y.raw as int);
    assert(((2 * x) * 0x1_0000_0000) / 0x2_0000_0000 == x) by (nonlinear_arith);
    assert(((2 * y) * 0x1_0000_0000) / 0x2_0000_0000 == y) by (nonlinear_arith);
    assert(center_along(points, u, Fx::zero()).raw == x);
    assert(center_along(points, v, Fx::zero()).raw == y);
    assert(0 * x == 0 && 0 * y == 0);
    assert((0x1_0000_0000 * x) / 0x1_0000_0000 == x) by (nonlinear_arith);
    assert((0x1_0000_0000 * y) / 0x1_0000_0000 == y) by (nonlinear_arith);
}

proof fn lemma_level_point(p: Vec2)
    ensures
        p.dot(Heading::level().axes().0) == p.x,
        p.dot(Heading::level().axes().1) == p.y,
{
    let (x, y) = (p.x.raw as int, p.y.raw as int);
    assert((x * 0x1_0000_0000) / 0x1_0000_0000 == x) by (nonlinear_arith);
    assert((y * 0x1_0000_0000) / 0x1_0000_0000 == y) by (nonlinear_arith);
    assert(x * 0 == 0 && y * 0 == 0);
}

/// A mesh counts when all of its 468 points are there and the model is sure
/// enough of it.
pub proof fn law_mesh_is_present_when_whole_and_sure(raw: Seq<Fx>, score: Fx, settings: FaceSettings)
    ensures
        raw.len() >= 1404 && score.raw >= settings.presence_threshold.raw ==> present(
            raw,
            score,
            settings,
        ),
        raw.len() < 1404 || score.raw < settings.presence_threshold.raw ==> !present(
            raw,
            score,
            settings,
        ),
{
}

/// Between two turns of a counter lies at least the interval.
pub proof fn law_search_waits_out_the_interval(a: u64, b: u64, interval: u64)
    requires
        a < b,
        interval > 0,
        is_due(a, interval),
        is_due(b, interval),
    ensures
        b - a >= interval,
{
    let (n, x, y) = (interval as int, a as int, b as int);
    if n > 1 {
        vstd::arithmetic::div_mod::lemma_fundamental_div_mod(x, n);
        vstd::arithmetic::div_mod::lemma_fundamental_div_mod(y, n);
        let (p, q) = (x / n, y / n);
        assert(y - x >= n) by (nonlinear_arith)
            requires
                x == n * p,
                y == n * q,
                x < y,
                n > 1,
        ;
    }
}

/// The most confident face is followed, wherever it stands in the list, and the
/// first of those that are as confident.
pub proof fn law_surest_face_is_followed(dets: Seq<FaceDetection>, roi: Option<Roi>, i: int)
    requires
        is_crop_of_best(dets, roi),
        0 <= i < dets.len(),
        forall|j: int|
            0 <= j < dets.len() && j != i ==> (#[trigger] dets[j]).score.raw < dets[i].score.raw || (
            dets[j].score.raw == dets[i].score.raw && i < j),
    ensures
        roi == Some(face_roi(dets[i])),
{
    assert(roi is Some);
    let k = choose|k: int| #[trigger] is_best(dets, k) && roi->0 == face_roi(dets[k]);
    if k != i {
        assert(outranks(dets, k, i));
        assert(dets[k].score.raw <= dets[i].score.raw);
    }
}

/// The mesh model's tensor holds three numbers a point: where it is across the
/// crop, where it is down the crop, and a depth that is not used.
pub proof fn law_mesh_points_are_read_in_threes(raw: Seq<Fx>, roi: Roi, i: int)
    requires
        0 <= i < 468,
    ensures
        mesh_points(raw, roi).len() == 468,
        mesh_points(raw, roi)[i] == landmark::mesh_place(raw[3 * i], raw[3 * i + 1], &roi),
{
}

/// Frames are numbered one after the other, and from zero again after the last
/// number.
pub proof fn law_frames_are_numbered_in_a_row(seq: u64)
    ensures
        seq < u64::MAX ==> successor(seq) == seq + 1,
        successor(u64::MAX) == 0,
{
}

/// A counter's turn is every multiple of the interval, and nothing between.
pub proof fn law_turns_are_multiples(k: int, r: int, interval: u64)
    requires
        0 < interval,
        0 <= k,
        0 <= r < interval,
        k * interval + r <= u64::MAX,
    ensures
        is_due((k * interval + r) as u64, interval) <==> r == 0,
        is_due((k * interval + r) as u64, 0),
{
    let n = interval as int;
    assert(0 <= k * n) by (nonlinear_arith)
        requires
            0 <= k,
            0 < n,
    ;
    vstd::arithmetic::div_mod::lemma_fundamental_div_mod_converse(k * n + r, n, k, r);
}

/// A mesh without both eyes is taken to be level.
pub proof fn law_partial_mesh_is_level(points: Seq<Vec2>)
    requires
        points.len() <= 263,
    ensures
        roll(points) == Heading::level(),
{
}

} // verus!
