//! Face detection: an SSD over a fixed anchor grid.
//!
//! The model emits two heads rather than one: `[1, 512, 16]` from a stride-16
//! grid and `[1, 384, 16]` from a stride-32 grid, 896 anchors in total. Each
//! row is 4 box values plus 6 keypoints (eyes, nose, mouth, ears) as x/y pairs.

use crate::fixed::{fx, Fx};
use crate::logistic::{logistic, sigmoid};
use crate::tracking::nms::{box_iou, iou_of, Detection};
use crate::tracking::palm::is_cell_middle;
use crate::tracking::roi::{law_along_points_along, points_along, Heading};
use crate::tracking::ssd::{
    boxes_fit, grid_centers, law_anchor_stands_in_its_cell, law_point_is_read_from_its_anchor,
    law_size_is_read_without_padding, passing, point_of, push_grid, read_point, read_size, rows,
    size_of_box, Letterbox,
};
use crate::vector::Vec2;
use vstd::prelude::*;

verus! {

/// Square input resolution the detector expects.
pub const INPUT_SIZE: usize = 256;

pub const VALUES_PER_BOX: usize = 16;

pub const NUM_KEYPOINTS: usize = 6;

/// Keypoint order is fixed by the model.
pub const KP_RIGHT_EYE: usize = 0;

pub const KP_LEFT_EYE: usize = 1;

/// (stride, anchors per cell) per output head, in head order.
///
/// Derived from the output shapes: at 256px, stride 16 gives a 16x16 grid,
/// which at 2 anchors per cell is the 512 rows of the first head; stride 32
/// gives 8x8, which at 6 per cell is the 384 of the second.
pub const HEADS: [(usize, usize); 2] = [(16, 2), (32, 6)];

/// Rows that each head emits.
pub const HEAD_ROWS: (usize, usize) = (512, 384);

#[derive(Debug, Clone, Copy)]
pub struct FaceDetection {
    pub score: Fx,
    pub center: Vec2,
    pub size: Vec2,
    pub keypoints: [Vec2; NUM_KEYPOINTS],
}

impl Detection for FaceDetection {
    open spec fn confidence(&self) -> Fx {
        self.score
    }

    open spec fn middle(&self) -> Vec2 {
        self.center
    }

    open spec fn extent(&self) -> Vec2 {
        self.size
    }

    fn score(&self) -> Fx {
        self.score
    }

    fn center(&self) -> Vec2 {
        self.center
    }

    fn size(&self) -> Vec2 {
        self.size
    }
}

impl FaceDetection {
    /// Roll of the face, from the vector between the eye keypoints.
    ///
    /// Level when the eyes are level. Image y grows downward, so the vector is
    /// flipped to get a conventional, counter-clockwise angle.
    #[verifier::allow_in_spec]
    pub fn rotation(&self) -> Heading
        returns
            Heading::along(self.keypoints[1].minus(self.keypoints[0])).reversed(),
    {
        let right = self.keypoints[KP_RIGHT_EYE];
        let left = self.keypoints[KP_LEFT_EYE];
        Heading::along(left.minus(right)).reversed()
    }
}

/// Anchor centers for one head, in 0..1 model space.
pub struct Anchors {
    heads: Vec<Vec<Vec2>>,
}

/// The centers of one head's anchors.
pub open spec fn head_anchors(index: int) -> Seq<Vec2> {
    if index == 0 {
        grid_centers(16, 2)
    } else {
        grid_centers(8, 6)
    }
}

impl Anchors {
    /// There is one set of anchors: the model's.
    #[verifier::type_invariant]
    spec fn inv(&self) -> bool {
        &&& self.heads@.len() == 2
        &&& self.heads@[0]@ == head_anchors(0)
        &&& self.heads@[1]@ == head_anchors(1)
    }

    /// The centers of each head's anchors.
    pub closed spec fn centers(&self) -> Seq<Seq<Vec2>> {
        self.heads@.map_values(|head: Vec<Vec2>| head@)
    }

    pub fn new() -> (anchors: Anchors)
        ensures
            anchors.centers() == seq![head_anchors(0), head_anchors(1)],
    {
        let mut fine: Vec<Vec2> = Vec::new();
        push_grid(&mut fine, 16, 2);
        let mut coarse: Vec<Vec2> = Vec::new();
        push_grid(&mut coarse, 8, 6);
        let mut heads: Vec<Vec<Vec2>> = Vec::new();
        assert(fine@ =~= head_anchors(0));
        assert(coarse@ =~= head_anchors(1));
        heads.push(fine);
        heads.push(coarse);
        assert(heads@.map_values(|head: Vec<Vec2>| head@) =~= seq![head_anchors(0), head_anchors(1)]);
        Anchors { heads }
    }

    pub fn head(&self, index: usize) -> (centers: &[Vec2])
        requires
            index < 2,
        ensures
            centers@ == self.centers()[index as int],
            centers@ == head_anchors(index as int),
            centers@.len() == if index == 0 {
                512int
            } else {
                384
            },
    {
        proof {
            use_type_invariant(self);
        }
        self.heads[index].as_slice()
    }
}

impl Default for Anchors {
    fn default() -> (anchors: Anchors)
        ensures
            anchors.centers() == seq![head_anchors(0), head_anchors(1)],
    {
        Anchors::new()
    }
}

/// `det` is what row `i` of one head's tensors says.
pub open spec fn is_decoded(
    det: FaceDetection,
    boxes: Seq<Fx>,
    scores: Seq<Fx>,
    anchors: Seq<Vec2>,
    lb: Letterbox,
    i: int,
) -> bool {
    let at = i * VALUES_PER_BOX;
    &&& det.score == logistic(scores[i])
    &&& det.center == point_of(boxes, at, 256, anchors[i], lb)
    &&& det.size == size_of_box(boxes, at + 2, 256, lb)
    &&& forall|k: int|
        0 <= k < NUM_KEYPOINTS ==> #[trigger] det.keypoints[k] == point_of(
            boxes,
            at + 4 + 2 * k,
            256,
            anchors[i],
            lb,
        )
}

/// Decode one output head into detections, in source-frame pixels.
///
/// `scores` are raw; `boxes` must hold a row for each that stands for a
/// probability that reaches the threshold.
pub fn decode_head(
    boxes: &[Fx],
    scores: &[Fx],
    anchors: &[Vec2],
    lb: Letterbox,
    score_threshold: Fx,
    out: &mut Vec<FaceDetection>,
)
    requires
        boxes_fit(
            boxes@.len(),
            scores@,
            anchors@.len(),
            VALUES_PER_BOX as int,
            score_threshold,
        ),
    ensures
        final(out)@.len() == old(out)@.len() + passing(
            scores@,
            score_threshold,
            rows(anchors@.len(), scores@.len()),
        ).len(),
        forall|j: int| 0 <= j < old(out)@.len() ==> #[trigger] final(out)@[j] == old(out)@[j],
        forall|j: int|
            old(out)@.len() <= j < final(out)@.len() ==> is_decoded(
                #[trigger] final(out)@[j],
                boxes@,
                scores@,
                anchors@,
                lb,
                passing(scores@, score_threshold, rows(anchors@.len(), scores@.len()))[j - old(out)@.len()],
            ),
{
    let n: usize = if anchors.len() < scores.len() {
        anchors.len()
    } else {
        scores.len()
    };
    let ghost start = out@.len();
    let mut i: usize = 0;
    while i < n
        invariant
            i <= n,
            n == rows(anchors@.len(), scores@.len()),
            n <= anchors@.len(),
            n <= scores@.len(),
            start == old(out)@.len(),
            boxes_fit(
                boxes@.len(),
                scores@,
                anchors@.len(),
                VALUES_PER_BOX as int,
                score_threshold,
            ),
            out@.len() == start + passing(scores@, score_threshold, i as int).len(),
            forall|j: int| 0 <= j < start ==> #[trigger] out@[j] == old(out)@[j],
            forall|j: int|
                start <= j < out@.len() ==> is_decoded(
                    #[trigger] out@[j],
                    boxes@,
                    scores@,
                    anchors@,
                    lb,
                    passing(scores@, score_threshold, i as int)[j - start],
                ),
        decreases n - i,
    {
        let score: Fx = sigmoid(scores[i]);
        if score.raw >= score_threshold.raw {
            assert(boxes@.len() == boxes.len());
            let at: usize = i * VALUES_PER_BOX;
            let anchor: Vec2 = anchors[i];
            let center: Vec2 = read_point(boxes, at, 256, anchor, lb);
            let size: Vec2 = read_size(boxes, at + 2, 256, lb);
            let keypoints = [
                read_point(boxes, at + 4, 256, anchor, lb),
                read_point(boxes, at + 6, 256, anchor, lb),
                read_point(boxes, at + 8, 256, anchor, lb),
                read_point(boxes, at + 10, 256, anchor, lb),
                read_point(boxes, at + 12, 256, anchor, lb),
                read_point(boxes, at + 14, 256, anchor, lb),
            ];
            let det = FaceDetection { score, center, size, keypoints };
            assert(is_decoded(det, boxes@, scores@, anchors@, lb, i as int));
            out.push(det);
        }
        i += 1;
    }
}

/// Level eyes mean no rotation.
pub proof fn law_level_eyes_are_level(det: FaceDetection)
    requires
        det.keypoints[1].y == det.keypoints[0].y,
        det.keypoints[1].x.raw > det.keypoints[0].x.raw,
    ensures
        det.rotation() == Heading::level(),
{
    let d = det.keypoints[1].minus(det.keypoints[0]);
    let x = d.x.raw as int;
    assert(d.y.raw == 0 && x > 0);
    assert(crate::vector::norm2(d) == x * x);
    crate::fixed::lemma_root_of_square(x);
    vstd::arithmetic::div_mod::lemma_div_by_multiple(crate::fixed::ONE as int, x);
    vstd::arithmetic::mul::lemma_mul_is_commutative(crate::fixed::ONE as int, x);
    vstd::arithmetic::div_mod::lemma_div_basics(x);
}

/// Row `i` of the tensors is read against anchor `i`: its first two values are
/// the middle of the box, the next two its size, and each two after that a
/// keypoint, all in model pixels across the square that the frame's longer side
/// `m` fills.
pub proof fn law_face_row_is_read_in_order(
    det: FaceDetection,
    boxes: Seq<Fx>,
    scores: Seq<Fx>,
    anchors: Seq<Vec2>,
    w: usize,
    h: usize,
    i: int,
    k: int,
)
    requires
        w <= 65536,
        h <= 65536,
        0 <= k < 6,
        0 <= anchors[i].x.raw <= 0x1_0000_0000,
        0 <= anchors[i].y.raw <= 0x1_0000_0000,
        0 <= i,
        16 * (i + 1) <= boxes.len(),
        forall|j: int|
            0 <= j < boxes.len() ==> -0x800_0000_0000 <= (#[trigger] boxes[j]).raw
                <= 0x800_0000_0000,
        is_decoded(det, boxes, scores, anchors, Letterbox::fit_to(w, h, 256), i),
    ensures
        ({
            let m = if h > w { h as int } else { w as int };
            let (a, at) = (anchors[i], 16 * i);
            let (pad_x, pad_y) = ((m - w) * 0x8000_0000, (m - h) * 0x8000_0000);
            &&& det.center.x.raw == m * (boxes[at].raw as int / 256 + a.x.raw) - pad_x
            &&& det.center.y.raw == m * (boxes[at + 1].raw as int / 256 + a.y.raw) - pad_y
            &&& det.size.x.raw == m * (boxes[at + 2].raw as int / 256)
            &&& det.size.y.raw == m * (boxes[at + 3].raw as int / 256)
            &&& det.keypoints[k].x.raw == m * (boxes[at + 4 + 2 * k].raw as int / 256 + a.x.raw)
                - pad_x
            &&& det.keypoints[k].y.raw == m * (boxes[at + 5 + 2 * k].raw as int / 256 + a.y.raw)
                - pad_y
            &&& det.score == logistic(scores[i])
        }),
{
    let at = i * 16;
    let all = (boxes[at], boxes[at + 1], boxes[at + 2], boxes[at + 3]);
    let two = (boxes[at + 4 + 2 * k], boxes[at + 4 + 2 * k + 1]);
    law_point_is_read_from_its_anchor(boxes, at, 256, anchors[i], w, h, 256);
    law_size_is_read_without_padding(boxes, at + 2, 256, w, h, 256);
    law_point_is_read_from_its_anchor(boxes, at + 4 + 2 * k, 256, anchors[i], w, h, 256);
}

/// The model's anchors, cell by cell: two in each cell of a 16x16 grid for the
/// first head, six in each of an 8x8 grid for the second, in the middle of the
/// cell.
pub proof fn law_heads_cover_their_grids(row: int, column: int, k: int)
    requires
        0 <= row,
        0 <= column,
        0 <= k,
    ensures
        row < 16 && column < 16 && k < 2 ==> is_cell_middle(
            head_anchors(0)[(row * 16 + column) * 2 + k],
            16,
            row,
            column,
        ),
        row < 8 && column < 8 && k < 6 ==> is_cell_middle(
            head_anchors(1)[(row * 8 + column) * 6 + k],
            8,
            row,
            column,
        ),
{
    if row < 16 && column < 16 && k < 2 {
        law_anchor_stands_in_its_cell(16, 2, row, column, k);
    }
    if row < 8 && column < 8 && k < 6 {
        law_anchor_stands_in_its_cell(8, 6, row, column, k);
    }
}

/// A face's box is the one that was read: it is ranked by its score, and two of
/// them overlap as their boxes do.
pub proof fn law_face_boxes_are_compared(a: FaceDetection, b: FaceDetection)
    ensures
        a.confidence() == a.score,
        iou_of(a, b) == box_iou(a.center, a.size, b.center, b.size),
{
}

/// A face's rotation is measured counter-clockwise, against the image's y: a
/// left eye that is lower than the right one turns it the negative way.
pub proof fn law_rotation_is_counter_clockwise(det: FaceDetection)
    requires
        det.keypoints[1] != det.keypoints[0],
        -0x1000_0000_0000 <= det.keypoints[0].x.raw <= 0x1000_0000_0000,
        -0x1000_0000_0000 <= det.keypoints[0].y.raw <= 0x1000_0000_0000,
        -0x1000_0000_0000 <= det.keypoints[1].x.raw <= 0x1000_0000_0000,
        -0x1000_0000_0000 <= det.keypoints[1].y.raw <= 0x1000_0000_0000,
    ensures
        points_along(
            Vec2 { x: det.rotation().cos.negated(), y: det.rotation().sin },
            Vec2 {
                x: fx(det.keypoints[1].x.raw - det.keypoints[0].x.raw),
                y: fx(det.keypoints[1].y.raw - det.keypoints[0].y.raw),
            },
        ),
{
    let d = det.keypoints[1].minus(det.keypoints[0]);
    assert(d.x.raw == det.keypoints[1].x.raw - det.keypoints[0].x.raw);
    assert(d.y.raw == det.keypoints[1].y.raw - det.keypoints[0].y.raw);
    law_along_points_along(d);
}

} // verus!
