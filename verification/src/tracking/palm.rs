//! Palm detection: the "where are the hands at all" stage.
//!
//! The model is an SSD-style detector over a fixed anchor grid. It emits
//! `[1, 2016, 18]` box regressions and `[1, 2016, 1]` scores, which we decode
//! against locally generated anchors and then NMS.

pub use crate::tracking::ssd::Letterbox;

use crate::fixed::{Fx, ONE};
use crate::logistic::{logistic, sigmoid};
use crate::tracking::nms::{self, box_iou, iou_of, is_ranking, kept_of, Detection};
use crate::tracking::roi::Heading;
use crate::tracking::ssd::{
    boxes_fit, grid_centers, law_anchor_stands_in_its_cell, law_point_is_read_from_its_anchor,
    law_size_is_read_without_padding, passing, point_of, push_grid, read_point, read_size, rows,
    size_of_box,
};
use crate::vector::Vec2;
use vstd::prelude::*;

verus! {

/// Square input resolution the palm model expects.
pub const INPUT_SIZE: usize = 192;

/// Anchors of the model.
pub const NUM_ANCHORS: usize = 2016;

/// 4 box values (dx, dy, w, h) + 7 palm keypoints x 2.
pub const VALUES_PER_BOX: usize = 18;

pub const NUM_KEYPOINTS: usize = 7;

/// Palm keypoints we actually use. 0 is the base of the palm and 2 sits at the
/// middle-finger knuckle; the vector between them gives us hand rotation.
pub const KP_PALM_BASE: usize = 0;

pub const KP_MIDDLE_MCP: usize = 2;

/// A detected palm in **pixel** coordinates of the source frame.
#[derive(Debug, Clone, Copy)]
pub struct PalmDetection {
    pub score: Fx,
    pub center: Vec2,
    pub size: Vec2,
    pub keypoints: [Vec2; NUM_KEYPOINTS],
}

impl PalmDetection {
    /// Rotation of the palm from the palm-base -> middle-knuckle vector. The
    /// canonical hand points "up", so we measure the offset from there.
    #[verifier::allow_in_spec]
    pub fn rotation(&self) -> Heading
        returns
            Heading::upright(self.keypoints[2].minus(self.keypoints[0])),
    {
        let a = self.keypoints[KP_PALM_BASE];
        let b = self.keypoints[KP_MIDDLE_MCP];
        Heading::upright(b.minus(a))
    }
}

impl Detection for PalmDetection {
    open spec fn confidence(&self) -> Fx {
        self.score
    }

    open spec fn middle(&self) -> Vec2 {
        self.center
    }

    open spec fn extent(&self) -> Vec2 {
        self.size
    }

    fn score(&self) -> Fx {
        self.score
    }

    fn center(&self) -> Vec2 {
        self.center
    }

    fn size(&self) -> Vec2 {
        self.size
    }
}

/// Anchor centers in 0..1 model space. Sizes are fixed at 1 by the model's
/// training config, so we only need centers.
pub struct Anchors {
    centers: Vec<Vec2>,
}

/// The centers of the model's anchors: stride 8 over a 24x24 map (2 per cell),
/// then stride 16 over a 12x12 map (6 per cell).
pub open spec fn model_anchors() -> Seq<Vec2> {
    grid_centers(24, 2) + grid_centers(12, 6)
}

impl View for Anchors {
    type V = Seq<Vec2>;

    closed spec fn view(&self) -> Seq<Vec2> {
        self.centers@
    }
}

impl Anchors {
    /// There is one set of anchors: the model's.
    #[verifier::type_invariant]
    spec fn inv(&self) -> bool {
        self.centers@ == model_anchors() && self.centers@.len() == NUM_ANCHORS
    }

    pub fn new() -> (anchors: Anchors)
        ensures
            anchors@ == model_anchors(),
            anchors@.len() == NUM_ANCHORS,
    {
        let mut centers: Vec<Vec2> = Vec::new();
        push_grid(&mut centers, 24, 2);
        push_grid(&mut centers, 12, 6);
        Anchors { centers }
    }

    pub fn len(&self) -> (n: usize)
        ensures
            n == self@.len(),
            n == NUM_ANCHORS,
    {
        proof {
            use_type_invariant(self);
        }
        self.centers.len()
    }
}

impl Default for Anchors {
    fn default() -> (anchors: Anchors)
        ensures
            anchors@ == model_anchors(),
    {
        Anchors::new()
    }
}

impl Letterbox {
    /// Fit a `w x h` frame into a square of `INPUT_SIZE`, preserving aspect.
    #[verifier::allow_in_spec]
    pub fn fit(w: usize, h: usize) -> Letterbox
        returns
            Letterbox::fit_to(w, h, 192),
    {
        Letterbox::fit_to(w, h, INPUT_SIZE)
    }
}

/// `det` is what row `i` of the tensors says.
pub open spec fn is_decoded(
    det: PalmDetection,
    boxes: Seq<Fx>,
    scores: Seq<Fx>,
    anchors: Seq<Vec2>,
    lb: Letterbox,
    i: int,
) -> bool {
    let at = i * VALUES_PER_BOX;
    &&& det.score == logistic(scores[i])
    &&& det.center == point_of(boxes, at, 192, anchors[i], lb)
    &&& det.size == size_of_box(boxes, at + 2, 192, lb)
    &&& forall|k: int|
        0 <= k < NUM_KEYPOINTS ==> #[trigger] det.keypoints[k] == point_of(
            boxes,
            at + 4 + 2 * k,
            192,
            anchors[i],
            lb,
        )
}

/// Decode raw model tensors into detections, in source-frame pixels.
///
/// `scores` are raw; `boxes` must hold a row for each that stands for a
/// probability that reaches the threshold.
pub fn decode(
    boxes: &[Fx],
    scores: &[Fx],
    anchors: &Anchors,
    lb: Letterbox,
    score_threshold: Fx,
) -> (out: Vec<PalmDetection>)
    requires
        boxes_fit(
            boxes@.len(),
            scores@,
            NUM_ANCHORS as nat,
            VALUES_PER_BOX as int,
            score_threshold,
        ),
    ensures
        out@.len() == passing(
            scores@,
            score_threshold,
            rows(NUM_ANCHORS as nat, scores@.len()),
        ).len(),
        forall|j: int|
            0 <= j < out@.len() ==> is_decoded(
                #[trigger] out@[j],
                boxes@,
                scores@,
                model_anchors(),
                lb,
                passing(scores@, score_threshold, rows(NUM_ANCHORS as nat, scores@.len()))[j],
            ),
{
    let n: usize = if anchors.len() < scores.len() {
        anchors.len()
    } else {
        scores.len()
    };
    let mut out: Vec<PalmDetection> = Vec::new();
    let mut i: usize = 0;
    while i < n
        invariant
            i <= n,
            n == rows(anchors@.len(), scores@.len()),
            n <= anchors.centers@.len(),
            anchors.centers@ == anchors@,
            n <= scores@.len(),
            boxes_fit(
                boxes@.len(),
                scores@,
                anchors@.len(),
                VALUES_PER_BOX as int,
                score_threshold,
            ),
            out@.len() == passing(scores@, score_threshold, i as int).len(),
            forall|j: int|
                0 <= j < out@.len() ==> is_decoded(
                    #[trigger] out@[j],
                    boxes@,
                    scores@,
                    anchors@,
                    lb,
                    passing(scores@, score_threshold, i as int)[j],
                ),
        decreases n - i,
    {
        let score: Fx = sigmoid(scores[i]);
        if score.raw >= score_threshold.raw {
            assert(boxes@.len() == boxes.len());
            let at: usize = i * VALUES_PER_BOX;
            let anchor: Vec2 = anchors.centers[i];
            // Regressions are in model pixels; anchors are normalized.
            let center: Vec2 = read_point(boxes, at, 192, anchor, lb);
            let size: Vec2 = read_size(boxes, at + 2, 192, lb);
            let keypoints = [
                read_point(boxes, at + 4, 192, anchor, lb),
                read_point(boxes, at + 6, 192, anchor, lb),
                read_point(boxes, at + 8, 192, anchor, lb),
                read_point(boxes, at + 10, 192, anchor, lb),
                read_point(boxes, at + 12, 192, anchor, lb),
                read_point(boxes, at + 14, 192, anchor, lb),
                read_point(boxes, at + 16, 192, anchor, lb),
            ];
            let det = PalmDetection { score, center, size, keypoints };
            assert(is_decoded(det, boxes@, scores@, anchors@, lb, i as int));
            out.push(det);
        }
        i += 1;
    }
    proof {
        use_type_invariant(anchors);
    }
    out
}

/// Greedy non-maximum suppression, highest score first.
pub fn nms(dets: Vec<PalmDetection>, iou_threshold: Fx, max_out: usize) -> (kept: Vec<
    PalmDetection,
>)
    ensures
        exists|order: Seq<int>| #[trigger]
            is_ranking(dets@, order) && kept@ == kept_of(
                dets@,
                order,
                iou_threshold,
                max_out as nat,
                dets@.len() as int,
            ),
{
    nms::nms(dets, iou_threshold, max_out)
}

/// The center of the padded square is the center of the frame.
pub proof fn law_letterbox_keeps_the_center(w: usize, h: usize, size: usize)
    requires
        w <= i32::MAX,
        h <= i32::MAX,
    ensures
        ({
            let p = Letterbox::fit_to(w, h, size).to_pixels(
                Vec2 { x: Fx::ratio(1, 2), y: Fx::ratio(1, 2) },
            );
            p.x.raw == w * (ONE / 2) && p.y.raw == h * (ONE / 2)
        }),
{
    let lb = Letterbox::fit_to(w, h, size);
    let m = if h > w { h as int } else { w as int };
    assert(lb.span().raw == m * 0x1_0000_0000);
    assert(Fx::ratio(1, 2).raw == 0x8000_0000);
    assert(Fx::whole(2).raw == 0x2_0000_0000);
    assert((0x8000_0000 * (m * 0x1_0000_0000)) / 0x1_0000_0000 == m * 0x8000_0000)
        by (nonlinear_arith);
    lemma_halve(m - w);
    lemma_halve(m - h);
}

proof fn lemma_halve(n: int)
    ensures
        ((n * 0x1_0000_0000) * 0x1_0000_0000) / 0x2_0000_0000 == n * 0x8000_0000,
{
    assert(((n * 0x1_0000_0000) * 0x1_0000_0000) / 0x2_0000_0000 == n * 0x8000_0000)
        by (nonlinear_arith);
}

/// Two points are as far apart in the frame as their distance says: lengths
/// carry the scale, and the padding moves both alike.
pub proof fn law_letterbox_is_uniform(w: usize, h: usize, size: usize, p: Vec2, q: Vec2)
    requires
        w <= 65536,
        h <= 65536,
        -0x2_0000_0000 <= p.x.raw <= 0x2_0000_0000,
        -0x2_0000_0000 <= p.y.raw <= 0x2_0000_0000,
        -0x2_0000_0000 <= q.x.raw <= 0x2_0000_0000,
        -0x2_0000_0000 <= q.y.raw <= 0x2_0000_0000,
    ensures
        ({
            let lb = Letterbox::fit_to(w, h, size);
            lb.to_pixels(p).minus(lb.to_pixels(q)) == lb.len_to_pixels(p.minus(q))
        }),
{
    let lb = Letterbox::fit_to(w, h, size);
    let m = if h > w { h as int } else { w as int };
    assert(lb.span().raw == m * 0x1_0000_0000);
    assert(Fx::whole(2).raw == 0x2_0000_0000);
    lemma_halve(m - w);
    lemma_halve(m - h);
    lemma_stretch(p.x, lb.span(), m);
    lemma_stretch(p.y, lb.span(), m);
    lemma_stretch(q.x, lb.span(), m);
    lemma_stretch(q.y, lb.span(), m);
    lemma_stretch(p.x.minus(q.x), lb.span(), m);
    lemma_stretch(p.y.minus(q.y), lb.span(), m);
    let (px, qx, py, qy) = (
        p.x.raw as int,
        q.x.raw as int,
        p.y.raw as int,
        q.y.raw as int,
    );
    assert((px - qx) * m == px * m - qx * m) by (nonlinear_arith);
    assert((py - qy) * m == py * m - qy * m) by (nonlinear_arith);
}

/// Multiplying by a whole number is exact.
proof fn lemma_stretch(a: Fx, k: Fx, m: int)
    requires
        0 <= m <= 65536,
        k.raw == m * 0x1_0000_0000,
        -0x4_0000_0000 <= a.raw <= 0x4_0000_0000,
    ensures
        a.times(k).raw == a.raw * m,
        -0x4_0000_0000_0000 <= a.raw * m <= 0x4_0000_0000_0000,
{
    let n = a.raw as int;
    assert((n * (m * 0x1_0000_0000)) / 0x1_0000_0000 == n * m) by (nonlinear_arith);
    assert(-0x4_0000_0000_0000 <= n * m <= 0x4_0000_0000_0000) by (nonlinear_arith)
        requires
            0 <= m <= 65536,
            -0x4_0000_0000 <= n <= 0x4_0000_0000,
    ;
}

/// A point of the frame, taken into the square by scale and padding, comes back
/// to within a hundredth of a pixel.
pub proof fn law_letterbox_round_trip(w: usize, h: usize, size: usize, q: Vec2)
    requires
        1 <= w <= 10000,
        1 <= h <= 10000,
        100 <= size <= 1000,
        0 <= q.x.raw <= w * ONE,
        0 <= q.y.raw <= h * ONE,
    ensures
        ({
            let lb = Letterbox::fit_to(w, h, size);
            let r = lb.to_pixels(q.times(lb.scale()).plus(lb.pad()).over(lb.size));
            &&& 0 <= q.x.raw - r.x.raw <= Fx::ratio(1, 100).raw
            &&& 0 <= q.y.raw - r.y.raw <= Fx::ratio(1, 100).raw
        }),
{
    let lb = Letterbox::fit_to(w, h, size);
    let m = if h > w { h as int } else { w as int };
    assert(lb.span().raw == m * 0x1_0000_0000);
    assert(lb.size.raw == size * 0x1_0000_0000);
    assert(Fx::whole(2).raw == 0x2_0000_0000);
    assert(Fx::ratio(1, 100).raw == 42949672);
    lemma_halve(m - w);
    lemma_halve(m - h);
    let g = lb.scale().raw as int;
    let n = size as int;
    assert(((n * 0x1_0000_0000) * 0x1_0000_0000) / (m * 0x1_0000_0000) == (n * 0x1_0000_0000) / m)
        by {
        vstd::arithmetic::div_mod::lemma_div_multiples_vanish_quotient(
            0x1_0000_0000,
            n * 0x1_0000_0000,
            m,
        );
        assert((n * 0x1_0000_0000) * 0x1_0000_0000 == 0x1_0000_0000 * (n * 0x1_0000_0000)
            && m * 0x1_0000_0000 == 0x1_0000_0000 * m);
    }
    vstd::arithmetic::div_mod::lemma_fundamental_div_mod(n * 0x1_0000_0000, m);
    vstd::arithmetic::div_mod::lemma_mod_bound(n * 0x1_0000_0000, m);
    let rest = (n * 0x1_0000_0000) % m;
    let scale = (n * 0x1_0000_0000) / m;
    assert(0 <= scale <= n * 0x1_0000_0000) by (nonlinear_arith)
        requires
            n * 0x1_0000_0000 == m * scale + rest,
            0 <= rest < m,
            1 <= m,
            n >= 0,
    ;
    assert(g == scale);
    lemma_there_and_back(q.x.raw as int, (m - w) * 0x8000_0000, m, n, g, rest);
    lemma_there_and_back(q.y.raw as int, (m - h) * 0x8000_0000, m, n, g, rest);
}

/// One coordinate of a point, scaled by `g` and padded, and mapped back.
proof fn lemma_there_and_back(q: int, margin: int, m: int, n: int, g: int, rest: int)
    requires
        0 <= q,
        0 <= margin,
        q + margin <= m * 0x1_0000_0000,
        1 <= m <= 10000,
        100 <= n <= 1000,
        m * g + rest == n * 0x1_0000_0000,
        0 <= rest < m,
    ensures
        ({
            let s = (q * g) / 0x1_0000_0000;
            let p = (margin * g) / 0x1_0000_0000;
            let t = ((s + p) * 0x1_0000_0000) / (n * 0x1_0000_0000);
            let r = (t * (m * 0x1_0000_0000)) / 0x1_0000_0000;
            &&& 0 <= s <= 0x1000_0000_0000
            &&& 0 <= p <= 0x1000_0000_0000
            &&& 0 <= t <= 0x1000_0000_0000
            &&& 0 <= r <= 0x1000_0000_0000_0000
            &&& 0 <= q - (r - margin) <= 42949672
        }),
{
    let one = 0x1_0000_0000int;
    let s = (q * g) / one;
    let p = (margin * g) / one;
    let t = ((s + p) * one) / (n * one);
    let r = (t * (m * one)) / one;
    assert(g >= 0) by (nonlinear_arith)
        requires
            m * g + rest == n * 0x1_0000_0000,
            0 <= rest < m,
            n >= 1,
    ;
    assert(0 <= q * g && 0 <= margin * g) by (nonlinear_arith)
        requires
            q >= 0,
            margin >= 0,
            g >= 0,
    ;
    let (a, b) = ((q * g) % one, (margin * g) % one);
    let x = q + margin;
    assert(q * g + margin * g == x * g) by (nonlinear_arith)
        requires
            x == q + margin,
    ;
    assert(one * (s + p) == x * g - a - b);
    assert(x * g <= n * (one * one)) by (nonlinear_arith)
        requires
            0 <= x <= m * one,
            m * g <= n * one,
            g >= 0,
            one > 0,
    {
        assert(x * g <= (m * one) * g);
        assert((m * one) * g == (m * g) * one);
        assert((m * g) * one <= (n * one) * one);
    }
    assert(s + p <= n * one) by (nonlinear_arith)
        requires
            one * (s + p) <= n * (one * one),
            one > 0,
    ;
    vstd::arithmetic::div_mod::lemma_div_multiples_vanish_quotient(one, s + p, n);
    assert((s + p) * one == one * (s + p) && n * one == one * n) by (nonlinear_arith);
    assert(t == (s + p) / n);
    vstd::arithmetic::div_mod::lemma_fundamental_div_mod(s + p, n);
    vstd::arithmetic::div_mod::lemma_mod_bound(s + p, n);
    let c = (s + p) % n;
    assert(0 <= t <= one) by (nonlinear_arith)
        requires
            s + p == n * t + c,
            0 <= c < n,
            0 <= s + p <= n * one,
    ;
    assert((t * (m * one)) / one == t * m) by {
        assert(t * (m * one) == one * (t * m)) by (nonlinear_arith);
        vstd::arithmetic::div_mod::lemma_div_by_multiple(t * m, one);
    }
    assert(0 <= t * m <= 0x1000_0000_0000_0000) by (nonlinear_arith)
        requires
            0 <= t <= one,
            1 <= m <= 10000,
            one == 0x1_0000_0000,
    ;
    // n * one * (t * m - x), put together from what each rounding took away.
    let lost = x * rest + m * a + m * b + (one * m) * c;
    assert((n * one) * (t * m - x) == -lost) by (nonlinear_arith)
        requires
            one * (s + p) == x * g - a - b,
            s + p == n * t + c,
            m * g + rest == n * one,
            lost == x * rest + m * a + m * b + (one * m) * c,
    {
        assert((n * one) * (t * m) == (one * m) * (n * t));
        assert((one * m) * (n * t) == (one * m) * (s + p) - (one * m) * c);
        assert((one * m) * (s + p) == m * (x * g - a - b));
        assert(m * (x * g - a - b) == x * (m * g) - m * a - m * b);
        assert(x * (m * g) == x * (n * one) - x * rest);
        assert((n * one) * x == x * (n * one));
    }
    assert(0 <= lost <= (n * one) * 42949672) by (nonlinear_arith)
        requires
            lost == x * rest + m * a + m * b + (one * m) * c,
            0 <= x <= m * one,
            0 <= rest < m <= 10000,
            0 <= a < one,
            0 <= b < one,
            0 <= c < n,
            100 <= n <= 1000,
            one == 0x1_0000_0000,
    {
        assert(0 <= x * rest <= (m * one) * 10000);
        assert(0 <= m * a <= 10000 * one && 0 <= m * b <= 10000 * one);
        assert(0 <= (one * m) * c <= (one * 10000) * n);
        assert((m * one) * 10000 <= 100000000 * one);
        assert(100000000 * one + 20000 * one + 10000 * (one * n) <= (n * one) * 42949672);
    }
    assert(0 <= x - t * m <= 42949672) by (nonlinear_arith)
        requires
            (n * one) * (t * m - x) == -lost,
            0 <= lost <= (n * one) * 42949672,
            n * one > 0,
    ;
}

/// Row `i` of the tensors is read against anchor `i`: its first two values are
/// the middle of the box, the next two its size, and each two after that a
/// keypoint, all in model pixels across the square that the frame's longer side
/// `m` fills.
pub proof fn law_palm_row_is_read_in_order(
    det: PalmDetection,
    boxes: Seq<Fx>,
    scores: Seq<Fx>,
    anchors: Seq<Vec2>,
    w: usize,
    h: usize,
    i: int,
    k: int,
)
    requires
        w <= 65536,
        h <= 65536,
        0 <= k < 7,
        0 <= anchors[i].x.raw <= 0x1_0000_0000,
        0 <= anchors[i].y.raw <= 0x1_0000_0000,
        0 <= i,
        18 * (i + 1) <= boxes.len(),
        forall|j: int|
            0 <= j < boxes.len() ==> -0x800_0000_0000 <= (#[trigger] boxes[j]).raw
                <= 0x800_0000_0000,
        is_decoded(det, boxes, scores, anchors, Letterbox::fit_to(w, h, 192), i),
    ensures
        ({
            let m = if h > w { h as int } else { w as int };
            let (a, at) = (anchors[i], 18 * i);
            let (pad_x, pad_y) = ((m - w) * 0x8000_0000, (m - h) * 0x8000_0000);
            &&& det.center.x.raw == m * (boxes[at].raw as int / 192 + a.x.raw) - pad_x
            &&& det.center.y.raw == m * (boxes[at + 1].raw as int / 192 + a.y.raw) - pad_y
            &&& det.size.x.raw == m * (boxes[at + 2].raw as int / 192)
            &&& det.size.y.raw == m * (boxes[at + 3].raw as int / 192)
            &&& det.keypoints[k].x.raw == m * (boxes[at + 4 + 2 * k].raw as int / 192 + a.x.raw)
                - pad_x
            &&& det.keypoints[k].y.raw == m * (boxes[at + 5 + 2 * k].raw as int / 192 + a.y.raw)
                - pad_y
            &&& det.score == logistic(scores[i])
        }),
{
    let at = i * 18;
    let all = (boxes[at], boxes[at + 1], boxes[at + 2], boxes[at + 3]);
    let two = (boxes[at + 4 + 2 * k], boxes[at + 4 + 2 * k + 1]);
    law_point_is_read_from_its_anchor(boxes, at, 192, anchors[i], w, h, 192);
    law_size_is_read_without_padding(boxes, at + 2, 192, w, h, 192);
    law_point_is_read_from_its_anchor(boxes, at + 4 + 2 * k, 192, anchors[i], w, h, 192);
}

/// The model's anchors, cell by cell: two in each cell of a 24x24 grid, then six
/// in each of a 12x12 grid, in the middle of the cell.
pub proof fn law_anchors_cover_two_grids(row: int, column: int, k: int)
    requires
        0 <= row,
        0 <= column,
        0 <= k,
    ensures
        row < 24 && column < 24 && k < 2 ==> is_cell_middle(
            model_anchors()[(row * 24 + column) * 2 + k],
            24,
            row,
            column,
        ),
        row < 12 && column < 12 && k < 6 ==> is_cell_middle(
            model_anchors()[1152 + (row * 12 + column) * 6 + k],
            12,
            row,
            column,
        ),
{
    assert(grid_centers(24, 2).len() == 1152);
    if row < 24 && column < 24 && k < 2 {
        law_anchor_stands_in_its_cell(24, 2, row, column, k);
        let i = (row * 24 + column) * 2 + k;
        assert(model_anchors()[i] == grid_centers(24, 2)[i]);
    }
    if row < 12 && column < 12 && k < 6 {
        law_anchor_stands_in_its_cell(12, 6, row, column, k);
        let i = (row * 12 + column) * 6 + k;
        assert(model_anchors()[1152 + i] == grid_centers(12, 6)[i]);
    }
}

/// `c` is the middle of the cell in a grid of `dim x dim` across 0..1, rounded
/// down.
pub open spec fn is_cell_middle(c: Vec2, dim: int, row: int, column: int) -> bool {
    &&& 0 <= (2 * column + 1) * 0x1_0000_0000 - 2 * dim * c.x.raw < 2 * dim
    &&& 0 <= (2 * row + 1) * 0x1_0000_0000 - 2 * dim * c.y.raw < 2 * dim
}

/// A palm's box is the one that was read: it is ranked by its score, and two of
/// them overlap as their boxes do.
pub proof fn law_palm_boxes_are_compared(a: PalmDetection, b: PalmDetection)
    ensures
        a.confidence() == a.score,
        iou_of(a, b) == box_iou(a.center, a.size, b.center, b.size),
{
}

} // verus!
