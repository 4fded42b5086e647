//! What the two single-shot detectors share: a grid of anchors, a letterbox
//! that fits the frame into their square input, and rows of regressions that
//! are read against both.

use crate::fixed::{fx, Fx, ONE};
use crate::frame::Frame;
use crate::logistic::{logistic, sigmoid};
use crate::tracking::roi::{area, texels};
use crate::vector::Vec2;
use vstd::prelude::*;

verus! {

/// The middle of cell `c` in a row of `dim` across 0..1.
#[verifier::allow_in_spec]
pub fn cell_middle(c: u32, dim: u32) -> Fx
    requires
        dim > 0,
    returns
        fx(((2 * c + 1) * ONE) / (2 * dim)),
{
    let n: i128 = 2 * c as i128 + 1;
    let d: i128 = 2 * dim as i128;
    Fx::narrow(crate::fixed::floor_quotient(n * 0x1_0000_0000, d))
}

/// The center of anchor `i` on a grid of `dim x dim` cells that hold
/// `per_cell` anchors each. All anchors in a cell share a center; they differ
/// only in the aspect ratios the model learned to regress from.
pub open spec fn grid_center(dim: u32, per_cell: u32, i: int) -> Vec2 {
    let cell = i / (per_cell as int);
    Vec2 {
        x: cell_middle((cell % (dim as int)) as u32, dim),
        y: cell_middle((cell / (dim as int)) as u32, dim),
    }
}

/// The centers of a whole grid, row by row.
pub open spec fn grid_centers(dim: u32, per_cell: u32) -> Seq<Vec2> {
    Seq::new((dim * dim * per_cell) as nat, |i: int| grid_center(dim, per_cell, i))
}

/// Appends the centers of a grid.
pub fn push_grid(centers: &mut Vec<Vec2>, dim: u32, per_cell: u32)
    requires
        0 < dim,
        0 < per_cell,
        dim * dim * per_cell <= u32::MAX,
    ensures
        final(centers)@ == old(centers)@ + grid_centers(dim, per_cell),
{
    assert(0 <= dim * dim <= dim * dim * per_cell) by (nonlinear_arith)
        requires
            0 < dim,
            0 < per_cell,
    ;
    let cells: u32 = dim * dim;
    let total: u32 = cells * per_cell;
    let mut i: u32 = 0;
    while i < total
        invariant
            i <= total,
            0 < dim,
            0 < per_cell,
            total == dim * dim * per_cell,
            centers@ == old(centers)@ + grid_centers(dim, per_cell).take(i as int),
        decreases total - i,
    {
        let cell: u32 = i / per_cell;
        centers.push(Vec2 { x: cell_middle(cell % dim, dim), y: cell_middle(cell / dim, dim) });
        i += 1;
        assert(grid_centers(dim, per_cell).take(i as int) =~= grid_centers(dim, per_cell).take(
            i - 1,
        ).push(grid_center(dim, per_cell, i - 1)));
    }
    assert(grid_centers(dim, per_cell).take(i as int) =~= grid_centers(dim, per_cell));
}

/// Maps a point from letterboxed model space back to source-frame pixels.
#[derive(Debug, Clone, Copy, PartialEq, Eq, Structural)]
pub struct Letterbox {
    /// Source-frame size in pixels.
    pub frame: Vec2,
    /// Side of the model's square input in pixels.
    pub size: Fx,
}

impl Letterbox {
    /// Fit a `w x h` frame into a square of `size`, preserving aspect.
    #[verifier::allow_in_spec]
    pub fn fit_to(w: usize, h: usize, size: usize) -> Letterbox
        returns
            (Letterbox { frame: Vec2 { x: texels(w), y: texels(h) }, size: texels(size) }),
    {
        Letterbox { frame: Vec2 { x: texels(w), y: texels(h) }, size: texels(size) }
    }

    /// The longer side of the frame, which fills the square.
    #[verifier::allow_in_spec]
    pub fn span(&self) -> Fx
        returns
            self.frame.x.max(self.frame.y),
    {
        self.frame.x.max(self.frame.y)
    }

    /// Model pixels per source pixel.
    #[verifier::allow_in_spec]
    pub fn scale(&self) -> Fx
        returns
            self.size.over(self.span()),
    {
        self.size.over(self.span())
    }

    /// The margin on either side of the frame in the padded square, in source
    /// pixels.
    #[verifier::allow_in_spec]
    pub fn margin(&self) -> Vec2
        returns
            (Vec2 {
                x: self.span().minus(self.frame.x).over(Fx::whole(2)),
                y: self.span().minus(self.frame.y).over(Fx::whole(2)),
            }),
    {
        Vec2 {
            x: self.span().minus(self.frame.x).over(Fx::whole(2)),
            y: self.span().minus(self.frame.y).over(Fx::whole(2)),
        }
    }

    /// The margin in model pixels.
    #[verifier::allow_in_spec]
    pub fn pad(&self) -> Vec2
        returns
            self.margin().times(self.scale()),
    {
        self.margin().times(self.scale())
    }

    /// Model space (0..1 of the padded square) -> source pixels.
    #[verifier::allow_in_spec]
    pub fn to_pixels(&self, p: Vec2) -> Vec2
        returns
            p.times(self.span()).minus(self.margin()),
    {
        p.times(self.span()).minus(self.margin())
    }

    /// Lengths carry the scale but not the padding offset.
    #[verifier::allow_in_spec]
    pub fn len_to_pixels(&self, v: Vec2) -> Vec2
        returns
            v.times(self.span()),
    {
        v.times(self.span())
    }
}

/// Value `at` of a tensor, from model pixels to 0..1 of the input.
#[verifier::allow_in_spec]
pub fn scaled(raw: Fx, input: u32) -> Fx
    returns
        raw.over(Fx::count(input)),
{
    raw.over(Fx::count(input))
}

/// The point that two regressions from position `at` on give, against an
/// anchor.
pub open spec fn point_of(boxes: Seq<Fx>, at: int, input: u32, anchor: Vec2, lb: Letterbox) -> Vec2 {
    lb.to_pixels(
        Vec2 {
            x: scaled(boxes[at], input).plus(anchor.x),
            y: scaled(boxes[at + 1], input).plus(anchor.y),
        },
    )
}

/// The size that two regressions from position `at` on give.
pub open spec fn size_of_box(boxes: Seq<Fx>, at: int, input: u32, lb: Letterbox) -> Vec2 {
    lb.len_to_pixels(
        Vec2 { x: scaled(boxes[at], input), y: scaled(boxes[at + 1], input) },
    )
}

/// Reads a point from a row of regressions.
pub fn read_point(boxes: &[Fx], at: usize, input: u32, anchor: Vec2, lb: Letterbox) -> (p: Vec2)
    requires
        at + 2 <= boxes@.len(),
    ensures
        p == point_of(boxes@, at as int, input, anchor, lb),
{
    lb.to_pixels(
        Vec2 {
            x: scaled(boxes[at], input).plus(anchor.x),
            y: scaled(boxes[at + 1], input).plus(anchor.y),
        },
    )
}

/// Reads a box's size from a row of regressions.
pub fn read_size(boxes: &[Fx], at: usize, input: u32, lb: Letterbox) -> (size: Vec2)
    requires
        at + 2 <= boxes@.len(),
    ensures
        size == size_of_box(boxes@, at as int, input, lb),
{
    lb.len_to_pixels(Vec2 { x: scaled(boxes[at], input), y: scaled(boxes[at + 1], input) })
}

/// The rows among the first `n` whose raw score stands for a probability that
/// reaches the threshold.
pub open spec fn passing(scores: Seq<Fx>, threshold: Fx, n: int) -> Seq<int>
    decreases n,
{
    if n <= 0 {
        seq![]
    } else if logistic(scores[n - 1]).raw >= threshold.raw {
        passing(scores, threshold, n - 1).push(n - 1)
    } else {
        passing(scores, threshold, n - 1)
    }
}

/// The number of rows there are both an anchor and a score for.
pub open spec fn rows(anchors: nat, scores: nat) -> int {
    if anchors < scores {
        anchors as int
    } else {
        scores as int
    }
}

/// A box of `values` numbers is there for each row whose score reaches the
/// threshold.
pub open spec fn boxes_fit(
    boxes: nat,
    scores: Seq<Fx>,
    anchors: nat,
    values: int,
    threshold: Fx,
) -> bool {
    forall|i: int|
        0 <= i < rows(anchors, scores.len()) && logistic(#[trigger] scores[i]).raw >= threshold.raw
            ==> (i + 1) * values <= boxes
}

/// Whether a model's output holds a box for each row that will be decoded.
pub fn check_boxes(
    boxes: usize,
    scores: &[Fx],
    anchors: usize,
    values: usize,
    threshold: Fx,
) -> (fit: bool)
    requires
        values > 0,
    ensures
        fit == boxes_fit(boxes as nat, scores@, anchors as nat, values as int, threshold),
{
    let n: usize = if anchors < scores.len() {
        anchors
    } else {
        scores.len()
    };
    let full: usize = boxes / values;
    let mut i: usize = 0;
    while i < n
        invariant
            i <= n,
            n == rows(anchors as nat, scores@.len()),
            values > 0,
            full == boxes / values,
            forall|k: int|
                0 <= k < i && logistic(#[trigger] scores@[k]).raw >= threshold.raw ==> (k + 1)
                    * values <= boxes,
        decreases n - i,
    {
        proof {
            let (b, v, f) = (boxes as int, values as int, full as int);
            vstd::arithmetic::div_mod::lemma_fundamental_div_mod(b, v);
            vstd::arithmetic::div_mod::lemma_mod_bound(b, v);
            assert((i + 1) * v <= b <==> i < f) by (nonlinear_arith)
                requires
                    b == v * f + b % v,
                    0 <= b % v < v,
            ;
        }
        if i >= full && sigmoid(scores[i]).raw >= threshold.raw {
            assert(!((i + 1) * values <= boxes));
            return false;
        }
        i += 1;
    }
    true
}

/// Every row that is decoded reached the threshold, and none comes twice.
pub proof fn law_only_confident_rows(scores: Seq<Fx>, threshold: Fx, n: int)
    requires
        0 <= n <= scores.len(),
    ensures
        ({
            let rows = passing(scores, threshold, n);
            &&& rows.len() <= n
            &&& forall|j: int|
                0 <= j < rows.len() ==> 0 <= #[trigger] rows[j] < n && logistic(
                    scores[rows[j]],
                ).raw >= threshold.raw
            &&& forall|j: int, k: int|
                0 <= j < k < rows.len() ==> #[trigger] rows[j] < #[trigger] rows[k]
            &&& forall|i: int|
                0 <= i < n && logistic(#[trigger] scores[i]).raw >= threshold.raw ==> rows.contains(
                    i,
                )
        }),
    decreases n,
{
    if n > 0 {
        law_only_confident_rows(scores, threshold, n - 1);
        let before = passing(scores, threshold, n - 1);
        let now = passing(scores, threshold, n);
        assert forall|i: int|
            0 <= i < n && logistic(#[trigger] scores[i]).raw >= threshold.raw implies now.contains(
            i,
        ) by {
            if i < n - 1 {
                assert(before.contains(i));
                let k = choose|k: int| 0 <= k < before.len() && before[k] == i;
                assert(now[k] == i);
            } else {
                assert(now[now.len() - 1] == i);
            }
        }
    }
}

/// Where texel `k` of the padded square lies in the source frame.
#[verifier::allow_in_spec]
pub fn padded_place(lb: Letterbox, k: u32, size: u32) -> Vec2
    requires
        size > 0,
    returns
        lb.to_pixels(
            Vec2 { x: cell_middle(k % size, size), y: cell_middle(k / size, size) },
        ),
{
    lb.to_pixels(Vec2 { x: cell_middle(k % size, size), y: cell_middle(k / size, size) })
}

/// A position inside the frame.
#[verifier::allow_in_spec]
pub fn inside(frame: &Frame, p: Vec2) -> bool
    returns
        0 <= p.x.raw < frame.size().x.raw && 0 <= p.y.raw < frame.size().y.raw,
{
    let size: Vec2 = frame.size();
    p.x.raw >= 0 && p.y.raw >= 0 && p.x.raw < size.x.raw && p.y.raw < size.y.raw
}

/// Colour `c` of texel `k` of the padded square: black outside the frame.
pub open spec fn padded_color(frame: Frame, lb: Letterbox, size: u32, k: int, c: int) -> Fx {
    let p = padded_place(lb, k as u32, size);
    if inside(&frame, p) {
        frame.color_at(p, c)
    } else {
        Fx::zero()
    }
}

/// The three colours of texel `k` of the padded square.
pub fn padded_texel(frame: &Frame, lb: Letterbox, size: u32, k: u32) -> (color: [Fx; 3])
    requires
        frame.visible(),
        size > 0,
    ensures
        forall|c: int|
            0 <= c < 3 ==> #[trigger] color[c] == padded_color(*frame, lb, size, k as int, c),
{
    let p: Vec2 = padded_place(lb, k, size);
    // Outside the letterboxed area we leave black padding.
    if inside(frame, p) {
        frame.sample(p)
    } else {
        [Fx::zero(), Fx::zero(), Fx::zero()]
    }
}

/// The first value of a tensor, or a default if it is empty.
pub fn first_or(values: &[Fx], default: Fx) -> (first: Fx)
    ensures
        first == if values@.len() > 0 {
            values@[0]
        } else {
            default
        },
{
    if values.len() > 0 {
        values[0]
    } else {
        default
    }
}

/// Letterbox the frame into a square NHWC buffer.
pub fn write_letterbox(frame: &Frame, lb: Letterbox, size: u32, out: &mut Vec<Fx>)
    requires
        frame.visible(),
        size * size * 3 <= u32::MAX,
    ensures
        final(out)@.len() == size * size * 3,
        forall|k: int, c: int|
            0 <= k < size * size && 0 <= c < 3 ==> #[trigger] final(out)@[k * 3 + c]
                == padded_color(*frame, lb, size, k, c),
{
    out.clear();
    let total: u32 = area(size as usize) as u32;
    let mut k: u32 = 0;
    while k < total
        invariant
            k <= total,
            total == size * size,
            total * 3 <= u32::MAX,
            total > 0 ==> size > 0,
            frame.visible(),
            out@.len() == k * 3,
            forall|j: int, c: int|
                0 <= j < k && 0 <= c < 3 ==> #[trigger] out@[j * 3 + c] == padded_color(
                    *frame,
                    lb,
                    size,
                    j,
                    c,
                ),
        decreases total - k,
    {
        let c = padded_texel(frame, lb, size, k);
        out.push(c[0]);
        out.push(c[1]);
        out.push(c[2]);
        k += 1;
    }
}

/// `out` holds the three colours of texel `k` of the padded square in its
/// three planes of `total` texels.
pub open spec fn planar_at(
    frame: Frame,
    lb: Letterbox,
    size: u32,
    out: Seq<Fx>,
    total: int,
    k: int,
) -> bool {
    &&& out[k] == padded_color(frame, lb, size, k, 0)
    &&& out[total + k] == padded_color(frame, lb, size, k, 1)
    &&& out[2 * total + k] == padded_color(frame, lb, size, k, 2)
}

/// Letterbox the frame into a square NCHW buffer.
pub fn write_planar_letterbox(frame: &Frame, lb: Letterbox, size: u32, out: &mut Vec<Fx>)
    requires
        frame.visible(),
        size * size * 3 <= u32::MAX,
    ensures
        final(out)@.len() == size * size * 3,
        forall|k: int|
            0 <= k < size * size ==> #[trigger] planar_at(
                *frame,
                lb,
                size,
                final(out)@,
                size * size,
                k,
            ),
{
    let total: u32 = area(size as usize) as u32;
    let plane: usize = total as usize;
    *out = vec![Fx::zero(); 3 * plane];
    let mut k: u32 = 0;
    while k < total
        invariant
            k <= total,
            total == size * size,
            total * 3 <= u32::MAX,
            total > 0 ==> size > 0,
            plane == total,
            frame.visible(),
            out@.len() == 3 * plane,
            forall|j: int|
                0 <= j < k ==> #[trigger] planar_at(*frame, lb, size, out@, plane as int, j),
        decreases total - k,
    {
        let c = padded_texel(frame, lb, size, k);
        let ghost before = out@;
        let i: usize = k as usize;
        out.set(i, c[0]);
        out.set(plane + i, c[1]);
        out.set(2 * plane + i, c[2]);
        proof {
            assert forall|j: int| 0 <= j < k + 1 implies #[trigger] planar_at(
                *frame,
                lb,
                size,
                out@,
                plane as int,
                j,
            ) by {
                if j < k {
                    assert(planar_at(*frame, lb, size, before, plane as int, j));
                }
            }
        }
        k += 1;
    }
}

/// Half of a whole number of units.
proof fn lemma_half_units(n: int)
    requires
        0 <= n <= 65536,
    ensures
        fx(n * ONE).over(Fx::whole(2)).raw == n * 0x8000_0000,
{
    assert(Fx::whole(2).raw == 0x2_0000_0000);
    let raw = n * 0x1_0000_0000;
    assert((raw * 0x1_0000_0000) / 0x2_0000_0000 == n * 0x8000_0000) by (nonlinear_arith)
        requires
            raw == n * 0x1_0000_0000,
    ;
}

/// A share of the square, in the pixels of a frame whose longer side is `m`.
proof fn lemma_unpadded(lb: Letterbox, w: usize, h: usize, size: usize, p: Vec2)
    requires
        w <= 65536,
        h <= 65536,
        lb == Letterbox::fit_to(w, h, size),
        -0x1000_0000_0000 <= p.x.raw <= 0x1000_0000_0000,
        -0x1000_0000_0000 <= p.y.raw <= 0x1000_0000_0000,
    ensures
        ({
            let m = if h > w { h as int } else { w as int };
            &&& lb.to_pixels(p).x.raw == m * p.x.raw - (m - w) * 0x8000_0000
            &&& lb.to_pixels(p).y.raw == m * p.y.raw - (m - h) * 0x8000_0000
            &&& lb.len_to_pixels(p).x.raw == m * p.x.raw
            &&& lb.len_to_pixels(p).y.raw == m * p.y.raw
        }),
{
    let m = if h > w { h as int } else { w as int };
    assert(lb.span().raw == m * 0x1_0000_0000);
    lemma_half_units(m - w);
    lemma_half_units(m - h);
    assert(lb.span().minus(lb.frame.x) == fx((m - w) * ONE));
    assert(lb.span().minus(lb.frame.y) == fx((m - h) * ONE));
    lemma_whole_times(p.x, lb.span(), m);
    lemma_whole_times(p.y, lb.span(), m);
}

proof fn lemma_whole_times(a: Fx, span: Fx, m: int)
    requires
        0 <= m <= 65536,
        span.raw == m * 0x1_0000_0000,
        -0x1000_0000_0000 <= a.raw <= 0x1000_0000_0000,
    ensures
        a.times(span).raw == m * a.raw,
        -0x1000_0000_0000_0000 <= m * a.raw <= 0x1000_0000_0000_0000,
{
    let x = a.raw as int;
    let s = span.raw as int;
    assert((x * s) / 0x1_0000_0000 == m * x) by (nonlinear_arith)
        requires
            s == m * 0x1_0000_0000,
    ;
    assert(-0x1000_0000_0000_0000 <= m * x <= 0x1000_0000_0000_0000) by (nonlinear_arith)
        requires
            0 <= m <= 65536,
            -0x1000_0000_0000 <= x <= 0x1000_0000_0000,
    ;
}

proof fn lemma_input_share(raw: Fx, input: u32)
    requires
        0 < input <= 4096,
    ensures
        scaled(raw, input).raw == raw.raw as int / input as int,
{
    let (x, n) = (raw.raw as int, input as int);
    let d = n * 0x1_0000_0000;
    assert(Fx::count(input).raw == d);
    vstd::arithmetic::div_mod::lemma_fundamental_div_mod(x, n);
    vstd::arithmetic::div_mod::lemma_mod_bound(x, n);
    let r = x % n;
    assert(x * 0x1_0000_0000 == (x / n) * d + r * 0x1_0000_0000) by (nonlinear_arith)
        requires
            x == n * (x / n) + r,
            d == n * 0x1_0000_0000,
    ;
    vstd::arithmetic::div_mod::lemma_fundamental_div_mod_converse(
        x * 0x1_0000_0000,
        d,
        x / n,
        r * 0x1_0000_0000,
    );
    let q = x / n;
    assert(-0x8000_0000_0000_0000 <= q <= 0x7fff_ffff_ffff_ffff) by (nonlinear_arith)
        requires
            n * q <= x < n * q + n,
            -0x8000_0000_0000_0000 <= x <= 0x7fff_ffff_ffff_ffff,
            n > 0,
    ;
}

/// A point is read in model pixels from its anchor, across the padded square,
/// in a frame whose longer side `m` fills the square and whose shorter one is
/// padded by half the difference on either side: exactly, but that what is read
/// is rounded down to a step.
pub proof fn law_point_is_read_from_its_anchor(
    boxes: Seq<Fx>,
    at: int,
    input: u32,
    anchor: Vec2,
    w: usize,
    h: usize,
    size: usize,
)
    requires
        0 < input <= 4096,
        w <= 65536,
        h <= 65536,
        0 <= anchor.x.raw <= ONE,
        0 <= anchor.y.raw <= ONE,
        -0x800_0000_0000 <= boxes[at].raw <= 0x800_0000_0000,
        -0x800_0000_0000 <= boxes[at + 1].raw <= 0x800_0000_0000,
    ensures
        ({
            let m = if h > w { h as int } else { w as int };
            let p = point_of(boxes, at, input, anchor, Letterbox::fit_to(w, h, size));
            &&& p.x.raw == m * (boxes[at].raw as int / input as int + anchor.x.raw) - (m - w)
                * 0x8000_0000
            &&& p.y.raw == m * (boxes[at + 1].raw as int / input as int + anchor.y.raw) - (m - h)
                * 0x8000_0000
        }),
{
    lemma_input_share(boxes[at], input);
    lemma_input_share(boxes[at + 1], input);
    lemma_small_share(boxes[at].raw as int, input as int);
    lemma_small_share(boxes[at + 1].raw as int, input as int);
    let p = Vec2 {
        x: scaled(boxes[at], input).plus(anchor.x),
        y: scaled(boxes[at + 1], input).plus(anchor.y),
    };
    lemma_unpadded(Letterbox::fit_to(w, h, size), w, h, size, p);
}

proof fn lemma_small_share(x: int, n: int)
    requires
        -0x800_0000_0000 <= x <= 0x800_0000_0000,
        n > 0,
    ensures
        -0x800_0000_0000 <= x / n <= 0x800_0000_0000,
{
    vstd::arithmetic::div_mod::lemma_fundamental_div_mod(x, n);
    vstd::arithmetic::div_mod::lemma_mod_bound(x, n);
    let q = x / n;
    assert(-0x800_0000_0000 <= q <= 0x800_0000_0000) by (nonlinear_arith)
        requires
            n * q <= x < n * q + n,
            -0x800_0000_0000 <= x <= 0x800_0000_0000,
            n > 0,
    ;
}

/// A size is read in model pixels too, and the padding does not move it.
pub proof fn law_size_is_read_without_padding(
    boxes: Seq<Fx>,
    at: int,
    input: u32,
    w: usize,
    h: usize,
    size: usize,
)
    requires
        0 < input <= 4096,
        w <= 65536,
        h <= 65536,
        -0x800_0000_0000 <= boxes[at].raw <= 0x800_0000_0000,
        -0x800_0000_0000 <= boxes[at + 1].raw <= 0x800_0000_0000,
    ensures
        ({
            let m = if h > w { h as int } else { w as int };
            let v = size_of_box(boxes, at, input, Letterbox::fit_to(w, h, size));
            &&& v.x.raw == m * (boxes[at].raw as int / input as int)
            &&& v.y.raw == m * (boxes[at + 1].raw as int / input as int)
        }),
{
    lemma_input_share(boxes[at], input);
    lemma_input_share(boxes[at + 1], input);
    lemma_small_share(boxes[at].raw as int, input as int);
    lemma_small_share(boxes[at + 1].raw as int, input as int);
    let v = Vec2 { x: scaled(boxes[at], input), y: scaled(boxes[at + 1], input) };
    lemma_unpadded(Letterbox::fit_to(w, h, size), w, h, size, v);
}

/// Anchors stand in the middle of their cells, row by row, all anchors of a
/// cell together.
pub proof fn law_anchor_stands_in_its_cell(dim: u32, per_cell: u32, row: int, column: int, k: int)
    requires
        0 < dim <= 256,
        0 < per_cell <= 256,
        0 <= row < dim,
        0 <= column < dim,
        0 <= k < per_cell,
    ensures
        ({
            let i = (row * dim + column) * per_cell + k;
            let c = grid_centers(dim, per_cell)[i];
            &&& 0 <= i < grid_centers(dim, per_cell).len()
            &&& 0 <= (2 * column + 1) * 0x1_0000_0000 - 2 * dim * c.x.raw < 2 * dim
            &&& 0 <= (2 * row + 1) * 0x1_0000_0000 - 2 * dim * c.y.raw < 2 * dim
        }),
{
    let (d, n) = (dim as int, per_cell as int);
    let cell = row * d + column;
    let i = cell * n + k;
    assert(0 <= cell < d * d) by (nonlinear_arith)
        requires
            cell == row * d + column,
            0 <= row < d,
            0 <= column < d,
    ;
    assert(0 <= i < d * d * n) by (nonlinear_arith)
        requires
            i == cell * n + k,
            0 <= cell < d * d,
            0 <= k < n,
    ;
    vstd::arithmetic::div_mod::lemma_fundamental_div_mod_converse(i, n, cell, k);
    vstd::arithmetic::div_mod::lemma_fundamental_div_mod_converse(cell, d, row, column);
    lemma_cell_middle(column as u32, dim);
    lemma_cell_middle(row as u32, dim);
}

proof fn lemma_cell_middle(c: u32, dim: u32)
    requires
        c < dim <= 65536,
    ensures
        0 <= (2 * c + 1) * 0x1_0000_0000 - 2 * dim * cell_middle(c, dim).raw < 2 * dim,
        0 <= cell_middle(c, dim).raw <= ONE,
{
    let (n, d) = ((2 * c + 1) * 0x1_0000_0000, 2 * dim as int);
    let q = n / d;
    vstd::arithmetic::div_mod::lemma_fundamental_div_mod(n, d);
    vstd::arithmetic::div_mod::lemma_mod_bound(n, d);
    assert(0 <= q <= 0x1_0000_0000) by (nonlinear_arith)
        requires
            d * q <= n < d * q + d,
            0 <= n <= 0x1_0000_0000 * d,
            d > 0,
    ;
}

/// Texel `k` of the padded square shows the place that lies at the same share
/// of the square as its own middle: the colour there, or black past the frame.
pub proof fn law_padded_square_shows_the_frame(frame: Frame, size: u32, k: int, c: int)
    requires
        0 < frame.width <= 65536,
        0 < frame.height <= 65536,
        0 < size <= 4096,
        0 <= k < size * size,
    ensures
        ({
            let (w, h) = (frame.width as int, frame.height as int);
            let m = if h > w { h } else { w };
            let lb = Letterbox::fit_to(frame.width as usize, frame.height as usize, size as usize);
            let p = padded_place(lb, k as u32, size);
            let (x, y) = (k % size as int, k / size as int);
            let square = 2 * (size * m);
            &&& 0 <= (2 * x + 1) * (m * 0x1_0000_0000) - size * ((m - w) * 0x1_0000_0000) - 2 * (size
                * p.x.raw) <= square
            &&& 0 <= (2 * y + 1) * (m * 0x1_0000_0000) - size * ((m - h) * 0x1_0000_0000) - 2 * (size
                * p.y.raw) <= square
            &&& padded_color(frame, lb, size, k, c) == if 0 <= p.x.raw < w * 0x1_0000_0000 && 0
                <= p.y.raw < h * 0x1_0000_0000 {
                frame.color_at(p, c)
            } else {
                Fx::zero()
            }
        }),
{
    let (w, h) = (frame.width as int, frame.height as int);
    let m = if h > w { h } else { w };
    let s = size as int;
    let (x, y) = (k % s, k / s);
    assert(s * s <= 4096 * 4096) by (nonlinear_arith)
        requires
            0 < s <= 4096,
    ;
    vstd::arithmetic::div_mod::lemma_fundamental_div_mod(k, s);
    vstd::arithmetic::div_mod::lemma_mod_bound(k, s);
    assert(0 <= y < s) by (nonlinear_arith)
        requires
            k == s * y + x,
            0 <= x < s,
            0 <= k < s * s,
    ;
    lemma_cell_middle(x as u32, size);
    lemma_cell_middle(y as u32, size);
    let (a, b) = (cell_middle(x as u32, size), cell_middle(y as u32, size));
    let lb = Letterbox::fit_to(frame.width as usize, frame.height as usize, size as usize);
    lemma_unpadded(
        lb,
        frame.width as usize,
        frame.height as usize,
        size as usize,
        Vec2 { x: a, y: b },
    );
    let p = padded_place(lb, k as u32, size);
    lemma_padded(x, s, m, w, a.raw as int, p.x.raw as int);
    lemma_padded(y, s, m, h, b.raw as int, p.y.raw as int);
}

proof fn lemma_padded(x: int, s: int, m: int, w: int, a: int, p: int)
    requires
        s > 0,
        m >= 0,
        0 <= (2 * x + 1) * 0x1_0000_0000 - 2 * s * a < 2 * s,
        p == m * a - (m - w) * 0x8000_0000,
    ensures
        0 <= (2 * x + 1) * (m * 0x1_0000_0000) - s * ((m - w) * 0x1_0000_0000) - 2 * (s * p) <= 2 * (s
            * m),
{
    let e = (2 * x + 1) * 0x1_0000_0000 - 2 * s * a;
    assert((2 * x + 1) * (m * 0x1_0000_0000) == m * e + 2 * (s * (m * a))) by (nonlinear_arith)
        requires
            e == (2 * x + 1) * 0x1_0000_0000 - 2 * s * a,
    ;
    assert(2 * (s * p) == 2 * (s * (m * a)) - s * ((m - w) * 0x1_0000_0000)) by (nonlinear_arith)
        requires
            p == m * a - (m - w) * 0x8000_0000,
    ;
    assert(0 <= m * e <= 2 * (s * m)) by (nonlinear_arith)
        requires
            0 <= e < 2 * s,
            m >= 0,
    ;
}

/// As many rows are read as there are anchors and scores for.
pub proof fn law_rows_need_both(anchors: nat, scores: nat)
    ensures
        rows(anchors, scores) <= anchors,
        rows(anchors, scores) <= scores,
        rows(anchors, scores) == anchors || rows(anchors, scores) == scores,
{
}

/// A planar square holds its colours in three planes, red then green then blue.
pub proof fn law_padded_planes_hold_colours(
    frame: Frame,
    lb: Letterbox,
    size: u32,
    out: Seq<Fx>,
    total: int,
    k: int,
    c: int,
)
    requires
        0 <= c < 3,
        planar_at(frame, lb, size, out, total, k),
    ensures
        out[c * total + k] == padded_color(frame, lb, size, k, c),
{
    assert(0 * total == 0 && 1 * total == total && 2 * total == total + total);
    assert(c == 0 || c == 1 || c == 2);
}

/// A tensor of boxes suffices as soon as it reaches the last row that is sure
/// enough, however short of the others it is; a row that is sure enough and
/// missing is one too many.
pub proof fn law_boxes_reach_the_last_sure_row(
    boxes: nat,
    scores: Seq<Fx>,
    anchors: nat,
    values: int,
    threshold: Fx,
    n: int,
)
    requires
        values > 0,
        0 <= n,
        forall|i: int|
            n <= i < scores.len() && i < anchors ==> logistic(#[trigger] scores[i]).raw
                < threshold.raw,
    ensures
        n * values <= boxes ==> boxes_fit(boxes, scores, anchors, values, threshold),
        0 < n <= scores.len() && n <= anchors && logistic(scores[n - 1]).raw >= threshold.raw && n
            * values > boxes ==> !boxes_fit(boxes, scores, anchors, values, threshold),
{
    if n * values <= boxes {
        assert forall|i: int|
            0 <= i < rows(anchors, scores.len()) && logistic(#[trigger] scores[i]).raw
                >= threshold.raw implies (i + 1) * values <= boxes by {
            assert(i < n);
            assert((i + 1) * values <= n * values) by (nonlinear_arith)
                requires
                    i + 1 <= n,
                    values > 0,
            ;
        }
    }
    if 0 < n <= scores.len() && n <= anchors && logistic(scores[n - 1]).raw >= threshold.raw && n
        * values > boxes {
        assert((n - 1 + 1) * values == n * values);
        assert(0 <= n - 1 < rows(anchors, scores.len()));
    }
}

} // verus!
