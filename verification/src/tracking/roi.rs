//! Rotated region-of-interest: the bridge between the two models.
//!
//! The palm detector says roughly where a hand is; the landmark model wants a
//! tight, upright, square crop of it. Rather than materializing a rotated
//! image, we build one rotated rect and sample it directly, which is both
//! cheaper and exactly invertible when mapping landmarks back.

use crate::fixed::{fx, root, Fx, ONE};
use crate::frame::Frame;
use crate::vector::{norm2, Vec2};
use vstd::prelude::*;

verus! {

/// A rotation, as the cosine and the sine of its angle. The angle grows from
/// +x towards +y, which is clockwise on screen.
#[derive(Debug, Clone, Copy, PartialEq, Eq, Structural)]
pub struct Heading {
    pub cos: Fx,
    pub sin: Fx,
}

impl Heading {
    /// No rotation.
    #[verifier::allow_in_spec]
    pub fn level() -> Heading
        returns
            (Heading { cos: Fx { raw: ONE }, sin: Fx { raw: 0 } }),
    {
        Heading { cos: Fx { raw: ONE }, sin: Fx { raw: 0 } }
    }

    /// The rotation that takes +x to the direction of `d`; none if `d` has no
    /// direction.
    #[verifier::allow_in_spec]
    pub fn along(d: Vec2) -> Heading
        returns
            (if d == Vec2::zero() {
                Heading::level()
            } else {
                Heading { cos: d.x.over(d.length()), sin: d.y.over(d.length()) }
            }),
    {
        if d == Vec2::zero() {
            Heading::level()
        } else {
            let n: Fx = d.length();
            Heading { cos: d.x.over(n), sin: d.y.over(n) }
        }
    }

    /// The rotation that takes "up" on screen to the direction of `d`; a
    /// quarter turn if `d` has no direction.
    #[verifier::allow_in_spec]
    pub fn upright(d: Vec2) -> Heading
        returns
            (if d == Vec2::zero() {
                Heading { cos: Fx { raw: 0 }, sin: Fx { raw: ONE } }
            } else {
                Heading { cos: d.y.negated().over(d.length()), sin: d.x.over(d.length()) }
            }),
    {
        if d == Vec2::zero() {
            Heading { cos: Fx { raw: 0 }, sin: Fx { raw: ONE } }
        } else {
            let n: Fx = d.length();
            Heading { cos: d.y.negated().over(n), sin: d.x.over(n) }
        }
    }

    /// The rotation by the same angle the other way.
    #[verifier::allow_in_spec]
    pub fn reversed(self) -> Heading
        returns
            (Heading { cos: self.cos, sin: self.sin.negated() }),
    {
        Heading { cos: self.cos, sin: self.sin.negated() }
    }

    /// Local axes expressed in image space. The first is local +x, the second
    /// local +y (downward, since image space grows downward).
    #[verifier::allow_in_spec]
    pub fn axes(self) -> (Vec2, Vec2)
        returns
            (
                Vec2 { x: self.cos, y: self.sin },
                Vec2 { x: self.sin.negated(), y: self.cos },
            ),
    {
        (Vec2 { x: self.cos, y: self.sin }, Vec2 { x: self.sin.negated(), y: self.cos })
    }
}

/// A square, rotated crop window in source-frame pixel coordinates.
#[derive(Debug, Clone, Copy, PartialEq, Eq, Structural)]
pub struct Roi {
    pub center: Vec2,
    /// Side length in pixels (always square; the models take square input).
    pub side: Fx,
    /// Level means the hand already points "up".
    pub angle: Heading,
}

/// The smallest coordinate of the points along an axis.
pub open spec fn least(points: Seq<Vec2>, axis: Vec2) -> Fx
    decreases points.len(),
{
    if points.len() <= 1 {
        points[0].dot(axis)
    } else {
        least(points.drop_last(), axis).min(points.last().dot(axis))
    }
}

/// The largest coordinate of the points along an axis.
pub open spec fn most(points: Seq<Vec2>, axis: Vec2) -> Fx
    decreases points.len(),
{
    if points.len() <= 1 {
        points[0].dot(axis)
    } else {
        most(points.drop_last(), axis).max(points.last().dot(axis))
    }
}

/// The extent of the points along an axis.
pub open spec fn breadth(points: Seq<Vec2>, axis: Vec2) -> Fx {
    most(points, axis).minus(least(points, axis))
}

/// The middle of the points along an axis, displaced by a share of their
/// extent.
pub open spec fn center_along(points: Seq<Vec2>, axis: Vec2, shift: Fx) -> Fx {
    least(points, axis).plus(most(points, axis)).over(Fx::whole(2)).plus(
        shift.times(breadth(points, axis)),
    )
}

/// The window that encloses `points` in a frame rotated by `angle`.
pub open spec fn enclosure(points: Seq<Vec2>, angle: Heading, enlarge: Fx, shift: Vec2) -> Roi {
    let (u, v) = angle.axes();
    Roi {
        center: u.times(center_along(points, u, shift.x)).plus(
            v.times(center_along(points, v, shift.y)),
        ),
        side: breadth(points, u).max(breadth(points, v)).times(enlarge),
        angle,
    }
}

/// The place of texel `i` from the middle of a row of `n`, in texels.
#[verifier::allow_in_spec]
pub fn from_middle(i: usize, n: usize) -> Fx
    returns
        fx((2 * i + 1 - n) * 0x8000_0000),
{
    let twice: i128 = 2 * i as i128 + 1 - n as i128;
    Fx::narrow(twice * 0x8000_0000)
}

/// A whole number of texels.
#[verifier::allow_in_spec]
pub fn texels(n: usize) -> Fx
    returns
        fx(n * ONE),
{
    Fx::narrow(n as i128 * 0x1_0000_0000)
}

impl Roi {
    /// Local axes expressed in image space. `u` is local +x, `v` is local +y
    /// (downward, since image space grows downward).
    #[verifier::allow_in_spec]
    pub fn axes(&self) -> (Vec2, Vec2)
        returns
            self.angle.axes(),
    {
        self.angle.axes()
    }

    /// Build the ROI that encloses `points`, measured in a frame rotated by
    /// `angle`.
    ///
    /// `shift` displaces the center along the local axes in units of the
    /// bounding box size; `enlarge` scales the final square.
    pub fn enclosing(points: &[Vec2], angle: Heading, enlarge: Fx, shift: Vec2) -> (roi: Roi)
        requires
            points@.len() > 0,
        ensures
            roi == enclosure(points@, angle, enlarge, shift),
    {
        let (u, v) = angle.axes();
        let mut u0: Fx = points[0].dot(u);
        let mut u1: Fx = u0;
        let mut v0: Fx = points[0].dot(v);
        let mut v1: Fx = v0;
        let mut i: usize = 1;
        while i < points.len()
            invariant
                1 <= i <= points@.len(),
                u0 == least(points@.take(i as int), u),
                u1 == most(points@.take(i as int), u),
                v0 == least(points@.take(i as int), v),
                v1 == most(points@.take(i as int), v),
            decreases points@.len() - i,
        {
            assert(points@.take(i + 1).drop_last() =~= points@.take(i as int));
            let (pu, pv) = (points[i].dot(u), points[i].dot(v));
            u0 = u0.min(pu);
            u1 = u1.max(pu);
            v0 = v0.min(pv);
            v1 = v1.max(pv);
            i += 1;
        }
        assert(points@.take(i as int) =~= points@);

        let (w, h) = (u1.minus(u0), v1.minus(v0));
        let cu: Fx = u0.plus(u1).over(Fx::whole(2)).plus(shift.x.times(w));
        let cv: Fx = v0.plus(v1).over(Fx::whole(2)).plus(shift.y.times(h));

        Roi {
            // Convert the aligned-space center back into image space.
            center: u.times(cu).plus(v.times(cv)),
            side: w.max(h).times(enlarge),
            angle,
        }
    }

    /// Map an offset in crop pixels (relative to crop center) into an image
    /// offset. Used to place landmarks the model reports in its own space.
    #[verifier::allow_in_spec]
    pub fn crop_offset_to_image(&self, offset: Vec2, crop_px: Fx) -> Vec2
        returns
            self.axes().0.times(offset.times(self.side.over(crop_px)).x).plus(
                self.axes().1.times(offset.times(self.side.over(crop_px)).y),
            ),
    {
        let (u, v) = self.axes();
        let scaled: Vec2 = offset.times(self.side.over(crop_px));
        u.times(scaled.x).plus(v.times(scaled.y))
    }

    /// Where an offset from the crop's middle, in crop pixels, lies in the
    /// image.
    #[verifier::allow_in_spec]
    pub fn place(&self, offset: Vec2, crop_px: Fx) -> Vec2
        returns
            self.center.plus(self.crop_offset_to_image(offset, crop_px)),
    {
        self.center.plus(self.crop_offset_to_image(offset, crop_px))
    }

    /// Where the middle of texel (x, y) of a `size x size` crop lies in the
    /// image.
    #[verifier::allow_in_spec]
    pub fn texel(&self, x: usize, y: usize, size: usize) -> Vec2
        returns
            self.place(
                Vec2 { x: from_middle(x, size), y: from_middle(y, size) },
                texels(size),
            ),
    {
        self.place(Vec2 { x: from_middle(x, size), y: from_middle(y, size) }, texels(size))
    }

    /// Colour `c` of texel (x, y) of a `size x size` crop.
    pub open spec fn color(&self, frame: Frame, size: usize, x: int, y: int, c: int) -> Fx {
        frame.color_at(self.texel(x as usize, y as usize, size), c)
    }

    /// Sample this ROI into a `size x size` NHWC RGB tensor in 0..1.
    pub fn sample_into(&self, frame: &Frame, size: usize, out: &mut Vec<Fx>)
        requires
            frame.visible(),
            size * size * 3 <= usize::MAX,
        ensures
            final(out)@.len() == size * size * 3,
            forall|k: int, c: int|
                0 <= k < size * size && 0 <= c < 3 ==> #[trigger] final(out)@[k * 3 + c]
                    == self.color(*frame, size, k % (size as int), k / (size as int), c),
    {
        out.clear();
        let total: usize = area(size);
        let mut k: usize = 0;
        while k < total
            invariant
                k <= total,
                total == size * size,
                total * 3 <= usize::MAX,
                total > 0 ==> size > 0,
                frame.visible(),
                out@.len() == k * 3,
                forall|j: int, c: int|
                    0 <= j < k && 0 <= c < 3 ==> #[trigger] out@[j * 3 + c] == self.color(
                        *frame,
                        size,
                        j % (size as int),
                        j / (size as int),
                        c,
                    ),
            decreases total - k,
        {
            let c = frame.sample(self.texel(k % size, k / size, size));
            out.push(c[0]);
            out.push(c[1]);
            out.push(c[2]);
            k += 1;
        }
    }

    /// `out` holds the three colours of texel `k` in its three planes of
    /// `total` texels.
    pub open spec fn planar_at(
        &self,
        frame: Frame,
        size: usize,
        out: Seq<Fx>,
        total: int,
        k: int,
    ) -> bool {
        let (x, y) = (k % (size as int), k / (size as int));
        &&& out[k] == self.color(frame, size, x, y, 0)
        &&& out[total + k] == self.color(frame, size, x, y, 1)
        &&& out[2 * total + k] == self.color(frame, size, x, y, 2)
    }

    /// Sample this ROI into a `size x size` NCHW RGB tensor in 0..1: all of
    /// the red, then all of the green, then all of the blue.
    pub fn sample_into_planar(&self, frame: &Frame, size: usize, out: &mut Vec<Fx>)
        requires
            frame.visible(),
            size * size * 3 <= usize::MAX,
        ensures
            final(out)@.len() == size * size * 3,
            forall|k: int|
                0 <= k < size * size ==> #[trigger] self.planar_at(
                    *frame,
                    size,
                    final(out)@,
                    size * size,
                    k,
                ),
    {
        let total: usize = area(size);
        *out = vec![Fx::zero(); 3 * total];
        let mut k: usize = 0;
        while k < total
            invariant
                k <= total,
                total == size * size,
                total * 3 <= usize::MAX,
                total > 0 ==> size > 0,
                frame.visible(),
                out@.len() == 3 * total,
                forall|j: int|
                    0 <= j < k ==> #[trigger] self.planar_at(*frame, size, out@, total as int, j),
            decreases total - k,
        {
            let c = frame.sample(self.texel(k % size, k / size, size));
            let ghost before = out@;
            out.set(k, c[0]);
            out.set(total + k, c[1]);
            out.set(2 * total + k, c[2]);
            proof {
                assert forall|j: int| 0 <= j < k + 1 implies #[trigger] self.planar_at(
                    *frame,
                    size,
                    out@,
                    total as int,
                    j,
                ) by {
                    if j < k {
                        assert(self.planar_at(*frame, size, before, total as int, j));
                    }
                }
            }
            k += 1;
        }
    }
}

/// The number of texels in a square crop.
pub(crate) fn area(size: usize) -> (n: usize)
    requires
        size * size * 3 <= usize::MAX,
    ensures
        n == size * size,
        n > 0 ==> size > 0,
{
    assert(size * size >= 0 && (size == 0 ==> size * size == 0)) by (nonlinear_arith);
    size * size
}

/// The points along an axis lie between the ends that were found, and each end
/// is one of them.
pub proof fn law_ends_enclose_points(points: Seq<Vec2>, axis: Vec2)
    requires
        points.len() > 0,
    ensures
        forall|i: int|
            0 <= i < points.len() ==> least(points, axis).raw <= (#[trigger] points[i]).dot(axis).raw
                <= most(points, axis).raw,
        exists|i: int| 0 <= i < points.len() && (#[trigger] points[i]).dot(axis) == least(points, axis),
        exists|i: int| 0 <= i < points.len() && (#[trigger] points[i]).dot(axis) == most(points, axis),
    decreases points.len(),
{
    if points.len() == 1 {
        assert(points[0].dot(axis) == least(points, axis));
    } else {
        let start = points.drop_last();
        law_ends_enclose_points(start, axis);
        let n = points.len() - 1;
        assert forall|i: int| 0 <= i < points.len() implies least(points, axis).raw <= (
        #[trigger] points[i]).dot(axis).raw <= most(points, axis).raw by {
            if i < n {
                assert(start[i] == points[i]);
            }
        }
        let lo = choose|i: int|
            0 <= i < start.len() && (#[trigger] start[i]).dot(axis) == least(start, axis);
        let hi = choose|i: int|
            0 <= i < start.len() && (#[trigger] start[i]).dot(axis) == most(start, axis);
        assert(points[lo].dot(axis) == least(start, axis));
        assert(points[hi].dot(axis) == most(start, axis));
        assert(points[n].dot(axis) == points.last().dot(axis));
    }
}

/// Without rotation the axes are those of the image.
pub proof fn law_level_axes()
    ensures
        Heading::level().axes() == (
            Vec2 { x: Fx::one(), y: Fx::zero() },
            Vec2 { x: Fx::zero(), y: Fx::one() },
        ),
{
}

/// A hand that points up needs no rotation.
pub proof fn law_upward_is_level(d: Vec2)
    requires
        d.x.raw == 0,
        i64::MIN < d.y.raw < 0,
    ensures
        Heading::upright(d) == Heading::level(),
{
    let y = d.y.raw as int;
    assert(norm2(d) == y * y);
    crate::fixed::lemma_root_of_square(-y);
    assert((-y) * (-y) == y * y) by (nonlinear_arith);
    vstd::arithmetic::div_mod::lemma_div_by_multiple(ONE as int, -y);
    vstd::arithmetic::mul::lemma_mul_is_commutative(ONE as int, -y);
    vstd::arithmetic::div_mod::lemma_div_basics(-y);
}

/// A hand that points right is a quarter turn from up.
pub proof fn law_rightward_is_quarter_turn(d: Vec2)
    requires
        d.x.raw > 0,
        d.y.raw == 0,
    ensures
        Heading::upright(d) == (Heading { cos: Fx::zero(), sin: Fx::one() }),
{
    let x = d.x.raw as int;
    assert(norm2(d) == x * x);
    crate::fixed::lemma_root_of_square(x);
    vstd::arithmetic::div_mod::lemma_div_by_multiple(ONE as int, x);
    vstd::arithmetic::mul::lemma_mul_is_commutative(ONE as int, x);
    vstd::arithmetic::div_mod::lemma_div_basics(x);
}

/// Cosine and sine of any heading run from -1 to 1.
pub proof fn law_heading_is_bounded(d: Vec2)
    requires
        d.x.raw > i64::MIN,
        d.y.raw > i64::MIN,
        norm2(d) <= 0x3fff_ffff_ffff_ffff_ffff_ffff_ffff_ffff,
    ensures
        -ONE <= Heading::along(d).cos.raw <= ONE,
        -ONE <= Heading::along(d).sin.raw <= ONE,
        -ONE <= Heading::upright(d).cos.raw <= ONE,
        -ONE <= Heading::upright(d).sin.raw <= ONE,
{
    if d != Vec2::zero() {
        crate::vector::lemma_square_bound(d.x.raw);
        crate::vector::lemma_square_bound(d.y.raw);
        assert((-d.y.raw) * (-d.y.raw) == d.y.raw * d.y.raw) by (nonlinear_arith);
        lemma_no_longer(d.x.raw as int, norm2(d), d.y.raw as int);
        lemma_no_longer(d.y.raw as int, norm2(d), d.x.raw as int);
        lemma_no_longer(-d.y.raw, norm2(d), d.x.raw as int);
    }
}

/// A side is no longer than the diagonal.
proof fn lemma_no_longer(a: int, n: int, b: int)
    requires
        n == a * a + b * b || n == b * b + a * a,
        0 <= n <= 0x3fff_ffff_ffff_ffff_ffff_ffff_ffff_ffff,
        n > 0 || a != 0 || b != 0,
    ensures
        0 < root(n) <= i64::MAX,
        -ONE <= (a * ONE) / root(n) <= ONE,
{
    crate::fixed::lemma_root(n);
    let r = root(n);
    assert(n > 0) by (nonlinear_arith)
        requires
            n == a * a + b * b,
            n > 0 || a != 0 || b != 0,
    ;
    assert(b * b >= 0) by (nonlinear_arith);
    let m = if a < 0 { -a } else { a };
    assert(m * m == a * a) by (nonlinear_arith)
        requires
            m == a || m == -a,
    ;
    if r < m {
        assert((r + 1) * (r + 1) <= m * m) by (nonlinear_arith)
            requires
                0 <= r < m,
        ;
    }
    if r == 0 {
        assert((r + 1) * (r + 1) == 1) by (nonlinear_arith)
            requires
                r == 0,
        ;
    }
    if r > i64::MAX {
        assert(r * r >= 0x4000_0000_0000_0000_0000_0000_0000_0000) by (nonlinear_arith)
            requires
                r >= 0x8000_0000_0000_0000,
        ;
    }
    vstd::arithmetic::div_mod::lemma_div_is_ordered(a * ONE, r * ONE, r);
    vstd::arithmetic::div_mod::lemma_div_by_multiple(ONE as int, r);
    assert(a * ONE >= -(r * ONE));
    assert((-ONE) * r == -(r * ONE)) by (nonlinear_arith);
    vstd::arithmetic::div_mod::lemma_div_is_ordered((-ONE) * r, a * ONE, r);
    assert(((-ONE) * r) / r == -ONE) by {
        vstd::arithmetic::div_mod::lemma_fundamental_div_mod_converse(
            (-ONE) * r,
            r,
            -ONE as int,
            0,
        );
    }
    vstd::arithmetic::mul::lemma_mul_is_commutative(ONE as int, r);
}

/// Cosine and sine belong to one angle: their squares add up to one, to within a
/// few steps.
pub open spec fn is_unit(h: Heading) -> bool {
    &&& -ONE <= h.cos.raw <= ONE
    &&& -ONE <= h.sin.raw <= ONE
    &&& -8 * ONE <= h.cos.raw * h.cos.raw + h.sin.raw * h.sin.raw - ONE * ONE <= 8 * ONE
}

/// The heading of any offset that is a pixel long or longer is an angle's, up to
/// rounding.
pub proof fn law_heading_is_unit(d: Vec2)
    requires
        -0x2000_0000_0000_0000 <= d.x.raw <= 0x2000_0000_0000_0000,
        -0x2000_0000_0000_0000 <= d.y.raw <= 0x2000_0000_0000_0000,
        d.length().raw >= ONE,
    ensures
        is_unit(Heading::along(d)),
        is_unit(Heading::upright(d)),
{
    let (x, y) = (d.x.raw as int, d.y.raw as int);
    assert(norm2(d) <= 0x3fff_ffff_ffff_ffff_ffff_ffff_ffff_ffff) by {
        assert(x * x <= 0x0400_0000_0000_0000_0000_0000_0000_0000 && y * y
            <= 0x0400_0000_0000_0000_0000_0000_0000_0000) by (nonlinear_arith)
            requires
                -0x2000_0000_0000_0000 <= x <= 0x2000_0000_0000_0000,
                -0x2000_0000_0000_0000 <= y <= 0x2000_0000_0000_0000,
        ;
    }
    law_heading_is_bounded(d);
    crate::vector::lemma_square_bound(d.x.raw);
    crate::vector::lemma_square_bound(d.y.raw);
    crate::fixed::lemma_root(norm2(d));
    let n = root(norm2(d));
    assert(0 < n <= i64::MAX) by {
        if n == 0 {
            assert(d.length().raw == 0);
        }
        lemma_no_longer(x, norm2(d), y);
    }
    assert((-y) * (-y) == y * y) by (nonlinear_arith);
    lemma_no_longer(y, norm2(d), x);
    lemma_no_longer(-y, norm2(d), x);
    lemma_unit(x, y, n);
    lemma_unit(-y, x, n);
    let (h, k) = (Heading::along(d), Heading::upright(d));
    assert(d != Vec2::zero() && d.length().raw == n);
    assert(h.cos.raw == (x * ONE) / n && h.sin.raw == (y * ONE) / n);
    assert(k.cos.raw == ((-y) * ONE) / n && k.sin.raw == (x * ONE) / n);
}

/// An offset over its length has length one, but for rounding.
proof fn lemma_unit(x: int, y: int, n: int)
    requires
        n * n <= x * x + y * y < (n + 1) * (n + 1),
        n >= ONE,
    ensures
        ({
            let (c, s) = ((x * ONE) / n, (y * ONE) / n);
            -8 * ONE <= c * c + s * s - ONE * ONE <= 8 * ONE
        }),
{
    let one = ONE as int;
    vstd::arithmetic::div_mod::lemma_fundamental_div_mod(x * one, n);
    vstd::arithmetic::div_mod::lemma_fundamental_div_mod(y * one, n);
    vstd::arithmetic::div_mod::lemma_mod_bound(x * one, n);
    vstd::arithmetic::div_mod::lemma_mod_bound(y * one, n);
    let (c, s) = ((x * one) / n, (y * one) / n);
    let (a, b) = ((x * one) % n, (y * one) % n);
    let (xx, yy) = (x * x, y * y);
    assert(xx >= 0 && yy >= 0 && (n + 1) * (n + 1) == n * n + 2 * n + 1) by (nonlinear_arith)
        requires
            xx == x * x,
            yy == y * y,
    ;
    assert(-n <= x <= n && -n <= y <= n) by {
        assert((-x) * (-x) == xx && (-y) * (-y) == yy) by (nonlinear_arith)
            requires
                xx == x * x,
                yy == y * y,
        ;
        lemma_side(x, n);
        lemma_side(-x, n);
        lemma_side(y, n);
        lemma_side(-y, n);
    }
    let len = xx + yy;
    let cross = x * a + y * b;
    let small = a * a + b * b;
    assert(-2 * (n * n) <= cross <= 2 * (n * n) && 0 <= small <= 2 * (n * n)) by (nonlinear_arith)
        requires
            cross == x * a + y * b,
            small == a * a + b * b,
            -n <= x <= n,
            -n <= y <= n,
            0 <= a < n,
            0 <= b < n,
    {
        assert(-(n * n) <= x * a <= n * n);
        assert(-(n * n) <= y * b <= n * n);
        assert(0 <= a * a <= n * n && 0 <= b * b <= n * n);
    }
    let off = c * c + s * s - one * one;
    assert((n * n) * off == (one * one) * (len - n * n) - 2 * (one * cross) + small) by {
        assert(n * c == x * one - a && n * s == y * one - b);
        assert((n * n) * (c * c) == (n * c) * (n * c) && (n * n) * (s * s) == (n * s) * (n * s))
            by (nonlinear_arith);
        lemma_short_square(x, one, a);
        lemma_short_square(y, one, b);
        let (nn, oo, cc, ss) = (n * n, one * one, c * c, s * s);
        assert(nn * (cc + ss - oo) == nn * cc + nn * ss - oo * nn) by (nonlinear_arith);
        assert(oo * (xx + yy - nn) == oo * xx + oo * yy - oo * nn) by (nonlinear_arith);
        assert(one * cross == one * (x * a) + one * (y * b)) by (nonlinear_arith)
            requires
                cross == x * a + y * b,
        ;
    }
    let nn = n * n;
    let over = len - nn;
    assert(0 <= one * over <= 2 * (one * n)) by (nonlinear_arith)
        requires
            0 <= over <= 2 * n,
            one > 0,
    ;
    assert(one * n <= nn) by (nonlinear_arith)
        requires
            nn == n * n,
            n >= one,
            one > 0,
    ;
    assert(0 <= one * (one * over) <= one * (2 * nn)) by (nonlinear_arith)
        requires
            0 <= one * over <= 2 * nn,
            one > 0,
    ;
    assert((one * one) * over == one * (one * over)) by (nonlinear_arith);
    assert(one * (2 * nn) == 2 * (one * nn)) by (nonlinear_arith);
    assert(-(one * (2 * nn)) <= one * cross <= one * (2 * nn)) by (nonlinear_arith)
        requires
            -2 * nn <= cross <= 2 * nn,
            one > 0,
    ;
    assert(2 * nn <= one * nn) by (nonlinear_arith)
        requires
            nn >= 0,
            one >= 2,
    ;
    assert(nn > 0) by (nonlinear_arith)
        requires
            nn == n * n,
            n > 0,
    ;
    assert(off <= 8 * one) by (nonlinear_arith)
        requires
            nn * off <= 8 * (one * nn),
            nn > 0,
    ;
    assert(off >= -8 * one) by (nonlinear_arith)
        requires
            nn * off >= -8 * (one * nn),
            nn > 0,
    ;
}

/// The square of a product that rounding has taken `a` from.
proof fn lemma_short_square(x: int, one: int, a: int)
    ensures
        (x * one - a) * (x * one - a) == (one * one) * (x * x) - 2 * (one * (x * a)) + a * a,
{
    let p = x * one;
    assert((p - a) * (p - a) == p * p - 2 * (p * a) + a * a) by (nonlinear_arith);
    assert(p * p == (one * one) * (x * x) && p * a == one * (x * a)) by (nonlinear_arith)
        requires
            p == x * one,
    ;
}

/// A side whose square is below that of `n + 1` is no longer than `n`.
proof fn lemma_side(x: int, n: int)
    requires
        n >= 0,
        x * x < (n + 1) * (n + 1),
    ensures
        x <= n,
{
    if x > n {
        assert(x * x >= (n + 1) * (n + 1)) by (nonlinear_arith)
            requires
                x >= n + 1,
                n >= 0,
        ;
    }
}

/// However it is turned, a window encloses its points along both of its axes, to
/// within a thousandth of a pixel.
pub proof fn law_window_encloses(points: Seq<Vec2>, angle: Heading, enlarge: Fx, i: int)
    requires
        0 <= i < points.len(),
        enlarge.raw >= ONE,
        is_unit(angle),
        forall|k: int|
            0 <= k < points.len() ==> -0x8000_0000_0000 <= (#[trigger] points[k]).x.raw
                <= 0x8000_0000_0000 && -0x8000_0000_0000 <= points[k].y.raw <= 0x8000_0000_0000,
    ensures
        ({
            let roi = enclosure(points, angle, enlarge, Vec2::zero());
            let (u, v) = angle.axes();
            &&& 2 * (roi.center.dot(u).raw - points[i].dot(u).raw) <= roi.side.raw + 0x40_0000
            &&& 2 * (points[i].dot(u).raw - roi.center.dot(u).raw) <= roi.side.raw + 0x40_0000
            &&& 2 * (roi.center.dot(v).raw - points[i].dot(v).raw) <= roi.side.raw + 0x40_0000
            &&& 2 * (points[i].dot(v).raw - roi.center.dot(v).raw) <= roi.side.raw + 0x40_0000
        }),
{
    let (u, v) = angle.axes();
    law_ends_enclose_points(points, u);
    law_ends_enclose_points(points, v);
    assert forall|k: int| 0 <= k < points.len() implies -0x1_0000_0000_0010 <= (
    #[trigger] points[k]).dot(u).raw <= 0x1_0000_0000_0010 && -0x1_0000_0000_0010 <= points[k].dot(
        v,
    ).raw <= 0x1_0000_0000_0010 by {
        lemma_dot_bound(points[k], u);
        lemma_dot_bound(points[k], v);
    }
    let lo = choose|k: int| 0 <= k < points.len() && (#[trigger] points[k]).dot(u) == least(points, u);
    let hi = choose|k: int| 0 <= k < points.len() && (#[trigger] points[k]).dot(u) == most(points, u);
    let top = choose|k: int| 0 <= k < points.len() && (#[trigger] points[k]).dot(v) == least(points, v);
    let low = choose|k: int| 0 <= k < points.len() && (#[trigger] points[k]).dot(v) == most(points, v);
    let at = points[i];
    let cu = center_along(points, u, Fx::zero());
    let cv = center_along(points, v, Fx::zero());
    lemma_half(least(points, u), most(points, u));
    lemma_half(least(points, v), most(points, v));
    let w = breadth(points, u).raw as int;
    let h = breadth(points, v).raw as int;
    assert(0 * w == 0 && 0 * h == 0);
    let side = if h > w { h } else { w };
    let e = enlarge.raw as int;
    assert((side * e) / 0x1_0000_0000 >= side) by (nonlinear_arith)
        requires
            side >= 0,
            e >= 0x1_0000_0000,
    ;
    lemma_rebuilt(angle, cu, cv);
}

/// The length of a point along an axis is no more than its coordinates added up.
proof fn lemma_dot_bound(p: Vec2, axis: Vec2)
    requires
        -0x8000_0000_0000 <= p.x.raw <= 0x8000_0000_0000,
        -0x8000_0000_0000 <= p.y.raw <= 0x8000_0000_0000,
        -ONE <= axis.x.raw <= ONE,
        -ONE <= axis.y.raw <= ONE,
    ensures
        -0x1_0000_0000_0010 <= p.dot(axis).raw <= 0x1_0000_0000_0010,
{
    lemma_share(p.x.raw as int, axis.x.raw as int, 0x8000_0000_0000);
    lemma_share(p.y.raw as int, axis.y.raw as int, 0x8000_0000_0000);
}

/// A share of a number is no larger than the number.
proof fn lemma_share(x: int, c: int, bound: int)
    requires
        -bound <= x <= bound,
        -ONE <= c <= ONE,
    ensures
        -bound - 1 <= (x * c) / 0x1_0000_0000 <= bound,
        0 <= x * c - 0x1_0000_0000 * ((x * c) / 0x1_0000_0000) < 0x1_0000_0000,
{
    assert(-(bound * 0x1_0000_0000) <= x * c <= bound * 0x1_0000_0000) by (nonlinear_arith)
        requires
            -bound <= x <= bound,
            -0x1_0000_0000 <= c <= 0x1_0000_0000,
    ;
}

/// Coordinates along two axes at right angles, put together into a point, are
/// that point's coordinates, but for rounding.
proof fn lemma_rebuilt(angle: Heading, a: Fx, b: Fx)
    requires
        is_unit(angle),
        -0x1_0000_0000_0020 <= a.raw <= 0x1_0000_0000_0020,
        -0x1_0000_0000_0020 <= b.raw <= 0x1_0000_0000_0020,
    ensures
        ({
            let (u, v) = angle.axes();
            let p = u.times(a).plus(v.times(b));
            &&& -0x10_0000 <= p.dot(u).raw - a.raw <= 0x10_0000
            &&& -0x10_0000 <= p.dot(v).raw - b.raw <= 0x10_0000
        }),
{
    let (u, v) = angle.axes();
    let p = u.times(a).plus(v.times(b));
    let one = 0x1_0000_0000int;
    let (c, s) = (angle.cos.raw as int, angle.sin.raw as int);
    let (m, n) = (a.raw as int, b.raw as int);
    lemma_share(m, c, 0x1_0000_0000_0020);
    lemma_share(m, s, 0x1_0000_0000_0020);
    lemma_share(n, -s, 0x1_0000_0000_0020);
    lemma_share(n, c, 0x1_0000_0000_0020);
    assert(c * m == m * c && s * m == m * s && (-s) * n == n * (-s) && c * n == n * c)
        by (nonlinear_arith);
    let (x, y) = (p.x.raw as int, p.y.raw as int);
    let (r, t) = (m * c + n * (-s) - one * x, m * s + n * c - one * y);
    assert(0 <= r < 2 * one && 0 <= t < 2 * one);
    lemma_share(x, c, 0x4_0000_0000_0000);
    lemma_share(y, s, 0x4_0000_0000_0000);
    lemma_share(x, -s, 0x4_0000_0000_0000);
    lemma_share(y, c, 0x4_0000_0000_0000);
    let (d, e) = (p.dot(u).raw as int, p.dot(v).raw as int);
    let (f, g) = (x * c + y * s - one * d, x * (-s) + y * c - one * e);
    assert(0 <= f < 2 * one && 0 <= g < 2 * one);
    let q = c * c + s * s;
    assert(one * (x * c + y * s) == q * m - r * c - t * s) by {
        assert(one * (x * c + y * s) == (one * x) * c + (one * y) * s) by (nonlinear_arith);
        lemma_three(m * c, n * (-s), r, c);
        lemma_three(m * s, n * c, t, s);
        assert((m * c) * c == m * (c * c) && (m * s) * s == m * (s * s)) by (nonlinear_arith);
        assert((n * (-s)) * c == -(n * (c * s)) && (n * c) * s == n * (c * s)) by (nonlinear_arith);
        assert(q * m == m * (c * c) + m * (s * s)) by (nonlinear_arith)
            requires
                q == c * c + s * s,
        ;
    }
    assert(one * (x * (-s) + y * c) == q * n + r * s - t * c) by {
        assert(one * (x * (-s) + y * c) == -((one * x) * s) + (one * y) * c) by (nonlinear_arith);
        lemma_three(m * c, n * (-s), r, s);
        lemma_three(m * s, n * c, t, c);
        assert((m * c) * s == m * (c * s) && (m * s) * c == m * (c * s)) by (nonlinear_arith);
        assert((n * (-s)) * s == -(n * (s * s)) && (n * c) * c == n * (c * c)) by (nonlinear_arith);
        assert(q * n == n * (c * c) + n * (s * s)) by (nonlinear_arith)
            requires
                q == c * c + s * s,
        ;
    }
    lemma_turned_back(m, q, r, t, c, s, f, d);
    assert(t * (-c) == -(t * c) && r * (-s) == -(r * s)) by (nonlinear_arith);
    lemma_turned_back(n, q, r, t, -s, c, g, e);
}

proof fn lemma_three(a: int, b: int, r: int, k: int)
    ensures
        (a + b - r) * k == a * k + b * k - r * k,
{
    assert((a + b - r) * k == a * k + b * k - r * k) by (nonlinear_arith);
}

/// What rounding takes from a coordinate on the way to a point and back.
proof fn lemma_turned_back(m: int, q: int, r: int, t: int, c: int, s: int, f: int, d: int)
    requires
        -0x1_0000_0000_0020 <= m <= 0x1_0000_0000_0020,
        -8 * 0x1_0000_0000 <= q - 0x1_0000_0000 * 0x1_0000_0000 <= 8 * 0x1_0000_0000,
        0 <= r < 2 * 0x1_0000_0000,
        0 <= t < 2 * 0x1_0000_0000,
        0 <= f < 2 * 0x1_0000_0000,
        -0x1_0000_0000 <= c <= 0x1_0000_0000,
        -0x1_0000_0000 <= s <= 0x1_0000_0000,
        0x1_0000_0000 * (0x1_0000_0000 * d + f) == q * m - r * c - t * s,
    ensures
        -0x10_0000 <= d - m <= 0x10_0000,
{
    let one = 0x1_0000_0000int;
    let z = q - one * one;
    assert(q * m == z * m + 0x1_0000_0000_0000_0000 * m) by (nonlinear_arith)
        requires
            q == z + 0x1_0000_0000_0000_0000,
    ;
    assert(-(0x8_0000_0000 * 0x1_0000_0000_0020) <= z * m <= 0x8_0000_0000 * 0x1_0000_0000_0020)
        by (nonlinear_arith)
        requires
            -0x8_0000_0000 <= z <= 0x8_0000_0000,
            -0x1_0000_0000_0020 <= m <= 0x1_0000_0000_0020,
    ;
    assert(-0x2_0000_0000_0000_0000 <= r * c <= 0x2_0000_0000_0000_0000) by (nonlinear_arith)
        requires
            0 <= r < 0x2_0000_0000,
            -0x1_0000_0000 <= c <= 0x1_0000_0000,
    ;
    assert(-0x2_0000_0000_0000_0000 <= t * s <= 0x2_0000_0000_0000_0000) by (nonlinear_arith)
        requires
            0 <= t < 0x2_0000_0000,
            -0x1_0000_0000 <= s <= 0x1_0000_0000,
    ;
}

/// Without rotation or displacement, a window encloses its points, to within a
/// step.
pub proof fn law_level_window_encloses(points: Seq<Vec2>, enlarge: Fx, i: int)
    requires
        0 <= i < points.len(),
        enlarge.raw >= ONE,
        forall|k: int|
            0 <= k < points.len() ==> -0x1000_0000_0000_0000 <= (#[trigger] points[k]).x.raw
                <= 0x1000_0000_0000_0000 && -0x1000_0000_0000_0000 <= points[k].y.raw
                <= 0x1000_0000_0000_0000,
    ensures
        ({
            let roi = enclosure(points, Heading::level(), enlarge, Vec2::zero());
            &&& 2 * (roi.center.x.raw - points[i].x.raw) <= roi.side.raw
            &&& 2 * (points[i].x.raw - roi.center.x.raw) <= roi.side.raw + 2
            &&& 2 * (roi.center.y.raw - points[i].y.raw) <= roi.side.raw
            &&& 2 * (points[i].y.raw - roi.center.y.raw) <= roi.side.raw + 2
        }),
{
    let (u, v) = Heading::level().axes();
    law_ends_enclose_points(points, u);
    law_ends_enclose_points(points, v);
    assert forall|k: int| 0 <= k < points.len() implies (#[trigger] points[k]).dot(u)
        == points[k].x && points[k].dot(v) == points[k].y by {
        lemma_level_dot(points[k]);
    }
    let lo = choose|k: int| 0 <= k < points.len() && (#[trigger] points[k]).dot(u) == least(points, u);
    let hi = choose|k: int| 0 <= k < points.len() && (#[trigger] points[k]).dot(u) == most(points, u);
    let top = choose|k: int| 0 <= k < points.len() && (#[trigger] points[k]).dot(v) == least(points, v);
    let low = choose|k: int| 0 <= k < points.len() && (#[trigger] points[k]).dot(v) == most(points, v);
    assert(least(points, u) == points[lo].x && most(points, u) == points[hi].x);
    assert(least(points, v) == points[top].y && most(points, v) == points[low].y);
    assert(points[i].dot(u) == points[i].x && points[i].dot(v) == points[i].y);
    let cu = center_along(points, u, Fx::zero());
    let cv = center_along(points, v, Fx::zero());
    lemma_half(least(points, u), most(points, u));
    lemma_half(least(points, v), most(points, v));
    let w = breadth(points, u).raw as int;
    let h = breadth(points, v).raw as int;
    assert(0 * w == 0 && 0 * h == 0);
    lemma_axis_times(cu);
    lemma_axis_times(cv);
    let side = if h > w { h } else { w };
    let e = enlarge.raw as int;
    assert((side * e) / 0x1_0000_0000 >= side) by (nonlinear_arith)
        requires
            side >= 0,
            e >= 0x1_0000_0000,
    ;
}

proof fn lemma_level_dot(p: Vec2)
    ensures
        p.dot(Heading::level().axes().0) == p.x,
        p.dot(Heading::level().axes().1) == p.y,
{
    let (x, y) = (p.x.raw as int, p.y.raw as int);
    assert((x * 0x1_0000_0000) / 0x1_0000_0000 == x) by (nonlinear_arith);
    assert((y * 0x1_0000_0000) / 0x1_0000_0000 == y) by (nonlinear_arith);
    assert(x * 0 == 0 && y * 0 == 0);
}

proof fn lemma_half(a: Fx, b: Fx)
    requires
        -0x1000_0000_0000_0000 <= a.raw <= 0x1000_0000_0000_0000,
        -0x1000_0000_0000_0000 <= b.raw <= 0x1000_0000_0000_0000,
    ensures
        a.plus(b).over(Fx::whole(2)).raw == (a.raw + b.raw) / 2,
{
    let n = a.raw + b.raw;
    assert(Fx::whole(2).raw == 0x2_0000_0000);
    assert((n * 0x1_0000_0000) / 0x2_0000_0000 == n / 2) by (nonlinear_arith);
}

proof fn lemma_axis_times(k: Fx)
    ensures
        Heading::level().axes().0.times(k) == (Vec2 { x: k, y: Fx::zero() }),
        Heading::level().axes().1.times(k) == (Vec2 { x: Fx::zero(), y: k }),
{
    let n = k.raw as int;
    assert((0x1_0000_0000 * n) / 0x1_0000_0000 == n) by (nonlinear_arith);
    assert(0 * n == 0);
}

/// The middle of a crop lies at the middle of its window.
pub proof fn law_crop_center_is_roi_center(roi: Roi, crop_px: Fx)
    ensures
        roi.place(Vec2::zero(), crop_px) == roi.center,
{
    let k = roi.side.over(crop_px).raw as int;
    assert(0 * k == 0);
    let (u, v) = roi.axes();
    assert(u.x.raw * 0 == 0 && u.y.raw * 0 == 0 && v.x.raw * 0 == 0 && v.y.raw * 0 == 0);
}

/// A crop turned upright stands along the direction that it was turned to: its
/// local "up", which is its second axis the other way, has the direction of
/// `d`, to within a step, and length one, to within two.
pub proof fn law_upright_points_along(d: Vec2)
    requires
        d != Vec2::zero(),
        -0x2000_0000_0000_0000 <= d.x.raw <= 0x2000_0000_0000_0000,
        -0x2000_0000_0000_0000 <= d.y.raw <= 0x2000_0000_0000_0000,
    ensures
        points_along(Heading::upright(d).axes().1, d),
{
    let (x, y) = (d.x.raw as int, d.y.raw as int);
    let k = Heading::upright(d);
    lemma_direction(d);
    let n = root(norm2(d));
    assert(k.cos.raw == ((-y) * ONE) / n && k.sin.raw == (x * ONE) / n);
    assert((-y) * (-y) == y * y) by (nonlinear_arith);
    lemma_parallel(x, -y, n, k.sin.raw as int, k.cos.raw as int);
    lemma_forward(x, -y, n, k.sin.raw as int, k.cos.raw as int);
    let (s, c) = (k.sin.raw as int, k.cos.raw as int);
    assert(-(s * y) == s * (-y) && -(c * y) == c * (-y) && (-s) * y == -(s * y) && (-s) * x == -(s
        * x)) by (nonlinear_arith);
}

/// The axis `v` points the other way from `d`: the two span no area, to within
/// a step, and `v` reaches back by the length of `d`, to within two.
pub open spec fn points_along(v: Vec2, d: Vec2) -> bool {
    let (x, y) = (d.x.raw as int, d.y.raw as int);
    let (w, h) = (
        if x < 0 {
            -x
        } else {
            x
        },
        if y < 0 {
            -y
        } else {
            y
        },
    );
    let span = v.x.raw * y - v.y.raw * x;
    let back = -(v.x.raw * x + v.y.raw * y);
    &&& -(w + h) <= span <= w + h
    &&& back >= (ONE - 2) * w
    &&& back >= (ONE - 2) * h
    &&& -ONE <= v.x.raw <= ONE
    &&& -ONE <= v.y.raw <= ONE
}

/// The length of an offset, and its parts by that length.
proof fn lemma_direction(d: Vec2)
    requires
        d != Vec2::zero(),
        -0x2000_0000_0000_0000 <= d.x.raw <= 0x2000_0000_0000_0000,
        -0x2000_0000_0000_0000 <= d.y.raw <= 0x2000_0000_0000_0000,
    ensures
        0 < root(norm2(d)) <= i64::MAX,
        d.length().raw == root(norm2(d)),
        crate::fixed::is_root(root(norm2(d)), norm2(d)),
        -ONE <= (d.x.raw * ONE) / root(norm2(d)) <= ONE,
        -ONE <= (d.y.raw * ONE) / root(norm2(d)) <= ONE,
        -ONE <= ((-d.y.raw) * ONE) / root(norm2(d)) <= ONE,
{
    let (x, y) = (d.x.raw as int, d.y.raw as int);
    assert(x * x <= 0x0400_0000_0000_0000_0000_0000_0000_0000 && y * y
        <= 0x0400_0000_0000_0000_0000_0000_0000_0000) by (nonlinear_arith)
        requires
            -0x2000_0000_0000_0000 <= x <= 0x2000_0000_0000_0000,
            -0x2000_0000_0000_0000 <= y <= 0x2000_0000_0000_0000,
    ;
    assert(x * x >= 0 && y * y >= 0) by (nonlinear_arith);
    crate::fixed::lemma_root(norm2(d));
    assert((-y) * (-y) == y * y) by (nonlinear_arith);
    assert(x != 0 || y != 0);
    lemma_no_longer(x, norm2(d), y);
    lemma_no_longer(y, norm2(d), x);
    lemma_no_longer(-y, norm2(d), x);
}

/// Parts rounded down by one length keep the direction.
proof fn lemma_parallel(x: int, y: int, n: int, p: int, q: int)
    requires
        n > 0,
        p == (x * ONE) / n,
        q == (y * ONE) / n,
    ensures
        ({
            let w = if x < 0 { -x } else { x };
            let h = if y < 0 { -y } else { y };
            -(w + h) <= p * y - q * x <= w + h
        }),
{
    let one = 0x1_0000_0000int;
    let (a, b) = (x * one, y * one);
    vstd::arithmetic::div_mod::lemma_fundamental_div_mod(a, n);
    vstd::arithmetic::div_mod::lemma_mod_bound(a, n);
    vstd::arithmetic::div_mod::lemma_fundamental_div_mod(b, n);
    vstd::arithmetic::div_mod::lemma_mod_bound(b, n);
    let (e, f) = (a % n, b % n);
    let (np, nq) = (n * p, n * q);
    assert(np == a - e && nq == b - f);
    assert(np * y - nq * x == f * x - e * y) by (nonlinear_arith)
        requires
            np == x * one - e,
            nq == y * one - f,
    ;
    let t = p * y - q * x;
    assert(n * t == np * y - nq * x) by (nonlinear_arith)
        requires
            t == p * y - q * x,
            np == n * p,
            nq == n * q,
    ;
    let w = if x < 0 { -x } else { x };
    let h = if y < 0 { -y } else { y };
    assert(-(n * w) <= f * x <= n * w) by (nonlinear_arith)
        requires
            0 <= f < n,
            -w <= x <= w,
            w >= 0,
    ;
    assert(-(n * h) <= e * y <= n * h) by (nonlinear_arith)
        requires
            0 <= e < n,
            -h <= y <= h,
            h >= 0,
    ;
    assert(t <= w + h && t >= -(w + h)) by (nonlinear_arith)
        requires
            n > 0,
            n * t <= n * w + n * h,
            n * t >= -(n * w) - n * h,
    ;
}

/// Parts rounded down by one length add up to that length.
proof fn lemma_forward(x: int, y: int, n: int, p: int, q: int)
    requires
        n > 0,
        crate::fixed::is_root(n, x * x + y * y),
        p == (x * ONE) / n,
        q == (y * ONE) / n,
    ensures
        ({
            let w = if x < 0 { -x } else { x };
            let h = if y < 0 { -y } else { y };
            p * x + q * y >= (ONE - 2) * w && p * x + q * y >= (ONE - 2) * h
        }),
{
    let one = 0x1_0000_0000int;
    let (a, b) = (x * one, y * one);
    vstd::arithmetic::div_mod::lemma_fundamental_div_mod(a, n);
    vstd::arithmetic::div_mod::lemma_mod_bound(a, n);
    vstd::arithmetic::div_mod::lemma_fundamental_div_mod(b, n);
    vstd::arithmetic::div_mod::lemma_mod_bound(b, n);
    let (e, f) = (a % n, b % n);
    let (np, nq) = (n * p, n * q);
    let s = x * x + y * y;
    assert(np * x + nq * y == one * s - e * x - f * y) by (nonlinear_arith)
        requires
            np == x * one - e,
            nq == y * one - f,
            s == x * x + y * y,
    ;
    let t = p * x + q * y;
    assert(n * t == np * x + nq * y) by (nonlinear_arith)
        requires
            t == p * x + q * y,
            np == n * p,
            nq == n * q,
    ;
    let w = if x < 0 { -x } else { x };
    let h = if y < 0 { -y } else { y };
    assert(w * w == x * x && h * h == y * y) by (nonlinear_arith)
        requires
            w == x || w == -x,
            h == y || h == -y,
    ;
    assert(w <= n && h <= n) by {
        if w > n {
            assert(w * w >= (n + 1) * (n + 1)) by (nonlinear_arith)
                requires
                    w >= n + 1,
                    n > 0,
            ;
            assert(h * h >= 0) by (nonlinear_arith);
        }
        if h > n {
            assert(h * h >= (n + 1) * (n + 1)) by (nonlinear_arith)
                requires
                    h >= n + 1,
                    n > 0,
            ;
            assert(w * w >= 0) by (nonlinear_arith);
        }
    }
    assert(e * x <= n * n) by (nonlinear_arith)
        requires
            0 <= e < n,
            x <= n,
    ;
    assert(f * y <= n * n) by (nonlinear_arith)
        requires
            0 <= f < n,
            y <= n,
    ;
    assert(one * s >= one * (n * n)) by (nonlinear_arith)
        requires
            s >= n * n,
            one > 0,
    ;
    let nn = n * n;
    assert(n * t >= (one - 2) * nn) by {
        assert((one - 2) * nn == one * nn - 2 * nn) by (nonlinear_arith);
    }
    assert(t >= (one - 2) * n) by (nonlinear_arith)
        requires
            n > 0,
            nn == n * n,
            n * t >= (one - 2) * nn,
    ;
    assert((one - 2) * n >= (one - 2) * w && (one - 2) * n >= (one - 2) * h) by (nonlinear_arith)
        requires
            one == 0x1_0000_0000,
            n >= w,
            n >= h,
    ;
}

/// A crop turned along a direction has its first axis there: to within a step,
/// and with length one, to within two.
pub proof fn law_along_points_along(d: Vec2)
    requires
        d != Vec2::zero(),
        -0x2000_0000_0000_0000 <= d.x.raw <= 0x2000_0000_0000_0000,
        -0x2000_0000_0000_0000 <= d.y.raw <= 0x2000_0000_0000_0000,
    ensures
        ({
            let u = Heading::along(d).axes().0;
            points_along(Vec2 { x: u.x.negated(), y: u.y.negated() }, d)
        }),
{
    let (x, y) = (d.x.raw as int, d.y.raw as int);
    let h = Heading::along(d);
    lemma_direction(d);
    let n = root(norm2(d));
    assert(h.cos.raw == (x * ONE) / n && h.sin.raw == (y * ONE) / n);
    let (c, s) = (h.cos.raw as int, h.sin.raw as int);
    lemma_parallel(x, y, n, c, s);
    lemma_forward(x, y, n, c, s);
    assert((-c) * y == -(c * y) && (-s) * x == -(s * x) && (-c) * x == -(c * x) && (-s) * y == -(s
        * y)) by (nonlinear_arith);
}

/// One axis' part of what an offset in the crop adds to a place in the image.
proof fn lemma_placed(c: int, o: int, side: int, crop: int, k: int, s: int, t: int)
    requires
        -0x1_0000_0000 <= c <= 0x1_0000_0000,
        crop > 0,
        k == (side * 0x1_0000_0000) / crop,
        s == (o * k) / 0x1_0000_0000,
        t == (c * s) / 0x1_0000_0000,
    ensures
        ({
            let far = if o < 0 { -o } else { o };
            let off = (crop * 0x1_0000_0000) * t - side * (o * c);
            -(crop * (far + 0x2_0000_0000)) <= off <= crop * (far + 0x2_0000_0000)
        }),
{
    let one = 0x1_0000_0000int;
    let far = if o < 0 { -o } else { o };
    vstd::arithmetic::div_mod::lemma_fundamental_div_mod(side * one, crop);
    vstd::arithmetic::div_mod::lemma_mod_bound(side * one, crop);
    let r = (side * one) % crop;
    let r1 = (o * k) % one;
    let r2 = (c * s) % one;
    assert(crop * k == side * one - r);
    assert(one * s == o * k - r1 && 0 <= r1 < one);
    assert(one * t == c * s - r2 && 0 <= r2 < one);
    let off = (crop * one) * t - side * (o * c);
    let (ct, cs, ck) = (one * t, one * s, crop * k);
    // Multiply out, one rounding at a time.
    assert((crop * one) * t == crop * (c * s - r2)) by (nonlinear_arith)
        requires
            one * t == c * s - r2,
    ;
    assert(crop * (c * s - r2) == c * (crop * s) - crop * r2) by (nonlinear_arith);
    assert(one * (crop * s) == o * ck - crop * r1) by (nonlinear_arith)
        requires
            one * s == o * k - r1,
            ck == crop * k,
    ;
    assert(o * ck == o * (side * one) - o * r) by (nonlinear_arith)
        requires
            ck == side * one - r,
    ;
    let cp = crop * s;
    assert(one * (c * cp) == c * (o * (side * one)) - c * (o * r) - c * (crop * r1)) by (nonlinear_arith)
        requires
            one * cp == o * (side * one) - o * r - crop * r1,
    ;
    assert(c * (o * (side * one)) == one * (side * (o * c))) by (nonlinear_arith);
    assert(one * off == one * (c * cp) - one * (crop * r2) - one * (side * (o * c)))
        by (nonlinear_arith)
        requires
            off == c * cp - crop * r2 - side * (o * c),
    ;
    assert(one * off == -(c * (o * r)) - c * (crop * r1) - one * (crop * r2));
    let a = o * r;
    assert(-(crop * far) <= a <= crop * far) by (nonlinear_arith)
        requires
            a == o * r,
            0 <= r < crop,
            -far <= o <= far,
            far >= 0,
    ;
    let b = crop * r1;
    assert(0 <= b <= crop * one) by (nonlinear_arith)
        requires
            b == crop * r1,
            0 <= r1 < one,
            crop > 0,
    ;
    let e = crop * r2;
    assert(0 <= e <= crop * one) by (nonlinear_arith)
        requires
            e == crop * r2,
            0 <= r2 < one,
            crop > 0,
    ;
    lemma_scaled_by(c, a, crop * far);
    lemma_scaled_by(c, b, crop * one);
    assert(0 <= one * e <= one * (crop * one)) by (nonlinear_arith)
        requires
            0 <= e <= crop * one,
            one > 0,
    ;
    let w = crop * far;
    let z = crop * one;
    assert(crop * (far + 2 * one) == w + 2 * z) by (nonlinear_arith)
        requires
            w == crop * far,
            z == crop * one,
    ;
    assert(-(one * (w + 2 * z)) <= one * off <= one * (w + 2 * z)) by {
        assert(one * (w + 2 * z) == one * w + 2 * (one * z)) by (nonlinear_arith);
    }
    assert(-(w + 2 * z) <= off <= w + 2 * z) by (nonlinear_arith)
        requires
            -(one * (w + 2 * z)) <= one * off <= one * (w + 2 * z),
            one == 0x1_0000_0000,
    ;
}

/// What is at most one unit times a bounded number.
proof fn lemma_scaled_by(c: int, a: int, bound: int)
    requires
        -0x1_0000_0000 <= c <= 0x1_0000_0000,
        -bound <= a <= bound,
    ensures
        -(0x1_0000_0000 * bound) <= c * a <= 0x1_0000_0000 * bound,
{
    assert(-(0x1_0000_0000 * bound) <= c * a <= 0x1_0000_0000 * bound) by (nonlinear_arith)
        requires
            -0x1_0000_0000 <= c <= 0x1_0000_0000,
            -bound <= a <= bound,
    ;
}

/// A window and an offset in a crop of it that are of the size of pictures.
pub open spec fn is_pictured(roi: Roi, offset: Vec2, crop_px: Fx) -> bool {
    &&& -ONE <= roi.angle.cos.raw <= ONE
    &&& -ONE <= roi.angle.sin.raw <= ONE
    &&& 0 <= roi.side.raw <= 0x1000_0000_0000
    &&& -0x1000_0000_0000 <= roi.center.x.raw <= 0x1000_0000_0000
    &&& -0x1000_0000_0000 <= roi.center.y.raw <= 0x1000_0000_0000
    &&& -0x1000_0000_0000 <= offset.x.raw <= 0x1000_0000_0000
    &&& -0x1000_0000_0000 <= offset.y.raw <= 0x1000_0000_0000
    &&& ONE <= crop_px.raw <= 0x1000_0000_0000
}

/// The sum of two sizes.
pub open spec fn sizes(v: Vec2) -> int {
    (if v.x.raw < 0 {
        -v.x.raw
    } else {
        v.x.raw as int
    }) + (if v.y.raw < 0 {
        -v.y.raw
    } else {
        v.y.raw as int
    })
}

/// Placing an offset turns it by the window's angle and scales it by the
/// window's side over the crop's: the crop's side times the place is the
/// window's side times the offset turned, to within four steps and one for
/// each unit of the offset.
pub proof fn law_placing_turns_and_scales(roi: Roi, offset: Vec2, crop_px: Fx)
    requires
        is_pictured(roi, offset, crop_px),
    ensures
        ({
            let p = roi.place(offset, crop_px);
            let (cos, sin) = (roi.angle.cos.raw, roi.angle.sin.raw);
            let (x, y) = (offset.x.raw, offset.y.raw);
            let m = crop_px.raw * 0x1_0000_0000;
            let slack = crop_px.raw * (sizes(offset) + 0x4_0000_0000);
            &&& -slack <= m * (p.x.raw - roi.center.x.raw) - roi.side.raw * (x * cos - y * sin)
                <= slack
            &&& -slack <= m * (p.y.raw - roi.center.y.raw) - roi.side.raw * (x * sin + y * cos)
                <= slack
        }),
{
    let (cos, sin) = (roi.angle.cos.raw as int, roi.angle.sin.raw as int);
    let (x, y) = (offset.x.raw as int, offset.y.raw as int);
    let (side, crop) = (roi.side.raw as int, crop_px.raw as int);
    let k = (side * 0x1_0000_0000) / crop;
    assert(0 <= k <= 0x1000_0000_0000) by {
        vstd::arithmetic::div_mod::lemma_fundamental_div_mod(side * 0x1_0000_0000, crop);
        vstd::arithmetic::div_mod::lemma_mod_bound(side * 0x1_0000_0000, crop);
        assert(0 <= k <= side) by (nonlinear_arith)
            requires
                crop * k <= side * 0x1_0000_0000 < crop * k + crop,
                crop >= 0x1_0000_0000,
                side >= 0,
        ;
    }
    assert(roi.side.over(crop_px).raw == k);
    lemma_offset_bound(x, k);
    lemma_offset_bound(y, k);
    let (sx, sy) = ((x * k) / 0x1_0000_0000, (y * k) / 0x1_0000_0000);
    let scaled = offset.times(roi.side.over(crop_px));
    assert(scaled.x.raw == sx && scaled.y.raw == sy);
    lemma_turn_bound(cos, sx);
    lemma_turn_bound(sin, sx);
    lemma_turn_bound(-sin, sy);
    lemma_turn_bound(cos, sy);
    let (a, b) = ((cos * sx) / 0x1_0000_0000, (sin * sx) / 0x1_0000_0000);
    let (c, d) = (((-sin) * sy) / 0x1_0000_0000, (cos * sy) / 0x1_0000_0000);
    let p = roi.place(offset, crop_px);
    assert(p.x.raw == roi.center.x.raw + a + c);
    assert(p.y.raw == roi.center.y.raw + b + d);
    lemma_placed(cos, x, side, crop, k, sx, a);
    lemma_placed(sin, x, side, crop, k, sx, b);
    lemma_placed(-sin, y, side, crop, k, sy, c);
    lemma_placed(cos, y, side, crop, k, sy, d);
    let m = crop * 0x1_0000_0000;
    assert(m * (a + c) == m * a + m * c && m * (b + d) == m * b + m * d) by (nonlinear_arith);
    assert(side * (x * cos - y * sin) == side * (x * cos) + side * (y * (-sin))) by (nonlinear_arith);
    assert(side * (x * sin + y * cos) == side * (x * sin) + side * (y * cos)) by (nonlinear_arith);
    let w = if x < 0 { -x } else { x };
    let h = if y < 0 { -y } else { y };
    assert(crop * (w + h + 0x4_0000_0000) == crop * (w + 0x2_0000_0000) + crop * (h + 0x2_0000_0000))
        by (nonlinear_arith);
}

proof fn lemma_offset_bound(o: int, k: int)
    requires
        -0x1000_0000_0000 <= o <= 0x1000_0000_0000,
        0 <= k <= 0x1000_0000_0000,
    ensures
        -0x0100_0000_0000_0000 <= (o * k) / 0x1_0000_0000 <= 0x0100_0000_0000_0000,
{
    assert(-0x0100_0000_0000_0000_0000_0000 <= o * k <= 0x0100_0000_0000_0000_0000_0000)
        by (nonlinear_arith)
        requires
            -0x1000_0000_0000 <= o <= 0x1000_0000_0000,
            0 <= k <= 0x1000_0000_0000,
    ;
}

proof fn lemma_turn_bound(c: int, s: int)
    requires
        -0x1_0000_0000 <= c <= 0x1_0000_0000,
        -0x0100_0000_0000_0000 <= s <= 0x0100_0000_0000_0000,
    ensures
        -0x0100_0000_0000_0000 <= (c * s) / 0x1_0000_0000 <= 0x0100_0000_0000_0000,
{
    lemma_scaled_by(c, s, 0x0100_0000_0000_0000);
}

/// Point `low` is the least along the axis and point `high` the most.
pub open spec fn are_ends(points: Seq<Vec2>, axis: Vec2, low: int, high: int) -> bool {
    &&& 0 <= low < points.len()
    &&& 0 <= high < points.len()
    &&& forall|i: int|
        0 <= i < points.len() ==> points[low].dot(axis).raw <= (#[trigger] points[i]).dot(axis).raw
            <= points[high].dot(axis).raw
}

proof fn lemma_ends(points: Seq<Vec2>, axis: Vec2, low: int, high: int)
    requires
        are_ends(points, axis, low, high),
    ensures
        least(points, axis) == points[low].dot(axis),
        most(points, axis) == points[high].dot(axis),
{
    law_ends_enclose_points(points, axis);
    let a = choose|i: int| 0 <= i < points.len() && (#[trigger] points[i]).dot(axis) == least(points, axis);
    let b = choose|i: int| 0 <= i < points.len() && (#[trigger] points[i]).dot(axis) == most(points, axis);
    assert(points[low].dot(axis).raw <= points[a].dot(axis).raw);
    assert(points[b].dot(axis).raw <= points[high].dot(axis).raw);
}

/// The extent of the points between two ends, in steps.
pub open spec fn extent(points: Seq<Vec2>, axis: Vec2, low: int, high: int) -> int {
    points[high].dot(axis).raw - points[low].dot(axis).raw
}

/// Twice the middle between two ends, moved by `shift` extents, in steps of a
/// step.
pub open spec fn middle(points: Seq<Vec2>, axis: Vec2, low: int, high: int, shift: Fx) -> int {
    0x1_0000_0000 * (points[low].dot(axis).raw + points[high].dot(axis).raw) + 2 * (shift.raw * extent(
        points,
        axis,
        low,
        high,
    ))
}

/// A window is placed by the ends of its points along its own axes: its middle
/// is halfway between them, moved by the shift, to within five steps, and its
/// side is the longer extent enlarged.
pub proof fn law_window_is_placed_by_its_ends(
    points: Seq<Vec2>,
    angle: Heading,
    enlarge: Fx,
    shift: Vec2,
    left: int,
    right: int,
    top: int,
    bottom: int,
)
    requires
        -ONE <= angle.cos.raw <= ONE,
        -ONE <= angle.sin.raw <= ONE,
        0 <= enlarge.raw <= 0x10_0000_0000,
        -ONE <= shift.x.raw <= ONE,
        -ONE <= shift.y.raw <= ONE,
        forall|i: int|
            0 <= i < points.len() ==> -0x1000_0000_0000 <= (#[trigger] points[i]).x.raw
                <= 0x1000_0000_0000 && -0x1000_0000_0000 <= points[i].y.raw <= 0x1000_0000_0000,
        are_ends(points, angle.axes().0, left, right),
        are_ends(points, angle.axes().1, top, bottom),
    ensures
        ({
            let roi = enclosure(points, angle, enlarge, shift);
            let (u, v) = angle.axes();
            let (w, h) = (extent(points, u, left, right), extent(points, v, top, bottom));
            let m = if w > h { w } else { h };
            let across = middle(points, u, left, right, shift.x);
            let down = middle(points, v, top, bottom, shift.y);
            let (cos, sin) = (angle.cos.raw, angle.sin.raw);
            let unit2 = 0x1_0000_0000_0000_0000int;
            &&& roi.angle == angle
            &&& 0 <= m * enlarge.raw - roi.side.raw * 0x1_0000_0000 < 0x1_0000_0000
            &&& -10 * unit2 <= 2 * (unit2 * roi.center.x.raw) - (cos * across - sin * down) <= 10
                * unit2
            &&& -10 * unit2 <= 2 * (unit2 * roi.center.y.raw) - (sin * across + cos * down) <= 10
                * unit2
        }),
{
    let roi = enclosure(points, angle, enlarge, shift);
    let (u, v) = angle.axes();
    lemma_ends(points, u, left, right);
    lemma_ends(points, v, top, bottom);
    assert(-0x1000_0000_0000 <= points[left].x.raw <= 0x1000_0000_0000);
    assert(-0x1000_0000_0000 <= points[right].x.raw <= 0x1000_0000_0000);
    assert(-0x1000_0000_0000 <= points[top].x.raw <= 0x1000_0000_0000);
    assert(-0x1000_0000_0000 <= points[bottom].x.raw <= 0x1000_0000_0000);
    lemma_reach(points[left], u);
    lemma_reach(points[right], u);
    lemma_reach(points[top], v);
    lemma_reach(points[bottom], v);
    let (w, h) = (extent(points, u, left, right), extent(points, v, top, bottom));
    let m = if w > h { w } else { h };
    let k = enlarge.raw as int;
    assert(0 <= m * k <= 0x4000_0000_0000 * 0x10_0000_0000) by (nonlinear_arith)
        requires
            0 <= m <= 0x4000_0000_0000,
            0 <= k <= 0x10_0000_0000,
    ;
    assert(breadth(points, u).raw == w && breadth(points, v).raw == h);
    assert(roi.side.raw == (m * k) / 0x1_0000_0000);
    let (cu, cv) = (center_along(points, u, shift.x), center_along(points, v, shift.y));
    lemma_middle(points[left].dot(u), points[right].dot(u), shift.x, cu);
    lemma_middle(points[top].dot(v), points[bottom].dot(v), shift.y, cv);
    let (cos, sin) = (angle.cos.raw as int, angle.sin.raw as int);
    let across = middle(points, u, left, right, shift.x);
    let down = middle(points, v, top, bottom, shift.y);
    lemma_turn_bound(cos, cu.raw as int);
    lemma_turn_bound(sin, cu.raw as int);
    lemma_turn_bound(-sin, cv.raw as int);
    lemma_turn_bound(cos, cv.raw as int);
    lemma_part(cos, cu.raw as int, across);
    lemma_part(sin, cu.raw as int, across);
    lemma_part(-sin, cv.raw as int, down);
    lemma_part(cos, cv.raw as int, down);
    let (a, b) = ((cos * cu.raw) / 0x1_0000_0000, (sin * cu.raw) / 0x1_0000_0000);
    let (c, d) = (((-sin) * cv.raw) / 0x1_0000_0000, (cos * cv.raw) / 0x1_0000_0000);
    assert((-sin) * down == -(sin * down)) by (nonlinear_arith);
    assert(roi.center.x.raw == a + c);
    assert(roi.center.y.raw == b + d);
}

/// Twice a part of the center along one axis.
proof fn lemma_part(c: int, cu: int, twice: int)
    requires
        -0x1_0000_0000 <= c <= 0x1_0000_0000,
        twice - 0x3_0000_0000 <= 0x2_0000_0000 * cu <= twice,
    ensures
        ({
            let part = 2 * (0x1_0000_0000_0000_0000 * ((c * cu) / 0x1_0000_0000)) - c * twice;
            -5 * 0x1_0000_0000_0000_0000 <= part <= 5 * 0x1_0000_0000_0000_0000
        }),
{
    let t = (c * cu) / 0x1_0000_0000;
    let e = twice - 0x2_0000_0000 * cu;
    assert(c * twice == 0x2_0000_0000 * (c * cu) + c * e) by (nonlinear_arith)
        requires
            e == twice - 0x2_0000_0000 * cu,
    ;
    lemma_scaled_by(c, e, 0x3_0000_0000);
}

/// The middle along one axis, before and after rounding.
proof fn lemma_middle(a: Fx, b: Fx, shift: Fx, cu: Fx)
    requires
        -0x4000_0000_0000 <= a.raw <= b.raw <= 0x4000_0000_0000,
        -ONE <= shift.raw <= ONE,
        cu == a.plus(b).over(Fx::whole(2)).plus(shift.times(b.minus(a))),
    ensures
        ({
            let twice = 0x1_0000_0000 * (a.raw + b.raw) + 2 * (shift.raw * (b.raw - a.raw));
            twice - 0x3_0000_0000 <= 0x2_0000_0000 * cu.raw <= twice
        }),
        -0x0100_0000_0000_0000 <= cu.raw <= 0x0100_0000_0000_0000,
{
    let s = a.raw + b.raw;
    let w = b.raw - a.raw;
    let k = shift.raw as int;
    assert(Fx::whole(2).raw == 0x2_0000_0000);
    assert((s * 0x1_0000_0000) / 0x2_0000_0000 == s / 2) by (nonlinear_arith);
    assert(a.plus(b).over(Fx::whole(2)).raw == s / 2);
    lemma_scaled_by(k, w, 0x8000_0000_0000);
    assert(shift.times(b.minus(a)).raw == (k * w) / 0x1_0000_0000);
}

/// How far a point of a picture can lie along an axis.
proof fn lemma_reach(p: Vec2, axis: Vec2)
    requires
        -0x1000_0000_0000 <= p.x.raw <= 0x1000_0000_0000,
        -0x1000_0000_0000 <= p.y.raw <= 0x1000_0000_0000,
        -ONE <= axis.x.raw <= ONE,
        -ONE <= axis.y.raw <= ONE,
    ensures
        -0x2000_0000_0000 <= p.dot(axis).raw <= 0x2000_0000_0000,
{
    let (a, b) = (axis.x.raw as int, axis.y.raw as int);
    lemma_scaled_by(a, p.x.raw as int, 0x1000_0000_0000);
    lemma_scaled_by(b, p.y.raw as int, 0x1000_0000_0000);
    assert(p.x.raw * a == a * p.x.raw && p.y.raw * b == b * p.y.raw) by (nonlinear_arith);
}

/// The axes stand at a right angle: the second is the first turned from +x to
/// +y, as on screen.
pub proof fn law_axes_are_square(angle: Heading)
    requires
        angle.sin.raw > i64::MIN,
    ensures
        angle.axes().0.x == angle.cos,
        angle.axes().0.y == angle.sin,
        angle.axes().1.x.raw == -angle.axes().0.y.raw,
        angle.axes().1.y.raw == angle.axes().0.x.raw,
{
}

/// Texel (x, y) of a crop is sampled at the middle of its cell: its offset from
/// the middle of the crop, turned and scaled with the window.
pub proof fn law_texels_tile_the_window(roi: Roi, x: usize, y: usize, size: usize)
    requires
        x < size,
        y < size,
        size <= 4096,
        is_pictured(roi, Vec2::zero(), Fx::one()),
    ensures
        ({
            let p = roi.texel(x, y, size);
            let (a, b) = ((2 * x + 1 - size) * 0x8000_0000, (2 * y + 1 - size) * 0x8000_0000);
            let (cos, sin) = (roi.angle.cos.raw, roi.angle.sin.raw);
            let crop = size * 0x1_0000_0000;
            let slack = crop * (sizes(Vec2 { x: fx(a), y: fx(b) }) + 0x4_0000_0000);
            &&& -slack <= (crop * 0x1_0000_0000) * (p.x.raw - roi.center.x.raw) - roi.side.raw * (a
                * cos - b * sin) <= slack
            &&& -slack <= (crop * 0x1_0000_0000) * (p.y.raw - roi.center.y.raw) - roi.side.raw * (a
                * sin + b * cos) <= slack
        }),
{
    let (a, b) = ((2 * x + 1 - size) * 0x8000_0000, (2 * y + 1 - size) * 0x8000_0000);
    let offset = Vec2 { x: fx(a), y: fx(b) };
    assert(texels(size).raw == size * 0x1_0000_0000);
    law_placing_turns_and_scales(roi, offset, texels(size));
}

/// A planar crop holds its colours in three planes, red then green then blue,
/// and each plane its texels row by row.
pub proof fn law_planes_hold_colours(
    roi: Roi,
    frame: Frame,
    size: usize,
    out: Seq<Fx>,
    total: int,
    x: int,
    y: int,
    c: int,
)
    requires
        0 <= x < size,
        0 <= y < size,
        0 <= c < 3,
        roi.planar_at(frame, size, out, total, y * size + x),
    ensures
        out[c * total + (y * size + x)] == frame.color_at(
            roi.texel(x as usize, y as usize, size),
            c,
        ),
{
    let k = y * size + x;
    vstd::arithmetic::div_mod::lemma_fundamental_div_mod_converse(k, size as int, y, x);
    assert(0 * total == 0 && 1 * total == total && 2 * total == total + total);
    assert(c == 0 || c == 1 || c == 2);
}

/// Without a direction nothing is turned along it, and upright is a quarter
/// turn, as for a hand that points right.
pub proof fn law_no_direction(d: Vec2)
    requires
        d.x.raw > 0,
        d.y.raw == 0,
    ensures
        Heading::along(Vec2::zero()) == Heading::level(),
        Heading::upright(Vec2::zero()) == Heading::upright(d),
{
    law_rightward_is_quarter_turn(d);
}

/// A turn the other way keeps the cosine and flips the sine, and twice is none.
pub proof fn law_reversed_twice_is_itself(angle: Heading)
    requires
        angle.sin.raw > i64::MIN,
    ensures
        angle.reversed().cos == angle.cos,
        angle.reversed().sin.raw == -angle.sin.raw,
        angle.reversed().reversed() == angle,
{
}

/// A texel of a crop shows the frame where the texel lies, colour by colour.
pub proof fn law_crop_shows_the_frame(roi: Roi, frame: Frame, size: usize, x: usize, y: usize, c: int)
    ensures
        roi.color(frame, size, x as int, y as int, c) == frame.color_at(roi.texel(x, y, size), c),
{
}

} // verus!
