//! Regions: which part of the frame an effect applies to.
//!
//! A `RegionSource` maps the current hands to a shape. Add a feature by
//! implementing the trait: the renderer masks whatever shape comes back.

pub mod hull;

use crate::fixed::Fx;
use crate::region::hull::{
    bends, borders, convex_hull, follow, is_hull, lemma_flat_has_no_hull, lemma_hull_unique,
    lemma_turn, turn,
};
use crate::tracking::hand::{is_pair, left_of, Finger, Hand, HandFrame};
use crate::vector::{norm2, Vec2};
use vstd::prelude::*;

verus! {

/// A masked area, in normalized image coordinates (0..1, origin top-left).
#[derive(Debug, Clone, Copy, PartialEq)]
pub enum Region {
    /// No hands, no effect.
    Empty,
    /// A convex quad. Corner order defines the outline path; winding may be
    /// either direction, so the inside test only requires consistency.
    Quad([Vec2; 4]),
}

/// Two corners less than a millionth of a unit apart.
pub open spec fn close(a: Vec2, b: Vec2) -> bool {
    norm2(a.minus(b)) * 1_000_000_000_000 < 0x1_0000_0000_0000_0000
}

/// A path without the corners that are close to the one before them.
pub open spec fn merged(h: Seq<Vec2>) -> Seq<Vec2>
    decreases h.len(),
{
    if h.len() == 0 {
        h
    } else {
        let rest = merged(h.drop_last());
        if rest.len() > 0 && close(h.last(), rest.last()) {
            rest
        } else {
            rest.push(h.last())
        }
    }
}

/// The squared length of the edge that leaves corner `i`.
pub open spec fn edge(t: Seq<Vec2>, i: int) -> int {
    norm2(t[i].minus(follow(t, i + 1)))
}

/// The longest edge of a triangle, the last of them where two are equal.
pub open spec fn longest(t: Seq<Vec2>) -> int {
    if edge(t, 2) >= edge(t, 1) && edge(t, 2) >= edge(t, 0) {
        2
    } else if edge(t, 1) >= edge(t, 0) {
        1
    } else {
        0
    }
}

/// The point halfway between two points.
pub open spec fn midpoint(a: Vec2, b: Vec2) -> Vec2 {
    Vec2 {
        x: Fx { raw: ((a.x.raw + b.x.raw) / 2) as i64 },
        y: Fx { raw: ((a.y.raw + b.y.raw) / 2) as i64 },
    }
}

/// A triangle with its longest edge split in two.
pub open spec fn padded(t: Seq<Vec2>) -> Seq<Vec2> {
    let i = longest(t);
    t.insert(i + 1, midpoint(t[i], follow(t, i + 1)))
}

/// The convex hull of the points.
pub open spec fn hull_of(points: Seq<Vec2>) -> Seq<Vec2> {
    choose|h: Seq<Vec2>| is_hull(points, h)
}

/// The four points as a convex quad: their hull, with an edge split if it has
/// only three corners. Points that span no area are left as they are.
pub open spec fn quad_of(points: Seq<Vec2>) -> Seq<Vec2> {
    let h = hull_of(points);
    if !is_hull(points, h) || merged(h).len() < 3 {
        points
    } else if merged(h).len() == 3 {
        padded(merged(h))
    } else {
        merged(h)
    }
}

/// The path without the corners that are close to the one before them.
fn merge(h: &Vec<Vec2>) -> (out: Vec<Vec2>)
    ensures
        out@ == merged(h@),
        out@.len() <= h@.len(),
{
    let mut out: Vec<Vec2> = Vec::new();
    let mut i: usize = 0;
    assert(h@.take(0) =~= Seq::empty());
    while i < h.len()
        invariant
            i <= h.len(),
            out@ == merged(h@.take(i as int)),
            out@.len() <= i,
        decreases h.len() - i,
    {
        proof {
            assert(h@.take(i + 1).drop_last() =~= h@.take(i as int));
        }
        let p: Vec2 = h[i];
        let near: bool = out.len() > 0 && p.minus(out[out.len() - 1]).length_squared() <= 18446744;
        if !near {
            out.push(p);
        }
        i += 1;
    }
    assert(h@.take(i as int) =~= h@);
    out
}

/// The point halfway between two points.
fn halfway(a: Vec2, b: Vec2) -> (m: Vec2)
    ensures
        m == midpoint(a, b),
{
    let x: i128 = crate::fixed::floor_quotient(a.x.raw as i128 + b.x.raw as i128, 2);
    let y: i128 = crate::fixed::floor_quotient(a.y.raw as i128 + b.y.raw as i128, 2);
    Vec2 { x: Fx { raw: x as i64 }, y: Fx { raw: y as i64 } }
}

/// Order four points into a convex, simply-connected quad.
///
/// Callers supply corners in whatever order their landmarks come in, which is
/// *not* a safe polygon: e.g. flipping one hand swings its thumb above its
/// index, and a fixed corner order then traces a self-intersecting bow-tie.
/// Both the mask test and the shader's SDF assume convexity, so we take the
/// convex hull instead of trusting the caller's ordering.
///
/// A hull of three points (one fingertip inside the triangle of the others) is
/// padded with an edge midpoint rather than a duplicated vertex, because a
/// zero-length edge has no usable normal in the SDF.
fn convex_quad(points: [Vec2; 4]) -> (out: [Vec2; 4])
    ensures
        out@ == quad_of(points@),
{
    let hull: Vec<Vec2> = match convex_hull(&points) {
        Some(h) => h,
        // Collinear or coincident: no usable area. Pass through so the caller
        // still gets a (degenerate) shape.
        None => {
            proof {
                lemma_flat_has_no_hull(points@, hull_of(points@));
            }
            return points;
        },
    };
    proof {
        lemma_hull_unique(points@, hull_of(points@), hull@);
    }
    let h: Vec<Vec2> = merge(&hull);
    if h.len() == 4 {
        let out = [h[0], h[1], h[2], h[3]];
        assert(out@ =~= h@);
        out
    } else if h.len() == 3 {
        // Split the longest edge so every edge keeps a real normal.
        let e0: u128 = h[0].minus(h[1]).length_squared();
        let e1: u128 = h[1].minus(h[2]).length_squared();
        let e2: u128 = h[2].minus(h[0]).length_squared();
        let out: [Vec2; 4] = if e2 >= e1 && e2 >= e0 {
            [h[0], h[1], h[2], halfway(h[2], h[0])]
        } else if e1 >= e0 {
            [h[0], h[1], halfway(h[1], h[2]), h[2]]
        } else {
            [h[0], halfway(h[0], h[1]), h[1], h[2]]
        };
        assert(out@ =~= padded(h@));
        out
    } else {
        points
    }
}

impl Region {
    /// Build a quad from four corner points in any order.
    pub fn quad(corners: [Vec2; 4]) -> (region: Region)
        ensures
            region matches Region::Quad(c) && c@ == quad_of(corners@),
    {
        Region::Quad(convex_quad(corners))
    }

    #[verifier::allow_in_spec]
    pub fn is_active(&self) -> bool
        returns
            !(*self is Empty),
    {
        match self {
            Region::Empty => false,
            Region::Quad(_) => true,
        }
    }

    #[verifier::allow_in_spec]
    pub fn corners(&self) -> Option<[Vec2; 4]>
        returns
            (match *self {
                Region::Quad(c) => Some(c),
                Region::Empty => None,
            }),
    {
        match self {
            Region::Quad(c) => Some(*c),
            Region::Empty => None,
        }
    }
}

/// What is latched after one frame.
pub open spec fn latch(live: Region, latched: Option<Region>, freeze: bool) -> Option<Region> {
    if !freeze {
        None
    } else if latched is None && live.is_active() {
        Some(live)
    } else {
        latched
    }
}

/// What is drawn in one frame.
pub open spec fn resolved(live: Region, latched: Option<Region>, freeze: bool) -> Region {
    match latch(live, latched, freeze) {
        Some(region) => region,
        None => live,
    }
}

/// Resolve which region to draw, honouring a freeze request.
///
/// Freezing latches the region as it was at the moment it was requested, so
/// the effect stays put while the hands move away or drop out of frame. A
/// freeze asked for while no region is live is held pending rather than
/// discarded: the moment a region appears, it latches.
pub fn resolve(live: Region, latched: &mut Option<Region>, freeze: bool) -> (region: Region)
    ensures
        *final(latched) == latch(live, *old(latched), freeze),
        region == resolved(live, *old(latched), freeze),
{
    if !freeze {
        *latched = None;
        return live;
    }
    if latched.is_none() && live.is_active() {
        *latched = Some(live);
    }
    match *latched {
        Some(region) => region,
        None => live,
    }
}

pub trait RegionSource: Send {
    /// The source's name.
    spec fn label(&self) -> Seq<char>;

    /// `region` is what the hands in `frame` make.
    spec fn makes(&self, frame: HandFrame, region: Region) -> bool;

    fn name(&self) -> (name: &str)
        ensures
            name@ == self.label(),
    ;

    fn region(&self, frame: &HandFrame) -> (region: Region)
        ensures
            self.makes(*frame, region),
    ;
}

/// A quad spanning both hands, anchored at the index and thumb tips. The left
/// hand supplies the left edge, the right hand the right.
pub struct TwoHandQuad {
    pub top: Finger,
    pub bottom: Finger,
}

impl Default for TwoHandQuad {
    fn default() -> (source: TwoHandQuad)
        ensures
            source.top == Finger::Index,
            source.bottom == Finger::Thumb,
    {
        TwoHandQuad { top: Finger::Index, bottom: Finger::Thumb }
    }
}

/// The fingertips that a quad is anchored at, walked as a loop.
pub open spec fn anchors(source: TwoHandQuad, frame: HandFrame, l: int, r: int) -> Seq<Vec2> {
    let left = frame.hands@[l];
    let right = frame.hands@[r];
    seq![
        left.tip(source.top),
        right.tip(source.top),
        right.tip(source.bottom),
        left.tip(source.bottom),
    ]
}

/// `region` is what two hands span: nothing with fewer than two, else the quad
/// between the fingertips of the first two from the left.
pub open spec fn spans(source: TwoHandQuad, frame: HandFrame, region: Region) -> bool {
    match region {
        Region::Empty => frame.hands@.len() < 2,
        Region::Quad(c) => exists|l: int, r: int| #[trigger]
            is_pair(frame.hands@, l, r) && c@ == quad_of(anchors(source, frame, l, r)),
    }
}

impl RegionSource for TwoHandQuad {
    open spec fn label(&self) -> Seq<char> {
        "two-hand-quad"@
    }

    open spec fn makes(&self, frame: HandFrame, region: Region) -> bool {
        spans(*self, frame, region)
    }

    fn name(&self) -> &str {
        "two-hand-quad"
    }

    fn region(&self, frame: &HandFrame) -> (region: Region) {
        match frame.left_right_pair() {
            None => Region::Empty,
            // Walk the corners as a loop so the outline draws correctly:
            // left-top -> right-top -> right-bottom -> left-bottom.
            // Order is fixed up by `Region::quad`: a flipped hand puts its
            // thumb above its index, which would otherwise cross the quad.
            Some((left, right)) => {
                let corners = [
                    left.tip(self.top),
                    right.tip(self.top),
                    right.tip(self.bottom),
                    left.tip(self.bottom),
                ];
                proof {
                    let (l, r) = choose|l: int, r: int| #[trigger]
                        is_pair(frame.hands@, l, r) && *left == frame.hands@[l] && *right
                            == frame.hands@[r];
                    assert(corners@ =~= anchors(*self, *frame, l, r));
                }
                Region::quad(corners)
            },
        }
    }
}

/// What is left of a path was on it, in its order.
proof fn lemma_merged(h: Seq<Vec2>)
    ensures
        merged(h).len() <= h.len(),
        h.len() > 0 ==> merged(h).len() > 0 && merged(h)[0] == h[0],
        forall|i: int| 0 <= i < merged(h).len() ==> h.contains(#[trigger] merged(h)[i]),
        forall|i: int|
            0 < i < merged(h).len() ==> !close(#[trigger] merged(h)[i], merged(h)[i - 1]),
    decreases h.len(),
{
    if h.len() > 0 {
        let start = h.drop_last();
        lemma_merged(start);
        assert forall|i: int| 0 <= i < merged(h).len() implies h.contains(
            #[trigger] merged(h)[i],
        ) by {
            if i < merged(start).len() {
                assert(merged(h)[i] == merged(start)[i]);
                assert(start.contains(merged(start)[i]));
                let k = choose|k: int| 0 <= k < start.len() && start[k] == merged(start)[i];
                assert(h[k] == merged(h)[i]);
            } else {
                assert(merged(h)[i] == h[h.len() - 1]);
            }
        }
        assert forall|i: int| 0 < i < merged(h).len() implies !close(
            #[trigger] merged(h)[i],
            merged(h)[i - 1],
        ) by {
            if i < merged(start).len() {
                assert(merged(h)[i] == merged(start)[i]);
                assert(merged(h)[i - 1] == merged(start)[i - 1]);
            }
        }
    }
}

/// Any three corners of a convex path turn the way the path does.
proof fn lemma_three_of_four(h: Seq<Vec2>)
    requires
        3 <= h.len() <= 4,
        forall|i: int| 0 <= i < h.len() ==> #[trigger] bends(h, i),
    ensures
        merged(h).len() == 3 ==> turn(merged(h)[0], merged(h)[1], merged(h)[2]) > 0,
        merged(h).len() == 4 ==> merged(h) == h,
{
    reveal_with_fuel(merged, 5);
    assert(bends(h, 0) && bends(h, 1) && bends(h, 2));
    let start = h.drop_last();
    lemma_merged(start);
    lemma_merged(start.drop_last());
    lemma_merged(start.drop_last().drop_last());
    lemma_turn(h[0], h[1], h[2], h[2]);
    if h.len() == 4 {
        assert(bends(h, 3));
        lemma_merged(start.drop_last().drop_last().drop_last());
        // The turns at the other corners, measured from the first one.
        lemma_turn(h[3], h[0], h[1], h[2]);
        lemma_turn(h[0], h[1], h[2], h[3]);
        lemma_turn(h[2], h[3], h[0], h[1]);
        lemma_turn(h[3], h[0], h[1], h[1]);
        lemma_turn(h[0], h[3], h[0], h[1]);
        lemma_turn(h[0], h[2], h[3], h[0]);
        if merged(h).len() == 4 {
            assert(merged(h) =~= h);
        }
    }
}

/// The points span an area: they have a hull, and at least three of its corners
/// are apart.
pub open spec fn has_area(points: Seq<Vec2>) -> bool {
    is_hull(points, hull_of(points)) && merged(hull_of(points)).len() >= 3
}

/// However the four fingertips are named, the quad is the same. Only points
/// that span no area are returned in the order they came.
pub proof fn law_corner_order_does_not_matter(points: Seq<Vec2>, others: Seq<Vec2>)
    requires
        points.len() == 4,
        others.len() == 4,
        forall|v: Vec2| points.contains(v) <==> others.contains(v),
    ensures
        has_area(points) == has_area(others),
        has_area(points) ==> quad_of(points) == quad_of(others),
        !has_area(points) ==> quad_of(points) == points && quad_of(others) == others,
{
    if is_hull(points, hull_of(points)) {
        lemma_same_hulls(points, others, hull_of(points));
        lemma_hull_unique(others, hull_of(others), hull_of(points));
    }
    if is_hull(others, hull_of(others)) {
        lemma_same_hulls(others, points, hull_of(others));
        lemma_hull_unique(points, hull_of(points), hull_of(others));
    }
}

proof fn lemma_same_hulls(points: Seq<Vec2>, others: Seq<Vec2>, h: Seq<Vec2>)
    requires
        points.len() == others.len(),
        forall|v: Vec2| points.contains(v) <==> others.contains(v),
        is_hull(points, h),
    ensures
        is_hull(others, h),
{
    assert forall|i: int| 0 <= i < h.len() implies others.contains(#[trigger] h[i]) by {
        assert(points.contains(h[i]));
    }
    assert forall|k: int| 0 <= k < others.len() implies hull::before(
        h[0],
        #[trigger] others[k],
    ) by {
        assert(others.contains(others[k]));
        let j = choose|j: int| 0 <= j < points.len() && points[j] == others[k];
        assert(hull::before(h[0], points[j]));
    }
    assert forall|i: int, k: int| 0 <= i < h.len() && 0 <= k < others.len() implies
        #[trigger] borders(h, i, others[k]) by {
        assert(others.contains(others[k]));
        let j = choose|j: int| 0 <= j < points.len() && points[j] == others[k];
        assert(borders(h, i, points[j]));
    }
}

/// Four fingertips that all stand out make a quad of exactly those four, which
/// turns strictly the same way at each and leaves none of them outside.
pub proof fn law_quad_is_convex(points: Seq<Vec2>, h: Seq<Vec2>)
    requires
        points.len() == 4,
        is_hull(points, h),
        merged(h).len() == 4,
    ensures
        quad_of(points) == h,
        forall|i: int| 0 <= i < 4 ==> #[trigger] bends(quad_of(points), i),
        forall|i: int| 0 <= i < 4 ==> points.contains(#[trigger] quad_of(points)[i]),
        forall|k: int, i: int|
            0 <= k < 4 && 0 <= i < 4 ==> #[trigger] borders(quad_of(points), i, points[k]),
{
    lemma_hull_unique(points, hull_of(points), h);
    lemma_merged(h);
    lemma_three_of_four(h);
}

/// Three fingertips round a fourth make a triangle of those three, with one
/// more corner halfway along its longest edge.
pub proof fn law_triangle_is_padded(points: Seq<Vec2>, h: Seq<Vec2>)
    requires
        points.len() == 4,
        is_hull(points, h),
        merged(h).len() == 3,
    ensures
        turn(merged(h)[0], merged(h)[1], merged(h)[2]) > 0,
        forall|i: int| 0 <= i < 3 ==> points.contains(#[trigger] merged(h)[i]),
        quad_of(points).len() == 4,
        quad_of(points).remove(longest(merged(h)) + 1) == merged(h),
        forall|i: int| 0 <= i < 3 ==> #[trigger] edge(merged(h), i) <= edge(
            merged(h),
            longest(merged(h)),
        ),
{
    lemma_hull_unique(points, hull_of(points), h);
    lemma_merged(h);
    lemma_three_of_four(h);
    assert(quad_of(points).remove(longest(merged(h)) + 1) =~= merged(h));
    assert forall|i: int| 0 <= i < 3 implies points.contains(#[trigger] merged(h)[i]) by {
        assert(h.contains(merged(h)[i]));
        let k = choose|k: int| 0 <= k < h.len() && h[k] == merged(h)[i];
        assert(points.contains(h[k]));
    }
}

/// Where the middle of the split edge falls on a step, the padded triangle is
/// convex: straight at the new corner, and a strict turn at the others.
pub proof fn law_padded_triangle_is_convex(a: Vec2, b: Vec2, c: Vec2)
    requires
        turn(a, b, c) > 0,
        (a.x.raw + b.x.raw) % 2 == 0,
        (a.y.raw + b.y.raw) % 2 == 0,
    ensures
        turn(a, midpoint(a, b), b) == 0,
        turn(midpoint(a, b), b, c) > 0,
        turn(b, c, a) > 0,
        turn(c, a, midpoint(a, b)) > 0,
{
    let m = midpoint(a, b);
    let mx = (a.x.raw + b.x.raw) / 2;
    let my = (a.y.raw + b.y.raw) / 2;
    assert(m.x.raw == mx && m.y.raw == my);
    let ux = mx - a.x.raw;
    let uy = my - a.y.raw;
    let vx = c.x.raw - a.x.raw;
    let vy = c.y.raw - a.y.raw;
    // From `a`, `b` is twice as far as the middle.
    assert(b.x.raw - a.x.raw == 2 * ux && b.y.raw - a.y.raw == 2 * uy);
    assert(hull::cross(2 * ux, 2 * uy, vx, vy) == 2 * hull::cross(ux, uy, vx, vy)) by (
    nonlinear_arith);
    assert(hull::cross(ux, uy, 2 * ux, 2 * uy) == 0) by (nonlinear_arith);
    lemma_turn(a, m, b, c);
    lemma_turn(a, b, c, a);
    lemma_turn(a, c, a, m);
}

/// The sum of the sides of the box between two points.
pub open spec fn box_span(a: Vec2, b: Vec2) -> int {
    (if b.x.raw > a.x.raw {
        b.x.raw - a.x.raw
    } else {
        a.x.raw - b.x.raw
    }) + (if b.y.raw > a.y.raw {
        b.y.raw - a.y.raw
    } else {
        a.y.raw - b.y.raw
    })
}

/// Wherever the middle of the split edge falls, rounding moves it by less than
/// a step, and the turns of the padded triangle with it: the new corner is
/// straight, and the others keep half the triangle's turn, but for at most half
/// the sides of the box round an edge.
pub proof fn law_padded_triangle_is_nearly_convex(a: Vec2, b: Vec2, c: Vec2)
    ensures
        -box_span(a, b) <= 2 * turn(a, midpoint(a, b), b) <= box_span(a, b),
        -box_span(b, c) <= 2 * turn(midpoint(a, b), b, c) - turn(a, b, c) <= box_span(b, c),
        turn(b, c, a) == turn(a, b, c),
        -box_span(c, a) <= 2 * turn(c, a, midpoint(a, b)) - turn(a, b, c) <= box_span(c, a),
{
    let m = midpoint(a, b);
    let (ax, ay) = (a.x.raw as int, a.y.raw as int);
    let (bx, by) = (b.x.raw as int, b.y.raw as int);
    let (cx, cy) = (c.x.raw as int, c.y.raw as int);
    let (mx, my) = (m.x.raw as int, m.y.raw as int);
    let (ex, ey) = (ax + bx - 2 * mx, ay + by - 2 * my);
    assert(0 <= ex <= 1 && 0 <= ey <= 1);
    lemma_half_step(bx - ax, by - ay, ex, ey);
    lemma_half_step(cx - bx, cy - by, ex, ey);
    lemma_half_step(ax - cx, ay - cy, ex, ey);
    lemma_turn_starts_anywhere(a, b, c);
    lemma_turn_starts_anywhere(b, c, a);
    lemma_turn_starts_anywhere(m, b, c);
    assert(2 * hull::cross(mx - ax, my - ay, bx - ax, by - ay) == ey * (bx - ax) - ex * (by - ay))
        by (nonlinear_arith)
        requires
            2 * mx == ax + bx - ex,
            2 * my == ay + by - ey,
    ;
    assert(2 * hull::cross(cx - bx, cy - by, mx - bx, my - by) == hull::cross(
        cx - bx,
        cy - by,
        ax - bx,
        ay - by,
    ) - (ey * (cx - bx) - ex * (cy - by))) by (nonlinear_arith)
        requires
            2 * mx == ax + bx - ex,
            2 * my == ay + by - ey,
    ;
    assert(2 * hull::cross(ax - cx, ay - cy, mx - cx, my - cy) == hull::cross(
        ax - cx,
        ay - cy,
        bx - cx,
        by - cy,
    ) - (ey * (ax - cx) - ex * (ay - cy))) by (nonlinear_arith)
        requires
            2 * mx == ax + bx - ex,
            2 * my == ay + by - ey,
    ;
}

/// A turn is the same from whichever of its three points it starts.
proof fn lemma_turn_starts_anywhere(a: Vec2, b: Vec2, c: Vec2)
    ensures
        turn(b, c, a) == turn(a, b, c),
{
    let (ax, ay) = (a.x.raw as int, a.y.raw as int);
    let (bx, by) = (b.x.raw as int, b.y.raw as int);
    let (cx, cy) = (c.x.raw as int, c.y.raw as int);
    assert(hull::cross(cx - bx, cy - by, ax - bx, ay - by) == hull::cross(
        bx - ax,
        by - ay,
        cx - ax,
        cy - ay,
    )) by (nonlinear_arith);
}

/// Moving a corner by at most a step changes a turn by no more than the sides of
/// the box round the edge.
proof fn lemma_half_step(dx: int, dy: int, ex: int, ey: int)
    requires
        0 <= ex <= 1,
        0 <= ey <= 1,
    ensures
        -((if dx > 0 {
            dx
        } else {
            -dx
        }) + (if dy > 0 {
            dy
        } else {
            -dy
        })) <= ey * dx - ex * dy <= (if dx > 0 {
            dx
        } else {
            -dx
        }) + (if dy > 0 {
            dy
        } else {
            -dy
        }),
{
    assert(0 * dx == 0 && 1 * dx == dx && 0 * dy == 0 && 1 * dy == dy);
    assert(ex == 0 || ex == 1);
    assert(ey == 0 || ey == 1);
}

/// Rounding moves the middle of an edge by less than a step.
pub proof fn law_midpoint_is_halfway(a: Vec2, b: Vec2)
    ensures
        0 <= a.x.raw + b.x.raw - 2 * midpoint(a, b).x.raw <= 1,
        0 <= a.y.raw + b.y.raw - 2 * midpoint(a, b).y.raw <= 1,
{
}

/// Two hands that were found in the other order make the same region, unless
/// their fingertips span no area.
pub proof fn law_region_ignores_hand_order(
    source: TwoHandQuad,
    frame: HandFrame,
    other: HandFrame,
    l: int,
    r: int,
    m: int,
    n: int,
)
    requires
        frame.hands@.len() == 2,
        other.hands@ == seq![frame.hands@[1], frame.hands@[0]],
        is_pair(frame.hands@, l, r),
        is_pair(other.hands@, m, n),
    ensures
        has_area(anchors(source, frame, l, r)) == has_area(anchors(source, other, m, n)),
        has_area(anchors(source, frame, l, r)) ==> quad_of(anchors(source, frame, l, r)) == quad_of(
            anchors(source, other, m, n),
        ),
        !has_area(anchors(source, frame, l, r)) ==> quad_of(anchors(source, frame, l, r)) == anchors(
            source,
            frame,
            l,
            r,
        ),
{
    let a = anchors(source, frame, l, r);
    let b = anchors(source, other, m, n);
    assert(a == b || (a[0] == b[1] && a[1] == b[0] && a[2] == b[3] && a[3] == b[2]));
    assert forall|v: Vec2| a.contains(v) <==> b.contains(v) by {
        if a.contains(v) {
            let i = choose|i: int| 0 <= i < 4 && a[i] == v;
            assert(b[0] == v || b[1] == v || b[2] == v || b[3] == v);
        }
        if b.contains(v) {
            let i = choose|i: int| 0 <= i < 4 && b[i] == v;
            assert(a[0] == v || a[1] == v || a[2] == v || a[3] == v);
        }
    }
    law_corner_order_does_not_matter(a, b);
}

/// What is latched after a run of frames during which the freeze was held.
pub open spec fn latch_over(frames: Seq<Region>, latched: Option<Region>) -> Option<Region>
    decreases frames.len(),
{
    if frames.len() == 0 {
        latched
    } else {
        latch(frames.last(), latch_over(frames.drop_last(), latched), true)
    }
}

/// Without a freeze the drawn region is the live one, and nothing is latched.
pub proof fn law_unfrozen_follows(live: Region, latched: Option<Region>)
    ensures
        resolved(live, latched, false) == live,
        latch(live, latched, false) is None,
{
}

/// A frozen region stays as it was through any run of frames, with or without
/// hands in them.
pub proof fn law_frozen_stays(frozen: Region, frames: Seq<Region>, live: Region)
    ensures
        latch_over(frames, Some(frozen)) == Some(frozen),
        resolved(live, latch_over(frames, Some(frozen)), true) == frozen,
    decreases frames.len(),
{
    if frames.len() > 0 {
        law_frozen_stays(frozen, frames.drop_last(), live);
    }
}

/// A freeze asked for while no region is live waits, drawing nothing, and
/// takes the first region that appears.
pub proof fn law_freeze_waits_for_a_region(frames: Seq<Region>, live: Region)
    requires
        forall|i: int| 0 <= i < frames.len() ==> !(#[trigger] frames[i]).is_active(),
        live.is_active(),
    ensures
        latch_over(frames, None) is None,
        resolved(Region::Empty, latch_over(frames, None), true) == Region::Empty,
        latch(live, latch_over(frames, None), true) == Some(live),
        resolved(live, latch_over(frames, None), true) == live,
    decreases frames.len(),
{
    if frames.len() > 0 {
        let start = frames.drop_last();
        assert forall|i: int| 0 <= i < start.len() implies !(#[trigger] start[i]).is_active() by {
            assert(start[i] == frames[i]);
        }
        law_freeze_waits_for_a_region(start, live);
        assert(!frames[frames.len() - 1].is_active());
    }
}

/// Asking again changes nothing: a frame that is resolved twice draws the same.
pub proof fn law_resolve_is_stable(live: Region, latched: Option<Region>, freeze: bool)
    ensures
        resolved(live, latch(live, latched, freeze), freeze) == resolved(live, latched, freeze),
        latch(live, latch(live, latched, freeze), freeze) == latch(live, latched, freeze),
{
}

/// Two points are a millionth of a unit apart or more, by their coordinates.
pub open spec fn apart(a: Vec2, b: Vec2) -> bool {
    ((a.x.raw - b.x.raw) * (a.x.raw - b.x.raw) + (a.y.raw - b.y.raw) * (a.y.raw - b.y.raw))
        * 1_000_000_000_000 >= 0x1_0000_0000 * 0x1_0000_0000
}

/// Coordinates whose differences stay in range.
pub open spec fn in_bounds(p: Vec2) -> bool {
    -0x4000_0000_0000_0000 <= p.x.raw < 0x4000_0000_0000_0000 && -0x4000_0000_0000_0000 <= p.y.raw
        < 0x4000_0000_0000_0000
}

proof fn lemma_apart(a: Vec2, b: Vec2)
    requires
        apart(a, b),
        in_bounds(a),
        in_bounds(b),
    ensures
        !close(a, b),
        !close(b, a),
        a != b,
{
    let (x, y) = (a.x.raw - b.x.raw, a.y.raw - b.y.raw);
    assert((-x) * (-x) == x * x && (-y) * (-y) == y * y) by (nonlinear_arith);
    assert(a.minus(b).x.raw == x && a.minus(b).y.raw == y);
    assert(b.minus(a).x.raw == -x && b.minus(a).y.raw == -y);
    if a == b {
        assert(x == 0 && y == 0);
        assert(0int * 0int == 0);
    }
}

/// Corners that are all apart are all kept.
proof fn lemma_nothing_merged(h: Seq<Vec2>)
    requires
        forall|i: int, j: int|
            0 <= i < j < h.len() ==> apart(#[trigger] h[i], #[trigger] h[j]),
        forall|i: int| 0 <= i < h.len() ==> in_bounds(#[trigger] h[i]),
    ensures
        merged(h) == h,
    decreases h.len(),
{
    if h.len() > 0 {
        let start = h.drop_last();
        assert forall|i: int, j: int| 0 <= i < j < start.len() implies apart(
            #[trigger] start[i],
            #[trigger] start[j],
        ) by {
            assert(apart(h[i], h[j]));
        }
        assert forall|i: int| 0 <= i < start.len() implies in_bounds(#[trigger] start[i]) by {
            assert(in_bounds(h[i]));
        }
        lemma_nothing_merged(start);
        if start.len() > 0 {
            let n = h.len() - 1;
            assert(apart(h[n - 1], h[n]) && in_bounds(h[n - 1]) && in_bounds(h[n]));
            lemma_apart(h[n - 1], h[n]);
            assert(start.last() == h[n - 1]);
        }
        assert(merged(h) =~= h);
    } else {
        assert(merged(h) =~= h);
    }
}

/// Four fingertips that all stand out, a millionth of a unit apart or more, are
/// the corners of the quad, every one of them: none is left outside, and none
/// is replaced.
pub proof fn law_every_fingertip_is_a_corner(points: Seq<Vec2>, h: Seq<Vec2>)
    requires
        points.len() == 4,
        h.len() == 4,
        is_hull(points, h),
        forall|i: int, j: int| 0 <= i < j < 4 ==> apart(#[trigger] h[i], #[trigger] h[j]),
        forall|i: int| 0 <= i < 4 ==> in_bounds(#[trigger] points[i]),
    ensures
        quad_of(points) == h,
        forall|k: int| 0 <= k < 4 ==> quad_of(points).contains(#[trigger] points[k]),
{
    lemma_hull_bounds(points, h);
    lemma_nothing_merged(h);
    lemma_hull_unique(points, hull_of(points), h);
    assert(points.contains(h[0]) && points.contains(h[1]) && points.contains(h[2])
        && points.contains(h[3]));
    let a = choose|a: int| 0 <= a < 4 && points[a] == h[0];
    let b = choose|b: int| 0 <= b < 4 && points[b] == h[1];
    let c = choose|c: int| 0 <= c < 4 && points[c] == h[2];
    let d = choose|d: int| 0 <= d < 4 && points[d] == h[3];
    assert(apart(h[0], h[1]) && apart(h[0], h[2]) && apart(h[0], h[3]) && apart(h[1], h[2]) && apart(
        h[1],
        h[3],
    ) && apart(h[2], h[3]));
    lemma_apart(h[0], h[1]);
    lemma_apart(h[0], h[2]);
    lemma_apart(h[0], h[3]);
    lemma_apart(h[1], h[2]);
    lemma_apart(h[1], h[3]);
    lemma_apart(h[2], h[3]);
    assert(a != b && a != c && a != d && b != c && b != d && c != d);
    assert forall|k: int| 0 <= k < 4 implies quad_of(points).contains(#[trigger] points[k]) by {
        assert(k == a || k == b || k == c || k == d);
        assert(h[0] == points[k] || h[1] == points[k] || h[2] == points[k] || h[3] == points[k]);
    }
}

proof fn lemma_hull_bounds(points: Seq<Vec2>, h: Seq<Vec2>)
    requires
        is_hull(points, h),
        forall|i: int| 0 <= i < points.len() ==> in_bounds(#[trigger] points[i]),
    ensures
        forall|i: int| 0 <= i < h.len() ==> in_bounds(#[trigger] h[i]),
{
    assert forall|i: int| 0 <= i < h.len() implies in_bounds(#[trigger] h[i]) by {
        assert(points.contains(h[i]));
        let k = choose|k: int| 0 <= k < points.len() && points[k] == h[i];
        assert(in_bounds(points[k]));
    }
}

/// The square of the distance between two points, by their coordinates.
pub open spec fn distance2(a: Vec2, b: Vec2) -> int {
    (a.x.raw - b.x.raw) * (a.x.raw - b.x.raw) + (a.y.raw - b.y.raw) * (a.y.raw - b.y.raw)
}

/// `m` lies halfway between `a` and `b`, rounded down to a step.
pub open spec fn is_halfway(m: Vec2, a: Vec2, b: Vec2) -> bool {
    &&& 0 <= a.x.raw + b.x.raw - 2 * m.x.raw <= 1
    &&& 0 <= a.y.raw + b.y.raw - 2 * m.y.raw <= 1
}

/// `q` is the triangle `a`, `b`, `c` with one more corner, halfway along its
/// longest side, the last of them where two are equal.
pub open spec fn is_split(q: Seq<Vec2>, a: Vec2, b: Vec2, c: Vec2) -> bool {
    let (ab, bc, ca) = (distance2(a, b), distance2(b, c), distance2(c, a));
    &&& q.len() == 4
    &&& q[0] == a
    &&& {
        ||| q[2] == b && q[3] == c && is_halfway(q[1], a, b) && ab > bc && ab > ca
        ||| q[1] == b && q[3] == c && is_halfway(q[2], b, c) && bc >= ab && bc > ca
        ||| q[1] == b && q[2] == c && is_halfway(q[3], c, a) && ca >= ab && ca >= bc
    }
}

proof fn lemma_split(t: Seq<Vec2>)
    requires
        t.len() == 3,
        in_bounds(t[0]),
        in_bounds(t[1]),
        in_bounds(t[2]),
    ensures
        is_split(padded(t), t[0], t[1], t[2]),
{
    assert(edge(t, 0) == distance2(t[0], t[1]));
    assert(edge(t, 1) == distance2(t[1], t[2]));
    assert(edge(t, 2) == distance2(t[2], t[0]));
}

/// Three fingertips apart with the fourth among them are all corners of the
/// quad, in the order of the hull; the one more corner stands between two of
/// them, halfway along the longest side.
pub proof fn law_triangle_keeps_its_corners(points: Seq<Vec2>, h: Seq<Vec2>)
    requires
        points.len() == 4,
        h.len() == 3,
        is_hull(points, h),
        forall|i: int, j: int| 0 <= i < j < 3 ==> apart(#[trigger] h[i], #[trigger] h[j]),
        forall|i: int| 0 <= i < 4 ==> in_bounds(#[trigger] points[i]),
    ensures
        is_split(quad_of(points), h[0], h[1], h[2]),
{
    lemma_hull_bounds(points, h);
    lemma_nothing_merged(h);
    lemma_hull_unique(points, hull_of(points), h);
    assert(in_bounds(h[0]) && in_bounds(h[1]) && in_bounds(h[2]));
    lemma_split(h);
}

/// Two fingertips less than a millionth of a unit apart count as one: the quad
/// is that of the other three, so that no edge is without a direction.
pub proof fn law_fingertips_together_count_as_one(points: Seq<Vec2>, h: Seq<Vec2>, k: int)
    requires
        points.len() == 4,
        h.len() == 4,
        is_hull(points, h),
        1 <= k < 4,
        !apart(h[k - 1], h[k]),
        forall|i: int, j: int|
            0 <= i < j < 4 && i != k && j != k ==> apart(#[trigger] h[i], #[trigger] h[j]),
        forall|i: int| 0 <= i < 4 ==> in_bounds(#[trigger] points[i]),
    ensures
        ({
            let t = h.remove(k);
            is_split(quad_of(points), t[0], t[1], t[2])
        }),
{
    lemma_hull_bounds(points, h);
    lemma_hull_unique(points, hull_of(points), h);
    assert(in_bounds(h[0]) && in_bounds(h[1]) && in_bounds(h[2]) && in_bounds(h[3]));
    let t = h.remove(k);
    assert(t.len() == 3);
    assert(apart(t[0], t[1]) && apart(t[1], t[2]));
    lemma_apart(t[0], t[1]);
    lemma_apart(t[1], t[2]);
    lemma_together(h[k - 1], h[k]);
    let (h3, h2, h1) = (h.drop_last(), h.drop_last().drop_last(), h.drop_last().drop_last().drop_last());
    reveal_with_fuel(merged, 5);
    assert(h1.drop_last() =~= seq![]);
    assert(merged(h1) =~= seq![h[0]]);
    assert(merged(h2) =~= if k == 1 {
        seq![h[0]]
    } else {
        seq![h[0], h[1]]
    });
    assert(merged(h3) =~= if k == 1 {
        seq![h[0], h[2]]
    } else if k == 2 {
        seq![h[0], h[1]]
    } else {
        seq![h[0], h[1], h[2]]
    });
    assert(merged(h) =~= t);
    lemma_split(t);
}

proof fn lemma_together(a: Vec2, b: Vec2)
    requires
        !apart(a, b),
        in_bounds(a),
        in_bounds(b),
    ensures
        close(b, a),
{
    let (x, y) = (a.x.raw - b.x.raw, a.y.raw - b.y.raw);
    assert((-x) * (-x) == x * x && (-y) * (-y) == y * y) by (nonlinear_arith);
    assert(b.minus(a).x.raw == -x && b.minus(a).y.raw == -y);
}

/// Points on one line span no area and come back as they are.
pub proof fn law_flat_points_pass_through(points: Seq<Vec2>)
    requires
        forall|i: int, j: int, k: int|
            0 <= i < points.len() && 0 <= j < points.len() && 0 <= k < points.len() ==> turn(
                #[trigger] points[i],
                #[trigger] points[j],
                #[trigger] points[k],
            ) == 0,
    ensures
        quad_of(points) == points,
{
    lemma_flat_has_no_hull(points, hull_of(points));
}

/// The tips of two hands' index fingers and thumbs.
pub open spec fn framing_tips(left: Hand, right: Hand) -> Seq<Vec2> {
    let (a, b) = (left.landmarks, right.landmarks);
    seq![
        Vec2 { x: a[8].x, y: a[8].y },
        Vec2 { x: b[8].x, y: b[8].y },
        Vec2 { x: b[4].x, y: b[4].y },
        Vec2 { x: a[4].x, y: a[4].y },
    ]
}

/// There is one pair of hands to a frame.
proof fn lemma_one_pair(hands: Seq<Hand>, l: int, r: int, m: int, n: int)
    requires
        is_pair(hands, l, r),
        is_pair(hands, m, n),
    ensures
        l == m,
        r == n,
{
    if m != l && m != r {
        assert(left_of(hands, r, m));
    }
    if n != l && n != r {
        assert(left_of(hands, r, n));
    }
    if l != m && l != n {
        assert(left_of(hands, n, l));
    }
    if r != m && r != n {
        assert(left_of(hands, n, r));
    }
}

/// Hands held up make a window between the index fingers and thumbs of the two
/// leftmost: each of the four tips is a corner of it. Fewer than two hands make
/// none.
pub proof fn law_window_is_between_index_and_thumb_tips(
    frame: HandFrame,
    region: Region,
    l: int,
    r: int,
    h: Seq<Vec2>,
    k: int,
)
    requires
        spans(TwoHandQuad { top: Finger::Index, bottom: Finger::Thumb }, frame, region),
    ensures
        region.is_active() <==> frame.hands@.len() >= 2,
        is_pair(frame.hands@, l, r) && is_hull(
            framing_tips(frame.hands@[l], frame.hands@[r]),
            h,
        ) && h.len() == 4 && (forall|i: int, j: int|
            0 <= i < j < 4 ==> apart(#[trigger] h[i], #[trigger] h[j])) && (forall|i: int|
            0 <= i < 4 ==> in_bounds(
                #[trigger] framing_tips(frame.hands@[l], frame.hands@[r])[i],
            )) && 0 <= k < 4 ==> (region matches Region::Quad(c) && c@.contains(
            framing_tips(frame.hands@[l], frame.hands@[r])[k],
        )),
{
    let source = TwoHandQuad { top: Finger::Index, bottom: Finger::Thumb };
    if region is Quad {
        let c = region->Quad_0;
        let (m, n) = choose|m: int, n: int| #[trigger]
            is_pair(frame.hands@, m, n) && c@ == quad_of(anchors(source, frame, m, n));
        if is_pair(frame.hands@, l, r) {
            lemma_one_pair(frame.hands@, l, r, m, n);
            let a = framing_tips(frame.hands@[l], frame.hands@[r]);
            assert(a =~= anchors(source, frame, m, n));
            if is_hull(a, h) && h.len() == 4 && (forall|i: int, j: int|
                0 <= i < j < 4 ==> apart(#[trigger] h[i], #[trigger] h[j])) && (forall|i: int|
                0 <= i < 4 ==> in_bounds(#[trigger] a[i])) && 0 <= k < 4 {
                law_every_fingertip_is_a_corner(a, h);
                assert(quad_of(a).contains(a[k]));
            }
        }
    }
}

/// The path a, b, c turns the way that leads from +x to +y, by coordinates.
pub open spec fn turns(a: Vec2, b: Vec2, c: Vec2) -> bool {
    (b.x.raw - a.x.raw) * (c.y.raw - a.y.raw) > (b.y.raw - a.y.raw) * (c.x.raw - a.x.raw)
}

/// Four points that already walk round a convex shape, a millionth of a unit
/// apart or more, make a quad of just those points in that order, from
/// whichever of them it starts.
pub proof fn law_convex_quad_is_kept(p: Seq<Vec2>)
    requires
        p.len() == 4,
        turns(p[0], p[1], p[2]),
        turns(p[1], p[2], p[3]),
        turns(p[2], p[3], p[0]),
        turns(p[3], p[0], p[1]),
        forall|i: int, j: int| 0 <= i < j < 4 ==> apart(#[trigger] p[i], #[trigger] p[j]),
        forall|i: int| 0 <= i < 4 ==> in_bounds(#[trigger] p[i]),
    ensures
        ({
            let q = quad_of(p);
            ||| q == p
            ||| q == seq![p[1], p[2], p[3], p[0]]
            ||| q == seq![p[2], p[3], p[0], p[1]]
            ||| q == seq![p[3], p[0], p[1], p[2]]
        }),
{
    let (a, b, c, d) = (p[0], p[1], p[2], p[3]);
    assert(p =~= seq![a, b, c, d]);
    assert(apart(p[0], p[1]) && apart(p[0], p[2]) && apart(p[0], p[3]) && apart(p[1], p[2]) && apart(
        p[1],
        p[3],
    ) && apart(p[2], p[3]));
    assert(in_bounds(p[0]) && in_bounds(p[1]) && in_bounds(p[2]) && in_bounds(p[3]));
    if hull::before(a, b) && hull::before(a, c) && hull::before(a, d) {
        lemma_walk(p, a, b, c, d);
    } else if hull::before(b, a) && hull::before(b, c) && hull::before(b, d) {
        lemma_walk(p, b, c, d, a);
    } else if hull::before(c, a) && hull::before(c, b) && hull::before(c, d) {
        lemma_walk(p, c, d, a, b);
    } else {
        lemma_walk(p, d, a, b, c);
    }
}

/// A convex walk from the leftmost point is the quad.
proof fn lemma_walk(p: Seq<Vec2>, a: Vec2, b: Vec2, c: Vec2, d: Vec2)
    requires
        p == seq![a, b, c, d] || p == seq![d, a, b, c] || p == seq![c, d, a, b] || p == seq![b, c, d, a],
        turns(a, b, c),
        turns(b, c, d),
        turns(c, d, a),
        turns(d, a, b),
        hull::before(a, b),
        hull::before(a, c),
        hull::before(a, d),
        apart(a, b) || apart(b, a),
        apart(a, c) || apart(c, a),
        apart(a, d) || apart(d, a),
        apart(b, c) || apart(c, b),
        apart(b, d) || apart(d, b),
        apart(c, d) || apart(d, c),
        in_bounds(a),
        in_bounds(b),
        in_bounds(c),
        in_bounds(d),
    ensures
        quad_of(p) == seq![a, b, c, d],
{
    let h = seq![a, b, c, d];
    lemma_apart_either_way(a, b);
    lemma_apart_either_way(a, c);
    lemma_apart_either_way(a, d);
    lemma_apart_either_way(b, c);
    lemma_apart_either_way(b, d);
    lemma_apart_either_way(c, d);
    lemma_turn_starts_anywhere(d, a, b);
    lemma_turn_starts_anywhere(a, b, c);
    lemma_turn_starts_anywhere(b, c, d);
    lemma_turn_starts_anywhere(c, d, a);
    lemma_turn(a, b, b, b);
    lemma_turn(b, c, c, c);
    lemma_turn(c, d, d, d);
    lemma_turn(d, a, a, a);
    assert(h[0] == a && h[1] == b && h[2] == c && h[3] == d);
    assert(p.contains(a) && p.contains(b) && p.contains(c) && p.contains(d)) by {
        assert(p[0] == a || p[1] == a || p[2] == a || p[3] == a);
        assert(p[0] == b || p[1] == b || p[2] == b || p[3] == b);
        assert(p[0] == c || p[1] == c || p[2] == c || p[3] == c);
        assert(p[0] == d || p[1] == d || p[2] == d || p[3] == d);
    }
    assert forall|i: int, k: int| 0 <= i < 4 && 0 <= k < 4 implies #[trigger] borders(h, i, p[k]) by {
        assert(p[k] == a || p[k] == b || p[k] == c || p[k] == d);
        assert(i == 0 || i == 1 || i == 2 || i == 3);
    }
    assert forall|i: int| 0 <= i < 4 implies #[trigger] bends(h, i) by {
        assert(i == 0 || i == 1 || i == 2 || i == 3);
    }
    assert forall|k: int| 0 <= k < 4 implies hull::before(h[0], #[trigger] p[k]) by {
        assert(p[k] == a || p[k] == b || p[k] == c || p[k] == d);
    }
    assert(is_hull(p, h));
    assert forall|i: int, j: int| 0 <= i < j < 4 implies apart(#[trigger] h[i], #[trigger] h[j]) by {
        assert(i == 0 || i == 1 || i == 2);
        assert(j == 1 || j == 2 || j == 3);
    }
    assert forall|i: int| 0 <= i < 4 implies in_bounds(#[trigger] p[i]) by {
        assert(p[i] == a || p[i] == b || p[i] == c || p[i] == d);
    }
    law_every_fingertip_is_a_corner(p, h);
}

proof fn lemma_apart_either_way(a: Vec2, b: Vec2)
    ensures
        apart(a, b) == apart(b, a),
{
    let (x, y) = (a.x.raw - b.x.raw, a.y.raw - b.y.raw);
    assert((-x) * (-x) == x * x && (-y) * (-y) == y * y) by (nonlinear_arith);
    assert(b.x.raw - a.x.raw == -x && b.y.raw - a.y.raw == -y);
}

} // verus!
