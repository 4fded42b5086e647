//! The convex hull of a few points.
//!
//! Everything here rests on the sign of [`turn`], which [`turn_sign`] computes
//! exactly for any three points.

use crate::vector::Vec2;
use vstd::arithmetic::mul::{
    lemma_mul_is_associative, lemma_mul_is_commutative, lemma_mul_is_distributive_sub,
    lemma_mul_is_distributive_sub_other_way,
};
use vstd::prelude::*;

verus! {

/// Twice the signed area of the triangle from the origin over (ax, ay) and
/// (bx, by).
pub open spec fn cross(ax: int, ay: int, bx: int, by: int) -> int {
    ax * by - ay * bx
}

/// Twice the signed area of the triangle `o`, `a`, `b`, in squared steps:
/// positive when the path from `o` over `a` to `b` turns from +x towards +y.
pub open spec fn turn(o: Vec2, a: Vec2, b: Vec2) -> int {
    cross(
        a.x.raw - o.x.raw,
        a.y.raw - o.y.raw,
        b.x.raw - o.x.raw,
        b.y.raw - o.y.raw,
    )
}

/// `a` lies to the left of `b`, or straight above it, or on it.
pub open spec fn before(a: Vec2, b: Vec2) -> bool {
    a.x.raw < b.x.raw || (a.x.raw == b.x.raw && a.y.raw <= b.y.raw)
}

/// `h` walks the corners of the convex hull of `points`, starting at the
/// leftmost: every corner is one of the points and a strict turn, and no point
/// lies outside an edge.
pub open spec fn is_hull(points: Seq<Vec2>, h: Seq<Vec2>) -> bool {
    &&& 3 <= h.len() <= points.len()
    &&& forall|i: int| 0 <= i < h.len() ==> points.contains(#[trigger] h[i])
    &&& forall|k: int| 0 <= k < points.len() ==> before(h[0], #[trigger] points[k])
    &&& forall|i: int| 0 <= i < h.len() ==> #[trigger] bends(h, i)
    &&& forall|i: int, k: int|
        0 <= i < h.len() && 0 <= k < points.len() ==> #[trigger] borders(h, i, points[k])
}

/// The path turns strictly at the corner after `i`.
pub open spec fn bends(h: Seq<Vec2>, i: int) -> bool {
    turn(h[i], follow(h, i + 1), follow(h, i + 2)) > 0
}

/// `p` does not lie outside the edge that leaves corner `i`.
pub open spec fn borders(h: Seq<Vec2>, i: int, p: Vec2) -> bool {
    turn(h[i], follow(h, i + 1), p) >= 0
}

/// Corner `i` of a closed path.
pub open spec fn follow(h: Seq<Vec2>, i: int) -> Vec2 {
    h[if i < h.len() {
        i
    } else {
        i - h.len()
    }]
}

/// An offset that points right, or straight down.
pub open spec fn forward(x: int, y: int) -> bool {
    x > 0 || (x == 0 && y > 0)
}

/// A triangle's area does not depend on the corner it is measured from.
pub proof fn lemma_turn(o: Vec2, a: Vec2, b: Vec2, c: Vec2)
    ensures
        turn(a, b, c) == turn(o, a, b) + turn(o, b, c) + turn(o, c, a),
        turn(o, a, b) == -turn(o, b, a),
        turn(o, b, c) == -turn(o, c, b),
        turn(o, c, a) == -turn(o, a, c),
        turn(o, o, a) == 0,
        turn(o, a, a) == 0,
        turn(o, b, b) == 0,
        turn(o, a, o) == 0,
{
    lemma_cross_shift(
        a.x.raw - o.x.raw,
        a.y.raw - o.y.raw,
        b.x.raw - o.x.raw,
        b.y.raw - o.y.raw,
        c.x.raw - o.x.raw,
        c.y.raw - o.y.raw,
    );
    lemma_cross_flip(a.x.raw - o.x.raw, a.y.raw - o.y.raw, b.x.raw - o.x.raw, b.y.raw - o.y.raw);
    lemma_cross_flip(c.x.raw - o.x.raw, c.y.raw - o.y.raw, b.x.raw - o.x.raw, b.y.raw - o.y.raw);
    lemma_cross_flip(a.x.raw - o.x.raw, a.y.raw - o.y.raw, c.x.raw - o.x.raw, c.y.raw - o.y.raw);
    lemma_cross_flip(a.x.raw - o.x.raw, a.y.raw - o.y.raw, a.x.raw - o.x.raw, a.y.raw - o.y.raw);
    lemma_cross_flip(b.x.raw - o.x.raw, b.y.raw - o.y.raw, b.x.raw - o.x.raw, b.y.raw - o.y.raw);
}

proof fn lemma_cross_shift(ax: int, ay: int, bx: int, by: int, cx: int, cy: int)
    ensures
        cross(bx - ax, by - ay, cx - ax, cy - ay) == cross(ax, ay, bx, by) + cross(bx, by, cx, cy)
            + cross(cx, cy, ax, ay),
{
    lemma_mul_is_distributive_sub_other_way(cy - ay, bx, ax);
    lemma_mul_is_distributive_sub(bx, cy, ay);
    lemma_mul_is_distributive_sub(ax, cy, ay);
    lemma_mul_is_distributive_sub_other_way(cx - ax, by, ay);
    lemma_mul_is_distributive_sub(by, cx, ax);
    lemma_mul_is_distributive_sub(ay, cx, ax);
    lemma_mul_is_commutative(ax, by);
    lemma_mul_is_commutative(ax, ay);
    lemma_mul_is_commutative(ax, cy);
    lemma_mul_is_commutative(ay, bx);
    lemma_mul_is_commutative(ay, cx);
}

proof fn lemma_cross_flip(ax: int, ay: int, bx: int, by: int)
    ensures
        cross(ax, ay, bx, by) == -cross(bx, by, ax, ay),
        cross(0, 0, ax, ay) == 0,
        cross(ax, ay, 0, 0) == 0,
{
    lemma_mul_is_commutative(ax, by);
    lemma_mul_is_commutative(ay, bx);
}

/// A product of three in any grouping.
proof fn lemma_regroup(a: int, b: int, c: int)
    ensures
        a * (b * c) == b * (a * c),
        a * (b * c) == c * (a * b),
        a * (b * c) == (a * b) * c,
        a * (b * c) == (b * a) * c,
        a * (b * c) == c * (b * a),
{
    lemma_mul_is_associative(a, b, c);
    lemma_mul_is_associative(b, a, c);
    lemma_mul_is_commutative(a, b);
    lemma_mul_is_commutative(a * b, c);
}

/// The areas that three offsets span between them weigh their coordinates to
/// zero.
proof fn lemma_three_areas(ax: int, ay: int, bx: int, by: int, cx: int, cy: int)
    ensures
        bx * cross(ax, ay, cx, cy) == ax * cross(bx, by, cx, cy) + cx * cross(ax, ay, bx, by),
{
    lemma_mul_is_distributive_sub(bx, ax * cy, ay * cx);
    lemma_mul_is_distributive_sub(ax, bx * cy, by * cx);
    lemma_mul_is_distributive_sub(cx, ax * by, ay * bx);
    lemma_regroup(bx, ax, cy);
    lemma_regroup(bx, ay, cx);
    lemma_regroup(ax, by, cx);
    lemma_regroup(cx, ax, by);
    lemma_regroup(cx, ay, bx);
}

/// Turning on within a half plane never comes back round.
proof fn lemma_transitive(ax: int, ay: int, bx: int, by: int, cx: int, cy: int)
    requires
        forward(ax, ay),
        forward(bx, by),
        forward(cx, cy),
        cross(ax, ay, bx, by) > 0,
        cross(bx, by, cx, cy) > 0,
    ensures
        cross(ax, ay, cx, cy) > 0,
{
    lemma_three_areas(ax, ay, bx, by, cx, cy);
    if bx == 0 {
        assert(cross(bx, by, cx, cy) <= 0) by (nonlinear_arith)
            requires
                bx == 0,
                by > 0,
                cx >= 0,
        ;
    }
    if ax == 0 {
        assert(cross(ax, ay, bx, by) <= 0) by (nonlinear_arith)
            requires
                ax == 0,
                ay > 0,
                bx >= 0,
        ;
    }
    let abc = cross(bx, by, cx, cy);
    let ab = cross(ax, ay, bx, by);
    let ac = cross(ax, ay, cx, cy);
    assert(ax * abc > 0 && cx * ab >= 0) by (nonlinear_arith)
        requires
            ax > 0,
            abc > 0,
            cx >= 0,
            ab > 0,
    ;
    lemma_positive_multiple(bx, ac);
}

/// Areas along one ray grow with the distance.
proof fn lemma_along(ax: int, ay: int, px: int, py: int, nx: int, ny: int)
    requires
        cross(ax, ay, px, py) == 0,
    ensures
        ax * cross(px, py, nx, ny) == px * cross(ax, ay, nx, ny),
{
    lemma_mul_is_distributive_sub(ax, px * ny, py * nx);
    lemma_mul_is_distributive_sub(px, ax * ny, ay * nx);
    lemma_regroup(ax, px, ny);
    lemma_regroup(px, ax, ny);
    lemma_regroup(ax, py, nx);
    lemma_regroup(px, ay, nx);
    assert((ax * py) * nx == (ay * px) * nx);
}

/// Offsets along one ray lie on the same side of every other offset.
proof fn lemma_same_ray(ax: int, ay: int, px: int, py: int, nx: int, ny: int)
    requires
        forward(ax, ay),
        forward(px, py),
        cross(ax, ay, px, py) == 0,
    ensures
        cross(ax, ay, nx, ny) > 0 <==> cross(px, py, nx, ny) > 0,
        cross(ax, ay, nx, ny) < 0 <==> cross(px, py, nx, ny) < 0,
{
    let an = cross(ax, ay, nx, ny);
    let pn = cross(px, py, nx, ny);
    if ax > 0 {
        if px == 0 {
            assert(ax * py > 0) by (nonlinear_arith)
                requires
                    ax > 0,
                    py > 0,
            ;
            assert(ay * px == 0) by (nonlinear_arith)
                requires
                    px == 0,
            ;
        }
        lemma_along(ax, ay, px, py, nx, ny);
        lemma_sign(ax, pn, px, an);
    } else {
        assert(px == 0) by (nonlinear_arith)
            requires
                ax == 0,
                ay > 0,
                ax * py - ay * px == 0,
        ;
        assert(an == -(ay * nx) && pn == -(py * nx)) by (nonlinear_arith)
            requires
                ax == 0,
                px == 0,
                an == ax * ny - ay * nx,
                pn == px * ny - py * nx,
        ;
        assert(ay * -(py * nx) == py * -(ay * nx)) by (nonlinear_arith);
        lemma_sign(ay, pn, py, an);
    }
}

/// A positive multiple has the sign of what was multiplied.
proof fn lemma_positive_multiple(k: int, p: int)
    requires
        k > 0,
    ensures
        k * p > 0 <==> p > 0,
        k * p < 0 <==> p < 0,
{
    if p > 0 {
        assert(k * p > 0) by (nonlinear_arith)
            requires
                k > 0,
                p > 0,
        ;
    } else if p < 0 {
        assert(k * p < 0) by (nonlinear_arith)
            requires
                k > 0,
                p < 0,
        ;
    }
}

/// Positive multiples that agree come from numbers of one sign.
proof fn lemma_sign(k: int, p: int, m: int, q: int)
    requires
        k > 0,
        m > 0,
        k * p == m * q,
    ensures
        p > 0 <==> q > 0,
        p < 0 <==> q < 0,
{
    lemma_positive_multiple(k, p);
    lemma_positive_multiple(m, q);
}

/// An offset on the way to (ax, ay) spans less area with a third one.
proof fn lemma_nearer(ax: int, ay: int, px: int, py: int, nx: int, ny: int)
    requires
        forward(ax, ay),
        forward(px, py),
        cross(ax, ay, px, py) == 0,
        px < ax || (px == ax && py <= ay),
        cross(ax, ay, nx, ny) >= 0,
    ensures
        0 <= cross(px, py, nx, ny) <= cross(ax, ay, nx, ny),
{
    lemma_same_ray(ax, ay, px, py, nx, ny);
    let an = cross(ax, ay, nx, ny);
    let pn = cross(px, py, nx, ny);
    if ax > 0 {
        lemma_along(ax, ay, px, py, nx, ny);
        assert(px * an <= ax * an) by (nonlinear_arith)
            requires
                0 <= px <= ax,
                an >= 0,
        ;
        assert(ax * (an - pn) == ax * an - ax * pn) by (nonlinear_arith);
        lemma_positive_multiple(ax, an - pn);
    } else {
        assert(px == 0 && py <= ay);
        assert(an == -(ay * nx) && pn == -(py * nx)) by (nonlinear_arith)
            requires
                ax == 0,
                px == 0,
                an == ax * ny - ay * nx,
                pn == px * ny - py * nx,
        ;
        assert(ay * (-nx) == -(ay * nx)) by (nonlinear_arith);
        lemma_positive_multiple(ay, -nx);
        assert(py * (-nx) <= ay * (-nx)) by (nonlinear_arith)
            requires
                0 < py <= ay,
                -nx >= 0,
        ;
        assert(py * (-nx) == -(py * nx)) by (nonlinear_arith);
    }
}

/// A whole number of up to 128 binary digits and its sign.
struct Signed {
    negative: bool,
    size: u128,
}

impl Signed {
    spec fn value(self) -> int {
        if self.negative {
            -(self.size as int)
        } else {
            self.size as int
        }
    }
}

/// The difference of two step counts.
fn difference(a: i64, b: i64) -> (d: Signed)
    ensures
        d.value() == a - b,
        d.size <= u64::MAX,
{
    let wide: i128 = a as i128 - b as i128;
    if wide < 0 {
        Signed { negative: true, size: (-wide) as u128 }
    } else {
        Signed { negative: false, size: wide as u128 }
    }
}

/// The product of two differences.
fn product(a: Signed, b: Signed) -> (p: Signed)
    requires
        a.size <= u64::MAX,
        b.size <= u64::MAX,
    ensures
        p.value() == a.value() * b.value(),
{
    assert(0 <= a.size * b.size <= u128::MAX) by (nonlinear_arith)
        requires
            0 <= a.size <= u64::MAX,
            0 <= b.size <= u64::MAX,
    ;
    let p = Signed { negative: a.negative != b.negative, size: a.size * b.size };
    proof {
        let x = a.size as int;
        let y = b.size as int;
        assert((-x) * y == -(x * y) && x * (-y) == -(x * y) && (-x) * (-y) == x * y)
            by (nonlinear_arith);
    }
    p
}

/// Which way the path from `o` over `a` to `b` turns: 1 from +x towards +y, -1
/// the other way, 0 if the three lie on one line.
pub fn turn_sign(o: Vec2, a: Vec2, b: Vec2) -> (s: i8)
    ensures
        s == if turn(o, a, b) > 0 {
            1i8
        } else if turn(o, a, b) < 0 {
            -1i8
        } else {
            0i8
        },
{
    let p = product(difference(a.x.raw, o.x.raw), difference(b.y.raw, o.y.raw));
    let q = product(difference(a.y.raw, o.y.raw), difference(b.x.raw, o.x.raw));
    assert(turn(o, a, b) == p.value() - q.value());
    if p.negative && !q.negative {
        if p.size == 0 && q.size == 0 {
            0
        } else {
            -1
        }
    } else if !p.negative && q.negative {
        if p.size == 0 && q.size == 0 {
            0
        } else {
            1
        }
    } else if p.size == q.size {
        0
    } else if (p.size > q.size) != p.negative {
        1
    } else {
        -1
    }
}

/// Whether `a` lies to the left of `b`, or straight above it, or on it.
pub fn comes_before(a: Vec2, b: Vec2) -> (yes: bool)
    ensures
        yes == before(a, b),
{
    a.x.raw < b.x.raw || (a.x.raw == b.x.raw && a.y.raw <= b.y.raw)
}

/// The corners seen from `o` in turning order, one for each direction.
pub open spec fn is_fan(o: Vec2, fan: Seq<Vec2>) -> bool {
    &&& forall|i: int| 0 <= i < fan.len() ==> ahead(o, #[trigger] fan[i])
    &&& forall|i: int, j: int|
        0 <= i < j < fan.len() ==> turn(o, #[trigger] fan[i], #[trigger] fan[j]) > 0
}

/// `p` lies past `o` in the order from left to right.
pub open spec fn ahead(o: Vec2, p: Vec2) -> bool {
    forward(p.x.raw - o.x.raw, p.y.raw - o.y.raw)
}

/// `p` lies on the way from `o` to the corner `a`.
pub open spec fn on_ray(o: Vec2, a: Vec2, p: Vec2) -> bool {
    ahead(o, p) && turn(o, a, p) == 0 && before(p, a)
}

/// `p` is `o` itself, or some corner of the fan hides it.
pub open spec fn covered(o: Vec2, fan: Seq<Vec2>, p: Vec2) -> bool {
    p == o || exists|i: int| 0 <= i < fan.len() && on_ray(o, #[trigger] fan[i], p)
}

/// Corners further round stay further round.
proof fn lemma_further(o: Vec2, a: Vec2, b: Vec2, c: Vec2)
    requires
        ahead(o, a),
        ahead(o, b),
        ahead(o, c),
        turn(o, a, b) > 0,
        turn(o, b, c) > 0,
    ensures
        turn(o, a, c) > 0,
{
    lemma_transitive(
        a.x.raw - o.x.raw,
        a.y.raw - o.y.raw,
        b.x.raw - o.x.raw,
        b.y.raw - o.y.raw,
        c.x.raw - o.x.raw,
        c.y.raw - o.y.raw,
    );
}

/// Two points in one direction are on the same side of a third.
proof fn lemma_one_direction(o: Vec2, a: Vec2, p: Vec2, n: Vec2)
    requires
        ahead(o, a),
        ahead(o, p),
        turn(o, a, p) == 0,
    ensures
        turn(o, a, n) > 0 <==> turn(o, p, n) > 0,
        turn(o, n, a) > 0 <==> turn(o, n, p) > 0,
        turn(o, a, n) == 0 <==> turn(o, p, n) == 0,
{
    lemma_same_ray(
        a.x.raw - o.x.raw,
        a.y.raw - o.y.raw,
        p.x.raw - o.x.raw,
        p.y.raw - o.y.raw,
        n.x.raw - o.x.raw,
        n.y.raw - o.y.raw,
    );
    lemma_turn(o, a, n, n);
    lemma_turn(o, p, n, n);
}

/// Adds a point to a fan: it takes its place in the turning order, or hides
/// the corner before it, or is hidden by it.
fn add_to_fan(o: Vec2, fan: &mut Vec<Vec2>, p: Vec2)
    requires
        is_fan(o, old(fan)@),
        before(o, p),
        old(fan)@.len() < 4,
    ensures
        is_fan(o, final(fan)@),
        covered(o, final(fan)@, p),
        forall|q: Vec2| covered(o, old(fan)@, q) ==> covered(o, final(fan)@, q),
        forall|i: int|
            0 <= i < final(fan)@.len() ==> #[trigger] final(fan)@[i] == p || old(fan)@.contains(
                final(fan)@[i],
            ),
        final(fan)@.len() <= old(fan)@.len() + 1,
        p == o ==> final(fan)@ == old(fan)@,
        final(fan)@.len() > old(fan)@.len() ==> final(fan)@.contains(p) && (forall|q: Vec2|
            old(fan)@.contains(q) ==> final(fan)@.contains(q)),
{
    let ghost start = fan@;
    if p == o {
        return;
    }
    assert(ahead(o, p));
    let mut i: usize = 0;
    while i < fan.len()
        invariant
            i <= fan.len(),
            fan@ == start,
            start == old(fan)@,
            start.len() < 4,
            is_fan(o, start),
            ahead(o, p),
            forall|k: int| 0 <= k < i ==> turn(o, #[trigger] start[k], p) > 0,
        decreases fan.len() - i,
    {
        let s: i8 = turn_sign(o, fan[i], p);
        if s == 0 {
            let corner = fan[i];
            if comes_before(corner, p) {
                fan[i] = p;
                proof {
                    lemma_hide(o, start, i as int, p);
                }
            } else {
                assert(on_ray(o, fan@[i as int], p));
            }
            return;
        }
        if s < 0 {
            fan.insert(i, p);
            proof {
                lemma_insert(o, start, i as int, p);
            }
            return;
        }
        i += 1;
    }
    fan.push(p);
    proof {
        assert(fan@ =~= start.insert(start.len() as int, p));
        lemma_insert(o, start, start.len() as int, p);
    }
}

/// Replacing a corner by one behind it.
proof fn lemma_hide(o: Vec2, fan: Seq<Vec2>, i: int, p: Vec2)
    requires
        is_fan(o, fan),
        0 <= i < fan.len(),
        ahead(o, p),
        turn(o, fan[i], p) == 0,
        before(fan[i], p),
    ensures
        is_fan(o, fan.update(i, p)),
        covered(o, fan.update(i, p), p),
        forall|q: Vec2| covered(o, fan, q) ==> covered(o, fan.update(i, p), q),
{
    let new = fan.update(i, p);
    lemma_turn(o, p, p, p);
    assert(on_ray(o, new[i], p));
    assert forall|j: int, k: int| 0 <= j < k < new.len() implies turn(
        o,
        #[trigger] new[j],
        #[trigger] new[k],
    ) > 0 by {
        assert(turn(o, fan[j], fan[k]) > 0);
        if j == i {
            lemma_one_direction(o, fan[i], p, fan[k]);
        }
        if k == i {
            lemma_one_direction(o, fan[i], p, fan[j]);
        }
    }
    assert forall|q: Vec2| covered(o, fan, q) implies covered(o, new, q) by {
        if q != o {
            let k = choose|k: int| 0 <= k < fan.len() && on_ray(o, #[trigger] fan[k], q);
            if k == i {
                lemma_one_direction(o, fan[i], p, q);
                assert(on_ray(o, new[i], q));
            } else {
                assert(on_ray(o, new[k], q));
            }
        }
    }
}

/// Inserting a corner between those on either side of it.
proof fn lemma_insert(o: Vec2, fan: Seq<Vec2>, i: int, p: Vec2)
    requires
        is_fan(o, fan),
        0 <= i <= fan.len(),
        ahead(o, p),
        forall|k: int| 0 <= k < i ==> turn(o, #[trigger] fan[k], p) > 0,
        i < fan.len() ==> turn(o, fan[i], p) < 0,
    ensures
        is_fan(o, fan.insert(i, p)),
        covered(o, fan.insert(i, p), p),
        forall|q: Vec2| covered(o, fan, q) ==> covered(o, fan.insert(i, p), q),
        forall|k: int|
            0 <= k < fan.insert(i, p).len() ==> #[trigger] fan.insert(i, p)[k] == p || fan.contains(
                fan.insert(i, p)[k],
            ),
        fan.insert(i, p).contains(p),
        forall|q: Vec2| fan.contains(q) ==> fan.insert(i, p).contains(q),
{
    let new = fan.insert(i, p);
    lemma_turn(o, p, p, p);
    assert(new[i] == p);
    assert(on_ray(o, new[i], p));
    assert forall|k: int| i <= k < fan.len() implies turn(o, p, #[trigger] fan[k]) > 0 by {
        lemma_turn(o, p, fan[i], fan[i]);
        if k > i {
            lemma_further(o, p, fan[i], fan[k]);
        }
    }
    assert forall|j: int, k: int| 0 <= j < k < new.len() implies turn(
        o,
        #[trigger] new[j],
        #[trigger] new[k],
    ) > 0 by {
        if j < i {
            assert(new[j] == fan[j]);
        } else if j > i {
            assert(new[j] == fan[j - 1]);
        }
        if k < i {
            assert(new[k] == fan[k]);
        } else if k > i {
            assert(new[k] == fan[k - 1]);
        }
    }
    assert forall|j: int| 0 <= j < new.len() implies ahead(o, #[trigger] new[j]) by {
        if j < i {
            assert(new[j] == fan[j]);
        } else if j > i {
            assert(new[j] == fan[j - 1]);
        }
    }
    assert forall|q: Vec2| covered(o, fan, q) implies covered(o, new, q) by {
        if q != o {
            let k = choose|k: int| 0 <= k < fan.len() && on_ray(o, #[trigger] fan[k], q);
            let j = if k < i {
                k
            } else {
                k + 1
            };
            assert(new[j] == fan[k]);
            assert(on_ray(o, new[j], q));
        }
    }
    assert forall|q: Vec2| fan.contains(q) implies new.contains(q) by {
        let k = choose|k: int| 0 <= k < fan.len() && fan[k] == q;
        let j = if k < i {
            k
        } else {
            k + 1
        };
        assert(new[j] == q);
    }
    assert forall|k: int| 0 <= k < new.len() implies #[trigger] new[k] == p || fan.contains(
        new[k],
    ) by {
        if k < i {
            assert(new[k] == fan[k]);
        } else if k > i {
            assert(new[k] == fan[k - 1]);
        }
    }
}

/// All the points lie on one line.
pub open spec fn flat(points: Seq<Vec2>) -> bool {
    forall|i: int, j: int, k: int|
        0 <= i < points.len() && 0 <= j < points.len() && 0 <= k < points.len() ==> turn(
            #[trigger] points[i],
            #[trigger] points[j],
            #[trigger] points[k],
        ) == 0
}

/// A point hidden by a corner of a triangle's fan lies inside the triangle.
proof fn lemma_inside_triangle(o: Vec2, a: Vec2, b: Vec2, p: Vec2)
    requires
        ahead(o, a),
        ahead(o, b),
        turn(o, a, b) > 0,
        p == o || on_ray(o, a, p) || on_ray(o, b, p),
    ensures
        turn(o, a, p) >= 0,
        turn(a, b, p) >= 0,
        turn(b, o, p) >= 0,
{
    lemma_turn(o, a, b, p);
    lemma_turn(o, b, o, p);
    if p != o {
        let (near, far) = if on_ray(o, a, p) {
            (a, b)
        } else {
            (b, a)
        };
        lemma_turn(o, near, far, p);
        lemma_turn(o, far, near, p);
        if on_ray(o, a, p) {
            lemma_nearer(
                a.x.raw - o.x.raw,
                a.y.raw - o.y.raw,
                p.x.raw - o.x.raw,
                p.y.raw - o.y.raw,
                b.x.raw - o.x.raw,
                b.y.raw - o.y.raw,
            );
        } else {
            lemma_nearer_back(o, b, p, a);
        }
    }
}

/// A point on the way to `b` spans less area after `a` than `b` does.
proof fn lemma_nearer_back(o: Vec2, b: Vec2, p: Vec2, a: Vec2)
    requires
        ahead(o, a),
        ahead(o, b),
        on_ray(o, b, p),
        turn(o, a, b) > 0,
    ensures
        0 <= turn(o, a, p) <= turn(o, a, b),
{
    // Reflecting both offsets exchanges the two sides.
    let bx = b.x.raw - o.x.raw;
    let by = b.y.raw - o.y.raw;
    let px = p.x.raw - o.x.raw;
    let py = p.y.raw - o.y.raw;
    let ax = a.x.raw - o.x.raw;
    let ay = a.y.raw - o.y.raw;
    lemma_cross_flip(ax, ay, bx, by);
    lemma_cross_flip(ax, ay, px, py);
    lemma_cross_negate(bx, by, ax, ay);
    lemma_cross_negate(px, py, ax, ay);
    lemma_nearer(bx, by, px, py, -ax, -ay);
}

proof fn lemma_cross_negate(ax: int, ay: int, bx: int, by: int)
    ensures
        cross(ax, ay, -bx, -by) == -cross(ax, ay, bx, by),
{
    vstd::arithmetic::mul::lemma_mul_unary_negation(ax, by);
    vstd::arithmetic::mul::lemma_mul_unary_negation(ay, bx);
}

/// Three corners that see every point to one side are the hull.
proof fn lemma_triangle_hull(points: Seq<Vec2>, o: Vec2, a: Vec2, b: Vec2)
    requires
        points.len() >= 3,
        points.contains(o),
        points.contains(a),
        points.contains(b),
        forall|k: int| 0 <= k < points.len() ==> before(o, #[trigger] points[k]),
        turn(o, a, b) > 0,
        forall|k: int|
            0 <= k < points.len() ==> turn(o, a, #[trigger] points[k]) >= 0 && turn(
                a,
                b,
                points[k],
            ) >= 0 && turn(b, o, points[k]) >= 0,
    ensures
        is_hull(points, seq![o, a, b]),
{
    let h = seq![o, a, b];
    lemma_turn(o, a, b, o);
    lemma_turn(o, b, o, a);
    assert(h[0] == o && h[1] == a && h[2] == b);
    assert forall|i: int| 0 <= i < h.len() implies #[trigger] bends(h, i) by {
        assert(i == 0 || i == 1 || i == 2);
    }
    assert forall|i: int, k: int|
        0 <= i < h.len() && 0 <= k < points.len() implies #[trigger] borders(h, i, points[k]) by {
        assert(i == 0 || i == 1 || i == 2);
    }
}

/// Four points in convex position are their own hull.
proof fn lemma_quad_hull(points: Seq<Vec2>, o: Vec2, a: Vec2, b: Vec2, c: Vec2)
    requires
        points.len() >= 4,
        points.contains(o),
        points.contains(a),
        points.contains(b),
        points.contains(c),
        forall|k: int| 0 <= k < points.len() ==> before(o, #[trigger] points[k]),
        forall|k: int|
            0 <= k < points.len() ==> #[trigger] points[k] == o || points[k] == a || points[k] == b
                || points[k] == c,
        turn(o, a, b) > 0,
        turn(o, b, c) > 0,
        turn(o, a, c) > 0,
        turn(a, b, c) > 0,
    ensures
        is_hull(points, seq![o, a, b, c]),
{
    let h = seq![o, a, b, c];
    lemma_turn(o, a, b, c);
    lemma_turn(o, a, b, o);
    lemma_turn(o, b, c, o);
    lemma_turn(o, b, c, a);
    lemma_turn(o, c, o, a);
    lemma_turn(o, c, o, b);
    lemma_turn(o, a, b, a);
    lemma_turn(o, a, b, b);
    lemma_turn(o, b, c, b);
    lemma_turn(o, b, c, c);
    lemma_turn(o, c, o, c);
    lemma_turn(o, c, o, o);
    assert(h[0] == o && h[1] == a && h[2] == b && h[3] == c);
    assert forall|i: int| 0 <= i < h.len() implies #[trigger] bends(h, i) by {
        assert(i == 0 || i == 1 || i == 2 || i == 3);
    }
    assert forall|i: int, k: int|
        0 <= i < h.len() && 0 <= k < points.len() implies #[trigger] borders(h, i, points[k]) by {
        assert(i == 0 || i == 1 || i == 2 || i == 3);
    }
}

/// Points that one corner hides lie on one line.
proof fn lemma_flat(points: Seq<Vec2>, o: Vec2, fan: Seq<Vec2>)
    requires
        is_fan(o, fan),
        fan.len() <= 1,
        forall|k: int| 0 <= k < points.len() ==> covered(o, fan, #[trigger] points[k]),
    ensures
        flat(points),
{
    assert forall|i: int, j: int, k: int|
        0 <= i < points.len() && 0 <= j < points.len() && 0 <= k < points.len() implies turn(
        #[trigger] points[i],
        #[trigger] points[j],
        #[trigger] points[k],
    ) == 0 by {
        lemma_turn(o, points[i], points[j], points[k]);
        lemma_flat_pair(o, fan, points[i], points[j]);
        lemma_flat_pair(o, fan, points[j], points[k]);
        lemma_flat_pair(o, fan, points[k], points[i]);
    }
}

proof fn lemma_flat_pair(o: Vec2, fan: Seq<Vec2>, p: Vec2, q: Vec2)
    requires
        is_fan(o, fan),
        fan.len() <= 1,
        covered(o, fan, p),
        covered(o, fan, q),
    ensures
        turn(o, p, q) == 0,
{
    lemma_turn(o, p, q, q);
    lemma_turn(o, q, p, p);
    if p != o && q != o {
        let i = choose|i: int| 0 <= i < fan.len() && on_ray(o, #[trigger] fan[i], p);
        let j = choose|j: int| 0 <= j < fan.len() && on_ray(o, #[trigger] fan[j], q);
        assert(i == 0 && j == 0);
        lemma_one_direction(o, fan[0], p, q);
    }
}

/// Points on one line have no hull.
pub proof fn lemma_flat_has_no_hull(points: Seq<Vec2>, h: Seq<Vec2>)
    requires
        flat(points),
    ensures
        !is_hull(points, h),
{
    if is_hull(points, h) {
        assert(points.contains(h[0]) && points.contains(h[1]) && points.contains(h[2]));
        let i = choose|i: int| 0 <= i < points.len() && points[i] == h[0];
        let j = choose|j: int| 0 <= j < points.len() && points[j] == h[1];
        let k = choose|k: int| 0 <= k < points.len() && points[k] == h[2];
        assert(turn(points[i], points[j], points[k]) == 0);
        assert(bends(h, 0));
    }
}

/// The leftmost of four points, the upper one where two are level.
fn leftmost(points: &[Vec2; 4]) -> (first: usize)
    ensures
        first < 4,
        forall|k: int| 0 <= k < 4 ==> before(points[first as int], #[trigger] points[k]),
{
    let mut first: usize = 0;
    let mut i: usize = 1;
    while i < 4
        invariant
            first < i <= 4,
            forall|k: int| 0 <= k < i ==> before(points[first as int], #[trigger] points[k]),
        decreases 4 - i,
    {
        if !comes_before(points[first], points[i]) {
            first = i;
        }
        i += 1;
    }
    first
}

/// The fan of four points seen from the leftmost.
fn fan_of(points: &[Vec2; 4], first: usize) -> (fan: Vec<Vec2>)
    requires
        first < 4,
        forall|k: int| 0 <= k < 4 ==> before(points[first as int], #[trigger] points[k]),
    ensures
        is_fan(points[first as int], fan@),
        fan@.len() <= 3,
        forall|k: int| 0 <= k < 4 ==> covered(points[first as int], fan@, #[trigger] points[k]),
        forall|k: int| 0 <= k < fan@.len() ==> points@.contains(#[trigger] fan@[k]),
        fan@.len() == 3 ==> forall|k: int|
            0 <= k < 4 ==> #[trigger] points[k] == points[first as int] || fan@.contains(points[k]),
{
    let o: Vec2 = points[first];
    let mut fan: Vec<Vec2> = Vec::new();
    let mut i: usize = 0;
    while i < 4
        invariant
            i <= 4,
            first < 4,
            o == points[first as int],
            forall|k: int| 0 <= k < 4 ==> before(o, #[trigger] points[k]),
            is_fan(o, fan@),
            forall|k: int| 0 <= k < i ==> covered(o, fan@, #[trigger] points[k]),
            forall|k: int| 0 <= k < fan@.len() ==> points@.contains(#[trigger] fan@[k]),
            fan@.len() <= i - (if first < i {
                1int
            } else {
                0
            }),
            fan@.len() == i - (if first < i {
                1int
            } else {
                0
            }) ==> forall|k: int|
                0 <= k < i ==> #[trigger] points[k] == o || fan@.contains(points[k]),
        decreases 4 - i,
    {
        let ghost start = fan@;
        add_to_fan(o, &mut fan, points[i]);
        proof {
            assert forall|k: int| 0 <= k < fan@.len() implies points@.contains(
                #[trigger] fan@[k],
            ) by {
                if fan@[k] != points[i as int] {
                    let j = choose|j: int| 0 <= j < start.len() && start[j] == fan@[k];
                    assert(points@.contains(start[j]));
                } else {
                    assert(points@[i as int] == fan@[k]);
                }
            }
            assert forall|k: int| 0 <= k < i + 1 implies covered(
                o,
                fan@,
                #[trigger] points[k],
            ) by {
                if k < i {
                    assert(covered(o, start, points[k]));
                }
            }
        }
        i += 1;
    }
    fan
}

/// A fan of two corners makes a triangle.
proof fn lemma_two_rays(points: Seq<Vec2>, o: Vec2, fan: Seq<Vec2>)
    requires
        points.len() == 4,
        points.contains(o),
        is_fan(o, fan),
        fan.len() == 2,
        forall|k: int| 0 <= k < points.len() ==> before(o, #[trigger] points[k]),
        forall|k: int| 0 <= k < points.len() ==> covered(o, fan, #[trigger] points[k]),
        forall|k: int| 0 <= k < fan.len() ==> points.contains(#[trigger] fan[k]),
    ensures
        is_hull(points, seq![o, fan[0], fan[1]]),
{
    let (a, b) = (fan[0], fan[1]);
    assert forall|k: int| 0 <= k < points.len() implies turn(o, a, #[trigger] points[k]) >= 0
        && turn(a, b, points[k]) >= 0 && turn(b, o, points[k]) >= 0 by {
        assert(covered(o, fan, points[k]));
        lemma_inside_triangle(o, a, b, points[k]);
    }
    lemma_triangle_hull(points, o, a, b);
}

/// A fan of three corners makes a triangle if the one between lies inside.
proof fn lemma_three_rays(points: Seq<Vec2>, o: Vec2, fan: Seq<Vec2>)
    requires
        points.len() == 4,
        points.contains(o),
        is_fan(o, fan),
        fan.len() == 3,
        forall|k: int| 0 <= k < points.len() ==> before(o, #[trigger] points[k]),
        forall|k: int| 0 <= k < fan.len() ==> points.contains(#[trigger] fan[k]),
        forall|k: int|
            0 <= k < points.len() ==> #[trigger] points[k] == o || fan.contains(points[k]),
    ensures
        turn(fan[0], fan[1], fan[2]) > 0 ==> is_hull(points, seq![o, fan[0], fan[1], fan[2]]),
        turn(fan[0], fan[1], fan[2]) <= 0 ==> is_hull(points, seq![o, fan[0], fan[2]]),
{
    let (a, b, c) = (fan[0], fan[1], fan[2]);
    assert forall|k: int| 0 <= k < points.len() implies #[trigger] points[k] == o || points[k] == a
        || points[k] == b || points[k] == c by {
        assert(points[k] == o || fan.contains(points[k]));
    }
    if turn(a, b, c) > 0 {
        lemma_quad_hull(points, o, a, b, c);
    } else {
        lemma_turn(o, a, b, c);
        lemma_turn(o, a, c, b);
        lemma_turn(o, a, c, o);
        lemma_turn(o, a, c, a);
        lemma_turn(o, a, c, c);
        lemma_turn(o, c, o, a);
        lemma_turn(o, c, o, b);
        lemma_turn(o, c, o, c);
        lemma_turn(o, c, o, o);
        lemma_triangle_hull(points, o, a, c);
    }
}

/// The convex hull of four points, or `None` if they lie on one line.
pub fn convex_hull(points: &[Vec2; 4]) -> (hull: Option<Vec<Vec2>>)
    ensures
        match hull {
            Some(h) => is_hull(points@, h@),
            None => flat(points@),
        },
{
    let first: usize = leftmost(points);
    let o: Vec2 = points[first];
    let fan: Vec<Vec2> = fan_of(points, first);
    assert(points@[first as int] == o);
    if fan.len() < 2 {
        proof {
            lemma_flat(points@, o, fan@);
        }
        None
    } else if fan.len() == 2 {
        proof {
            lemma_two_rays(points@, o, fan@);
        }
        let h: Vec<Vec2> = vec![o, fan[0], fan[1]];
        assert(h@ =~= seq![o, fan@[0], fan@[1]]);
        Some(h)
    } else {
        proof {
            lemma_three_rays(points@, o, fan@);
        }
        if turn_sign(fan[0], fan[1], fan[2]) > 0 {
            let h: Vec<Vec2> = vec![o, fan[0], fan[1], fan[2]];
            assert(h@ =~= seq![o, fan@[0], fan@[1], fan@[2]]);
            Some(h)
        } else {
            let h: Vec<Vec2> = vec![o, fan[0], fan[2]];
            assert(h@ =~= seq![o, fan@[0], fan@[2]]);
            Some(h)
        }
    }
}

/// Of two offsets in one direction, neither may lie behind the other's edge.
proof fn lemma_same_corner(
    ax: int,
    ay: int,
    nx: int,
    ny: int,
    bx: int,
    by: int,
    mx: int,
    my: int,
)
    requires
        forward(ax, ay),
        forward(bx, by),
        cross(ax, ay, bx, by) == 0,
        cross(ax, ay, nx, ny) > 0,
        cross(bx, by, mx, my) > 0,
        cross(bx, by, nx, ny) <= cross(ax, ay, nx, ny),
        cross(ax, ay, mx, my) <= cross(bx, by, mx, my),
    ensures
        ax == bx,
        ay == by,
{
    lemma_cross_flip(ax, ay, bx, by);
    if ax > 0 {
        if bx == 0 {
            lemma_positive_multiple(ax, by);
        }
        lemma_no_further(ax, ay, nx, ny, bx, by);
        lemma_no_further(bx, by, mx, my, ax, ay);
        lemma_mul_is_distributive_sub(ax, by, ay);
        lemma_mul_is_commutative(ax, ay);
        lemma_positive_multiple(ax, by - ay);
    } else {
        assert(bx == 0) by {
            lemma_positive_multiple(ay, bx);
            assert(ax * by == 0) by (nonlinear_arith)
                requires
                    ax == 0,
            ;
        }
        lemma_no_lower(ay, nx, ny, by);
        lemma_no_lower(by, mx, my, ay);
    }
}

proof fn lemma_no_further(ax: int, ay: int, nx: int, ny: int, bx: int, by: int)
    requires
        ax > 0,
        cross(ax, ay, bx, by) == 0,
        cross(ax, ay, nx, ny) > 0,
        cross(bx, by, nx, ny) <= cross(ax, ay, nx, ny),
    ensures
        bx <= ax,
{
    let an = cross(ax, ay, nx, ny);
    let bn = cross(bx, by, nx, ny);
    lemma_along(ax, ay, bx, by, nx, ny);
    lemma_mul_is_distributive_sub(ax, an, bn);
    lemma_positive_multiple(ax, an - bn);
    lemma_mul_is_distributive_sub(an, ax, bx);
    lemma_mul_is_commutative(an, ax);
    lemma_mul_is_commutative(an, bx);
    lemma_positive_multiple(an, ax - bx);
}

proof fn lemma_no_lower(ay: int, nx: int, ny: int, by: int)
    requires
        ay > 0,
        cross(0, ay, nx, ny) > 0,
        cross(0, by, nx, ny) <= cross(0, ay, nx, ny),
    ensures
        by <= ay,
{
    lemma_mul_is_distributive_sub_other_way(-nx, ay, by);
    vstd::arithmetic::mul::lemma_mul_unary_negation(ay, nx);
    vstd::arithmetic::mul::lemma_mul_unary_negation(by, nx);
    lemma_positive_multiple(ay, -nx);
    lemma_mul_is_commutative(ay - by, -nx);
    lemma_positive_multiple(-nx, ay - by);
}

/// The corner after the leftmost is the same in both hulls.
proof fn lemma_first_corner(points: Seq<Vec2>, g: Seq<Vec2>, h: Seq<Vec2>)
    requires
        is_hull(points, g),
        is_hull(points, h),
        g[0] == h[0],
    ensures
        g[1] == h[1],
{
    let o = h[0];
    let (a, n) = (h[1], h[2]);
    let (b, m) = (g[1], g[2]);
    lemma_corner(points, h, 1);
    lemma_corner(points, g, 1);
    assert(bends(h, 0));
    assert(bends(g, 0));
    lemma_outside(points, h, 0, b);
    lemma_outside(points, g, 0, a);
    lemma_outside(points, h, 1, b);
    lemma_outside(points, g, 1, a);
    lemma_turn(o, a, n, b);
    lemma_turn(o, b, m, a);
    lemma_same_corner(
        a.x.raw - o.x.raw,
        a.y.raw - o.y.raw,
        n.x.raw - o.x.raw,
        n.y.raw - o.y.raw,
        b.x.raw - o.x.raw,
        b.y.raw - o.y.raw,
        m.x.raw - o.x.raw,
        m.y.raw - o.y.raw,
    );
}

/// The corner before the leftmost is the same in both hulls.
proof fn lemma_last_corner(points: Seq<Vec2>, g: Seq<Vec2>, h: Seq<Vec2>)
    requires
        is_hull(points, g),
        is_hull(points, h),
        g[0] == h[0],
    ensures
        g.last() == h.last(),
{
    let o = h[0];
    let (z, m) = (h[h.len() - 1], h[h.len() - 2]);
    let (w, l) = (g[g.len() - 1], g[g.len() - 2]);
    lemma_corner(points, h, h.len() - 1);
    lemma_corner(points, g, g.len() - 1);
    assert(bends(h, h.len() - 2));
    assert(bends(g, g.len() - 2));
    lemma_outside(points, h, h.len() - 1, w);
    lemma_outside(points, g, g.len() - 1, z);
    lemma_outside(points, h, h.len() - 2, w);
    lemma_outside(points, g, g.len() - 2, z);
    lemma_turn(o, m, z, w);
    lemma_turn(o, l, w, z);
    lemma_turn(o, m, z, o);
    lemma_turn(o, l, w, o);
    lemma_turn(o, z, o, w);
    lemma_turn(o, w, o, z);
    let (zx, zy) = (z.x.raw - o.x.raw, z.y.raw - o.y.raw);
    let (mx, my) = (m.x.raw - o.x.raw, m.y.raw - o.y.raw);
    let (wx, wy) = (w.x.raw - o.x.raw, w.y.raw - o.y.raw);
    let (lx, ly) = (l.x.raw - o.x.raw, l.y.raw - o.y.raw);
    lemma_cross_negate(zx, zy, mx, my);
    lemma_cross_negate(wx, wy, mx, my);
    lemma_cross_negate(zx, zy, lx, ly);
    lemma_cross_negate(wx, wy, lx, ly);
    lemma_cross_flip(zx, zy, mx, my);
    lemma_cross_flip(wx, wy, mx, my);
    lemma_cross_flip(zx, zy, lx, ly);
    lemma_cross_flip(wx, wy, lx, ly);
    lemma_same_corner(zx, zy, -mx, -my, wx, wy, -lx, -ly);
}

/// A corner other than the first lies past the first.
proof fn lemma_corner(points: Seq<Vec2>, h: Seq<Vec2>, i: int)
    requires
        is_hull(points, h),
        0 < i < h.len(),
        i == 1 || i == h.len() - 1,
    ensures
        ahead(h[0], h[i]),
        points.contains(h[i]),
{
    let k = choose|k: int| 0 <= k < points.len() && points[k] == h[i];
    assert(points.contains(h[i]));
    assert(before(h[0], points[k]));
    if h[i] == h[0] {
        lemma_turn(h[0], h[1], h[2], h[0]);
        if i == 1 {
            assert(bends(h, 0));
        } else {
            assert(bends(h, i));
            lemma_turn(h[0], h[1], h[1], h[1]);
        }
    }
}

/// No point of the set lies outside an edge of its hull.
proof fn lemma_outside(points: Seq<Vec2>, h: Seq<Vec2>, i: int, p: Vec2)
    requires
        is_hull(points, h),
        0 <= i < h.len(),
        points.contains(p),
    ensures
        turn(h[i], follow(h, i + 1), p) >= 0,
{
    let k = choose|k: int| 0 <= k < points.len() && points[k] == p;
    assert(borders(h, i, points[k]));
}

/// Four points have at most one hull.
pub proof fn lemma_hull_unique(points: Seq<Vec2>, g: Seq<Vec2>, h: Seq<Vec2>)
    requires
        points.len() == 4,
        is_hull(points, g),
        is_hull(points, h),
    ensures
        g == h,
{
    assert(points.contains(g[0]) && points.contains(h[0]));
    let i = choose|i: int| 0 <= i < points.len() && points[i] == g[0];
    let j = choose|j: int| 0 <= j < points.len() && points[j] == h[0];
    assert(before(h[0], points[i]) && before(g[0], points[j]));
    assert(g[0] == h[0]);
    lemma_first_corner(points, g, h);
    lemma_last_corner(points, g, h);
    if g.len() == 4 && h.len() == 4 {
        lemma_middle(points, g, h);
        assert(g =~= h);
    } else if g.len() == 4 {
        lemma_no_triangle(points, g, h);
    } else if h.len() == 4 {
        lemma_no_triangle(points, h, g);
    } else {
        assert(g =~= h);
    }
}

/// A hull of four corners leaves no room for a triangle.
proof fn lemma_no_triangle(points: Seq<Vec2>, q: Seq<Vec2>, t: Seq<Vec2>)
    requires
        is_hull(points, q),
        q.len() == 4,
        t.len() == 3,
        q[0] == t[0],
        q[1] == t[1],
        q[3] == t[2],
    ensures
        !is_hull(points, t),
{
    if is_hull(points, t) {
        assert(bends(q, 1));
        assert(points.contains(q[2]));
        lemma_outside(points, t, 1, q[2]);
        lemma_turn(q[1], q[1], q[2], q[3]);
        lemma_turn(q[1], q[2], q[3], q[3]);
    }
}

/// The corner across from the leftmost is the same in both hulls.
proof fn lemma_middle(points: Seq<Vec2>, g: Seq<Vec2>, h: Seq<Vec2>)
    requires
        points.len() == 4,
        is_hull(points, g),
        is_hull(points, h),
        g.len() == 4,
        h.len() == 4,
        g[0] == h[0],
        g[1] == h[1],
        g[3] == h[3],
    ensures
        g[2] == h[2],
{
    let (o, a, b, c) = (h[0], h[1], h[2], h[3]);
    assert(bends(h, 0));
    assert(bends(h, 1));
    assert(bends(h, 2));
    assert(bends(h, 3));
    lemma_apart(o, a, b);
    lemma_apart(a, b, c);
    lemma_apart(b, c, o);
    lemma_apart(c, o, a);
    assert(points.contains(h[0]) && points.contains(h[1]) && points.contains(h[2])
        && points.contains(h[3]));
    let i = choose|i: int| 0 <= i < points.len() && points[i] == o;
    let j = choose|j: int| 0 <= j < points.len() && points[j] == a;
    let k = choose|k: int| 0 <= k < points.len() && points[k] == b;
    let l = choose|l: int| 0 <= l < points.len() && points[l] == c;
    assert(points.contains(g[2]));
    let n = choose|n: int| 0 <= n < points.len() && points[n] == g[2];
    assert(n == i || n == j || n == k || n == l);
    assert(bends(g, 0));
    assert(bends(g, 1));
    lemma_apart(g[0], g[1], g[2]);
    lemma_apart(g[1], g[2], g[3]);
}

/// The corners of a turn differ.
proof fn lemma_apart(o: Vec2, a: Vec2, b: Vec2)
    requires
        turn(o, a, b) != 0,
    ensures
        o != a,
        a != b,
        o != b,
{
    lemma_turn(o, a, b, o);
}

} // verus!
