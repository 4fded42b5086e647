//! Similar figures: what turning, scaling and moving does to lengths.

use crate::fixed::{is_root, lemma_root, quotient, root, ONE};
use crate::vector::{lemma_square_bound, norm2, Vec2};
use vstd::arithmetic::mul::lemma_mul_inequality;
use vstd::prelude::*;

verus! {

/// Turning by one angle, scaling by one factor and moving by one offset. In
/// complex numbers it takes `p` to `((a + bi) * p + (x + yi)) / m`, so the
/// factor is the length of `a + bi` over `m`.
pub ghost struct Similarity {
    pub a: int,
    pub b: int,
    pub m: int,
    pub x: int,
    pub y: int,
}

/// A landmark that is rounded ends up within this many steps of its true place.
pub open spec fn rounding() -> int {
    8
}

impl Similarity {
    pub open spec fn wf(self) -> bool {
        self.m > 0
    }

    /// The square of the factor, times the square of `m`.
    pub open spec fn factor2(self) -> int {
        self.a * self.a + self.b * self.b
    }

    /// How far `q` is to the right of where `p` is taken, times `m`.
    pub open spec fn off_x(self, p: Vec2, q: Vec2) -> int {
        self.m * q.x.raw - (self.a * p.x.raw - self.b * p.y.raw + self.x)
    }

    /// How far `q` is below where `p` is taken, times `m`.
    pub open spec fn off_y(self, p: Vec2, q: Vec2) -> int {
        self.m * q.y.raw - (self.b * p.x.raw + self.a * p.y.raw + self.y)
    }

    /// `p` is taken to `q`, up to rounding.
    pub open spec fn takes(self, p: Vec2, q: Vec2) -> bool {
        &&& -rounding() * self.m <= self.off_x(p, q) <= rounding() * self.m
        &&& -rounding() * self.m <= self.off_y(p, q) <= rounding() * self.m
    }
}

/// Coordinates that are at most `r` steps from zero.
pub open spec fn near(p: Vec2, r: int) -> bool {
    -r <= p.x.raw <= r && -r <= p.y.raw <= r
}

/// A length `e` is `d` scaled by `k / m`, where `c` lengths were added up and
/// each was rounded.
pub open spec fn scaled(d: int, e: int, k: int, m: int, c: int) -> bool {
    &&& m * e <= k * d + c * k + 24 * (c * m)
    &&& k * d <= m * e + 24 * (c * m)
}

/// What is no longer as a square is no longer.
pub proof fn lemma_square_order(a: int, b: int)
    requires
        b >= 0,
        a * a <= b * b,
    ensures
        a <= b,
{
    if a > b {
        assert(a * a > b * b) by (nonlinear_arith)
            requires
                a > b >= 0,
        ;
    }
}

/// The squared length of a product is the product of the squared lengths.
proof fn lemma_product_of_squares(a: int, b: int, x: int, y: int)
    ensures
        (a * a + b * b) * (x * x + y * y) == (a * x - b * y) * (a * x - b * y) + (b * x + a * y) * (b
            * x + a * y),
{
    let (ax, by, bx, ay) = (a * x, b * y, b * x, a * y);
    assert((a * a) * (x * x) == (a * x) * (a * x)) by (nonlinear_arith);
    assert((b * b) * (y * y) == (b * y) * (b * y)) by (nonlinear_arith);
    assert((b * b) * (x * x) == (b * x) * (b * x)) by (nonlinear_arith);
    assert((a * a) * (y * y) == (a * y) * (a * y)) by (nonlinear_arith);
    let (aa, bb, xx, yy) = (a * a, b * b, x * x, y * y);
    assert((aa + bb) * (xx + yy) == aa * xx + bb * yy + bb * xx + aa * yy) by (nonlinear_arith);
    assert(ax * by == bx * ay) by (nonlinear_arith)
        requires
            ax == a * x,
            by == b * y,
            bx == b * x,
            ay == a * y,
    ;
    assert((ax - by) * (ax - by) == ax * ax - 2 * (ax * by) + by * by) by (nonlinear_arith);
    assert((bx + ay) * (bx + ay) == bx * bx + 2 * (bx * ay) + ay * ay) by (nonlinear_arith);
}

/// The triangle inequality: offsets no longer than `p` and `f` add up to one no
/// longer than `p + f`.
proof fn lemma_triangle(x: int, y: int, u: int, v: int, p: int, f: int)
    requires
        p >= 0,
        f >= 0,
        x * x + y * y <= p * p,
        u * u + v * v <= f * f,
    ensures
        (x + u) * (x + u) + (y + v) * (y + v) <= (p + f) * (p + f),
{
    let dot = x * u + y * v;
    let n = x * x + y * y;
    let e = u * u + v * v;
    let c = x * v - y * u;
    lemma_product_of_squares(x, -y, u, v);
    assert(n * e == dot * dot + c * c) by {
        assert((-y) * (-y) == y * y && (-y) * v == -(y * v) && (-y) * u == -(y * u))
            by (nonlinear_arith);
    }
    assert(c * c >= 0) by (nonlinear_arith);
    assert(x * x >= 0 && y * y >= 0 && u * u >= 0 && v * v >= 0) by (nonlinear_arith);
    vstd::arithmetic::mul::lemma_mul_upper_bound(n, p * p, e, f * f);
    assert((p * p) * (f * f) == (p * f) * (p * f)) by (nonlinear_arith);
    assert(p * f >= 0) by (nonlinear_arith)
        requires
            p >= 0,
            f >= 0,
    ;
    lemma_square_order(dot, p * f);
    assert((x + u) * (x + u) == x * x + 2 * (x * u) + u * u) by (nonlinear_arith);
    assert((y + v) * (y + v) == y * y + 2 * (y * v) + v * v) by (nonlinear_arith);
    assert((p + f) * (p + f) == p * p + 2 * (p * f) + f * f) by (nonlinear_arith);
}

/// Scaling a figure up by `n` leaves the similarity what it was; the factor
/// becomes a whole number as nearly as one likes.
pub open spec fn fine_factor(s: Similarity, n: int) -> int {
    root((n * n) * s.factor2())
}

/// The offset between two points of a figure, and between the points that they
/// are taken to.
proof fn lemma_offset(s: Similarity, n: int, dx: int, dy: int, ex: int, ey: int, d: int, e: int)
    requires
        s.wf(),
        n > 0,
        is_root(d, dx * dx + dy * dy),
        is_root(e, ex * ex + ey * ey),
        d + 1 <= n,
        -16 * s.m <= s.m * ex - (s.a * dx - s.b * dy) <= 16 * s.m,
        -16 * s.m <= s.m * ey - (s.b * dx + s.a * dy) <= 16 * s.m,
    ensures
        scaled(d, e, fine_factor(s, n), n * s.m, 1),
{
    let q = s.factor2();
    let k = fine_factor(s, n);
    let m = n * s.m;
    assert(s.a * s.a >= 0 && s.b * s.b >= 0 && n * n >= 0) by (nonlinear_arith);
    assert((n * n) * q >= 0) by (nonlinear_arith)
        requires
            q >= 0,
            n * n >= 0,
    ;
    assert(m >= n) by (nonlinear_arith)
        requires
            s.m > 0,
            n > 0,
            m == n * s.m,
    ;
    lemma_root((n * n) * q);
    let (tx, ty) = (s.a * dx - s.b * dy, s.b * dx + s.a * dy);
    let (ux, uy) = (s.m * ex - tx, s.m * ey - ty);
    let f = 23 * m;
    // The true offset, `n` times as large, and what rounding adds to it.
    let (x, y) = (n * tx, n * ty);
    let (u, v) = (n * ux, n * uy);
    let len = dx * dx + dy * dy;
    assert(x * x + y * y == ((n * n) * q) * len) by {
        lemma_product_of_squares(s.a, s.b, dx, dy);
        assert((n * tx) * (n * tx) + (n * ty) * (n * ty) == (n * n) * (tx * tx + ty * ty))
            by (nonlinear_arith);
        assert((n * n) * (q * len) == ((n * n) * q) * len) by (nonlinear_arith);
    }
    assert(u * u + v * v <= f * f) by {
        let h = 16 * s.m;
        assert(ux * ux <= h * h && uy * uy <= h * h) by (nonlinear_arith)
            requires
                -h <= ux <= h,
                -h <= uy <= h,
        ;
        assert((n * ux) * (n * ux) + (n * uy) * (n * uy) == (n * n) * (ux * ux + uy * uy))
            by (nonlinear_arith);
        let (nn, mm) = (n * n, s.m * s.m);
        assert(h * h == 256 * mm) by (nonlinear_arith)
            requires
                h == 16 * s.m,
                mm == s.m * s.m,
        ;
        assert(nn * (ux * ux + uy * uy) <= nn * (512 * mm)) by (nonlinear_arith)
            requires
                ux * ux + uy * uy <= 512 * mm,
                nn >= 0,
        ;
        assert(f * f == 529 * (m * m)) by (nonlinear_arith)
            requires
                f == 23 * m,
        ;
        assert(m * m == nn * mm) by (nonlinear_arith)
            requires
                m == n * s.m,
                nn == n * n,
                mm == s.m * s.m,
        ;
        assert(nn * (512 * mm) == 512 * (nn * mm)) by (nonlinear_arith);
        assert(m * m >= 0) by (nonlinear_arith);
    }
    assert(x + u == m * ex && y + v == m * ey) by (nonlinear_arith)
        requires
            x == n * tx,
            u == n * (s.m * ex - tx),
            y == n * ty,
            v == n * (s.m * ey - ty),
            m == n * s.m,
    ;
    let len2 = ex * ex + ey * ey;
    assert((m * ex) * (m * ex) + (m * ey) * (m * ey) == (m * m) * len2) by (nonlinear_arith)
        requires
            len2 == ex * ex + ey * ey,
    ;
    assert(f >= 0);
    // Not much longer.
    let p = (k + 1) * (d + 1);
    assert(dx * dx >= 0 && dy * dy >= 0 && ex * ex >= 0 && ey * ey >= 0) by (nonlinear_arith);
    let (k2, d2) = ((k + 1) * (k + 1), (d + 1) * (d + 1));
    vstd::arithmetic::mul::lemma_mul_upper_bound((n * n) * q, k2, len, d2);
    assert(p * p == k2 * d2) by (nonlinear_arith)
        requires
            p == (k + 1) * (d + 1),
            k2 == (k + 1) * (k + 1),
            d2 == (d + 1) * (d + 1),
    ;
    assert(p >= 0) by (nonlinear_arith)
        requires
            p == (k + 1) * (d + 1),
            k >= 0,
            d >= 0,
    ;
    lemma_triangle(x, y, u, v, p, f);
    let mm = m * m;
    assert(mm >= 0) by (nonlinear_arith)
        requires
            mm == m * m,
    ;
    assert((m * e) * (m * e) == mm * (e * e)) by (nonlinear_arith)
        requires
            mm == m * m,
    ;
    assert(mm * (e * e) <= mm * len2) by (nonlinear_arith)
        requires
            e * e <= len2,
            mm >= 0,
    ;
    lemma_square_order(m * e, p + f);
    assert(p == k * d + k + d + 1) by (nonlinear_arith)
        requires
            p == (k + 1) * (d + 1),
    ;
    // Not much shorter.
    let g = m * (e + 1);
    let e2 = (e + 1) * (e + 1);
    assert(g * g == mm * e2) by (nonlinear_arith)
        requires
            g == m * (e + 1),
            e2 == (e + 1) * (e + 1),
            mm == m * m,
    ;
    assert(mm * len2 <= mm * e2) by (nonlinear_arith)
        requires
            len2 <= e2,
            mm >= 0,
    ;
    assert(g >= 0) by (nonlinear_arith)
        requires
            g == m * (e + 1),
            m >= 0,
            e >= 0,
    ;
    assert((-u) * (-u) + (-v) * (-v) == u * u + v * v) by (nonlinear_arith);
    lemma_triangle(m * ex, m * ey, -u, -v, g, f);
    assert(k * k >= 0 && d * d >= 0) by (nonlinear_arith);
    vstd::arithmetic::mul::lemma_mul_upper_bound(k * k, (n * n) * q, d * d, len);
    assert((k * d) * (k * d) == (k * k) * (d * d)) by (nonlinear_arith);
    lemma_square_order(k * d, g + f);
    assert(g == m * e + m) by (nonlinear_arith)
        requires
            g == m * (e + 1),
    ;
    assert(1 * k == k && 1 * m == m);
}

/// Distances between the points of similar figures are in proportion, up to
/// rounding.
pub proof fn lemma_distance(s: Similarity, n: int, p: Vec2, r: Vec2, q: Vec2, t: Vec2)
    requires
        s.wf(),
        s.takes(p, q),
        s.takes(r, t),
        near(p, 0x100_0000_0000_0000),
        near(r, 0x100_0000_0000_0000),
        near(q, 0x100_0000_0000_0000),
        near(t, 0x100_0000_0000_0000),
        n >= 0x1000_0000_0000_0000,
    ensures
        0 <= p.distance(r).raw < 0x400_0000_0000_0000,
        0 <= q.distance(t).raw < 0x400_0000_0000_0000,
        scaled(
            p.distance(r).raw as int,
            q.distance(t).raw as int,
            fine_factor(s, n),
            n * s.m,
            1,
        ),
{
    let (d, e) = (p.minus(r), q.minus(t));
    lemma_length(d);
    lemma_length(e);
    let (dx, dy, ex, ey) = (d.x.raw as int, d.y.raw as int, e.x.raw as int, e.y.raw as int);
    lemma_difference(s.m, q.x.raw as int, t.x.raw as int);
    lemma_difference(s.m, q.y.raw as int, t.y.raw as int);
    lemma_difference(s.a, p.x.raw as int, r.x.raw as int);
    lemma_difference(s.a, p.y.raw as int, r.y.raw as int);
    lemma_difference(s.b, p.x.raw as int, r.x.raw as int);
    lemma_difference(s.b, p.y.raw as int, r.y.raw as int);
    assert(s.m * ex - (s.a * dx - s.b * dy) == s.off_x(p, q) - s.off_x(r, t));
    assert(s.m * ey - (s.b * dx + s.a * dy) == s.off_y(p, q) - s.off_y(r, t));
    assert(-rounding() * s.m == -8 * s.m);
    lemma_offset(s, n, dx, dy, ex, ey, p.distance(r).raw as int, q.distance(t).raw as int);
}

proof fn lemma_difference(k: int, a: int, b: int)
    ensures
        k * (a - b) == k * a - k * b,
{
    assert(k * (a - b) == k * a - k * b) by (nonlinear_arith);
}

/// The length of an offset that is not too long is the root of its square.
proof fn lemma_length(d: Vec2)
    requires
        near(d, 0x200_0000_0000_0000),
    ensures
        is_root(d.length().raw as int, norm2(d)),
        d.length().raw == root(norm2(d)),
        d.length().raw < 0x400_0000_0000_0000,
{
    lemma_square_bound(d.x.raw);
    lemma_square_bound(d.y.raw);
    lemma_root(norm2(d));
    let (x, y, r) = (d.x.raw as int, d.y.raw as int, root(norm2(d)));
    let b = 0x200_0000_0000_0000int;
    assert(x * x <= b * b && y * y <= b * b) by (nonlinear_arith)
        requires
            -b <= x <= b,
            -b <= y <= b,
    ;
    assert(2 * (b * b) <= 0x300_0000_0000_0000 * 0x300_0000_0000_0000);
    lemma_square_order(r, 0x300_0000_0000_0000);
}

/// The longer of two lengths is in proportion when both are.
pub proof fn lemma_scaled_max(d: int, e: int, f: int, g: int, k: int, m: int)
    requires
        k >= 0,
        m >= 0,
        scaled(d, e, k, m, 1),
        scaled(f, g, k, m, 1),
    ensures
        scaled(
            if f > d {
                f
            } else {
                d
            },
            if g > e {
                g
            } else {
                e
            },
            k,
            m,
            1,
        ),
{
    assert(d <= f ==> k * d <= k * f) by (nonlinear_arith)
        requires
            k >= 0,
    ;
    assert(f <= d ==> k * f <= k * d) by (nonlinear_arith)
        requires
            k >= 0,
    ;
    assert(e <= g ==> m * e <= m * g) by (nonlinear_arith)
        requires
            m >= 0,
    ;
    assert(g <= e ==> m * g <= m * e) by (nonlinear_arith)
        requires
            m >= 0,
    ;
}

/// Two lengths added up are in proportion when both are.
pub proof fn lemma_scaled_sum(d: int, e: int, f: int, g: int, k: int, m: int)
    requires
        scaled(d, e, k, m, 1),
        scaled(f, g, k, m, 1),
    ensures
        scaled(d + f, e + g, k, m, 2),
{
    assert(m * (e + g) == m * e + m * g) by (nonlinear_arith);
    assert(k * (d + f) == k * d + k * f) by (nonlinear_arith);
}

/// A positive factor on both sides cancels.
proof fn lemma_cancel(m: int, a: int, b: int)
    requires
        m > 0,
        m * a <= m * b,
    ensures
        a <= b,
{
    assert(a <= b) by (nonlinear_arith)
        requires
            m > 0,
            m * a <= m * b,
    ;
}

/// The quotient of two lengths is the same in similar figures, up to rounding.
pub proof fn lemma_ratio(d: int, s: int, e: int, t: int, k: int, m: int, c: int, bound: int)
    requires
        c >= 0,
        m > 0,
        k >= 0,
        d >= 0,
        e >= 0,
        s > 0,
        t > 0,
        scaled(d, e, k, m, c),
        scaled(s, t, k, m, c),
        (c * t + 24 * (c * d) + 24 * (c * c) + 24 * (c * s)) * ONE <= bound * (s * t),
        (c * e + 24 * (c * d) + 24 * (c * c) + 24 * (c * s)) * ONE <= bound * (s * t),
    ensures
        -bound - 1 <= quotient(e, t) - quotient(d, s) <= bound + 1,
{
    let h = 24 * c;
    assert(24 * (c * m) == h * m) by (nonlinear_arith)
        requires
            h == 24 * c,
    ;
    assert(k * (d + c) == k * d + c * k && k * (s + c) == k * s + c * k) by (nonlinear_arith);
    assert(m * (t + h) == m * t + h * m && m * (e + h) == m * e + h * m) by (nonlinear_arith);
    // e * s - d * t
    assert(m * (e * s) <= m * ((t + h) * (d + c) + h * s)) by {
        assert(m * (e * s) == (m * e) * s) by (nonlinear_arith);
        lemma_mul_inequality(m * e, k * (d + c) + h * m, s);
        lemma_mul_inequality(k * s, m * (t + h), d + c);
        assert((k * (d + c) + h * m) * s == (k * s) * (d + c) + m * (h * s)) by {
            let x = d + c;
            assert((k * x + h * m) * s == (k * s) * x + m * (h * s)) by (nonlinear_arith);
        }
        let (x, y) = (t + h, d + c);
        assert((m * x) * y == m * (x * y)) by (nonlinear_arith);
        assert(m * (x * y + h * s) == m * (x * y) + m * (h * s)) by (nonlinear_arith);
    }
    lemma_cancel(m, e * s, (t + h) * (d + c) + h * s);
    // d * t - e * s
    assert(m * (d * t) <= m * ((e + h) * (s + c) + h * d)) by {
        assert(m * (d * t) == d * (m * t)) by (nonlinear_arith);
        assert(d * (m * t) == (m * t) * d) by (nonlinear_arith);
        lemma_mul_inequality(m * t, k * (s + c) + h * m, d);
        lemma_mul_inequality(k * d, m * (e + h), s + c);
        assert((k * (s + c) + h * m) * d == (k * d) * (s + c) + m * (h * d)) by {
            let x = s + c;
            assert((k * x + h * m) * d == (k * d) * x + m * (h * d)) by (nonlinear_arith);
        }
        let (x, y) = (e + h, s + c);
        assert((m * x) * y == m * (x * y)) by (nonlinear_arith);
        assert(m * (x * y + h * d) == m * (x * y) + m * (h * d)) by (nonlinear_arith);
    }
    lemma_cancel(m, d * t, (e + h) * (s + c) + h * d);
    assert((t + h) * (d + c) + h * s == d * t + (c * t + 24 * (c * d) + 24 * (c * c) + 24 * (c * s)))
        by (nonlinear_arith)
        requires
            h == 24 * c,
    ;
    assert((e + h) * (s + c) + h * d == e * s + (c * e + 24 * (c * d) + 24 * (c * c) + 24 * (c * s)))
        by (nonlinear_arith)
        requires
            h == 24 * c,
    ;
    lemma_quotients(d, s, e, t, bound);
}

/// Fractions that are close have quotients that are close.
pub proof fn lemma_quotients(d: int, s: int, e: int, t: int, bound: int)
    requires
        s > 0,
        t > 0,
        (e * s - d * t) * ONE <= bound * (s * t),
        (d * t - e * s) * ONE <= bound * (s * t),
    ensures
        -bound - 1 <= quotient(e, t) - quotient(d, s) <= bound + 1,
{
    let (q, r) = (quotient(e, t), quotient(d, s));
    vstd::arithmetic::div_mod::lemma_fundamental_div_mod(e * ONE, t);
    vstd::arithmetic::div_mod::lemma_fundamental_div_mod(d * ONE, s);
    vstd::arithmetic::div_mod::lemma_mod_bound(e * ONE, t);
    vstd::arithmetic::div_mod::lemma_mod_bound(d * ONE, s);
    let (a, b) = ((e * ONE) % t, (d * ONE) % s);
    let one = ONE as int;
    assert((q - r) * (s * t) == (e * s - d * t) * one - a * s + b * t) by {
        assert((q - r) * (s * t) == (t * q) * s - (s * r) * t) by (nonlinear_arith);
        assert((e * one - a) * s == (e * s) * one - a * s) by (nonlinear_arith);
        assert((d * one - b) * t == (d * t) * one - b * t) by (nonlinear_arith);
        let (x, y) = (e * s, d * t);
        assert((x - y) * one == x * one - y * one) by (nonlinear_arith);
    }
    assert(0 <= a * s <= t * s && 0 <= b * t <= s * t) by (nonlinear_arith)
        requires
            0 <= a < t,
            0 <= b < s,
    ;
    assert((d * t - e * s) * one == -((e * s - d * t) * one)) by (nonlinear_arith);
    assert(t * s == s * t) by (nonlinear_arith);
    assert((bound + 1) * (s * t) == bound * (s * t) + s * t) by (nonlinear_arith);
    assert((-bound - 1) * (s * t) == -(bound * (s * t)) - s * t) by (nonlinear_arith);
    assert(s * t > 0) by (nonlinear_arith)
        requires
            s > 0,
            t > 0,
    ;
    assert(q - r <= bound + 1) by (nonlinear_arith)
        requires
            (q - r) * (s * t) <= (bound + 1) * (s * t),
            s * t > 0,
    ;
    assert(q - r >= -bound - 1) by (nonlinear_arith)
        requires
            (q - r) * (s * t) >= (-bound - 1) * (s * t),
            s * t > 0,
    ;
}

} // verus!
