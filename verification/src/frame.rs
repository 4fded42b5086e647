//! The camera frame, shared by the tracker (CPU sampling) and renderer (GPU upload).

use crate::fixed::{fx, Fx, ONE};
use crate::vector::Vec2;
use vstd::prelude::*;

verus! {

/// An RGBA8 frame. RGBA rather than RGB so it uploads to a GPU texture without
/// a repack, at the cost of one padding byte per pixel.
#[derive(Clone)]
pub struct Frame {
    pub width: u32,
    pub height: u32,
    pub rgba: Vec<u8>,
    /// Incremented per captured frame so consumers can detect staleness.
    pub seq: u64,
}

/// The index closest to `v` in a row of `n`.
pub open spec fn hold(v: int, n: int) -> int {
    if v < 0 {
        0
    } else if v >= n {
        n - 1
    } else {
        v
    }
}

/// Where a pixel's first byte stands in the buffer.
pub open spec fn offset(width: int, x: int, y: int) -> int {
    (y * width + x) * 4
}

/// Steps from the last whole number up to `a`.
pub open spec fn fraction(a: Fx) -> int {
    a.raw as int % ONE as int
}

/// Four bytes blended by the distances `u` and `v` from the first of them, as
/// a share of 255.
pub open spec fn blend(c00: int, c10: int, c01: int, c11: int, u: int, v: int) -> int {
    (c00 * ((ONE - u) * (ONE - v)) + c10 * (u * (ONE - v)) + c01 * ((ONE - u) * v) + c11 * (u * v))
        / (255 * ONE)
}

impl Frame {
    /// The buffer holds four bytes for each pixel.
    pub open spec fn wf(&self) -> bool {
        self.rgba@.len() == self.width * self.height * 4
    }

    /// There is a pixel to sample.
    pub open spec fn visible(&self) -> bool {
        self.wf() && self.width > 0 && self.height > 0
    }

    /// Colour `c` of the pixel closest to column `x` and row `y`.
    pub open spec fn byte_at(&self, x: int, y: int, c: int) -> u8 {
        self.rgba@[offset(
            self.width as int,
            hold(x, self.width as int),
            hold(y, self.height as int),
        ) + c]
    }

    /// The position closest to `p` among those between the middles of the outer
    /// pixels.
    pub open spec fn nearest(&self, p: Vec2) -> Vec2 {
        Vec2 {
            x: p.x.clamp(Fx::ratio(1, 2), fx(self.width * ONE - ONE / 2)),
            y: p.y.clamp(Fx::ratio(1, 2), fx(self.height * ONE - ONE / 2)),
        }
    }

    /// Colour `c` at the pixel-space position `p`.
    pub open spec fn color_at(&self, p: Vec2, c: int) -> Fx {
        let px = p.x.minus(Fx::ratio(1, 2));
        let py = p.y.minus(Fx::ratio(1, 2));
        let x = px.raw as int / ONE as int;
        let y = py.raw as int / ONE as int;
        fx(
            blend(
                self.byte_at(x, y, c) as int,
                self.byte_at(x + 1, y, c) as int,
                self.byte_at(x, y + 1, c) as int,
                self.byte_at(x + 1, y + 1, c) as int,
                fraction(px),
                fraction(py),
            ),
        )
    }

    /// A black frame.
    pub fn new(width: u32, height: u32) -> (frame: Frame)
        requires
            width * height * 4 <= u32::MAX,
        ensures
            frame.wf(),
            frame.width == width,
            frame.height == height,
            frame.seq == 0,
            forall|i: int| 0 <= i < frame.rgba@.len() ==> #[trigger] frame.rgba@[i] == 0,
    {
        assert(0 <= width * height) by (nonlinear_arith);
        let bytes: u32 = width * height * 4;
        Frame { width, height, rgba: vec![0u8; bytes as usize], seq: 0 }
    }

    /// Width and height in pixels.
    #[verifier::allow_in_spec]
    pub fn size(&self) -> Vec2
        returns
            (Vec2 { x: Fx::count(self.width), y: Fx::count(self.height) }),
    {
        Vec2 { x: Fx::count(self.width), y: Fx::count(self.height) }
    }

    fn texel(&self, x: i64, y: i64) -> (color: [u8; 3])
        requires
            self.visible(),
        ensures
            forall|c: int| 0 <= c < 3 ==> #[trigger] color[c] == self.byte_at(x as int, y as int, c),
    {
        // Clamp-to-edge: crops routinely extend past the frame border.
        let column: u64 = clamp_index(x, self.width);
        let row: u64 = clamp_index(y, self.height);
        let width: u64 = self.width as u64;
        assert(0 <= row * width && (row * width + column) * 4 + 3 < width * self.height * 4)
            by (nonlinear_arith)
            requires
                0 <= column < width,
                0 <= row < self.height,
        ;
        assert(self.rgba@.len() == self.rgba.len());
        let i: usize = (row * width + column) as usize * 4;
        [self.rgba[i], self.rgba[i + 1], self.rgba[i + 2]]
    }

    /// Bilinear sample at a pixel-space position, returning 0..1 RGB: the
    /// normalization the models expect.
    pub fn sample(&self, p: Vec2) -> (color: [Fx; 3])
        requires
            self.visible(),
        ensures
            forall|c: int| 0 <= c < 3 ==> #[trigger] color[c] == self.color_at(p, c),
    {
        let px: Fx = p.x.minus(Fx::ratio(1, 2));
        let py: Fx = p.y.minus(Fx::ratio(1, 2));
        let (x0, u) = split(px);
        let (y0, v) = split(py);

        let c00 = self.texel(x0, y0);
        let c10 = self.texel(x0 + 1, y0);
        let c01 = self.texel(x0, y0 + 1);
        let c11 = self.texel(x0 + 1, y0 + 1);

        [
            mix(c00[0], c10[0], c01[0], c11[0], u, v),
            mix(c00[1], c10[1], c01[1], c11[1], u, v),
            mix(c00[2], c10[2], c01[2], c11[2], u, v),
        ]
    }
}

/// The index closest to `v` in a row of `n`.
fn clamp_index(v: i64, n: u32) -> (i: u64)
    requires
        n > 0,
    ensures
        i == hold(v as int, n as int),
{
    if v < 0 {
        0
    } else if v >= n as i64 {
        n as u64 - 1
    } else {
        v as u64
    }
}

/// The whole number below `a`, and the steps from there.
fn split(a: Fx) -> (parts: (i64, i64))
    ensures
        parts.0 == a.raw as int / ONE as int,
        parts.1 == fraction(a),
        0 <= parts.1 < ONE,
        -0x8000_0000 <= parts.0 < 0x8000_0000,
{
    let whole: i64 = crate::fixed::floor_quotient(a.raw as i128, ONE as i128) as i64;
    (whole, a.raw - whole * ONE)
}

/// Four bytes blended bilinearly.
fn mix(c00: u8, c10: u8, c01: u8, c11: u8, u: i64, v: i64) -> (out: Fx)
    requires
        0 <= u < ONE,
        0 <= v < ONE,
    ensures
        out == fx(blend(c00 as int, c10 as int, c01 as int, c11 as int, u as int, v as int)),
{
    let a: u64 = (ONE - u) as u64;
    let b: u64 = (ONE - v) as u64;
    let (u, v) = (u as u64, v as u64);
    proof {
        lemma_weight(a as int, b as int);
        lemma_weight(u as int, b as int);
        lemma_weight(a as int, v as int);
        lemma_weight(u as int, v as int);
    }
    let sum: u128 = c00 as u128 * (a as u128 * b as u128) + c10 as u128 * (u as u128 * b as u128)
        + c01 as u128 * (a as u128 * v as u128) + c11 as u128 * (u as u128 * v as u128);
    Fx::narrow((sum / (255 * ONE as u128)) as i128)
}

/// A weight is at most one unit squared, and so are a byte's shares of it.
proof fn lemma_weight(a: int, b: int)
    requires
        0 <= a <= ONE,
        0 <= b <= ONE,
    ensures
        0 <= a * b <= 0x1_0000_0000_0000_0000,
        forall|c: u8| 0 <= #[trigger] (c * (a * b)) <= 255 * 0x1_0000_0000_0000_0000,
{
    assert(0 <= a * b <= 0x1_0000_0000_0000_0000) by (nonlinear_arith)
        requires
            0 <= a <= 0x1_0000_0000,
            0 <= b <= 0x1_0000_0000,
    ;
    let w = a * b;
    assert forall|c: u8| 0 <= #[trigger] (c * (a * b)) <= 255 * 0x1_0000_0000_0000_0000 by {
        assert(0 <= c * w <= 255 * 0x1_0000_0000_0000_0000) by (nonlinear_arith)
            requires
                0 <= w <= 0x1_0000_0000_0000_0000,
                0 <= c <= 255,
        ;
    }
}

/// The weights of a blend add up to one unit squared.
proof fn lemma_weights(u: int, v: int)
    ensures
        (ONE - u) * (ONE - v) + u * (ONE - v) + (ONE - u) * v + u * v == 0x1_0000_0000_0000_0000,
        (ONE - u) * (ONE - v) + u * (ONE - v) == ONE * (ONE - v),
        (ONE - u) * v + u * v == ONE * v,
{
    let n: int = 0x1_0000_0000;
    assert((n - u) * (n - v) + u * (n - v) == n * (n - v)) by (nonlinear_arith);
    assert((n - u) * v + u * v == n * v) by (nonlinear_arith);
}

/// A blend lies between the smallest and the largest of what it blends.
proof fn lemma_blend_between(c00: int, c10: int, c01: int, c11: int, u: int, v: int, lo: int, hi: int)
    requires
        0 <= u < ONE,
        0 <= v < ONE,
        lo <= c00 <= hi,
        lo <= c10 <= hi,
        lo <= c01 <= hi,
        lo <= c11 <= hi,
    ensures
        (lo * ONE) / 255 <= blend(c00, c10, c01, c11, u, v) <= (hi * ONE) / 255,
{
    let a = (ONE - u) * (ONE - v);
    let b = u * (ONE - v);
    let c = (ONE - u) * v;
    let d = u * v;
    lemma_weights(u, v);
    lemma_weight(ONE - u, ONE - v);
    lemma_weight(u, ONE - v);
    lemma_weight(ONE - u, v);
    lemma_weight(u, v);
    assert(lo * a <= c00 * a <= hi * a) by (nonlinear_arith)
        requires
            lo <= c00 <= hi,
            a >= 0,
    ;
    assert(lo * b <= c10 * b <= hi * b) by (nonlinear_arith)
        requires
            lo <= c10 <= hi,
            b >= 0,
    ;
    assert(lo * c <= c01 * c <= hi * c) by (nonlinear_arith)
        requires
            lo <= c01 <= hi,
            c >= 0,
    ;
    assert(lo * d <= c11 * d <= hi * d) by (nonlinear_arith)
        requires
            lo <= c11 <= hi,
            d >= 0,
    ;
    assert(lo * a + lo * b + lo * c + lo * d == lo * 0x1_0000_0000_0000_0000) by (nonlinear_arith)
        requires
            a + b + c + d == 0x1_0000_0000_0000_0000,
    ;
    assert(hi * a + hi * b + hi * c + hi * d == hi * 0x1_0000_0000_0000_0000) by (nonlinear_arith)
        requires
            a + b + c + d == 0x1_0000_0000_0000_0000,
    ;
    let sum = c00 * a + c10 * b + c01 * c + c11 * d;
    let n: int = 255 * 0x1_0000_0000int;
    vstd::arithmetic::div_mod::lemma_div_is_ordered(lo * 0x1_0000_0000_0000_0000, sum, n);
    vstd::arithmetic::div_mod::lemma_div_is_ordered(sum, hi * 0x1_0000_0000_0000_0000, n);
    lemma_reduce(lo);
    lemma_reduce(hi);
}

proof fn lemma_reduce(c: int)
    ensures
        (c * 0x1_0000_0000_0000_0000) / (255 * 0x1_0000_0000int) == (c * 0x1_0000_0000) / 255,
{
    assert((c * 0x1_0000_0000_0000_0000) / (255 * 0x1_0000_0000int) == (c * 0x1_0000_0000) / 255)
        by (nonlinear_arith);
}

/// A sample is a colour: between 0 and 1.
pub proof fn law_sample_is_in_range(frame: Frame, p: Vec2, c: int)
    ensures
        0 <= frame.color_at(p, c).raw <= ONE,
{
    let px = p.x.minus(Fx::ratio(1, 2));
    let py = p.y.minus(Fx::ratio(1, 2));
    let x = px.raw as int / ONE as int;
    let y = py.raw as int / ONE as int;
    lemma_blend_between(
        frame.byte_at(x, y, c) as int,
        frame.byte_at(x + 1, y, c) as int,
        frame.byte_at(x, y + 1, c) as int,
        frame.byte_at(x + 1, y + 1, c) as int,
        fraction(px),
        fraction(py),
        0,
        255,
    );
}

/// At the middle of a pixel a sample is that pixel's own colour.
pub proof fn law_sample_hits_pixel(frame: Frame, x: int, y: int, c: int)
    requires
        0 <= x < frame.width,
        0 <= y < frame.height,
        frame.width <= i32::MAX,
        frame.height <= i32::MAX,
    ensures
        frame.color_at(
            Vec2 { x: fx(x * ONE + ONE / 2), y: fx(y * ONE + ONE / 2) },
            c,
        ).raw == (frame.rgba@[offset(frame.width as int, x, y) + c] * ONE) / 255,
{
    let p = Vec2 { x: fx(x * ONE + ONE / 2), y: fx(y * ONE + ONE / 2) };
    let px = p.x.minus(Fx::ratio(1, 2));
    let py = p.y.minus(Fx::ratio(1, 2));
    assert(px.raw == x * ONE && py.raw == y * ONE);
    let b = frame.byte_at(x, y, c) as int;
    let b10 = frame.byte_at(x + 1, y, c) as int;
    let b01 = frame.byte_at(x, y + 1, c) as int;
    let b11 = frame.byte_at(x + 1, y + 1, c) as int;
    let n = ONE as int;
    assert(b10 * (0 * (n - 0)) == 0 && b01 * ((n - 0) * 0) == 0 && b11 * (0 * 0) == 0)
        by (nonlinear_arith);
    assert(blend(b, b10, b01, b11, 0, 0) == (b * 0x1_0000_0000_0000_0000) / (255 * 0x1_0000_0000int));
    lemma_reduce(b);
}

/// Where all four pixels around a position agree, so does the sample.
pub proof fn law_flat_areas_stay_flat(frame: Frame, p: Vec2, c: int, b: u8)
    requires
        forall|x: int, y: int| #[trigger] frame.byte_at(x, y, c) == b,
    ensures
        frame.color_at(p, c).raw == (b * ONE) / 255,
{
    let px = p.x.minus(Fx::ratio(1, 2));
    let py = p.y.minus(Fx::ratio(1, 2));
    let x = px.raw as int / ONE as int;
    let y = py.raw as int / ONE as int;
    lemma_blend_between(
        frame.byte_at(x, y, c) as int,
        frame.byte_at(x + 1, y, c) as int,
        frame.byte_at(x, y + 1, c) as int,
        frame.byte_at(x + 1, y + 1, c) as int,
        fraction(px),
        fraction(py),
        b as int,
        b as int,
    );
}

/// Past the border a sample no longer changes with the distance: crops that
/// extend past an edge or a corner see the colours there.
pub proof fn law_edges_extend(frame: Frame, p: Vec2, c: int)
    requires
        0 < frame.width <= i32::MAX,
        0 < frame.height <= i32::MAX,
    ensures
        frame.color_at(p, c) == frame.color_at(frame.nearest(p), c),
{
    let near = frame.nearest(p);
    let (px, py) = (p.x.minus(Fx::ratio(1, 2)), p.y.minus(Fx::ratio(1, 2)));
    let (nx, ny) = (near.x.minus(Fx::ratio(1, 2)), near.y.minus(Fx::ratio(1, 2)));
    lemma_nearest(p.x, near.x, frame.width as int);
    lemma_nearest(p.y, near.y, frame.height as int);
    let (x, y) = (px.raw as int / ONE as int, py.raw as int / ONE as int);
    let (z, w) = (nx.raw as int / ONE as int, ny.raw as int / ONE as int);
    let (u, v) = (fraction(px), fraction(py));
    let b = |x: int, y: int| frame.byte_at(x, y, c) as int;
    // Across, then down.
    if px != nx {
        lemma_blend_across(b(x, y), b(x, y + 1), u, v, b(z + 1, y), b(z + 1, y + 1));
    }
    assert(frame.color_at(p, c) == fx(
        blend(b(z, y), b(z + 1, y), b(z, y + 1), b(z + 1, y + 1), fraction(nx), v),
    ));
    if py != ny {
        lemma_blend_down(b(z, y), b(z + 1, y), fraction(nx), v, b(z, w + 1), b(z + 1, w + 1));
    }
}

/// Along one axis of `n` pixels, a position and the nearest one inside either
/// agree, or both pixels around the first are the one that the second hits.
proof fn lemma_nearest(a: Fx, near: Fx, n: int)
    requires
        0 < n <= i32::MAX,
        near == a.clamp(Fx::ratio(1, 2), fx(n * ONE - ONE / 2)),
    ensures
        ({
            let (p, q) = (a.minus(Fx::ratio(1, 2)), near.minus(Fx::ratio(1, 2)));
            let (x, z) = (p.raw as int / ONE as int, q.raw as int / ONE as int);
            p == q || (hold(x, n) == hold(z, n) && hold(x + 1, n) == hold(z, n) && fraction(q) == 0)
        }),
{
    assert(Fx::ratio(1, 2).raw == 0x8000_0000);
    let (p, q) = (a.minus(Fx::ratio(1, 2)).raw as int, near.minus(Fx::ratio(1, 2)).raw as int);
    if p < 0 {
        assert(q == 0);
    } else if p > (n - 1) * 0x1_0000_0000 {
        assert(q == (n - 1) * 0x1_0000_0000);
    } else {
        assert(q == p);
    }
}

/// Where the pixels on either side agree, so does the blend across them.
proof fn lemma_blend_across(b0: int, b1: int, u: int, v: int, c0: int, c1: int)
    ensures
        blend(b0, b0, b1, b1, u, v) == blend(b0, c0, b1, c1, 0, v),
{
    lemma_weights(u, v);
    lemma_weights(0, v);
    let (wa, wb, wc, wd) = ((ONE - u) * (ONE - v), u * (ONE - v), (ONE - u) * v, u * v);
    assert(b0 * wa + b0 * wb == b0 * (wa + wb)) by (nonlinear_arith);
    assert(b1 * wc + b1 * wd == b1 * (wc + wd)) by (nonlinear_arith);
    assert(0 * (ONE - v) == 0 && 0 * v == 0 && c0 * 0 == 0 && c1 * 0 == 0);
}

/// Where the pixels above and below agree, so does the blend between them.
proof fn lemma_blend_down(b0: int, b1: int, u: int, v: int, c0: int, c1: int)
    ensures
        blend(b0, b1, b0, b1, u, v) == blend(b0, b1, c0, c1, u, 0),
{
    let n: int = 0x1_0000_0000;
    let (wa, wb, wc, wd) = ((n - u) * (n - v), u * (n - v), (n - u) * v, u * v);
    assert((n - u) * (n - v) + (n - u) * v == (n - u) * (n - 0)) by (nonlinear_arith);
    assert(u * (n - v) + u * v == u * (n - 0)) by (nonlinear_arith);
    assert(b0 * wa + b0 * wc == b0 * (wa + wc)) by (nonlinear_arith);
    assert(b1 * wb + b1 * wd == b1 * (wb + wd)) by (nonlinear_arith);
    assert((n - u) * 0 == 0 && u * 0 == 0 && c0 * 0 == 0 && c1 * 0 == 0);
}

/// Between the middles of four pixels a sample mixes their colours, each by how
/// near it is: 255 times the sample is the weighted sum of the four bytes, up
/// to rounding. `u` and `v` are the steps from the middle of pixel (x, y).
pub proof fn law_sample_mixes_its_neighbours(frame: Frame, x: int, y: int, u: int, v: int, c: int)
    requires
        frame.width <= i32::MAX,
        frame.height <= i32::MAX,
        0 <= x,
        x + 1 < frame.width,
        0 <= y,
        y + 1 < frame.height,
        0 <= u < ONE,
        0 <= v < ONE,
    ensures
        ({
            let w = frame.width as int;
            let near = frame.rgba@[(y * w + x) * 4 + c];
            let right = frame.rgba@[(y * w + x + 1) * 4 + c];
            let below = frame.rgba@[((y + 1) * w + x) * 4 + c];
            let across = frame.rgba@[((y + 1) * w + x + 1) * 4 + c];
            let sum = near * ((ONE - u) * (ONE - v)) + right * (u * (ONE - v)) + below * ((ONE - u) * v)
                + across * (u * v);
            let color = frame.color_at(
                Vec2 { x: fx(x * ONE + ONE / 2 + u), y: fx(y * ONE + ONE / 2 + v) },
                c,
            ).raw;
            0 <= sum - 255 * 0x1_0000_0000 * color < 255 * 0x1_0000_0000
        }),
{
    let p = Vec2 { x: fx(x * ONE + ONE / 2 + u), y: fx(y * ONE + ONE / 2 + v) };
    let px = p.x.minus(Fx::ratio(1, 2));
    let py = p.y.minus(Fx::ratio(1, 2));
    assert(px.raw == x * ONE + u && py.raw == y * ONE + v);
    law_sample_is_in_range(frame, p, c);
    assert(px.raw as int / ONE as int == x && py.raw as int / ONE as int == y);
    assert(fraction(px) == u && fraction(py) == v);
    let w = frame.width as int;
    let near = frame.rgba@[(y * w + x) * 4 + c];
    let right = frame.rgba@[(y * w + x + 1) * 4 + c];
    let below = frame.rgba@[((y + 1) * w + x) * 4 + c];
    let across = frame.rgba@[((y + 1) * w + x + 1) * 4 + c];
    assert(frame.byte_at(x, y, c) == near);
    assert(frame.byte_at(x + 1, y, c) == right);
    assert(frame.byte_at(x, y + 1, c) == below);
    assert(frame.byte_at(x + 1, y + 1, c) == across);
    lemma_blend_between(
        near as int,
        right as int,
        below as int,
        across as int,
        u,
        v,
        0,
        255,
    );
    let sum = near * ((ONE - u) * (ONE - v)) + right * (u * (ONE - v)) + below * ((ONE - u) * v)
        + across * (u * v);
    let n = 255 * 0x1_0000_0000int;
    let color = frame.color_at(p, c).raw as int;
    assert(color == blend(near as int, right as int, below as int, across as int, u, v));
    assert(color == sum / n);
    lemma_quotient(sum, n);
}

/// A quotient rounded down, times the divisor.
proof fn lemma_quotient(a: int, n: int)
    requires
        n > 0,
    ensures
        0 <= a - n * (a / n) < n,
{
    vstd::arithmetic::div_mod::lemma_fundamental_div_mod(a, n);
    vstd::arithmetic::div_mod::lemma_mod_bound(a, n);
}

} // verus!
