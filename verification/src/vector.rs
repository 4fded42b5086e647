//! Points and offsets in fixed-point coordinates.

use crate::fixed::{fx, isqrt, lemma_product_bound, root, Fx};
use vstd::prelude::*;

verus! {

/// A point or an offset in the plane.
#[derive(Debug, Clone, Copy, PartialEq, Eq, Structural)]
pub struct Vec2 {
    pub x: Fx,
    pub y: Fx,
}

/// A point or an offset in space.
#[derive(Debug, Clone, Copy, PartialEq, Eq, Structural)]
pub struct Vec3 {
    pub x: Fx,
    pub y: Fx,
    pub z: Fx,
}

/// The squared length of an offset, in squared steps.
pub open spec fn norm2(v: Vec2) -> int {
    v.x.raw * v.x.raw + v.y.raw * v.y.raw
}

/// The squared length of an offset in space, in squared steps.
pub open spec fn norm3(v: Vec3) -> int {
    v.x.raw * v.x.raw + v.y.raw * v.y.raw + v.z.raw * v.z.raw
}

/// The signed area spanned by two offsets, in squared steps.
pub open spec fn perp(a: Vec2, b: Vec2) -> int {
    a.x.raw * b.y.raw - a.y.raw * b.x.raw
}

/// A square is never negative and fits in 127 bits.
pub proof fn lemma_square_bound(a: i64)
    ensures
        0 <= a * a <= 0x4000_0000_0000_0000_0000_0000_0000_0000,
{
    lemma_product_bound(a, a);
    assert(a * a >= 0) by (nonlinear_arith);
}

impl Vec2 {
    #[verifier::allow_in_spec]
    pub fn new(x: Fx, y: Fx) -> Vec2
        returns
            (Vec2 { x, y }),
    {
        Vec2 { x, y }
    }

    #[verifier::allow_in_spec]
    pub fn zero() -> Vec2
        returns
            (Vec2 { x: Fx { raw: 0 }, y: Fx { raw: 0 } }),
    {
        Vec2 { x: Fx { raw: 0 }, y: Fx { raw: 0 } }
    }

    #[verifier::allow_in_spec]
    pub fn plus(self, other: Vec2) -> Vec2
        returns
            (Vec2 { x: self.x.plus(other.x), y: self.y.plus(other.y) }),
    {
        Vec2 { x: self.x.plus(other.x), y: self.y.plus(other.y) }
    }

    #[verifier::allow_in_spec]
    pub fn minus(self, other: Vec2) -> Vec2
        returns
            (Vec2 { x: self.x.minus(other.x), y: self.y.minus(other.y) }),
    {
        Vec2 { x: self.x.minus(other.x), y: self.y.minus(other.y) }
    }

    /// Both coordinates multiplied by `k`.
    #[verifier::allow_in_spec]
    pub fn times(self, k: Fx) -> Vec2
        returns
            (Vec2 { x: self.x.times(k), y: self.y.times(k) }),
    {
        Vec2 { x: self.x.times(k), y: self.y.times(k) }
    }

    /// Both coordinates divided by `k`.
    #[verifier::allow_in_spec]
    pub fn over(self, k: Fx) -> Vec2
        returns
            (Vec2 { x: self.x.over(k), y: self.y.over(k) }),
    {
        Vec2 { x: self.x.over(k), y: self.y.over(k) }
    }

    /// The length of this offset along `axis`, a direction of length one.
    #[verifier::allow_in_spec]
    pub fn dot(self, axis: Vec2) -> Fx
        returns
            self.x.times(axis.x).plus(self.y.times(axis.y)),
    {
        self.x.times(axis.x).plus(self.y.times(axis.y))
    }

    /// The signed area spanned with `other`, in squared steps: positive when
    /// `other` lies on the side that turning from +x to +y leads to.
    pub fn perp_dot(self, other: Vec2) -> (area: i128)
        ensures
            area == perp(self, other),
    {
        proof {
            lemma_product_bound(self.x.raw, other.y.raw);
            lemma_product_bound(self.y.raw, other.x.raw);
        }
        self.x.raw as i128 * other.y.raw as i128 - self.y.raw as i128 * other.x.raw as i128
    }

    /// The squared length, in squared steps.
    pub fn length_squared(self) -> (n: u128)
        ensures
            n == norm2(self),
    {
        proof {
            lemma_square_bound(self.x.raw);
            lemma_square_bound(self.y.raw);
        }
        let xx: i128 = self.x.raw as i128 * self.x.raw as i128;
        let yy: i128 = self.y.raw as i128 * self.y.raw as i128;
        xx as u128 + yy as u128
    }

    #[verifier::allow_in_spec]
    pub fn length(self) -> Fx
        returns
            fx(root(norm2(self))),
    {
        Fx::narrow(isqrt(self.length_squared()) as i128)
    }

    #[verifier::allow_in_spec]
    pub fn distance(self, other: Vec2) -> Fx
        returns
            fx(root(norm2(self.minus(other)))),
    {
        self.minus(other).length()
    }
}

impl Vec3 {
    #[verifier::allow_in_spec]
    pub fn new(x: Fx, y: Fx, z: Fx) -> Vec3
        returns
            (Vec3 { x, y, z }),
    {
        Vec3 { x, y, z }
    }

    #[verifier::allow_in_spec]
    pub fn zero() -> Vec3
        returns
            (Vec3 { x: Fx { raw: 0 }, y: Fx { raw: 0 }, z: Fx { raw: 0 } }),
    {
        Vec3 { x: Fx { raw: 0 }, y: Fx { raw: 0 }, z: Fx { raw: 0 } }
    }

    /// The point without its depth.
    #[verifier::allow_in_spec]
    pub fn truncate(self) -> Vec2
        returns
            (Vec2 { x: self.x, y: self.y }),
    {
        Vec2 { x: self.x, y: self.y }
    }

    #[verifier::allow_in_spec]
    pub fn plus(self, other: Vec3) -> Vec3
        returns
            (Vec3 {
                x: self.x.plus(other.x),
                y: self.y.plus(other.y),
                z: self.z.plus(other.z),
            }),
    {
        Vec3 { x: self.x.plus(other.x), y: self.y.plus(other.y), z: self.z.plus(other.z) }
    }

    #[verifier::allow_in_spec]
    pub fn minus(self, other: Vec3) -> Vec3
        returns
            (Vec3 {
                x: self.x.minus(other.x),
                y: self.y.minus(other.y),
                z: self.z.minus(other.z),
            }),
    {
        Vec3 { x: self.x.minus(other.x), y: self.y.minus(other.y), z: self.z.minus(other.z) }
    }

    #[verifier::allow_in_spec]
    pub fn times(self, k: Fx) -> Vec3
        returns
            (Vec3 { x: self.x.times(k), y: self.y.times(k), z: self.z.times(k) }),
    {
        Vec3 { x: self.x.times(k), y: self.y.times(k), z: self.z.times(k) }
    }

    #[verifier::allow_in_spec]
    pub fn over(self, k: Fx) -> Vec3
        returns
            (Vec3 { x: self.x.over(k), y: self.y.over(k), z: self.z.over(k) }),
    {
        Vec3 { x: self.x.over(k), y: self.y.over(k), z: self.z.over(k) }
    }

    #[verifier::allow_in_spec]
    pub fn length(self) -> Fx
        returns
            fx(root(norm3(self))),
    {
        proof {
            lemma_square_bound(self.x.raw);
            lemma_square_bound(self.y.raw);
            lemma_square_bound(self.z.raw);
        }
        let xx: i128 = self.x.raw as i128 * self.x.raw as i128;
        let yy: i128 = self.y.raw as i128 * self.y.raw as i128;
        let zz: i128 = self.z.raw as i128 * self.z.raw as i128;
        Fx::narrow(isqrt(xx as u128 + yy as u128 + zz as u128) as i128)
    }
}

/// The distance between two points is the integer part of the root of the sum
/// of the squares of their differences, and no distance is longer one way than
/// the other.
pub proof fn law_distance_is_pythagorean(a: Vec2, b: Vec2)
    requires
        -0x1000_0000_0000_0000 <= a.x.raw <= 0x1000_0000_0000_0000,
        -0x1000_0000_0000_0000 <= a.y.raw <= 0x1000_0000_0000_0000,
        -0x1000_0000_0000_0000 <= b.x.raw <= 0x1000_0000_0000_0000,
        -0x1000_0000_0000_0000 <= b.y.raw <= 0x1000_0000_0000_0000,
    ensures
        ({
            let (x, y, d) = (b.x.raw - a.x.raw, b.y.raw - a.y.raw, a.distance(b).raw);
            &&& d >= 0
            &&& d * d <= x * x + y * y
            &&& x * x + y * y < (d + 1) * (d + 1)
        }),
        a.distance(b) == b.distance(a),
{
    let (x, y) = (b.x.raw - a.x.raw, b.y.raw - a.y.raw);
    assert((-x) * (-x) == x * x && (-y) * (-y) == y * y) by (nonlinear_arith);
    let (v, w) = (a.minus(b), b.minus(a));
    assert(v.x.raw == -x && v.y.raw == -y && w.x.raw == x && w.y.raw == y);
    assert(norm2(v) == x * x + y * y && norm2(w) == x * x + y * y);
    lemma_square_bound(w.x.raw);
    lemma_square_bound(w.y.raw);
    crate::fixed::lemma_root(norm2(w));
    let r = root(norm2(w));
    assert(r <= 0x7fff_ffff_ffff_ffff) by {
        if r > 0x7fff_ffff_ffff_ffff {
            assert(r * r >= 0x8000_0000_0000_0000 * 0x8000_0000_0000_0000) by (nonlinear_arith)
                requires
                    r >= 0x8000_0000_0000_0000,
            ;
            assert(x * x <= 0x2000_0000_0000_0000 * 0x2000_0000_0000_0000 && y * y
                <= 0x2000_0000_0000_0000 * 0x2000_0000_0000_0000) by (nonlinear_arith)
                requires
                    -0x2000_0000_0000_0000 <= x <= 0x2000_0000_0000_0000,
                    -0x2000_0000_0000_0000 <= y <= 0x2000_0000_0000_0000,
            ;
        }
    }
}

} // verus!
