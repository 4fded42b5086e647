//! Fixed-point numbers.
//!
//! Every coordinate, length, score and duration in the pipeline is a [`Fx`]: a
//! signed 64-bit integer counting steps of 2^-32. Integer arithmetic keeps the
//! geometry exact where floating point would round, so the sign of a cross
//! product or the order of two distances is always the true one. Results that
//! do not fit stop at the ends of the range instead of wrapping, and results
//! that fall between two steps are rounded down.

use vstd::prelude::*;

verus! {

/// Steps in one unit.
pub const ONE: i64 = 0x1_0000_0000;

/// The nearest representable step count.
pub open spec fn sat(x: int) -> i64 {
    if x > i64::MAX {
        i64::MAX
    } else if x < i64::MIN {
        i64::MIN
    } else {
        x as i64
    }
}

/// The quotient rounded towards negative infinity.
pub open spec fn floor_div(a: int, b: int) -> int {
    if b > 0 {
        a / b
    } else {
        (-a) / (-b)
    }
}

/// `r` is the integer part of the square root of `n`.
pub open spec fn is_root(r: int, n: int) -> bool {
    0 <= r && r * r <= n < (r + 1) * (r + 1)
}

/// The integer part of the square root of `n`.
pub open spec fn root(n: int) -> int {
    choose|r: int| is_root(r, n)
}

/// Square roots are monotonic, so each number has at most one integer root.
pub proof fn lemma_root_unique(a: int, b: int, n: int)
    requires
        is_root(a, n),
        is_root(b, n),
    ensures
        a == b,
{
    if a < b {
        assert((a + 1) * (a + 1) <= b * b) by (nonlinear_arith)
            requires
                0 <= a < b,
        ;
    }
    if b < a {
        assert((b + 1) * (b + 1) <= a * a) by (nonlinear_arith)
            requires
                0 <= b < a,
        ;
    }
}

/// Every number from zero up has an integer root.
pub proof fn lemma_root(n: int)
    requires
        n >= 0,
    ensures
        is_root(root(n), n),
        root(n) <= n,
    decreases n,
{
    if n == 0 {
        assert(is_root(0, 0));
    } else {
        lemma_root(n - 1);
        let r = root(n - 1);
        if n < (r + 1) * (r + 1) {
            assert(is_root(r, n));
        } else {
            assert((r + 2) * (r + 2) >= (r + 1) * (r + 1) + 1) by (nonlinear_arith)
                requires
                    r >= 0,
            ;
            assert(is_root(r + 1, n));
        }
    }
    let r = root(n);
    assert(r <= r * r) by (nonlinear_arith)
        requires
            r >= 0,
    ;
}

/// The root of a square is what was squared.
pub proof fn lemma_root_of_square(a: int)
    requires
        a >= 0,
    ensures
        root(a * a) == a,
{
    assert(a * a >= 0 && a * a < (a + 1) * (a + 1)) by (nonlinear_arith)
        requires
            a >= 0,
    ;
    assert(is_root(a, a * a));
    lemma_root(a * a);
    lemma_root_unique(root(a * a), a, a * a);
}

/// The integer part of the square root of `n`, by bisection.
pub fn isqrt(n: u128) -> (r: u64)
    ensures
        r == root(n as int),
{
    let mut low: u128 = 0;
    let mut high: u128 = 0x1_0000_0000_0000_0000;
    while high - low > 1
        invariant
            low < high <= 0x1_0000_0000_0000_0000,
            low * low <= n < high * high,
        decreases high - low,
    {
        let mid: u128 = low + (high - low) / 2;
        assert(mid * mid <= u128::MAX) by (nonlinear_arith)
            requires
                0 <= mid < 0x1_0000_0000_0000_0000,
        ;
        if mid * mid <= n {
            low = mid;
        } else {
            high = mid;
        }
    }
    proof {
        assert(is_root(low as int, n as int));
        lemma_root(n as int);
        lemma_root_unique(low as int, root(n as int), n as int);
    }
    low as u64
}

/// The product of two 64-bit numbers fits in 127 bits.
pub proof fn lemma_product_bound(a: i64, b: i64)
    ensures
        -0x4000_0000_0000_0000_0000_0000_0000_0000 < a * b
            <= 0x4000_0000_0000_0000_0000_0000_0000_0000,
{
    assert(-0x4000_0000_0000_0000_0000_0000_0000_0000 < a * b
        <= 0x4000_0000_0000_0000_0000_0000_0000_0000) by (nonlinear_arith)
        requires
            i64::MIN <= a <= i64::MAX,
            i64::MIN <= b <= i64::MAX,
    ;
}

/// The quotient rounded towards negative infinity.
pub fn floor_quotient(a: i128, b: i128) -> (q: i128)
    requires
        b != 0,
        i128::MIN < a,
        i128::MIN < b,
    ensures
        q == floor_div(a as int, b as int),
{
    let (num, den) = if b > 0 {
        (a, b)
    } else {
        (-a, -b)
    };
    if num >= 0 {
        (num as u128 / den as u128) as i128
    } else {
        let below: u128 = (-(num + 1)) as u128 / den as u128;
        proof {
            let q = below as int;
            let m = -(num + 1) as int;
            let d = den as int;
            vstd::arithmetic::div_mod::lemma_fundamental_div_mod(m, d);
            assert(num as int == d * (-q - 1) + (d - 1 - m % d)) by (nonlinear_arith)
                requires
                    m == d * q + m % d,
                    m == -(num as int + 1),
            ;
            vstd::arithmetic::div_mod::lemma_fundamental_div_mod_converse(
                num as int,
                d,
                -q - 1,
                d - 1 - m % d,
            );
            vstd::arithmetic::div_mod::lemma_div_is_ordered_by_denominator(m, 1, d);
        }
        -(below as i128) - 1
    }
}

/// A fixed-point number.
#[derive(Debug, Clone, Copy, PartialEq, Eq, Structural)]
pub struct Fx {
    /// The number of steps of 2^-32.
    pub raw: i64,
}

/// The fixed-point number closest to `x` steps.
pub open spec fn fx(x: int) -> Fx {
    Fx { raw: sat(x) }
}

/// The quotient of two fixed-point numbers in steps. Dividing by zero leads to
/// the end of the range that the dividend points to.
pub open spec fn quotient(a: int, b: int) -> int {
    if b != 0 {
        floor_div(a * ONE, b)
    } else if a > 0 {
        i64::MAX as int
    } else if a < 0 {
        i64::MIN as int
    } else {
        0
    }
}

impl Fx {
    /// Rounds a wide step count into range.
    #[verifier::allow_in_spec]
    pub fn narrow(wide: i128) -> Fx
        returns
            fx(wide as int),
    {
        if wide > i64::MAX as i128 {
            Fx { raw: i64::MAX }
        } else if wide < i64::MIN as i128 {
            Fx { raw: i64::MIN }
        } else {
            Fx { raw: wide as i64 }
        }
    }

    #[verifier::allow_in_spec]
    pub fn zero() -> Fx
        returns
            (Fx { raw: 0 }),
    {
        Fx { raw: 0 }
    }

    #[verifier::allow_in_spec]
    pub fn one() -> Fx
        returns
            (Fx { raw: ONE }),
    {
        Fx { raw: ONE }
    }

    /// The whole number `n`.
    #[verifier::allow_in_spec]
    pub fn whole(n: i32) -> Fx
        returns
            fx(n * ONE),
    {
        Fx { raw: n as i64 * ONE }
    }

    /// The whole number `n`, from zero up.
    #[verifier::allow_in_spec]
    pub fn count(n: u32) -> Fx
        returns
            fx(n * ONE),
    {
        proof {
            lemma_product_bound(n as i64, ONE);
        }
        Fx::narrow(n as i128 * ONE as i128)
    }

    /// The fraction `n / d`.
    #[verifier::allow_in_spec]
    pub fn ratio(n: i32, d: u32) -> Fx
        requires
            d > 0,
        returns
            fx((n * ONE) / (d as int)),
    {
        proof {
            lemma_product_bound(n as i64, ONE);
        }
        Fx::narrow(floor_quotient(n as i128 * ONE as i128, d as i128))
    }

    #[verifier::allow_in_spec]
    pub fn plus(self, other: Fx) -> Fx
        returns
            fx(self.raw + other.raw),
    {
        Fx::narrow(self.raw as i128 + other.raw as i128)
    }

    #[verifier::allow_in_spec]
    pub fn minus(self, other: Fx) -> Fx
        returns
            fx(self.raw - other.raw),
    {
        Fx::narrow(self.raw as i128 - other.raw as i128)
    }

    #[verifier::allow_in_spec]
    pub fn times(self, other: Fx) -> Fx
        returns
            fx((self.raw * other.raw) / (ONE as int)),
    {
        proof {
            lemma_product_bound(self.raw, other.raw);
        }
        Fx::narrow(floor_quotient(self.raw as i128 * other.raw as i128, ONE as i128))
    }

    #[verifier::allow_in_spec]
    pub fn over(self, other: Fx) -> Fx
        returns
            fx(quotient(self.raw as int, other.raw as int)),
    {
        proof {
            lemma_product_bound(self.raw, ONE);
        }
        if other.raw != 0 {
            Fx::narrow(floor_quotient(self.raw as i128 * ONE as i128, other.raw as i128))
        } else if self.raw > 0 {
            Fx { raw: i64::MAX }
        } else if self.raw < 0 {
            Fx { raw: i64::MIN }
        } else {
            Fx { raw: 0 }
        }
    }

    #[verifier::allow_in_spec]
    pub fn min(self, other: Fx) -> Fx
        returns
            (if other.raw < self.raw {
                other
            } else {
                self
            }),
    {
        if other.raw < self.raw {
            other
        } else {
            self
        }
    }

    #[verifier::allow_in_spec]
    pub fn max(self, other: Fx) -> Fx
        returns
            (if other.raw > self.raw {
                other
            } else {
                self
            }),
    {
        if other.raw > self.raw {
            other
        } else {
            self
        }
    }

    /// The number held between `low` and `high`.
    #[verifier::allow_in_spec]
    pub fn clamp(self, low: Fx, high: Fx) -> Fx
        requires
            low.raw <= high.raw,
        returns
            (if self.raw < low.raw {
                low
            } else if self.raw > high.raw {
                high
            } else {
                self
            }),
    {
        if self.raw < low.raw {
            low
        } else if self.raw > high.raw {
            high
        } else {
            self
        }
    }

    #[verifier::allow_in_spec]
    pub fn negated(self) -> Fx
        returns
            fx(-self.raw),
    {
        Fx::narrow(-(self.raw as i128))
    }
}

/// What does not fit stops at the nearer end of the range, and what fits stays.
pub proof fn law_range_is_held(x: int)
    ensures
        i64::MIN <= x <= i64::MAX ==> fx(x).raw == x,
        x > i64::MAX ==> fx(x).raw == i64::MAX,
        x < i64::MIN ==> fx(x).raw == i64::MIN,
{
}

/// Sums and differences are exact, products and quotients rounded down to a
/// step, as long as they fit.
pub proof fn law_arithmetic_rounds_down(a: Fx, b: Fx)
    ensures
        i64::MIN <= a.raw + b.raw <= i64::MAX ==> a.plus(b).raw == a.raw + b.raw,
        i64::MIN <= a.raw - b.raw <= i64::MAX ==> a.minus(b).raw == a.raw - b.raw,
        a.raw > i64::MIN ==> a.negated().raw == -a.raw,
        i64::MIN < a.times(b).raw < i64::MAX ==> 0 <= a.raw * b.raw - a.times(b).raw * 0x1_0000_0000
            < 0x1_0000_0000,
        b.raw > 0 && i64::MIN < a.over(b).raw < i64::MAX ==> 0 <= a.raw * 0x1_0000_0000 - a.over(
            b,
        ).raw * b.raw < b.raw,
        b.raw < 0 && i64::MIN < a.over(b).raw < i64::MAX ==> b.raw < a.raw * 0x1_0000_0000 - a.over(
            b,
        ).raw * b.raw <= 0,
{
    let (n, d) = (a.raw * 0x1_0000_0000, b.raw as int);
    if d > 0 {
        let q = n / d;
        vstd::arithmetic::div_mod::lemma_fundamental_div_mod(n, d);
        vstd::arithmetic::div_mod::lemma_mod_bound(n, d);
        vstd::arithmetic::mul::lemma_mul_is_commutative(q, d);
    } else if d < 0 {
        let q = (-n) / (-d);
        vstd::arithmetic::div_mod::lemma_fundamental_div_mod(-n, -d);
        vstd::arithmetic::div_mod::lemma_mod_bound(-n, -d);
        assert((-d) * q == -(q * d)) by (nonlinear_arith);
    }
}

/// The smaller and the larger of two numbers are each one of them, and a number
/// held between two others is between them, and the same if it was.
pub proof fn law_order_is_kept(a: Fx, b: Fx, c: Fx)
    ensures
        a.min(b) == a || a.min(b) == b,
        a.min(b).raw <= a.raw && a.min(b).raw <= b.raw,
        a.max(b) == a || a.max(b) == b,
        a.max(b).raw >= a.raw && a.max(b).raw >= b.raw,
        b.raw <= c.raw ==> b.raw <= a.clamp(b, c).raw <= c.raw,
        b.raw <= a.raw <= c.raw ==> a.clamp(b, c) == a,
        a.raw < b.raw <= c.raw ==> a.clamp(b, c) == b,
        b.raw <= c.raw < a.raw ==> a.clamp(b, c) == c,
{
}

/// Whole numbers are exact, and a fraction times its divisor is its dividend,
/// up to rounding.
pub proof fn law_numbers_are_as_written(n: i32, k: u32, d: u32)
    requires
        d > 0,
        k < 0x8000_0000,
    ensures
        Fx::whole(n).raw == n * 0x1_0000_0000,
        Fx::count(k).raw == k * 0x1_0000_0000,
        0 <= n * 0x1_0000_0000 - Fx::ratio(n, d).raw * d < d,
        Fx::zero().raw == 0,
        Fx::one().raw == 0x1_0000_0000,
{
    let (x, m) = (n * 0x1_0000_0000, d as int);
    let q = x / m;
    vstd::arithmetic::div_mod::lemma_fundamental_div_mod(x, m);
    vstd::arithmetic::div_mod::lemma_mod_bound(x, m);
    assert(-0x8000_0000_0000_0000 <= q <= 0x7fff_ffff_ffff_ffff) by (nonlinear_arith)
        requires
            m * q <= x < m * q + m,
            -0x8000_0000_0000_0000 <= x <= 0x7fff_ffff_ffff_ffff,
            m > 0,
    ;
    vstd::arithmetic::mul::lemma_mul_is_commutative(q, m);
}

} // verus!
