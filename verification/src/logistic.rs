//! The logistic function, by which detectors turn raw scores into probabilities.
//!
//! It is computed from the exponential series, and comes within a few steps of
//! the true value.

use crate::fixed::{quotient, Fx, ONE};
use vstd::prelude::*;

verus! {

/// The exponential series from its term `n` on, nested: with `f` between 0 and 1
/// it goes `1 - f / n * (1 - f / (n + 1) * (1 - ..))`.
pub open spec fn nested(f: Fx, n: int) -> Fx
    decreases 15 - n,
{
    if n > 14 {
        Fx::one()
    } else {
        Fx::one().minus(f.times(nested(f, n + 1)).over(Fx::whole(n as i32)))
    }
}

/// `t` multiplied by `e^-1`, `k` times over.
pub open spec fn faded(t: Fx, k: int) -> Fx
    decreases k,
{
    if k <= 0 {
        t
    } else {
        faded(t, k - 1).times(nested(Fx::one(), 1))
    }
}

/// `e^-t`, for `t` from zero up: by the series for the fraction of `t`, and by
/// multiplication for the rest.
pub open spec fn decay(t: Fx) -> Fx {
    faded(nested(Fx { raw: (t.raw as int % ONE as int) as i64 }, 1), t.raw as int / ONE as int)
}

/// A score held between -100 and 100.
#[verifier::allow_in_spec]
pub fn held(x: Fx) -> Fx
    returns
        x.clamp(Fx::whole(100).negated(), Fx::whole(100)),
{
    x.clamp(Fx::whole(100).negated(), Fx::whole(100))
}

/// The probability that a raw score stands for: `1 / (1 + e^-x)`, with `x` held
/// between -100 and 100.
pub open spec fn logistic(x: Fx) -> Fx {
    let x = held(x);
    if x.raw >= 0 {
        Fx::one().over(Fx::one().plus(decay(x)))
    } else {
        let e = decay(x.negated());
        e.over(Fx::one().plus(e))
    }
}

/// The exponential series for a fraction.
fn series(f: Fx) -> (t: Fx)
    ensures
        t == nested(f, 1),
{
    let mut t: Fx = Fx::one();
    let mut n: i32 = 14;
    while n > 0
        invariant
            0 <= n <= 14,
            t == nested(f, n + 1),
        decreases n,
    {
        t = Fx::one().minus(f.times(t).over(Fx::whole(n)));
        n -= 1;
    }
    t
}

/// `e^-t`, for `t` from zero up.
fn exp_neg(t: Fx) -> (e: Fx)
    requires
        t.raw >= 0,
    ensures
        e == decay(t),
{
    let step: Fx = series(Fx::one());
    let mut e: Fx = series(Fx { raw: t.raw % ONE });
    let whole: i64 = t.raw / ONE;
    let mut k: i64 = 0;
    while k < whole
        invariant
            0 <= k <= whole,
            step == nested(Fx::one(), 1),
            e == faded(nested(Fx { raw: (t.raw as int % ONE as int) as i64 }, 1), k as int),
        decreases whole - k,
    {
        e = e.times(step);
        k += 1;
    }
    e
}

/// The probability that a raw score stands for.
pub fn sigmoid(x: Fx) -> (p: Fx)
    ensures
        p == logistic(x),
{
    let x: Fx = held(x);
    if x.raw >= 0 {
        Fx::one().over(Fx::one().plus(exp_neg(x)))
    } else {
        let e: Fx = exp_neg(x.negated());
        e.over(Fx::one().plus(e))
    }
}

/// One step of the series, in whole steps of a number.
proof fn lemma_nested_step(f: Fx, n: int)
    requires
        0 <= f.raw <= ONE,
        1 <= n <= 14,
        0 <= nested(f, n + 1).raw <= ONE,
    ensures
        ({
            let p = (f.raw * nested(f, n + 1).raw) / (ONE as int);
            &&& 0 <= p <= ONE
            &&& 0 <= p / n <= ONE
            &&& nested(f, n).raw == ONE - p / n
        }),
{
    let (a, t) = (f.raw as int, nested(f, n + 1).raw as int);
    let p = (a * t) / 0x1_0000_0000;
    assert(0 <= a * t <= 0x1_0000_0000 * 0x1_0000_0000) by (nonlinear_arith)
        requires
            0 <= a <= 0x1_0000_0000,
            0 <= t <= 0x1_0000_0000,
    ;
    assert(0 <= p <= 0x1_0000_0000);
    assert(Fx::whole(n as i32).raw == n * 0x1_0000_0000);
    vstd::arithmetic::div_mod::lemma_div_multiples_vanish_quotient(0x1_0000_0000, p, n);
    assert(p * 0x1_0000_0000 == 0x1_0000_0000 * p && n * 0x1_0000_0000 == 0x1_0000_0000 * n);
    assert(0 <= p / n <= p) by (nonlinear_arith)
        requires
            p >= 0,
            n >= 1,
    ;
}

/// The series stays between 0 and 1.
proof fn lemma_nested_range(f: Fx, n: int)
    requires
        0 <= f.raw <= ONE,
        1 <= n,
    ensures
        0 <= nested(f, n).raw <= ONE,
    decreases 15 - n,
{
    if n <= 14 {
        lemma_nested_range(f, n + 1);
        lemma_nested_step(f, n);
    }
}

/// Fading keeps a number between 0 and 1 there.
proof fn lemma_faded_range(t: Fx, k: int)
    requires
        0 <= t.raw <= ONE,
    ensures
        0 <= faded(t, k).raw <= ONE,
    decreases k,
{
    if k > 0 {
        lemma_faded_range(t, k - 1);
        lemma_nested_range(Fx::one(), 1);
        let (a, b) = (faded(t, k - 1).raw as int, nested(Fx::one(), 1).raw as int);
        assert(0 <= a * b <= 0x1_0000_0000 * 0x1_0000_0000) by (nonlinear_arith)
            requires
                0 <= a <= 0x1_0000_0000,
                0 <= b <= 0x1_0000_0000,
        ;
    }
}

/// `e^-t` is between 0 and 1.
proof fn lemma_decay_range(t: Fx)
    requires
        t.raw >= 0,
    ensures
        0 <= decay(t).raw <= ONE,
{
    lemma_nested_range(Fx { raw: (t.raw as int % ONE as int) as i64 }, 1);
    lemma_faded_range(
        nested(Fx { raw: (t.raw as int % ONE as int) as i64 }, 1),
        t.raw as int / ONE as int,
    );
}

/// The two shares of a whole that `e` to one splits it into.
proof fn lemma_shares(e: int)
    requires
        0 <= e <= ONE,
    ensures
        0 <= quotient(e, ONE + e) <= ONE / 2,
        ONE / 2 <= quotient(ONE as int, ONE + e) <= ONE,
        ONE - 1 <= quotient(e, ONE + e) + quotient(ONE as int, ONE + e) <= ONE,
{
    let one = 0x1_0000_0000int;
    let d = one + e;
    vstd::arithmetic::div_mod::lemma_fundamental_div_mod(e * one, d);
    vstd::arithmetic::div_mod::lemma_fundamental_div_mod(one * one, d);
    vstd::arithmetic::div_mod::lemma_mod_bound(e * one, d);
    vstd::arithmetic::div_mod::lemma_mod_bound(one * one, d);
    let (a, b) = ((e * one) / d, (one * one) / d);
    let (r, s) = ((e * one) % d, (one * one) % d);
    assert(d * (a + b) + r + s == d * one) by (nonlinear_arith)
        requires
            e * one == d * a + r,
            one * one == d * b + s,
            d == one + e,
    ;
    assert(one - 1 <= a + b <= one) by (nonlinear_arith)
        requires
            d * (a + b) + r + s == d * one,
            0 <= r < d,
            0 <= s < d,
    ;
    assert(0 <= a <= 0x8000_0000) by (nonlinear_arith)
        requires
            e * one == d * a + r,
            0 <= r < d,
            d == one + e,
            0 <= e <= one,
            one == 0x1_0000_0000,
    ;
    assert(0x8000_0000 <= b <= one) by (nonlinear_arith)
        requires
            one * one == d * b + s,
            0 <= s < d,
            d == one + e,
            0 <= e <= one,
            one == 0x1_0000_0000,
    ;
}

/// What a raw score stands for is a probability: below a half for a negative
/// score, a half or more for any other.
pub proof fn law_logistic_is_a_probability(x: Fx)
    ensures
        0 <= logistic(x).raw <= ONE,
        x.raw >= 0 ==> logistic(x).raw >= ONE / 2,
        x.raw < 0 ==> logistic(x).raw <= ONE / 2,
{
    let y = held(x);
    if y.raw >= 0 {
        lemma_decay_range(y);
        lemma_shares(decay(y).raw as int);
    } else {
        lemma_decay_range(y.negated());
        lemma_shares(decay(y.negated()).raw as int);
    }
}

/// A score of zero is even odds.
pub proof fn law_zero_is_even_odds()
    ensures
        logistic(Fx::zero()) == Fx::ratio(1, 2),
{
    lemma_nested_at_zero(1);
    assert(decay(Fx::zero()) == Fx::one());
    assert(Fx::ratio(1, 2).raw == 0x8000_0000);
    assert((0x1_0000_0000int * 0x1_0000_0000) / 0x2_0000_0000 == 0x8000_0000);
}

proof fn lemma_nested_at_zero(n: int)
    requires
        1 <= n,
    ensures
        nested(Fx::zero(), n) == Fx::one(),
    decreases 15 - n,
{
    if n <= 14 {
        lemma_nested_at_zero(n + 1);
        lemma_nested_step(Fx::zero(), n);
        assert(0int / n == 0) by {
            vstd::arithmetic::div_mod::lemma_div_basics(n);
        }
    }
}

/// Opposite scores stand for probabilities that add up to one, to within a step.
pub proof fn law_opposite_scores(x: Fx)
    requires
        x.raw > 0,
    ensures
        ONE - 1 <= logistic(x).raw + logistic(x.negated()).raw <= ONE,
{
    let y = held(x);
    assert(held(x.negated()).negated() == y);
    lemma_decay_range(y);
    lemma_shares(decay(y).raw as int);
}

/// The exponential series `1 - x + x^2 / 2! - x^3 / 3! + ..` up to the term
/// `last`, in real numbers and nested from its term `n` on. As `last` grows it
/// comes as near to `e^-x` as one likes.
pub open spec fn exponential(x: real, n: nat, last: nat) -> real
    decreases last + 1 - n,
{
    if n > last {
        1real
    } else {
        1real - x / (n as real) * exponential(x, n + 1, last)
    }
}

/// `b` multiplied by `e^-1`, `k` times over, in real numbers.
pub open spec fn fading(b: real, k: int, last: nat) -> real
    decreases k,
{
    if k <= 0 {
        b
    } else {
        fading(b, k - 1, last) * exponential(1real, 1, last)
    }
}

/// A number as a real number.
pub open spec fn value(x: Fx) -> real {
    x.raw as real / 4294967296real
}

/// `e^-t` in real numbers, by the series up to the term `last`.
pub open spec fn ideal_decay(t: Fx, last: nat) -> real {
    fading(
        exponential(value(Fx { raw: (t.raw as int % ONE as int) as i64 }), 1, last),
        t.raw as int / ONE as int,
        last,
    )
}

/// `1 / (1 + e^-x)` in real numbers, by the series up to the term `last`, with
/// `x` held between -100 and 100.
pub open spec fn ideal_logistic(x: Fx, last: nat) -> real {
    let x = held(x);
    if x.raw >= 0 {
        1real / (1real + ideal_decay(x, last))
    } else {
        let e = ideal_decay(x.negated(), last);
        e / (1real + e)
    }
}

/// `a` and `b` differ by no more than `e`.
pub open spec fn within(a: real, b: real, e: real) -> bool {
    -e <= a - b <= e
}

proof fn lemma_exponential_range(x: real, n: nat, last: nat)
    requires
        0real <= x <= 1real,
        n >= 1,
    ensures
        0real <= exponential(x, n, last) <= 1real,
    decreases last + 1 - n,
{
    if n <= last {
        lemma_exponential_range(x, n + 1, last);
        let (m, y) = (n as real, exponential(x, n + 1, last));
        assert(0real <= x / m * y <= 1real) by (nonlinear_arith)
            requires
                0real <= x <= 1real,
                0real <= y <= 1real,
                m >= 1real,
        ;
    }
}

/// How far the series as it is computed may be from the true one.
spec fn slack(n: int) -> real
    decreases 15 - n,
{
    if n > 14 {
        1real / 15real
    } else {
        slack(n + 1) / (n as real) + 2real / 4294967296real
    }
}

/// One step of the slack, in hundredths of a step.
proof fn lemma_slack_step(n: int, before: real, after: real)
    requires
        1 <= n <= 14,
        slack(n + 1) <= before / 429496729600real,
        before + (n as real) * 200real <= after * (n as real),
    ensures
        slack(n) <= after / 429496729600real,
{
    let m = n as real;
    let s = slack(n + 1);
    assert(s / m <= (after - 200real) / 429496729600real) by (nonlinear_arith)
        requires
            s <= before / 429496729600real,
            before + m * 200real <= after * m,
            m >= 1real,
    ;
}

proof fn lemma_slack()
    ensures
        slack(1) <= 6real / 4294967296real,
{
    assert(slack(15) <= 28633115307real / 429496729600real);
    lemma_slack_step(14, 28633115307real, 2045222722real);
    lemma_slack_step(13, 2045222722real, 157325025real);
    lemma_slack_step(12, 157325025real, 13110619real);
    lemma_slack_step(11, 13110619real, 1192075real);
    lemma_slack_step(10, 1192075real, 119408real);
    lemma_slack_step(9, 119408real, 13468real);
    lemma_slack_step(8, 13468real, 1884real);
    lemma_slack_step(7, 1884real, 470real);
    lemma_slack_step(6, 470real, 279real);
    lemma_slack_step(5, 279real, 256real);
    lemma_slack_step(4, 256real, 264real);
    lemma_slack_step(3, 264real, 288real);
    lemma_slack_step(2, 288real, 344real);
    lemma_slack_step(1, 344real, 544real);
}

/// The series as it is computed, against the true one.
proof fn lemma_nested_close(f: Fx, n: int, last: nat)
    requires
        0 <= f.raw <= ONE,
        1 <= n <= 15,
        last >= 14,
    ensures
        within(value(nested(f, n)), exponential(value(f), n as nat, last), slack(n)),
        slack(n) >= 0real,
    decreases 15 - n,
{
    let x = value(f);
    assert(0real <= x <= 1real);
    lemma_nested_range(f, n);
    if n > 14 {
        lemma_exponential_range(x, 16, last);
        let y = exponential(x, 16, last);
        assert(0real <= x / 15real * y <= 1real / 15real) by (nonlinear_arith)
            requires
                0real <= x <= 1real,
                0real <= y <= 1real,
        ;
        assert(value(Fx::one()) == 1real);
    } else {
        lemma_nested_close(f, n + 1, last);
        lemma_nested_range(f, n + 1);
        lemma_nested_step(f, n);
        let (a, t) = (f.raw as int, nested(f, n + 1).raw as int);
        let p = (a * t) / 0x1_0000_0000;
        let q = p / n;
        let h = exponential(x, (n + 1) as nat, last);
        lemma_exponential_range(x, (n + 1) as nat, last);
        assert(0x1_0000_0000 * p <= a * t < 0x1_0000_0000 * p + 0x1_0000_0000);
        vstd::arithmetic::div_mod::lemma_fundamental_div_mod(p, n);
        vstd::arithmetic::div_mod::lemma_mod_bound(p, n);
        assert(n * q <= p < n * q + n);
        lemma_real_step(a, t, p, q, n, x, value(nested(f, n + 1)), h, slack(n + 1));
        assert(nested(f, n).raw as real == 4294967296real - q as real);
        assert(value(nested(f, n)) == 1real - q as real / 4294967296real);
    }
}

/// One step of the series, in real numbers.
proof fn lemma_real_step(
    a: int,
    t: int,
    p: int,
    q: int,
    n: int,
    x: real,
    y: real,
    h: real,
    e: real,
)
    requires
        0x1_0000_0000 * p <= a * t < 0x1_0000_0000 * p + 0x1_0000_0000,
        n * q <= p < n * q + n,
        1 <= n,
        x == a as real / 4294967296real,
        y == t as real / 4294967296real,
        0real <= x <= 1real,
        within(y, h, e),
        e >= 0real,
    ensures
        within(
            q as real / 4294967296real,
            x / (n as real) * h,
            e / (n as real) + 2real / 4294967296real,
        ),
{
    let one = 4294967296real;
    let (ar, tr, pr, qr, nr) = (a as real, t as real, p as real, q as real, n as real);
    assert((a * t) as real == ar * tr) by (nonlinear_arith)
        requires
            ar == a as real,
            tr == t as real,
    ;
    assert((n * q) as real == nr * qr) by (nonlinear_arith)
        requires
            nr == n as real,
            qr == q as real,
    ;
    assert(one * pr <= ar * tr <= one * pr + one);
    assert(nr * qr <= pr <= nr * qr + nr);
    // The quotient against the product that it was taken from.
    let z = x / nr * y;
    assert(ar == x * one && tr == y * one);
    assert(ar * tr == (x * y) * (one * one)) by (nonlinear_arith)
        requires
            ar == x * one,
            tr == y * one,
    ;
    assert(pr <= (x * y) * one <= pr + 1real);
    assert((x * y) == z * nr) by (nonlinear_arith)
        requires
            z == x / nr * y,
            nr >= 1real,
    ;
    assert(qr <= z * one <= qr + 2real) by (nonlinear_arith)
        requires
            nr * qr <= pr <= nr * qr + nr,
            pr <= (z * nr) * one <= pr + 1real,
            nr >= 1real,
    ;
    // The product against the one with the true series in it.
    assert(within(z, x / nr * h, e / nr)) by (nonlinear_arith)
        requires
            z == x / nr * y,
            -e <= y - h <= e,
            0real <= x <= 1real,
            nr >= 1real,
            e >= 0real,
    ;
}

/// `e^-1` is between a third and a half.
proof fn lemma_step_range(last: nat)
    requires
        last >= 14,
    ensures
        0real <= exponential(1real, 1, last) <= 1real / 2real,
{
    lemma_exponential_range(1real, 4, last);
    lemma_exponential_range(1real, 1, last);
    let d = exponential(1real, 4, last);
    assert(exponential(1real, 3, last) == 1real - 1real / (3nat as real) * d);
    assert(exponential(1real, 2, last) == 1real - 1real / (2nat as real) * exponential(1real, 3, last));
    assert(exponential(1real, 1, last) == 1real - 1real / (1nat as real) * exponential(1real, 2, last));
    assert(1real / (3nat as real) * d <= 1real / 3real) by (nonlinear_arith)
        requires
            d <= 1real,
    ;
    let c = exponential(1real, 3, last);
    assert(1real / (2nat as real) * c == c / 2real) by (nonlinear_arith);
    let b = exponential(1real, 2, last);
    assert(1real / (1nat as real) * b == b) by (nonlinear_arith);
    assert(c <= 1real) by {
        assert(1real / (3nat as real) * d >= 0real) by (nonlinear_arith)
            requires
                d >= 0real,
        ;
    }
}

/// Fading as it is computed, against the true one.
proof fn lemma_faded_close(t: Fx, b: real, k: int, last: nat)
    requires
        0 <= t.raw <= ONE,
        within(value(t), b, 6real / 4294967296real),
        last >= 14,
    ensures
        within(value(faded(t, k)), fading(b, k, last), 14real / 4294967296real),
    decreases k,
{
    if k > 0 {
        lemma_faded_close(t, b, k - 1, last);
        lemma_faded_range(t, k - 1);
        lemma_nested_range(Fx::one(), 1);
        lemma_nested_close(Fx::one(), 1, last);
        lemma_slack();
        lemma_step_range(last);
        assert(value(Fx::one()) == 1real);
        let (u, s) = (faded(t, k - 1).raw as int, nested(Fx::one(), 1).raw as int);
        let r = (u * s) / 0x1_0000_0000;
        assert(0 <= u * s <= 0x1_0000_0000 * 0x1_0000_0000) by (nonlinear_arith)
            requires
                0 <= u <= 0x1_0000_0000,
                0 <= s <= 0x1_0000_0000,
        ;
        assert(faded(t, k).raw == r);
        let one = 4294967296real;
        let (x, y) = (u as real / one, s as real / one);
        let (g, h) = (fading(b, k - 1, last), exponential(1real, 1, last));
        assert((u * s) as real == u as real * (s as real)) by (nonlinear_arith);
        assert(u as real == x * one && s as real == y * one);
        assert((u as real) * (s as real) == (x * y) * (one * one)) by (nonlinear_arith)
            requires
                u as real == x * one,
                s as real == y * one,
        ;
        assert(r as real <= (x * y) * one <= r as real + 1real);
        let e = 14real / one;
        assert(within(x * y, g * h, 13real / one)) by (nonlinear_arith)
            requires
                e == 14real / one,
                one == 4294967296real,
                -e <= x - g <= e,
                -(6real / one) <= y - h <= 6real / one,
                0real <= x <= 1real,
                0real <= h <= 1real / 2real,
        {
            let (dx, dy) = (x - g, y - h);
            assert(x * y - g * h == x * dy + dx * h);
            assert(-(6real / one) <= x * dy <= 6real / one);
            assert(-(e / 2real) <= dx * h <= e / 2real);
        }
    }
}

/// `e^-t` as it is computed, against the true one.
proof fn lemma_decay_close(t: Fx, last: nat)
    requires
        t.raw >= 0,
        last >= 14,
    ensures
        within(value(decay(t)), ideal_decay(t, last), 14real / 4294967296real),
        ideal_decay(t, last) >= 0real,
{
    let f = Fx { raw: (t.raw as int % ONE as int) as i64 };
    lemma_nested_close(f, 1, last);
    lemma_nested_range(f, 1);
    lemma_slack();
    lemma_faded_close(
        nested(f, 1),
        exponential(value(f), 1, last),
        t.raw as int / ONE as int,
        last,
    );
    lemma_exponential_range(value(f), 1, last);
    lemma_fading_not_negative(exponential(value(f), 1, last), t.raw as int / ONE as int, last);
}

proof fn lemma_fading_not_negative(b: real, k: int, last: nat)
    requires
        b >= 0real,
        last >= 14,
    ensures
        fading(b, k, last) >= 0real,
    decreases k,
{
    if k > 0 {
        lemma_fading_not_negative(b, k - 1, last);
        lemma_step_range(last);
        let (g, h) = (fading(b, k - 1, last), exponential(1real, 1, last));
        assert(g * h >= 0real) by (nonlinear_arith)
            requires
                g >= 0real,
                h >= 0real,
        ;
    }
}

/// The probability that is computed is within 15 steps of the true one, however
/// far the exponential series is taken.
pub proof fn law_logistic_is_close(x: Fx, last: nat)
    requires
        last >= 14,
    ensures
        within(value(logistic(x)), ideal_logistic(x, last), 15real / 4294967296real),
{
    let y = held(x);
    let z = if y.raw >= 0 {
        y
    } else {
        y.negated()
    };
    lemma_decay_range(z);
    lemma_decay_close(z, last);
    let e = decay(z).raw as int;
    lemma_shares(e);
    let one = 0x1_0000_0000int;
    let d = one + e;
    if y.raw >= 0 {
        vstd::arithmetic::div_mod::lemma_fundamental_div_mod(one * one, d);
        vstd::arithmetic::div_mod::lemma_mod_bound(one * one, d);
        let q = (one * one) / d;
        assert(logistic(x).raw == q);
        lemma_real_share(one, q, d, 1real, ideal_decay(z, last), value(decay(z)));
    } else {
        vstd::arithmetic::div_mod::lemma_fundamental_div_mod(e * one, d);
        vstd::arithmetic::div_mod::lemma_mod_bound(e * one, d);
        let q = (e * one) / d;
        assert(logistic(x).raw == q);
        lemma_real_share(e, q, d, value(decay(z)), ideal_decay(z, last), value(decay(z)));
    }
}

/// A share `q` of one part `e` to one, against the true one.
proof fn lemma_real_share(n: int, q: int, d: int, m: real, ideal: real, e: real)
    requires
        d * q <= n * 0x1_0000_0000 < d * q + d,
        m == n as real / 4294967296real,
        d as real == 4294967296real * (1real + e),
        e >= 0real,
        ideal >= 0real,
        within(e, ideal, 14real / 4294967296real),
        m == 1real || m == e,
    ensures
        m == 1real ==> within(
            q as real / 4294967296real,
            1real / (1real + ideal),
            15real / 4294967296real,
        ),
        m == e ==> within(
            q as real / 4294967296real,
            ideal / (1real + ideal),
            15real / 4294967296real,
        ),
{
    let one = 4294967296real;
    let (qr, dr) = (q as real, d as real);
    assert((d * q) as real == dr * qr) by (nonlinear_arith)
        requires
            dr == d as real,
            qr == q as real,
    ;
    assert(dr * qr <= m * one * one <= dr * qr + dr);
    let c = 1real + e;
    let s = m / c;
    assert(m == s * c) by (nonlinear_arith)
        requires
            s == m / c,
            c >= 1real,
    ;
    assert(qr <= s * one <= qr + 1real) by (nonlinear_arith)
        requires
            dr * qr <= m * one * one <= dr * qr + dr,
            dr == one * c,
            m == s * c,
            c >= 1real,
            one == 4294967296real,
    ;
    let g = 1real + ideal;
    let w = 14real / one;
    let (u, v) = (1real / c, 1real / g);
    assert(u * c == 1real && v * g == 1real && 0real <= u <= 1real && 0real <= v <= 1real)
        by (nonlinear_arith)
        requires
            u == 1real / c,
            v == 1real / g,
            c >= 1real,
            g >= 1real,
    ;
    assert(u - v == (u * v) * (g - c)) by (nonlinear_arith)
        requires
            u * c == 1real,
            v * g == 1real,
    ;
    assert(within(u, v, w)) by (nonlinear_arith)
        requires
            u - v == (u * v) * (g - c),
            -w <= g - c <= w,
            0real <= u <= 1real,
            0real <= v <= 1real,
            w >= 0real,
    {
        assert(0real <= u * v <= 1real);
    }
    if m == 1real {
        assert(s == u);
    }
    if m == e {
        assert(s == 1real - u) by (nonlinear_arith)
            requires
                s * c == e,
                u * c == 1real,
                c == 1real + e,
                e >= 0real,
        ;
        assert(ideal / g == 1real - v) by (nonlinear_arith)
            requires
                v * g == 1real,
                g == 1real + ideal,
                ideal >= 0real,
        ;
    }
}

} // verus!
