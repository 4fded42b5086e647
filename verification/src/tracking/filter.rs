//! One Euro filter: the difference between a usable effect and a jittery one.
//!
//! Landmark models are stable to within a pixel or two, but magnified by the
//! crop that noise becomes very visible on a quad drawn between fingertips. A
//! plain low-pass would add lag when the hand moves fast, so we use the One
//! Euro filter: it smooths hard when the hand is still and barely at all when
//! it is moving.
//!
//! Casiez, Roussel & Vogel, CHI 2012.

use crate::fixed::{floor_div, fx, Fx, ONE};
use crate::tracking::hand::LANDMARK_COUNT;
use crate::vector::Vec3;
use vstd::prelude::*;

verus! {

#[derive(Debug, Clone, Copy, PartialEq, Eq, Structural)]
pub struct OneEuroConfig {
    /// Cutoff at zero velocity; lower means smoother but laggier when still.
    pub min_cutoff: Fx,
    /// How aggressively the cutoff opens up with speed.
    pub beta: Fx,
    /// Cutoff for the velocity estimate itself.
    pub derivative_cutoff: Fx,
}

/// The settings that tracking starts with.
pub open spec fn default_config() -> OneEuroConfig {
    OneEuroConfig { min_cutoff: Fx::one(), beta: Fx::whole(20), derivative_cutoff: Fx::one() }
}

impl Default for OneEuroConfig {
    fn default() -> (cfg: OneEuroConfig)
        ensures
            cfg == default_config(),
    {
        // Tuned for normalized (0..1) landmark coordinates at ~30-60 Hz.
        //
        // `beta` has to be large here because hand speeds in normalized units
        // are small numbers (a brisk move is ~1/sec). With a small beta the
        // cutoff barely opens and the hand visibly lags behind the effect.
        OneEuroConfig { min_cutoff: Fx::one(), beta: Fx::whole(20), derivative_cutoff: Fx::one() }
    }
}

/// A full turn in radians, in steps.
pub const TAU: i64 = 26986075409;

/// How much of a new sample a low-pass with this cutoff lets through after
/// `dt`: `w / (1 + w)`, where `w` is the angle that the cutoff frequency turns
/// through meanwhile.
#[verifier::allow_in_spec]
pub fn alpha(cutoff: Fx, dt: Fx) -> Fx
    returns
        (Fx { raw: TAU }).times(cutoff).times(dt).over(
            Fx::one().plus((Fx { raw: TAU }).times(cutoff).times(dt)),
        ),
{
    let w: Fx = Fx { raw: TAU }.times(cutoff).times(dt);
    w.over(Fx::one().plus(w))
}

/// The value after a sample `x`, of which a share `a` is let through.
pub open spec fn smoothed(value: Option<Vec3>, x: Vec3, a: Fx) -> Vec3 {
    match value {
        Some(prev) => prev.plus(x.minus(prev).times(a)),
        None => x,
    }
}

#[derive(Debug, Clone, Copy)]
struct Lowpass {
    value: Option<Vec3>,
}

impl Lowpass {
    fn apply(&mut self, x: Vec3, a: Fx) -> (out: Vec3)
        ensures
            out == smoothed(old(self).value, x, a),
            final(self).value == Some(out),
    {
        let out: Vec3 = match self.value {
            Some(prev) => prev.plus(x.minus(prev).times(a)),
            None => x,
        };
        self.value = Some(out);
        out
    }
}

#[derive(Debug, Clone, Copy)]
pub struct OneEuro {
    x: Lowpass,
    dx: Lowpass,
    prev: Option<Vec3>,
}

/// What a filter remembers: the smoothed position and speed, and the last
/// sample as it came.
pub ghost struct Memory {
    pub x: Option<Vec3>,
    pub dx: Option<Vec3>,
    pub prev: Option<Vec3>,
}

/// A filter that has seen nothing.
pub open spec fn blank() -> Memory {
    Memory { x: None, dx: None, prev: None }
}

/// The time that has passed, which is never taken for less than a tenth of a
/// millisecond.
pub open spec fn lapse(dt: Fx) -> Fx {
    dt.max(Fx::ratio(1, 10000))
}

impl Memory {
    /// The speed that a sample suggests.
    pub open spec fn velocity(self, x: Vec3, dt: Fx) -> Vec3 {
        match self.prev {
            Some(p) => x.minus(p).over(lapse(dt)),
            None => Vec3::zero(),
        }
    }

    /// The smoothed speed after a sample.
    pub open spec fn speed(self, x: Vec3, dt: Fx, cfg: OneEuroConfig) -> Vec3 {
        smoothed(self.dx, self.velocity(x, dt), alpha(cfg.derivative_cutoff, lapse(dt)))
    }

    /// The cutoff that this speed opens up.
    pub open spec fn cutoff(self, x: Vec3, dt: Fx, cfg: OneEuroConfig) -> Fx {
        cfg.min_cutoff.plus(cfg.beta.times(self.speed(x, dt, cfg).length()))
    }

    /// The filter's answer to a sample.
    pub open spec fn filtered(self, x: Vec3, dt: Fx, cfg: OneEuroConfig) -> Vec3 {
        smoothed(self.x, x, alpha(self.cutoff(x, dt, cfg), lapse(dt)))
    }

    /// What is remembered after a sample.
    pub open spec fn next(self, x: Vec3, dt: Fx, cfg: OneEuroConfig) -> Memory {
        Memory {
            x: Some(self.filtered(x, dt, cfg)),
            dx: Some(self.speed(x, dt, cfg)),
            prev: Some(x),
        }
    }
}

impl View for OneEuro {
    type V = Memory;

    closed spec fn view(&self) -> Memory {
        Memory { x: self.x.value, dx: self.dx.value, prev: self.prev }
    }
}

impl Default for OneEuro {
    fn default() -> (filter: OneEuro)
        ensures
            filter@ == blank(),
    {
        OneEuro { x: Lowpass { value: None }, dx: Lowpass { value: None }, prev: None }
    }
}

impl OneEuro {
    pub fn filter(&mut self, x: Vec3, dt: Fx, cfg: &OneEuroConfig) -> (out: Vec3)
        ensures
            out == old(self)@.filtered(x, dt, *cfg),
            final(self)@ == old(self)@.next(x, dt, *cfg),
    {
        let dt: Fx = dt.max(Fx::ratio(1, 10000));
        let velocity: Vec3 = match self.prev {
            Some(p) => x.minus(p).over(dt),
            None => Vec3::zero(),
        };
        self.prev = Some(x);

        let dx_hat: Vec3 = self.dx.apply(velocity, alpha(cfg.derivative_cutoff, dt));
        let cutoff: Fx = cfg.min_cutoff.plus(cfg.beta.times(dx_hat.length()));
        self.x.apply(x, alpha(cutoff, dt))
    }

    pub fn reset(&mut self)
        ensures
            final(self)@ == blank(),
    {
        *self = OneEuro::default();
    }
}

/// One filter per landmark, for one tracked hand.
#[derive(Debug, Clone, Copy)]
pub struct HandFilter {
    joints: [OneEuro; 21],
    cfg: OneEuroConfig,
}

impl HandFilter {
    /// What the filter of each joint remembers.
    pub closed spec fn memory(&self) -> Seq<Memory> {
        Seq::new(LANDMARK_COUNT as nat, |i: int| self.joints[i]@)
    }

    pub closed spec fn config(&self) -> OneEuroConfig {
        self.cfg
    }

    /// Filters with other settings from here on.
    pub fn configure(&mut self, cfg: OneEuroConfig)
        ensures
            final(self).config() == cfg,
            final(self).memory() == old(self).memory(),
    {
        self.cfg = cfg;
    }

    pub fn apply(&mut self, landmarks: &mut [Vec3; LANDMARK_COUNT], dt: Fx)
        ensures
            final(self).config() == old(self).config(),
            final(self).memory().len() == LANDMARK_COUNT,
            forall|i: int|
                0 <= i < LANDMARK_COUNT ==> #[trigger] final(landmarks)[i] == old(self).memory()[i].filtered(old(landmarks)[i], dt, old(self).config()),
            forall|i: int|
                0 <= i < LANDMARK_COUNT ==> #[trigger] final(self).memory()[i] == old(self).memory()[i].next(old(landmarks)[i], dt, old(self).config()),
    {
        let cfg: OneEuroConfig = self.cfg;
        let ghost before = self.memory();
        let mut i: usize = 0;
        while i < LANDMARK_COUNT
            invariant
                i <= LANDMARK_COUNT,
                cfg == self.cfg,
                cfg == old(self).cfg,
                before == old(self).memory(),
                forall|j: int| i <= j < LANDMARK_COUNT ==> self.joints[j]@ == before[j],
                forall|j: int| i <= j < LANDMARK_COUNT ==> landmarks[j] == old(landmarks)[j],
                forall|j: int|
                    0 <= j < i ==> #[trigger] landmarks[j] == before[j].filtered(
                        old(landmarks)[j],
                        dt,
                        cfg,
                    ),
                forall|j: int|
                    0 <= j < i ==> #[trigger] self.joints[j]@ == before[j].next(
                        old(landmarks)[j],
                        dt,
                        cfg,
                    ),
            decreases LANDMARK_COUNT - i,
        {
            let mut joint: OneEuro = self.joints[i];
            landmarks[i] = joint.filter(landmarks[i], dt, &cfg);
            self.joints[i] = joint;
            i += 1;
        }
    }

    pub fn reset(&mut self)
        ensures
            final(self).config() == old(self).config(),
            final(self).memory() == Seq::new(LANDMARK_COUNT as nat, |i: int| blank()),
    {
        let fresh: OneEuro = OneEuro::default();
        self.joints = [fresh; 21];
        assert(self.memory() =~= Seq::new(LANDMARK_COUNT as nat, |i: int| blank()));
    }
}

impl Default for HandFilter {
    fn default() -> (filter: HandFilter)
        ensures
            filter.config() == default_config(),
            filter.memory() == Seq::new(LANDMARK_COUNT as nat, |i: int| blank()),
    {
        let fresh: OneEuro = OneEuro::default();
        let filter = HandFilter { joints: [fresh; 21], cfg: OneEuroConfig::default() };
        assert(filter.memory() =~= Seq::new(LANDMARK_COUNT as nat, |i: int| blank()));
        filter
    }
}

/// The first sample passes through as it is.
pub proof fn law_first_sample_passes(x: Vec3, dt: Fx, cfg: OneEuroConfig)
    ensures
        blank().filtered(x, dt, cfg) == x,
{
}

/// What a filter remembers after a run of samples, each with the time since
/// the one before.
pub open spec fn recall(start: Memory, samples: Seq<(Vec3, Fx)>, cfg: OneEuroConfig) -> Memory
    decreases samples.len(),
{
    if samples.len() == 0 {
        start
    } else {
        recall(start, samples.drop_last(), cfg).next(samples.last().0, samples.last().1, cfg)
    }
}

/// A signal that never moves is never moved: however often it is sampled, the
/// filter answers with the signal itself.
pub proof fn law_static_signal_is_kept(x: Vec3, samples: Seq<(Vec3, Fx)>, dt: Fx, cfg: OneEuroConfig)
    requires
        forall|i: int| 0 <= i < samples.len() ==> (#[trigger] samples[i]).0 == x,
    ensures
        recall(blank(), samples, cfg).filtered(x, dt, cfg) == x,
    decreases samples.len(),
{
    if samples.len() > 0 {
        let start = samples.drop_last();
        assert forall|i: int| 0 <= i < start.len() implies (#[trigger] start[i]).0 == x by {
            assert(start[i] == samples[i]);
        }
        assert(samples[samples.len() - 1].0 == x);
        law_static_signal_is_kept(x, start, samples.last().1, cfg);
        let now = recall(blank(), samples, cfg);
        assert(now.x == Some(x));
        let a = alpha(now.cutoff(x, dt, cfg), lapse(dt)).raw as int;
        assert(0 * a == 0);
    }
}

/// `a` lies between `low` and `high`, whichever of them is larger.
pub open spec fn between(a: Fx, low: Fx, high: Fx) -> bool {
    low.raw <= a.raw <= high.raw || high.raw <= a.raw <= low.raw
}

/// A smoothed value lies between the last one and the sample: the filter never
/// overshoots.
pub proof fn law_smoothing_stays_between(prev: Vec3, x: Vec3, a: Fx)
    requires
        0 <= a.raw <= ONE,
        -0x4000_0000_0000_0000 <= prev.x.raw <= 0x3fff_ffff_ffff_ffff,
        -0x4000_0000_0000_0000 <= prev.y.raw <= 0x3fff_ffff_ffff_ffff,
        -0x4000_0000_0000_0000 <= prev.z.raw <= 0x3fff_ffff_ffff_ffff,
        -0x4000_0000_0000_0000 <= x.x.raw <= 0x3fff_ffff_ffff_ffff,
        -0x4000_0000_0000_0000 <= x.y.raw <= 0x3fff_ffff_ffff_ffff,
        -0x4000_0000_0000_0000 <= x.z.raw <= 0x3fff_ffff_ffff_ffff,
    ensures
        between(smoothed(Some(prev), x, a).x, prev.x, x.x),
        between(smoothed(Some(prev), x, a).y, prev.y, x.y),
        between(smoothed(Some(prev), x, a).z, prev.z, x.z),
{
    lemma_share(x.x.raw - prev.x.raw, a.raw as int);
    lemma_share(x.y.raw - prev.y.raw, a.raw as int);
    lemma_share(x.z.raw - prev.z.raw, a.raw as int);
}

/// A share of a difference is no more than the difference.
proof fn lemma_share(d: int, a: int)
    requires
        0 <= a <= 0x1_0000_0000,
    ensures
        d >= 0 ==> 0 <= (d * a) / 0x1_0000_0000 <= d,
        d <= 0 ==> d <= (d * a) / 0x1_0000_0000 <= 0,
{
    if d >= 0 {
        assert(0 <= d * a <= d * 0x1_0000_0000) by (nonlinear_arith)
            requires
                d >= 0,
                0 <= a <= 0x1_0000_0000,
        ;
    } else {
        assert(d * 0x1_0000_0000 <= d * a <= 0) by (nonlinear_arith)
            requires
                d <= 0,
                0 <= a <= 0x1_0000_0000,
        ;
    }
}

/// The share of a sample that a low-pass lets through runs from none to all,
/// and grows with the cutoff: the faster the hand, the less it is smoothed.
pub proof fn law_alpha_grows_with_cutoff(low: Fx, high: Fx, dt: Fx)
    requires
        0 <= low.raw <= high.raw,
        0 <= dt.raw,
    ensures
        0 <= alpha(low, dt).raw <= alpha(high, dt).raw <= ONE,
{
    let tau = Fx { raw: TAU };
    let a = tau.times(low).times(dt);
    let b = tau.times(high).times(dt);
    lemma_times_grows(tau, low, high);
    lemma_times_grows(dt, tau.times(low), tau.times(high));
    lemma_times_commutes(tau.times(low), dt);
    lemma_times_commutes(tau.times(high), dt);
    lemma_saturating_share(a);
    lemma_saturating_share(b);
    lemma_share_grows(a, b);
}

proof fn lemma_times_commutes(a: Fx, b: Fx)
    ensures
        a.times(b) == b.times(a),
{
    vstd::arithmetic::mul::lemma_mul_is_commutative(a.raw as int, b.raw as int);
}

proof fn lemma_times_grows(k: Fx, a: Fx, b: Fx)
    requires
        0 <= k.raw,
        0 <= a.raw <= b.raw,
    ensures
        0 <= k.times(a).raw <= k.times(b).raw,
{
    let (n, x, y) = (k.raw as int, a.raw as int, b.raw as int);
    assert(0 <= n * x <= n * y) by (nonlinear_arith)
        requires
            0 <= n,
            0 <= x <= y,
    ;
    vstd::arithmetic::div_mod::lemma_div_is_ordered(0, n * x, 0x1_0000_0000);
    vstd::arithmetic::div_mod::lemma_div_is_ordered(n * x, n * y, 0x1_0000_0000);
}

proof fn lemma_saturating_share(w: Fx)
    requires
        0 <= w.raw,
    ensures
        0 <= w.over(Fx::one().plus(w)).raw <= ONE,
{
    let n = w.raw as int;
    let d = Fx::one().plus(w).raw as int;
    assert(n <= d && 0 < d);
    vstd::arithmetic::div_mod::lemma_div_is_ordered(0, n * ONE, d);
    vstd::arithmetic::div_mod::lemma_div_is_ordered(n * ONE, ONE * d, d);
    vstd::arithmetic::div_mod::lemma_div_by_multiple(ONE as int, d);
}

proof fn lemma_share_grows(a: Fx, b: Fx)
    requires
        0 <= a.raw <= b.raw,
    ensures
        a.over(Fx::one().plus(a)).raw <= b.over(Fx::one().plus(b)).raw,
{
    let (x, y) = (a.raw as int, b.raw as int);
    let d = Fx::one().plus(a).raw as int;
    let e = Fx::one().plus(b).raw as int;
    let n: int = 0x1_0000_0000;
    let p = (x * n) / d;
    // x / d is at most y / e, so p, the integer below it, is too.
    assert(x * e <= y * d) by (nonlinear_arith)
        requires
            0 <= x <= y,
            d == x + n || (d == 0x7fff_ffff_ffff_ffff && e == 0x7fff_ffff_ffff_ffff),
            e == y + n || (e == 0x7fff_ffff_ffff_ffff && e <= y + n),
            n > 0,
    ;
    vstd::arithmetic::div_mod::lemma_fundamental_div_mod(x * n, d);
    vstd::arithmetic::div_mod::lemma_mod_bound(x * n, d);
    assert(d * p <= x * n);
    assert(p * e <= y * n) by (nonlinear_arith)
        requires
            d * p <= x * n,
            x * e <= y * d,
            d > 0,
            e > 0,
            n > 0,
            p >= 0 || y >= 0,
            y >= 0,
    ;
    vstd::arithmetic::div_mod::lemma_div_is_ordered(p * e, y * n, e);
    lemma_saturating_share(a);
    vstd::arithmetic::div_mod::lemma_div_by_multiple(p, e);
}

/// The share that is let through, times one more than the angle that the cutoff
/// turns through, is that angle, up to rounding: a cutoff turns through 2 pi in
/// one of its periods.
pub proof fn law_alpha_follows_the_cutoff(cutoff: Fx, dt: Fx)
    requires
        0 <= cutoff.raw <= 0x1000_0000_0000,
        0 <= dt.raw <= 0x10_0000_0000,
    ensures
        ({
            let turned = ((26986075409 * cutoff.raw) / 0x1_0000_0000 * dt.raw) / 0x1_0000_0000;
            let a = alpha(cutoff, dt).raw;
            a * (ONE + turned) <= turned * ONE < (a + 1) * (ONE + turned)
        }),
{
    let (c, t) = (cutoff.raw as int, dt.raw as int);
    let w = (26986075409 * c) / 0x1_0000_0000;
    assert(0 <= 26986075409 * c <= 26986075409 * 0x1000_0000_0000);
    assert(0 <= w <= 0x8000_0000_0000);
    assert(0 <= w * t <= 0x8000_0000_0000 * 0x10_0000_0000) by (nonlinear_arith)
        requires
            0 <= w <= 0x8000_0000_0000,
            0 <= t <= 0x10_0000_0000,
    ;
    let turned = (w * t) / 0x1_0000_0000;
    assert(0 <= turned <= 0x8_0000_0000_0000);
    let tau = Fx { raw: TAU };
    assert(tau.times(cutoff).raw == w);
    assert(tau.times(cutoff).times(dt).raw == turned);
    let n = turned * 0x1_0000_0000;
    let d = 0x1_0000_0000 + turned;
    vstd::arithmetic::div_mod::lemma_fundamental_div_mod(n, d);
    vstd::arithmetic::div_mod::lemma_mod_bound(n, d);
    lemma_saturating_share(tau.times(cutoff).times(dt));
    let a = n / d;
    assert(0 <= a <= 0x1_0000_0000) by (nonlinear_arith)
        requires
            d * a <= n < d * a + d,
            n == turned * 0x1_0000_0000,
            d == 0x1_0000_0000 + turned,
            turned >= 0,
    ;
    assert(a * d == d * a && (a + 1) * d == d * a + d) by (nonlinear_arith);
}

/// Coordinates far from the ends of the range.
pub open spec fn moderate(p: Vec3) -> bool {
    &&& -0x100_0000_0000 <= p.x.raw <= 0x100_0000_0000
    &&& -0x100_0000_0000 <= p.y.raw <= 0x100_0000_0000
    &&& -0x100_0000_0000 <= p.z.raw <= 0x100_0000_0000
}

/// `q` is `p` moved towards `x` by the share `a` of the way, each coordinate
/// rounded down.
pub open spec fn moves_by_share(p: Vec3, x: Vec3, a: Fx, q: Vec3) -> bool {
    &&& 0 <= (x.x.raw - p.x.raw) * a.raw - (q.x.raw - p.x.raw) * ONE < ONE
    &&& 0 <= (x.y.raw - p.y.raw) * a.raw - (q.y.raw - p.y.raw) * ONE < ONE
    &&& 0 <= (x.z.raw - p.z.raw) * a.raw - (q.z.raw - p.z.raw) * ONE < ONE
}

proof fn lemma_moves_by_share(p: Vec3, x: Vec3, a: Fx)
    requires
        moderate(p),
        moderate(x),
        0 <= a.raw <= ONE,
    ensures
        moves_by_share(p, x, a, smoothed(Some(p), x, a)),
{
    lemma_share(x.x.raw - p.x.raw, a.raw as int);
    lemma_share(x.y.raw - p.y.raw, a.raw as int);
    lemma_share(x.z.raw - p.z.raw, a.raw as int);
}

/// A hand at rest is smoothed at the least cutoff: while the samples stay where
/// they are and the speed is zero, the filter goes on towards them by the share
/// that this cutoff lets through.
pub proof fn law_still_hand_is_smoothed_most(
    m: Memory,
    shown: Vec3,
    x: Vec3,
    dt: Fx,
    cfg: OneEuroConfig,
)
    requires
        m.x == Some(shown),
        m.prev == Some(x),
        m.dx == Some(Vec3::zero()),
        moderate(shown),
        moderate(x),
        dt.raw >= 429496,
        cfg.min_cutoff.raw >= 0,
    ensures
        moves_by_share(shown, x, alpha(cfg.min_cutoff, dt), m.filtered(x, dt, cfg)),
        m.next(x, dt, cfg).dx == Some(Vec3::zero()),
{
    assert(Fx::ratio(1, 10000).raw == 429496);
    assert(lapse(dt) == dt);
    let d = dt.raw as int;
    assert(floor_div(0, d) == 0) by {
        vstd::arithmetic::div_mod::lemma_div_basics(d);
    }
    assert(m.velocity(x, dt) == Vec3::zero());
    let a = alpha(cfg.derivative_cutoff, dt).raw as int;
    assert(0 * a == 0);
    assert(m.speed(x, dt, cfg) == Vec3::zero());
    assert(crate::vector::norm3(Vec3::zero()) == 0) by {
        assert(0int * 0int == 0);
    }
    crate::fixed::lemma_root_of_square(0);
    let b = cfg.beta.raw as int;
    assert(b * 0 == 0);
    assert(m.cutoff(x, dt, cfg) == cfg.min_cutoff);
    law_alpha_grows_with_cutoff(cfg.min_cutoff, cfg.min_cutoff, dt);
    lemma_moves_by_share(shown, x, alpha(cfg.min_cutoff, dt));
}

/// A hand that sets off is followed more closely: from rest, the speed that the
/// filter sees is the change of the sample over the time, let through by the
/// cutoff for speeds, and the cutoff for the hand opens by `beta` times the
/// length of that speed.
pub proof fn law_cutoff_opens_with_speed(
    m: Memory,
    shown: Vec3,
    last: Vec3,
    x: Vec3,
    dt: Fx,
    cfg: OneEuroConfig,
    v: Vec3,
    speed: Fx,
)
    requires
        m.x == Some(shown),
        m.prev == Some(last),
        m.dx == Some(Vec3::zero()),
        moderate(shown),
        moderate(last),
        moderate(x),
        0x100_0000 <= dt.raw <= 0x10_0000_0000,
        0 <= cfg.min_cutoff.raw <= 0x100_0000_0000,
        0 <= cfg.beta.raw <= 0x100_0000_0000,
        0 <= cfg.derivative_cutoff.raw <= 0x100_0000_0000,
        is_rate(last.x, x.x, dt, alpha(cfg.derivative_cutoff, dt), v.x),
        is_rate(last.y, x.y, dt, alpha(cfg.derivative_cutoff, dt), v.y),
        is_rate(last.z, x.z, dt, alpha(cfg.derivative_cutoff, dt), v.z),
        crate::fixed::is_root(
            speed.raw as int,
            v.x.raw * v.x.raw + v.y.raw * v.y.raw + v.z.raw * v.z.raw,
        ),
    ensures
        m.next(x, dt, cfg).dx == Some(v),
        moves_by_share(
            shown,
            x,
            alpha(
                fx(cfg.min_cutoff.raw + (cfg.beta.raw * speed.raw) / 0x1_0000_0000),
                dt,
            ),
            m.filtered(x, dt, cfg),
        ),
{
    assert(Fx::ratio(1, 10000).raw == 429496);
    assert(lapse(dt) == dt);
    let ad = alpha(cfg.derivative_cutoff, dt);
    law_alpha_grows_with_cutoff(cfg.derivative_cutoff, cfg.derivative_cutoff, dt);
    lemma_rate(last.x, x.x, dt, ad, v.x);
    lemma_rate(last.y, x.y, dt, ad, v.y);
    lemma_rate(last.z, x.z, dt, ad, v.z);
    assert(m.speed(x, dt, cfg) == v);
    let n = crate::vector::norm3(v);
    crate::vector::lemma_square_bound(v.x.raw);
    crate::vector::lemma_square_bound(v.y.raw);
    crate::vector::lemma_square_bound(v.z.raw);
    crate::fixed::lemma_root(n);
    crate::fixed::lemma_root_unique(crate::fixed::root(n), speed.raw as int, n);
    assert(v.length() == speed);
    let (b, s) = (cfg.beta.raw as int, speed.raw as int);
    assert(0 <= b * s) by (nonlinear_arith)
        requires
            0 <= b,
            0 <= s,
    ;
    let c = m.cutoff(x, dt, cfg);
    assert(c == fx(cfg.min_cutoff.raw + (b * s) / 0x1_0000_0000));
    law_alpha_grows_with_cutoff(c, c, dt);
    lemma_moves_by_share(shown, x, alpha(c, dt));
}

/// `v` is the share `a` of the change from `p` to `x` over `dt`.
pub open spec fn is_rate(p: Fx, x: Fx, dt: Fx, a: Fx, v: Fx) -> bool {
    v.raw == ((((x.raw - p.raw) * 0x1_0000_0000) / (dt.raw as int)) * a.raw) / 0x1_0000_0000
}

proof fn lemma_rate(p: Fx, x: Fx, dt: Fx, a: Fx, v: Fx)
    requires
        -0x100_0000_0000 <= p.raw <= 0x100_0000_0000,
        -0x100_0000_0000 <= x.raw <= 0x100_0000_0000,
        0x100_0000 <= dt.raw,
        0 <= a.raw <= ONE,
        is_rate(p, x, dt, a, v),
    ensures
        Fx::zero().plus(x.minus(p).over(dt).minus(Fx::zero()).times(a)) == v,
{
    let d = x.raw - p.raw;
    let t = dt.raw as int;
    let n = d * 0x1_0000_0000;
    let q = n / t;
    vstd::arithmetic::div_mod::lemma_fundamental_div_mod(n, t);
    vstd::arithmetic::div_mod::lemma_mod_bound(n, t);
    assert(-0x200_0000_0000_0000_0000 <= n <= 0x200_0000_0000_0000_0000);
    assert(-0x400_0000_0000_0000 <= q <= 0x400_0000_0000_0000) by (nonlinear_arith)
        requires
            t * q <= n < t * q + t,
            -0x200_0000_0000_0000_0000 <= n <= 0x200_0000_0000_0000_0000,
            t >= 0x100_0000,
    ;
    lemma_share(q, a.raw as int);
}

/// The more the cutoff opens with speed, the closer the filter stays to the
/// hand: with a larger `beta` the answer lies between that with the smaller one
/// and the sample.
pub proof fn law_beta_brings_the_answer_closer(
    m: Memory,
    shown: Vec3,
    x: Vec3,
    dt: Fx,
    less: OneEuroConfig,
    more: OneEuroConfig,
)
    requires
        m.x == Some(shown),
        moderate(shown),
        moderate(x),
        0 <= less.min_cutoff.raw,
        0 <= less.beta.raw <= more.beta.raw,
        more.min_cutoff == less.min_cutoff,
        more.derivative_cutoff == less.derivative_cutoff,
    ensures
        between(m.filtered(x, dt, more).x, m.filtered(x, dt, less).x, x.x),
        between(m.filtered(x, dt, more).y, m.filtered(x, dt, less).y, x.y),
        between(m.filtered(x, dt, more).z, m.filtered(x, dt, less).z, x.z),
{
    assert(Fx::ratio(1, 10000).raw == 429496);
    let t = lapse(dt);
    let v = m.speed(x, dt, less);
    let n = crate::vector::norm3(v);
    crate::vector::lemma_square_bound(v.x.raw);
    crate::vector::lemma_square_bound(v.y.raw);
    crate::vector::lemma_square_bound(v.z.raw);
    crate::fixed::lemma_root(n);
    lemma_times_grows(v.length(), less.beta, more.beta);
    lemma_times_commutes(v.length(), less.beta);
    lemma_times_commutes(v.length(), more.beta);
    let (c, d) = (m.cutoff(x, dt, less), m.cutoff(x, dt, more));
    law_alpha_grows_with_cutoff(c, d, t);
    let (a, b) = (alpha(c, t).raw as int, alpha(d, t).raw as int);
    lemma_shares_ordered(x.x.raw - shown.x.raw, a, b);
    lemma_shares_ordered(x.y.raw - shown.y.raw, a, b);
    lemma_shares_ordered(x.z.raw - shown.z.raw, a, b);
}

/// A larger share of a difference is nearer to the whole of it.
proof fn lemma_shares_ordered(d: int, a: int, b: int)
    requires
        0 <= a <= b <= 0x1_0000_0000,
    ensures
        d >= 0 ==> 0 <= (d * a) / 0x1_0000_0000 <= (d * b) / 0x1_0000_0000 <= d,
        d <= 0 ==> d <= (d * b) / 0x1_0000_0000 <= (d * a) / 0x1_0000_0000 <= 0,
{
    lemma_share(d, a);
    lemma_share(d, b);
    if d >= 0 {
        assert(d * a <= d * b) by (nonlinear_arith)
            requires
                d >= 0,
                a <= b,
        ;
        vstd::arithmetic::div_mod::lemma_div_is_ordered(d * a, d * b, 0x1_0000_0000);
    } else {
        assert(d * b <= d * a) by (nonlinear_arith)
            requires
                d <= 0,
                a <= b,
        ;
        vstd::arithmetic::div_mod::lemma_div_is_ordered(d * b, d * a, 0x1_0000_0000);
    }
}

/// A filter starts at rest where the first sample is, and remembers each sample
/// as it came for the next one's speed.
pub proof fn law_filter_remembers(m: Memory, x: Vec3, dt: Fx, cfg: OneEuroConfig)
    ensures
        blank().next(x, dt, cfg).x == Some(x),
        blank().next(x, dt, cfg).dx == Some(Vec3::zero()),
        m.next(x, dt, cfg).prev == Some(x),
        m.next(x, dt, cfg).x == Some(m.filtered(x, dt, cfg)),
{
}

/// No time at all counts as a tenth of a millisecond.
pub proof fn law_time_has_a_least(m: Memory, x: Vec3, dt: Fx, cfg: OneEuroConfig)
    requires
        dt.raw * 10_000 <= ONE,
    ensures
        m.filtered(x, dt, cfg) == m.filtered(x, Fx { raw: 429496 }, cfg),
        m.next(x, dt, cfg) == m.next(x, Fx { raw: 429496 }, cfg),
{
    assert(Fx::ratio(1, 10000).raw == 429496);
}

/// The speed is smoothed too: it moves from the last one towards the change of
/// the sample over the time, by the share that the cutoff for speeds lets
/// through.
pub proof fn law_speed_is_smoothed(
    m: Memory,
    last: Vec3,
    before: Vec3,
    x: Vec3,
    dt: Fx,
    cfg: OneEuroConfig,
    v: Vec3,
)
    requires
        m.prev == Some(last),
        m.dx == Some(before),
        moderate(last),
        moderate(x),
        moderate(before),
        moderate(v),
        429496 <= dt.raw <= 0x10_0000_0000,
        0 <= cfg.derivative_cutoff.raw,
        v.x.raw == ((x.x.raw - last.x.raw) * 0x1_0000_0000) / (dt.raw as int),
        v.y.raw == ((x.y.raw - last.y.raw) * 0x1_0000_0000) / (dt.raw as int),
        v.z.raw == ((x.z.raw - last.z.raw) * 0x1_0000_0000) / (dt.raw as int),
    ensures
        m.next(x, dt, cfg).dx is Some,
        moves_by_share(before, v, alpha(cfg.derivative_cutoff, dt), m.next(x, dt, cfg).dx->0),
{
    assert(Fx::ratio(1, 10000).raw == 429496);
    assert(lapse(dt) == dt);
    assert(m.velocity(x, dt) == v);
    law_alpha_grows_with_cutoff(cfg.derivative_cutoff, cfg.derivative_cutoff, dt);
    lemma_moves_by_share(before, v, alpha(cfg.derivative_cutoff, dt));
}

/// Tracking starts with a cutoff of one turn a second that opens by twenty for
/// each unit of speed.
pub proof fn law_default_smoothing()
    ensures
        default_config().min_cutoff.raw == 0x1_0000_0000,
        default_config().beta.raw == 20 * 0x1_0000_0000,
        default_config().derivative_cutoff.raw == 0x1_0000_0000,
{
}

/// However fast the hand already is, the filter follows it by the share that
/// its cutoff lets through: the least cutoff, opened by `beta` times the length
/// of the smoothed speed.
pub proof fn law_answer_follows_the_speed(
    m: Memory,
    shown: Vec3,
    x: Vec3,
    dt: Fx,
    cfg: OneEuroConfig,
    length: Fx,
)
    requires
        m.x == Some(shown),
        moderate(shown),
        moderate(x),
        429496 <= dt.raw,
        0 <= cfg.min_cutoff.raw,
        0 <= cfg.beta.raw,
        ({
            let v = m.next(x, dt, cfg).dx->0;
            crate::fixed::is_root(
                length.raw as int,
                v.x.raw * v.x.raw + v.y.raw * v.y.raw + v.z.raw * v.z.raw,
            )
        }),
    ensures
        moves_by_share(
            shown,
            x,
            alpha(
                cfg.min_cutoff.plus(fx((cfg.beta.raw * length.raw) / 0x1_0000_0000)),
                dt,
            ),
            m.filtered(x, dt, cfg),
        ),
{
    assert(Fx::ratio(1, 10000).raw == 429496);
    assert(lapse(dt) == dt);
    let v = m.next(x, dt, cfg).dx->0;
    let n = crate::vector::norm3(v);
    crate::vector::lemma_square_bound(v.x.raw);
    crate::vector::lemma_square_bound(v.y.raw);
    crate::vector::lemma_square_bound(v.z.raw);
    crate::fixed::lemma_root(n);
    crate::fixed::lemma_root_unique(crate::fixed::root(n), length.raw as int, n);
    assert(v.length() == length);
    let (b, s) = (cfg.beta.raw as int, length.raw as int);
    assert(0 <= b * s) by (nonlinear_arith)
        requires
            0 <= b,
            0 <= s,
    ;
    let c = m.cutoff(x, dt, cfg);
    assert(c == cfg.min_cutoff.plus(fx((b * s) / 0x1_0000_0000)));
    law_alpha_grows_with_cutoff(c, c, dt);
    lemma_moves_by_share(shown, x, alpha(c, dt));
}

} // verus!
