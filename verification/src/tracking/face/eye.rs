//! Eye openness and blink detection.
//!
//! Openness is measured as the eye aspect ratio (EAR): the eyelid gap divided
//! by the eye's width. Dividing by the width is what makes it scale-free: it
//! reads the same whether the face is near or far, which a raw pixel gap would
//! not.
//!
//! Soukupova & Cech, "Real-Time Eye Blink Detection using Facial Landmarks".

pub mod lm;

use crate::fixed::{quotient, Fx, ONE};
use crate::similar::{
    fine_factor, lemma_distance, lemma_ratio, lemma_scaled_sum, near, rounding, scaled,
    Similarity,
};
use crate::vector::Vec2;
use vstd::prelude::*;

verus! {

#[derive(Debug, Clone, Copy, PartialEq, Eq, Structural)]
pub enum Eye {
    /// The user's right eye.
    Right,
    /// The user's left eye.
    Left,
}

impl Eye {
    /// Mesh landmarks around the eye: outer corner, two upper lid points, inner
    /// corner, two lower lid points.
    #[verifier::allow_in_spec]
    pub fn landmarks(self) -> [usize; 6]
        returns
            (match self {
                Eye::Right => [33usize, 160, 158, 133, 153, 144],
                Eye::Left => [362usize, 385, 387, 263, 373, 380],
            }),
    {
        match self {
            Eye::Right => lm::RIGHT_EYE,
            Eye::Left => lm::LEFT_EYE,
        }
    }
}

/// The landmark with the highest index around the eye.
pub open spec fn last_landmark(eye: Eye) -> int {
    match eye {
        Eye::Right => 160,
        Eye::Left => 387,
    }
}

/// Corner-to-corner width of the eye.
pub open spec fn eye_width(landmarks: Seq<Vec2>, eye: Eye) -> Fx {
    let p = eye.landmarks();
    landmarks[p[0] as int].distance(landmarks[p[3] as int])
}

/// The two gaps between the lids, added up.
pub open spec fn lid_gap(landmarks: Seq<Vec2>, eye: Eye) -> Fx {
    let p = eye.landmarks();
    landmarks[p[1] as int].distance(landmarks[p[5] as int]).plus(
        landmarks[p[2] as int].distance(landmarks[p[4] as int]),
    )
}

/// Whether the mesh reaches around the eye and the eye has a width to measure
/// the lids against.
pub open spec fn measurable(landmarks: Seq<Vec2>, eye: Eye) -> bool {
    landmarks.len() > last_landmark(eye) && eye_width(landmarks, eye).raw > Fx::ratio(
        1,
        1000000,
    ).raw
}

/// The gap between the lids over the width of the eye, if it can be measured.
pub open spec fn ear_of(landmarks: Seq<Vec2>, eye: Eye) -> Option<Fx> {
    if measurable(landmarks, eye) {
        let width = eye_width(landmarks, eye);
        Some(lid_gap(landmarks, eye).over(width.plus(width)))
    } else {
        None
    }
}

/// Eye aspect ratio: roughly 0.3 wide open, under 0.15 closed.
///
/// Returns `None` if the landmark slice is too short for the mesh, or if the
/// eye's corners coincide.
pub fn aspect_ratio(landmarks: &[Vec2], eye: Eye) -> (ear: Option<Fx>)
    ensures
        ear == ear_of(landmarks@, eye),
{
    let idx = eye.landmarks();
    let last: usize = match eye {
        Eye::Right => 160,
        Eye::Left => 387,
    };
    if landmarks.len() <= last {
        return None;
    }
    // Two vertical lid measurements, averaged, over the corner-to-corner width.
    let lid = landmarks[idx[1]].distance(landmarks[idx[5]]).plus(
        landmarks[idx[2]].distance(landmarks[idx[4]]),
    );
    let width = landmarks[idx[0]].distance(landmarks[idx[3]]);
    if width.raw <= Fx::ratio(1, 1000000).raw {
        return None;
    }
    Some(lid.over(width.plus(width)))
}

#[derive(Debug, Clone, Copy)]
pub struct BlinkConfig {
    /// EAR below this counts as closed.
    pub close_below: Fx,
    /// EAR above this counts as open again. Higher than `close_below` to give
    /// hysteresis, so an eye hovering at the threshold does not chatter.
    pub open_above: Fx,
    /// How long the eye must stay shut to count as a *long* blink, in seconds.
    /// Comfortably above an involuntary blink, which is ~0.1-0.4s.
    pub hold_secs: Fx,
}

impl Default for BlinkConfig {
    fn default() -> (cfg: BlinkConfig)
        ensures
            cfg.close_below == Fx::ratio(18, 100),
            cfg.open_above == Fx::ratio(25, 100),
            cfg.hold_secs == Fx::ratio(7, 10),
    {
        BlinkConfig {
            close_below: Fx::ratio(18, 100),
            open_above: Fx::ratio(25, 100),
            hold_secs: Fx::ratio(7, 10),
        }
    }
}

/// What the detector saw this frame.
#[derive(Debug, Clone, Copy, PartialEq, Eq, Structural)]
pub enum BlinkEvent {
    /// The eye has been shut for longer than `hold_secs`. Fires once per
    /// closure, not repeatedly while it stays shut.
    LongBlink,
}

/// Tracks one eye across frames.
#[derive(Debug, Clone, Copy)]
pub struct BlinkDetector {
    pub closed: bool,
    /// Seconds the eye has been continuously shut.
    pub closed_for: Fx,
    /// Set once the long blink has fired, to avoid repeating while held.
    pub fired: bool,
}

/// A detector that has seen no closure.
pub open spec fn watching() -> BlinkDetector {
    BlinkDetector { closed: false, closed_for: Fx::zero(), fired: false }
}

/// The detector after one reading, before deciding whether to fire.
pub open spec fn observe(
    d: BlinkDetector,
    ear: Option<Fx>,
    dt: Fx,
    cfg: BlinkConfig,
) -> BlinkDetector {
    match ear {
        None => watching(),
        Some(e) => if d.closed {
            if e.raw > cfg.open_above.raw {
                watching()
            } else {
                BlinkDetector { closed_for: d.closed_for.plus(dt), ..d }
            }
        } else if e.raw < cfg.close_below.raw {
            BlinkDetector { closed: true, closed_for: Fx::zero(), fired: false }
        } else {
            d
        },
    }
}

/// Whether a long blink is due and has not been reported yet.
pub open spec fn due(d: BlinkDetector, cfg: BlinkConfig) -> bool {
    d.closed && !d.fired && d.closed_for.raw >= cfg.hold_secs.raw
}

/// The detector after one reading.
pub open spec fn next(
    d: BlinkDetector,
    ear: Option<Fx>,
    dt: Fx,
    cfg: BlinkConfig,
) -> BlinkDetector {
    let seen = observe(d, ear, dt, cfg);
    if due(seen, cfg) {
        BlinkDetector { fired: true, ..seen }
    } else {
        seen
    }
}

/// Whether one reading completes a long blink.
pub open spec fn fires(d: BlinkDetector, ear: Option<Fx>, dt: Fx, cfg: BlinkConfig) -> bool {
    due(observe(d, ear, dt, cfg), cfg)
}

impl Default for BlinkDetector {
    fn default() -> (d: BlinkDetector)
        ensures
            d == watching(),
    {
        BlinkDetector { closed: false, closed_for: Fx::zero(), fired: false }
    }
}

impl BlinkDetector {
    /// Feed one frame's EAR. `None` means the eye was not measurable (the
    /// face was lost), which resets rather than counting as a closure, so
    /// losing tracking cannot be mistaken for a deliberate blink.
    pub fn update(&mut self, ear: Option<Fx>, dt: Fx, cfg: &BlinkConfig) -> (event: Option<
        BlinkEvent,
    >)
        ensures
            *final(self) == next(*old(self), ear, dt, *cfg),
            event == if fires(*old(self), ear, dt, *cfg) {
                Some(BlinkEvent::LongBlink)
            } else {
                None
            },
    {
        let ear: Fx = match ear {
            Some(e) => e,
            None => {
                *self = BlinkDetector::default();
                return None;
            },
        };

        if self.closed {
            if ear.raw > cfg.open_above.raw {
                *self = BlinkDetector::default();
                return None;
            }
            self.closed_for = self.closed_for.plus(dt);
        } else if ear.raw < cfg.close_below.raw {
            self.closed = true;
            self.closed_for = Fx::zero();
            self.fired = false;
        }
        if self.closed && !self.fired && self.closed_for.raw >= cfg.hold_secs.raw {
            self.fired = true;
            return Some(BlinkEvent::LongBlink);
        }
        None
    }

    /// Seconds the eye has been shut, for a progress readout.
    #[verifier::allow_in_spec]
    pub fn closed_for(&self) -> Fx
        returns
            (if self.closed {
                self.closed_for
            } else {
                Fx::zero()
            }),
    {
        if self.closed {
            self.closed_for
        } else {
            Fx::zero()
        }
    }
}

/// One frame of one eye: its aspect ratio and the seconds since the last frame.
pub struct Reading {
    pub ear: Option<Fx>,
    pub dt: Fx,
}

/// The detector after a run of readings.
pub open spec fn after(d: BlinkDetector, readings: Seq<Reading>, cfg: BlinkConfig) -> BlinkDetector
    decreases readings.len(),
{
    if readings.len() == 0 {
        d
    } else {
        let r = readings.last();
        next(after(d, readings.drop_last(), cfg), r.ear, r.dt, cfg)
    }
}

/// How many long blinks a run of readings reports.
pub open spec fn blinks(d: BlinkDetector, readings: Seq<Reading>, cfg: BlinkConfig) -> nat
    decreases readings.len(),
{
    if readings.len() == 0 {
        0
    } else {
        let r = readings.last();
        let before = after(d, readings.drop_last(), cfg);
        blinks(d, readings.drop_last(), cfg) + if fires(before, r.ear, r.dt, cfg) {
            1nat
        } else {
            0nat
        }
    }
}

/// The face stays in view and the eye never opens past `open_above`.
pub open spec fn stays_shut(readings: Seq<Reading>, cfg: BlinkConfig) -> bool {
    forall|i: int|
        0 <= i < readings.len() ==> ((#[trigger] readings[i]).ear matches Some(e) && e.raw
            <= cfg.open_above.raw)
}

/// The eye is never seen below `close_below`, nor lost.
pub open spec fn stays_open(readings: Seq<Reading>, cfg: BlinkConfig) -> bool {
    forall|i: int|
        0 <= i < readings.len() ==> ((#[trigger] readings[i]).ear matches Some(e) && e.raw
            >= cfg.close_below.raw)
}

/// Losing the face forgets the closure: nothing fires, whatever went before,
/// and the timer starts over.
pub proof fn law_lost_face_resets(d: BlinkDetector, dt: Fx, cfg: BlinkConfig)
    ensures
        next(d, None, dt, cfg) == watching(),
        !fires(d, None, dt, cfg),
        next(d, None, dt, cfg).closed_for() == Fx::zero(),
{
}

/// Hysteresis: an eye that has closed counts as closed until it opens past
/// `open_above`, and an open eye counts as open until it falls below
/// `close_below`.
pub proof fn law_hysteresis(d: BlinkDetector, ear: Fx, dt: Fx, cfg: BlinkConfig)
    ensures
        d.closed && ear.raw <= cfg.open_above.raw ==> next(d, Some(ear), dt, cfg).closed,
        !d.closed && ear.raw >= cfg.close_below.raw ==> next(d, Some(ear), dt, cfg).closed
            == false,
{
}

/// A long blink is only ever reported for an eye that has been shut for at
/// least `hold_secs`.
pub proof fn law_fires_only_when_held(
    d: BlinkDetector,
    ear: Option<Fx>,
    dt: Fx,
    cfg: BlinkConfig,
)
    requires
        fires(d, ear, dt, cfg),
    ensures
        next(d, ear, dt, cfg).closed,
        next(d, ear, dt, cfg).closed_for().raw >= cfg.hold_secs.raw,
{
}

/// One closure reports at most one long blink, however long it lasts.
pub proof fn law_fires_once_per_closure(
    d: BlinkDetector,
    readings: Seq<Reading>,
    cfg: BlinkConfig,
)
    requires
        d.closed,
        stays_shut(readings, cfg),
    ensures
        after(d, readings, cfg).closed,
        blinks(d, readings, cfg) + (if d.fired {
            1nat
        } else {
            0nat
        }) == if after(d, readings, cfg).fired {
            1nat
        } else {
            0nat
        },
    decreases readings.len(),
{
    if readings.len() > 0 {
        let rest = readings.drop_last();
        assert forall|i: int| 0 <= i < rest.len() implies ((#[trigger] rest[i]).ear matches Some(e)
            && e.raw <= cfg.open_above.raw) by {
            assert(rest[i] == readings[i]);
        }
        law_fires_once_per_closure(d, rest, cfg);
        let r = readings.last();
        assert(readings[readings.len() - 1] == r);
    }
}

/// A blink that ends before `hold_secs` reports nothing: while the time shut
/// stays below the threshold no reading fires.
pub proof fn law_short_blink_is_silent(
    d: BlinkDetector,
    ear: Fx,
    dt: Fx,
    cfg: BlinkConfig,
)
    requires
        d.closed ==> d.closed_for.plus(dt).raw < cfg.hold_secs.raw,
        cfg.hold_secs.raw > 0,
    ensures
        !fires(d, Some(ear), dt, cfg),
{
}

/// An eye that never closes reports nothing.
pub proof fn law_open_eye_is_silent(readings: Seq<Reading>, cfg: BlinkConfig)
    requires
        stays_open(readings, cfg),
    ensures
        after(watching(), readings, cfg) == watching(),
        blinks(watching(), readings, cfg) == 0,
    decreases readings.len(),
{
    if readings.len() > 0 {
        let rest = readings.drop_last();
        assert forall|i: int| 0 <= i < rest.len() implies ((#[trigger] rest[i]).ear matches Some(e)
            && e.raw >= cfg.close_below.raw) by {
            assert(rest[i] == readings[i]);
        }
        law_open_eye_is_silent(rest, cfg);
        let r = readings.last();
        assert(readings[readings.len() - 1] == r);
    }
}

/// Opening the eye arms the detector again.
pub proof fn law_reopening_rearms(d: BlinkDetector, ear: Fx, dt: Fx, cfg: BlinkConfig)
    requires
        d.closed,
        ear.raw > cfg.open_above.raw,
    ensures
        next(d, Some(ear), dt, cfg) == watching(),
        !fires(d, Some(ear), dt, cfg),
{
}

/// The seconds that a run of readings lasts.
pub open spec fn lasting(readings: Seq<Reading>) -> Fx
    decreases readings.len(),
{
    if readings.len() == 0 {
        Fx::zero()
    } else {
        lasting(readings.drop_last()).plus(readings.last().dt)
    }
}

/// The eye closes at reading `j` and stays shut to the end of the run.
pub open spec fn shut_since(readings: Seq<Reading>, cfg: BlinkConfig, j: int) -> bool {
    &&& 0 <= j < readings.len()
    &&& readings[j].ear matches Some(e) && e.raw < cfg.close_below.raw
    &&& stays_shut(readings.skip(j + 1), cfg)
}

/// Whether reading `i` of a run reports a long blink.
pub open spec fn fires_at(
    d: BlinkDetector,
    readings: Seq<Reading>,
    i: int,
    cfg: BlinkConfig,
) -> bool {
    fires(after(d, readings.take(i), cfg), readings[i].ear, readings[i].dt, cfg)
}

/// An eye counts as closed since a reading below `close_below`, after which it
/// stayed shut; the timer has run since that reading.
proof fn lemma_closed_since(readings: Seq<Reading>, cfg: BlinkConfig)
    requires
        after(watching(), readings, cfg).closed,
    ensures
        exists|j: int| #[trigger]
            shut_since(readings, cfg, j) && after(watching(), readings, cfg).closed_for == lasting(
                readings.skip(j + 1),
            ),
    decreases readings.len(),
{
    let n = readings.len() as int;
    let start = readings.drop_last();
    let before = after(watching(), start, cfg);
    let last = readings.last();
    if before.closed {
        lemma_closed_since(start, cfg);
        let j = choose|j: int| #[trigger]
            shut_since(start, cfg, j) && before.closed_for == lasting(start.skip(j + 1));
        let rest = readings.skip(j + 1);
        assert(rest.drop_last() =~= start.skip(j + 1));
        assert(rest.last() == last);
        assert(readings[j] == start[j]);
        assert forall|i: int| 0 <= i < rest.len() implies ((#[trigger] rest[i]).ear matches Some(e)
            && e.raw <= cfg.open_above.raw) by {
            if i < rest.len() - 1 {
                assert(start.skip(j + 1)[i] == rest[i]);
            }
        }
        assert(shut_since(readings, cfg, j));
    } else {
        let rest = readings.skip(n);
        assert(rest.len() == 0);
        assert(readings[n - 1] == last);
        assert(shut_since(readings, cfg, n - 1));
    }
}

/// A long blink is reported only when a reading below `close_below` was
/// followed by nothing but a shut eye, for `hold_secs` or longer.
pub proof fn law_long_blink_follows_a_closure(readings: Seq<Reading>, cfg: BlinkConfig)
    requires
        readings.len() > 0,
        fires_at(watching(), readings, readings.len() - 1, cfg),
    ensures
        exists|j: int| #[trigger]
            shut_since(readings, cfg, j) && lasting(readings.skip(j + 1)).raw
                >= cfg.hold_secs.raw,
{
    let n = readings.len() - 1;
    assert(readings.take(n) =~= readings.drop_last());
    lemma_closed_since(readings, cfg);
}

/// Between two long blinks the eye was seen open past `open_above`, or was
/// lost.
pub proof fn law_reopening_between_blinks(
    d: BlinkDetector,
    readings: Seq<Reading>,
    i: int,
    j: int,
    cfg: BlinkConfig,
)
    requires
        0 <= i < j < readings.len(),
        fires_at(d, readings, i, cfg),
        fires_at(d, readings, j, cfg),
    ensures
        exists|k: int|
            i < k < j && match (#[trigger] readings[k]).ear {
                Some(e) => e.raw > cfg.open_above.raw,
                None => true,
            },
{
    if forall|k: int|
        i < k < j ==> ((#[trigger] readings[k]).ear matches Some(e) && e.raw
            <= cfg.open_above.raw) {
        lemma_stays_fired(d, readings, i, j, cfg);
    }
}

/// Once a long blink has been reported, the detector remembers it while the eye
/// stays shut.
proof fn lemma_stays_fired(
    d: BlinkDetector,
    readings: Seq<Reading>,
    i: int,
    j: int,
    cfg: BlinkConfig,
)
    requires
        0 <= i < j <= readings.len(),
        fires_at(d, readings, i, cfg),
        forall|k: int|
            i < k < j ==> ((#[trigger] readings[k]).ear matches Some(e) && e.raw
                <= cfg.open_above.raw),
    ensures
        after(d, readings.take(j), cfg).closed,
        after(d, readings.take(j), cfg).fired,
    decreases j,
{
    assert(readings.take(j).drop_last() =~= readings.take(j - 1));
    assert(readings.take(j).last() == readings[j - 1]);
    if j - 1 > i {
        lemma_stays_fired(d, readings, i, j - 1, cfg);
    }
}

/// A face `k` times as near, and so `k` times as large, reads the same to
/// within a hundred-thousandth: the lids are measured against the eye's own
/// width.
pub proof fn law_openness_ignores_distance(a: Seq<Vec2>, b: Seq<Vec2>, eye: Eye, k: Fx)
    requires
        a.len() > last_landmark(eye),
        b.len() == a.len(),
        forall|i: int| 0 <= i < a.len() ==> near(#[trigger] a[i], ONE as int),
        forall|i: int| 0 <= i < b.len() ==> #[trigger] b[i] == a[i].times(k),
        ONE <= k.raw <= 100 * ONE,
        eye_width(a, eye).raw >= Fx::ratio(1, 10).raw,
        ear_of(a, eye) matches Some(x) && x.raw <= ONE,
    ensures
        ear_of(a, eye)->0.raw >= 0,
        ear_of(b, eye) matches Some(y) && -Fx::ratio(1, 100000).raw < y.raw - ear_of(a, eye)->0.raw
            < Fx::ratio(1, 100000).raw,
{
    let s = Similarity { a: k.raw as int, b: 0, m: ONE as int, x: 0, y: 0 };
    let n = 0x1000_0000_0000_0000int;
    let (f, m) = (fine_factor(s, n), n * s.m);
    let kk = k.raw as int;
    assert((n * n) * s.factor2() == (n * kk) * (n * kk) && n * kk >= m && m > 0)
        by (nonlinear_arith)
        requires
            s.factor2() == kk * kk + 0 * 0,
            kk >= ONE,
            ONE > 0,
            n > 0,
            m == n * ONE,
    ;
    crate::fixed::lemma_root_of_square(n * kk);
    assert(f == n * kk);
    let p = eye.landmarks();
    let (p0, p1, p2) = (p[0] as int, p[1] as int, p[2] as int);
    let (p3, p4, p5) = (p[3] as int, p[4] as int, p[5] as int);
    lemma_nearer(a[p0], b[p0], k);
    lemma_nearer(a[p1], b[p1], k);
    lemma_nearer(a[p2], b[p2], k);
    lemma_nearer(a[p3], b[p3], k);
    lemma_nearer(a[p4], b[p4], k);
    lemma_nearer(a[p5], b[p5], k);
    lemma_distance(s, n, a[p0], a[p3], b[p0], b[p3]);
    lemma_distance(s, n, a[p1], a[p5], b[p1], b[p5]);
    lemma_distance(s, n, a[p2], a[p4], b[p2], b[p4]);
    let (w, t) = (eye_width(a, eye).raw as int, eye_width(b, eye).raw as int);
    let (u, v) = (a[p1].distance(a[p5]).raw as int, b[p1].distance(b[p5]).raw as int);
    let (y, z) = (a[p2].distance(a[p4]).raw as int, b[p2].distance(b[p4]).raw as int);
    lemma_scaled_sum(w, t, w, t, f, m);
    lemma_scaled_sum(u, v, y, z, f, m);
    let (d, e) = (u + y, v + z);
    assert(lid_gap(a, eye).raw == d && lid_gap(b, eye).raw == e);
    // The nearer eye is no narrower.
    assert(w <= t + 24) by (nonlinear_arith)
        requires
            f * w <= m * t + 24 * (1 * m),
            f >= m > 0,
            w >= 0,
    ;
    assert(Fx::ratio(1, 10).raw == 429496729 && Fx::ratio(1, 1000000).raw == 4294);
    assert(Fx::ratio(1, 100000).raw == 42949);
    lemma_gaps(d, 2 * w, e, 2 * t, f, m);
    lemma_ratio(d, 2 * w, e, 2 * t, f, m, 2, 1000);
    vstd::arithmetic::div_mod::lemma_div_is_ordered(0, d * ONE, 2 * w);
    vstd::arithmetic::div_mod::lemma_div_basics(2 * w);
    lemma_within_two(e, 2 * t);
}

/// A gap of a few eye-widths has an aspect ratio in range.
proof fn lemma_within_two(e: int, t: int)
    requires
        0 <= e <= 4 * t,
        t > 0,
    ensures
        0 <= quotient(e, t) <= 4 * ONE,
{
    assert(e * ONE <= (4 * ONE) * t) by (nonlinear_arith)
        requires
            e <= 4 * t,
            ONE > 0,
    ;
    vstd::arithmetic::div_mod::lemma_div_is_ordered(0, e * ONE, t);
    vstd::arithmetic::div_mod::lemma_div_is_ordered(e * ONE, (4 * ONE) * t, t);
    vstd::arithmetic::div_mod::lemma_div_by_multiple(4 * ONE as int, t);
    vstd::arithmetic::div_mod::lemma_div_basics(t);
}

/// A landmark of a face that is `k` times as near.
proof fn lemma_nearer(p: Vec2, q: Vec2, k: Fx)
    requires
        near(p, ONE as int),
        q == p.times(k),
        ONE <= k.raw <= 100 * ONE,
    ensures
        (Similarity { a: k.raw as int, b: 0, m: ONE as int, x: 0, y: 0 }).takes(p, q),
        near(p, 0x100_0000_0000_0000),
        near(q, 0x100_0000_0000_0000),
{
    lemma_stretched(p.x.raw as int, k.raw as int);
    lemma_stretched(p.y.raw as int, k.raw as int);
    let s = Similarity { a: k.raw as int, b: 0, m: ONE as int, x: 0, y: 0 };
    assert(s.m * q.x.raw == 0x1_0000_0000 * q.x.raw && s.m * q.y.raw == 0x1_0000_0000 * q.y.raw)
        by (nonlinear_arith)
        requires
            s.m == 0x1_0000_0000,
    ;
    assert(s.b * p.y.raw == 0 && s.b * p.x.raw == 0) by (nonlinear_arith)
        requires
            s.b == 0,
    ;
    assert(rounding() * s.m == 8 * s.m && -rounding() * s.m == -8 * s.m);
}

proof fn lemma_stretched(x: int, k: int)
    requires
        -ONE <= x <= ONE,
        ONE <= k <= 100 * ONE,
    ensures
        -ONE <= 0x1_0000_0000 * ((x * k) / 0x1_0000_0000) - k * x <= 0,
        -101 * ONE <= (x * k) / 0x1_0000_0000 <= 101 * ONE,
{
    assert(k * x == x * k) by (nonlinear_arith);
    assert(-100 * 0x1_0000_0000 * 0x1_0000_0000 <= x * k <= 100 * 0x1_0000_0000 * 0x1_0000_0000)
        by (nonlinear_arith)
        requires
            -0x1_0000_0000 <= x <= 0x1_0000_0000,
            0 <= k <= 100 * 0x1_0000_0000,
    ;
}

/// How the gaps and widths of the two faces compare.
proof fn lemma_gaps(d: int, s: int, e: int, t: int, f: int, m: int)
    requires
        scaled(d, e, f, m, 2),
        scaled(s, t, f, m, 2),
        f >= 0,
        m > 0,
        d >= 0,
        e >= 0,
        s >= 858993458,
        t >= 858993400,
        quotient(d, s) <= ONE,
    ensures
        e <= 4 * t,
        (2 * t + 24 * (2 * d) + 24 * (2 * 2) + 24 * (2 * s)) * ONE <= 1000 * (s * t),
        (2 * e + 24 * (2 * d) + 24 * (2 * 2) + 24 * (2 * s)) * ONE <= 1000 * (s * t),
{
    let one = 4294967296int;
    vstd::arithmetic::div_mod::lemma_fundamental_div_mod(d * one, s);
    vstd::arithmetic::div_mod::lemma_mod_bound(d * one, s);
    let q = quotient(d, s);
    assert(s * q <= s * one) by (nonlinear_arith)
        requires
            q <= one,
            s > 0,
    ;
    assert(d <= 2 * s) by (nonlinear_arith)
        requires
            d * one <= s * one + s,
            one == 4294967296,
            s > 0,
    ;
    assert(f * d <= 2 * (f * s)) by (nonlinear_arith)
        requires
            d <= 2 * s,
            f >= 0,
    ;
    assert(2 * f <= f * s) by (nonlinear_arith)
        requires
            s >= 2,
            f >= 0,
    ;
    assert(m * e <= 3 * (m * t) + 192 * m);
    assert(e <= 4 * t) by (nonlinear_arith)
        requires
            m * e <= 3 * (m * t) + 192 * m,
            m > 0,
            t >= 192,
    ;
    assert(t * one <= 6 * (s * t) && s * one <= 6 * (s * t) && d * one <= 12 * (s * t) && e * one
        <= 24 * (s * t) && one <= s * t) by (nonlinear_arith)
        requires
            one == 4294967296,
            s >= 858993458,
            t >= 858993400,
            0 <= d <= 2 * s,
            0 <= e <= 4 * t,
    {
        assert(one <= 6 * s && one <= 6 * t);
        assert(d * one <= (2 * s) * (6 * t));
        assert(e * one <= (4 * t) * (6 * s));
    }
}

/// The seconds that readings `from` to `to` last, in steps, `to` not counted.
pub open spec fn time_between(readings: Seq<Reading>, from: int, to: int) -> int
    decreases to - from,
{
    if to <= from {
        0
    } else {
        time_between(readings, from, to - 1) + readings[to - 1].dt.raw
    }
}

/// A long blink is reported: once an open eye has closed and stays shut, the
/// first reading by which it has been shut for `hold_secs` reports it, and no
/// other does, however firmly it is shut and however the time is divided.
pub proof fn law_long_blink_is_reported(
    d: BlinkDetector,
    readings: Seq<Reading>,
    k: int,
    cfg: BlinkConfig,
)
    requires
        !d.closed,
        0 <= k < readings.len(),
        readings[0].ear matches Some(e) && e.raw < cfg.close_below.raw,
        forall|i: int|
            1 <= i < readings.len() ==> ((#[trigger] readings[i]).ear matches Some(e) && e.raw
                <= cfg.open_above.raw) && readings[i].dt.raw >= 0,
    ensures
        fires_at(d, readings, k, cfg) <==> {
            &&& time_between(readings, 1, k + 1) >= cfg.hold_secs.raw
            &&& k > 0 ==> time_between(readings, 1, k) < cfg.hold_secs.raw
        },
        blinks(d, readings, cfg) == if time_between(readings, 1, readings.len() as int)
            >= cfg.hold_secs.raw {
            1nat
        } else {
            0nat
        },
{
    lemma_shut_state(d, readings, readings.len() as int, cfg);
    assert(readings.take(readings.len() as int) =~= readings);
    lemma_shut_state(d, readings, k + 1, cfg);
    assert(readings.take(k + 1).drop_last() =~= readings.take(k));
    if k > 0 {
        lemma_shut_state(d, readings, k, cfg);
        assert(readings[k].ear is Some);
    } else {
        assert(readings.take(0) =~= seq![]);
    }
}

/// What the detector holds after the first `n` readings of a closure.
proof fn lemma_shut_state(d: BlinkDetector, readings: Seq<Reading>, n: int, cfg: BlinkConfig)
    requires
        !d.closed,
        1 <= n <= readings.len(),
        readings[0].ear matches Some(e) && e.raw < cfg.close_below.raw,
        forall|i: int|
            1 <= i < readings.len() ==> ((#[trigger] readings[i]).ear matches Some(e) && e.raw
                <= cfg.open_above.raw) && readings[i].dt.raw >= 0,
    ensures
        ({
            let s = after(d, readings.take(n), cfg);
            let t = time_between(readings, 1, n);
            &&& s.closed
            &&& 0 <= t
            &&& s.closed_for.raw == if t > i64::MAX {
                i64::MAX as int
            } else {
                t
            }
            &&& s.fired == (t >= cfg.hold_secs.raw)
            &&& blinks(d, readings.take(n), cfg) == if t >= cfg.hold_secs.raw {
                1nat
            } else {
                0nat
            }
        }),
    decreases n,
{
    assert(readings.take(n).drop_last() =~= readings.take(n - 1));
    assert(readings.take(n).last() == readings[n - 1]);
    if n == 1 {
        assert(readings.take(0) =~= seq![]);
        assert(after(d, readings.take(0), cfg) == d);
        assert(blinks(d, readings.take(0), cfg) == 0);
    } else {
        lemma_shut_state(d, readings, n - 1, cfg);
        assert(readings[n - 1].ear is Some);
    }
}

/// The distance between two points of the mesh in steps, by their coordinates.
pub open spec fn mesh_gap(landmarks: Seq<Vec2>, i: int, j: int) -> int {
    let x = landmarks[i].x.raw - landmarks[j].x.raw;
    let y = landmarks[i].y.raw - landmarks[j].y.raw;
    crate::fixed::root(x * x + y * y)
}

/// The mesh points of an eye: its two corners, then the upper and the lower lid
/// at two places.
pub open spec fn eye_points(eye: Eye) -> (int, int, int, int, int, int) {
    match eye {
        Eye::Right => (33, 133, 160, 144, 158, 153),
        Eye::Left => (362, 263, 385, 380, 387, 373),
    }
}

/// Openness is the mean gap between the lids over the width of the eye: the
/// ratio times twice the width is the sum of the two gaps, up to rounding. It
/// is measured for every mesh that reaches around the eye, unless the corners
/// are a millionth of a unit apart or less.
pub proof fn law_ear_times_width_is_lid_gap(landmarks: Seq<Vec2>, eye: Eye)
    requires
        forall|i: int|
            0 <= i < landmarks.len() ==> near(#[trigger] landmarks[i], 0x1000_0000_0000),
        landmarks.len() > (if eye == Eye::Right {
            160int
        } else {
            387
        }),
    ensures
        ({
            let (outer, inner, up, low, up2, low2) = eye_points(eye);
            let width = mesh_gap(landmarks, outer, inner);
            let lids = mesh_gap(landmarks, up, low) + mesh_gap(landmarks, up2, low2);
            &&& width * 1_000_000 <= ONE - 1_000_000 ==> ear_of(landmarks, eye) is None
            &&& width * 1_000_000 > ONE ==> ear_of(landmarks, eye) is Some
            &&& width * 1_000_000 > ONE && lids <= 0x1000_0000 * width ==> {
                let ear = ear_of(landmarks, eye)->0.raw;
                ear * (2 * width) <= lids * ONE < (ear + 1) * (2 * width)
            }
        }),
{
    let (outer, inner, up, low, up2, low2) = eye_points(eye);
    lemma_mesh_gap(landmarks, outer, inner);
    lemma_mesh_gap(landmarks, up, low);
    lemma_mesh_gap(landmarks, up2, low2);
    let p = eye.landmarks();
    assert(p[0] == outer && p[3] == inner && p[1] == up && p[5] == low && p[2] == up2 && p[4]
        == low2);
    assert(Fx::ratio(1, 1000000).raw == 4294);
    let w = mesh_gap(landmarks, outer, inner);
    let g = mesh_gap(landmarks, up, low) + mesh_gap(landmarks, up2, low2);
    if w * 1_000_000 > ONE && g <= 0x1000_0000 * w {
        let n = g * 0x1_0000_0000;
        let d = 2 * w;
        let q = n / d;
        vstd::arithmetic::div_mod::lemma_fundamental_div_mod(n, d);
        vstd::arithmetic::div_mod::lemma_mod_bound(n, d);
        assert(0 <= q <= 0x0800_0000_0000_0000) by (nonlinear_arith)
            requires
                d * q <= n < d * q + d,
                0 <= n <= 0x0800_0000_0000_0000 * d,
                d > 0,
        ;
        assert(q * d == d * q && (q + 1) * d == d * q + d) by (nonlinear_arith);
        let width = eye_width(landmarks, eye);
        assert(width.plus(width).raw == d);
        assert(lid_gap(landmarks, eye).raw == g);
    }
}

proof fn lemma_mesh_gap(landmarks: Seq<Vec2>, i: int, j: int)
    requires
        0 <= i < landmarks.len(),
        0 <= j < landmarks.len(),
        forall|i: int|
            0 <= i < landmarks.len() ==> near(#[trigger] landmarks[i], 0x1000_0000_0000),
    ensures
        landmarks[i].distance(landmarks[j]).raw == mesh_gap(landmarks, i, j),
        0 <= mesh_gap(landmarks, i, j) <= 0x4000_0000_0000,
{
    let (p, q) = (landmarks[i], landmarks[j]);
    assert(near(p, 0x1000_0000_0000) && near(q, 0x1000_0000_0000));
    let (x, y) = (p.x.raw - q.x.raw, p.y.raw - q.y.raw);
    assert(0 <= x * x <= 0x2000_0000_0000 * 0x2000_0000_0000 && 0 <= y * y <= 0x2000_0000_0000
        * 0x2000_0000_0000) by (nonlinear_arith)
        requires
            -0x2000_0000_0000 <= x <= 0x2000_0000_0000,
            -0x2000_0000_0000 <= y <= 0x2000_0000_0000,
    ;
    let n = x * x + y * y;
    crate::fixed::lemma_root(n);
    assert(0x4000_0000_0000int * 0x4000_0000_0000int >= n);
    crate::similar::lemma_square_order(crate::fixed::root(n), 0x4000_0000_0000);
}

/// A mesh that does not reach around the eye measures nothing.
pub proof fn law_short_mesh_measures_nothing(landmarks: Seq<Vec2>)
    ensures
        landmarks.len() <= 160 ==> ear_of(landmarks, Eye::Right) is None,
        landmarks.len() <= 387 ==> ear_of(landmarks, Eye::Left) is None,
{
}

} // verus!
