//! What holds of every hand, wherever it is and whichever way it is seen.

use super::{
    curl_at, least_scale, max_curl_of, mirror_point, Finger, Hand, LANDMARK_COUNT,
};
use crate::fixed::{quotient, root, Fx, ONE};
use crate::similar::{
    fine_factor, lemma_distance, lemma_quotients, lemma_ratio, lemma_scaled_max, near, scaled,
    Similarity,
};
use crate::vector::norm2;
use vstd::prelude::*;

verus! {

/// No hand is so small that distances could not be measured against it.
pub proof fn law_scale_is_positive(hand: Hand)
    ensures
        hand.scale().raw >= least_scale().raw > 0,
{
}

/// Curl runs from 0 to 1.
pub proof fn law_curl_is_in_range(hand: Hand, finger: Finger)
    ensures
        0 <= hand.curl(finger).raw <= ONE,
{
}

/// The strongest curl of any hands runs from 0 to 1 too, is one of theirs, and
/// none is stronger.
pub proof fn law_max_curl_is_strongest(hands: Seq<Hand>, finger: Finger)
    ensures
        max_curl_of(hands, finger) is None <==> hands.len() == 0,
        max_curl_of(hands, finger) matches Some(best) ==> 0 <= best.raw <= ONE && (exists|i: int|
            0 <= i < hands.len() && #[trigger] hands[i].curl(finger) == best) && forall|i: int|
            0 <= i < hands.len() ==> #[trigger] hands[i].curl(finger).raw <= best.raw,
    decreases hands.len(),
{
    if hands.len() > 0 {
        let start = hands.drop_last();
        law_max_curl_is_strongest(start, finger);
        law_curl_is_in_range(hands.last(), finger);
        assert(hands[hands.len() - 1].curl(finger) == hands.last().curl(finger));
        let best = max_curl_of(hands, finger)->0;
        if start.len() > 0 && best != hands.last().curl(finger) {
            let i = choose|i: int|
                0 <= i < start.len() && #[trigger] start[i].curl(finger) == max_curl_of(
                    start,
                    finger,
                )->0;
            assert(hands[i].curl(finger) == best);
        }
        assert forall|i: int| 0 <= i < hands.len() implies #[trigger] hands[i].curl(finger).raw
            <= best.raw by {
            if i < start.len() {
                assert(start[i].curl(finger) == hands[i].curl(finger));
            }
        }
    }
}

/// A quotient grows with its dividend.
proof fn lemma_quotient_grows(a: int, b: int, d: int)
    requires
        a <= b,
        d > 0,
    ensures
        quotient(a, d) <= quotient(b, d),
{
    assert(a * ONE <= b * ONE);
    vstd::arithmetic::div_mod::lemma_div_is_ordered(a * ONE, b * ONE, d);
}

/// The reach over which a finger curls.
proof fn lemma_curl_span(finger: Finger)
    ensures
        0 < finger.extended_reference().times(Fx::ratio(40, 100)).raw
            < finger.extended_reference().raw <= 2 * ONE,
{
    let extended = finger.extended_reference().raw as int;
    let share = Fx::ratio(40, 100).raw as int;
    assert(share == 1717986918);
    assert(2920577761 <= extended <= 4810363371);
    assert(0 < (extended * share) / 0x1_0000_0000 < extended) by (nonlinear_arith)
        requires
            share == 1717986918,
            2920577761 <= extended <= 4810363371,
    ;
}

/// The further a fingertip is from its knuckle, the less the finger is curled.
pub proof fn law_curl_falls_with_reach(finger: Finger, near: Fx, far: Fx)
    requires
        near.raw <= far.raw,
    ensures
        curl_at(finger.extended_reference(), near).raw >= curl_at(
            finger.extended_reference(),
            far,
        ).raw,
{
    let extended = finger.extended_reference();
    lemma_curl_span(finger);
    let span = extended.minus(extended.times(Fx::ratio(40, 100)));
    lemma_quotient_grows(
        extended.minus(far).raw as int,
        extended.minus(near).raw as int,
        span.raw as int,
    );
}

/// An extended finger reads zero, and one at two fifths of that reach or less
/// reads one.
pub proof fn law_curl_extremes(finger: Finger, reach: Fx)
    ensures
        reach.raw >= finger.extended_reference().raw ==> curl_at(
            finger.extended_reference(),
            reach,
        ) == Fx::zero(),
        reach.raw <= finger.extended_reference().times(Fx::ratio(40, 100)).raw ==> curl_at(
            finger.extended_reference(),
            reach,
        ) == Fx::one(),
{
    let extended = finger.extended_reference();
    let curled = extended.times(Fx::ratio(40, 100));
    lemma_curl_span(finger);
    let span = extended.minus(curled);
    assert(quotient(0, span.raw as int) == 0) by {
        vstd::arithmetic::div_mod::lemma_div_basics(span.raw as int);
    }
    assert(quotient(span.raw as int, span.raw as int) == ONE) by {
        vstd::arithmetic::div_mod::lemma_div_by_multiple(ONE as int, span.raw as int);
        vstd::arithmetic::mul::lemma_mul_is_commutative(span.raw as int, ONE as int);
    }
    if reach.raw >= extended.raw {
        law_curl_falls_with_reach(finger, extended, reach);
    }
    if reach.raw <= curled.raw {
        law_curl_falls_with_reach(finger, reach, curled);
    }
}

/// Coordinates that stay well inside the range.
pub open spec fn within_range(hand: Hand) -> bool {
    forall|i: int|
        0 <= i < LANDMARK_COUNT ==> -0x4000_0000_0000_0000 < (#[trigger] hand.landmarks[i]).x.raw
            < 0x4000_0000_0000_0000 && -0x4000_0000_0000_0000 < hand.landmarks[i].y.raw
            < 0x4000_0000_0000_0000
}

/// `b` is `a` moved by (x, y).
pub open spec fn is_moved(a: Hand, b: Hand, x: int, y: int) -> bool {
    forall|i: int|
        0 <= i < LANDMARK_COUNT ==> (#[trigger] b.landmarks[i]).x.raw == a.landmarks[i].x.raw + x
            && b.landmarks[i].y.raw == a.landmarks[i].y.raw + y
}

/// What a hand measures does not depend on where in the image it is.
pub proof fn law_measures_ignore_position(a: Hand, b: Hand, x: int, y: int, f: Finger, g: Finger)
    requires
        is_moved(a, b, x, y),
    ensures
        b.scale() == a.scale(),
        b.pinch_distance(f, g) == a.pinch_distance(f, g),
        b.curl(f) == a.curl(f),
        b.is_extended(f) == a.is_extended(f),
{
    assert forall|i: int, j: int|
        0 <= i < LANDMARK_COUNT && 0 <= j < LANDMARK_COUNT implies b.landmarks[i].truncate().minus(
        b.landmarks[j].truncate(),
    ) == (#[trigger] a.landmarks[i]).truncate().minus(
        (#[trigger] a.landmarks[j]).truncate(),
    ) by {
        assert(b.landmarks[i].x.raw == a.landmarks[i].x.raw + x);
        assert(b.landmarks[j].x.raw == a.landmarks[j].x.raw + x);
    }
    lemma_measures(a, b, f, g);
}

/// Hands whose landmarks lie equally far apart measure the same.
proof fn lemma_measures(a: Hand, b: Hand, f: Finger, g: Finger)
    requires
        forall|i: int, j: int|
            0 <= i < LANDMARK_COUNT && 0 <= j < LANDMARK_COUNT ==> norm2(
                b.landmarks[i].truncate().minus(b.landmarks[j].truncate()),
            ) == norm2(
                (#[trigger] a.landmarks[i]).truncate().minus(
                    (#[trigger] a.landmarks[j]).truncate(),
                ),
            ),
    ensures
        b.scale() == a.scale(),
        b.pinch_distance(f, g) == a.pinch_distance(f, g),
        b.curl(f) == a.curl(f),
        b.is_extended(f) == a.is_extended(f),
{
    let scale_a = a.landmarks[5];
    let scale_b = a.landmarks[17];
    let scale_c = a.landmarks[0];
    let scale_d = a.landmarks[9];
    let tips = (a.landmarks[f.tip() as int], a.landmarks[g.tip() as int]);
    let knuckles = (a.landmarks[f.mcp() as int], a.landmarks[f.pip() as int]);
    assert(b.scale() == a.scale());
    assert(b.tip(f).distance(b.tip(g)) == a.tip(f).distance(a.tip(g)));
    assert(b.point(f.tip()).distance(b.point(f.mcp())) == a.point(f.tip()).distance(
        a.point(f.mcp()),
    ));
    assert(b.wrist().distance(b.point(f.tip())) == a.wrist().distance(a.point(f.tip())));
    assert(b.wrist().distance(b.point(f.pip())) == a.wrist().distance(a.point(f.pip())));
}

/// A hand and its mirror image measure the same, so every gesture works the
/// same whether or not the preview is mirrored.
pub proof fn law_measures_ignore_mirroring(a: Hand, b: Hand, f: Finger, g: Finger)
    requires
        super::is_mirror(a, b),
        within_range(a),
    ensures
        b.scale() == a.scale(),
        b.pinch_distance(f, g) == a.pinch_distance(f, g),
        b.curl(f) == a.curl(f),
        b.is_extended(f) == a.is_extended(f),
{
    assert forall|i: int, j: int|
        0 <= i < LANDMARK_COUNT && 0 <= j < LANDMARK_COUNT implies norm2(
        b.landmarks[i].truncate().minus(b.landmarks[j].truncate()),
    ) == norm2(
        (#[trigger] a.landmarks[i]).truncate().minus((#[trigger] a.landmarks[j]).truncate()),
    ) by {
        let d = a.landmarks[i].truncate().minus(a.landmarks[j].truncate());
        let e = b.landmarks[i].truncate().minus(b.landmarks[j].truncate());
        assert(b.landmarks[i] == mirror_point(a.landmarks[i]));
        assert(b.landmarks[j] == mirror_point(a.landmarks[j]));
        assert(e.x.raw == -d.x.raw && e.y == d.y);
        let dx = d.x.raw as int;
        assert((-dx) * (-dx) == dx * dx) by (nonlinear_arith);
    }
    lemma_measures(a, b, f, g);
}

/// A mirror image mirrored again is the hand itself.
pub proof fn law_mirroring_twice_is_nothing(a: Hand, b: Hand, c: Hand)
    requires
        super::is_mirror(a, b),
        super::is_mirror(b, c),
        within_range(a),
    ensures
        c == a,
{
    assert forall|i: int| 0 <= i < LANDMARK_COUNT implies c.landmarks[i] == a.landmarks[i] by {
        assert(b.landmarks[i] == mirror_point(a.landmarks[i]));
        assert(c.landmarks[i] == mirror_point(b.landmarks[i]));
    }
    assert(c.landmarks =~= a.landmarks);
}

/// `b` is `a` turned, scaled and moved, each landmark rounded.
pub open spec fn is_similar(a: Hand, b: Hand, s: Similarity) -> bool {
    forall|i: int|
        0 <= i < LANDMARK_COUNT ==> s.takes(
            (#[trigger] a.landmarks[i]).truncate(),
            b.landmarks[i].truncate(),
        )
}

/// Every landmark lies in the image or no further outside it than it is wide.
pub open spec fn in_view(hand: Hand) -> bool {
    forall|i: int|
        0 <= i < LANDMARK_COUNT ==> -ONE <= (#[trigger] hand.landmarks[i]).x.raw <= 2 * ONE && -ONE
            <= hand.landmarks[i].y.raw <= 2 * ONE
}

/// The distance between two landmarks in palm-widths is the same, to within a
/// few ten-thousandths, however the hand is turned and whether it is near to
/// the camera or far.
proof fn lemma_reach(a: Hand, b: Hand, s: Similarity, i: int, j: int)
    requires
        s.wf(),
        is_similar(a, b, s),
        in_view(a),
        in_view(b),
        a.scale().raw >= Fx::ratio(1, 100).raw,
        b.scale().raw >= Fx::ratio(1, 100).raw,
        0 <= i < LANDMARK_COUNT,
        0 <= j < LANDMARK_COUNT,
    ensures
        ({
            let d = a.landmarks[i].truncate().distance(a.landmarks[j].truncate());
            let e = b.landmarks[i].truncate().distance(b.landmarks[j].truncate());
            &&& -1_100_001 <= e.over(b.scale()).raw - d.over(a.scale()).raw <= 1_100_001
            &&& 0 <= d.over(a.scale()).raw <= 500 * ONE
            &&& 0 <= e.over(b.scale()).raw <= 500 * ONE
        }),
{
    let n = 0x1000_0000_0000_0000int;
    let (k, m) = (fine_factor(s, n), n * s.m);
    assert(m > 0) by (nonlinear_arith)
        requires
            s.m > 0,
            n > 0,
            m == n * s.m,
    ;
    assert((n * n) * s.factor2() >= 0) by (nonlinear_arith)
        requires
            s.factor2() == s.a * s.a + s.b * s.b,
    ;
    crate::fixed::lemma_root((n * n) * s.factor2());
    let (p, q) = (|i: int| a.landmarks[i].truncate(), |i: int| b.landmarks[i].truncate());
    assert(s.takes(p(i), q(i)) && s.takes(p(j), q(j)) && s.takes(p(5), q(5)) && s.takes(p(17), q(17))
        && s.takes(p(0), q(0)) && s.takes(p(9), q(9))) by {
        let all = (
            a.landmarks[i],
            a.landmarks[j],
            a.landmarks[5],
            a.landmarks[17],
            a.landmarks[0],
            a.landmarks[9],
        );
    }
    lemma_in_view(a, i, j);
    lemma_in_view(a, 5, 17);
    lemma_in_view(a, 0, 9);
    lemma_in_view(b, i, j);
    lemma_in_view(b, 5, 17);
    lemma_in_view(b, 0, 9);
    lemma_distance(s, n, p(i), p(j), q(i), q(j));
    lemma_distance(s, n, p(5), p(17), q(5), q(17));
    lemma_distance(s, n, p(0), p(9), q(0), q(9));
    lemma_scaled_max(
        p(5).distance(p(17)).raw as int,
        q(5).distance(q(17)).raw as int,
        p(0).distance(p(9)).raw as int,
        q(0).distance(q(9)).raw as int,
        k,
        m,
    );
    let (d, e) = (p(i).distance(p(j)).raw as int, q(i).distance(q(j)).raw as int);
    let (w, t) = (a.scale().raw as int, b.scale().raw as int);
    assert(Fx::ratio(1, 100).raw == 42949672 && least_scale().raw == 429496);
    assert(a.point(5) == p(5) && a.point(17) == p(17) && a.point(0) == p(0) && a.point(9) == p(9));
    assert(b.point(5) == q(5) && b.point(17) == q(17) && b.point(0) == q(0) && b.point(9) == q(9));
    assert(scaled(w, t, k, m, 1));
    let one = ONE as int;
    assert(w * one <= 101 * (w * w) && 0 < w * t && t * one <= 101 * (w * t) && w * one <= 101 * (w * t)
        && (d + 1) * one <= 43127 * (w * t) && e * one <= 43127 * (w * t)) by (nonlinear_arith)
        requires
            one == 4294967296,
            w >= 42949672,
            t >= 42949672,
            0 <= d <= 18_300_000_000,
            0 <= e <= 18_300_000_000,
    {
        assert(one <= 101 * w && one <= 101 * t);
        assert(d + 1 <= 427 * w && e <= 427 * t);
        assert((d + 1) * one <= (427 * w) * (101 * t));
        assert(e * one <= (427 * t) * (101 * w));
    }
    lemma_ratio(d, w, e, t, k, m, 1, 1_100_000);
    lemma_reach_bound(d, w);
    lemma_reach_bound(e, t);
}

/// No reach is more than a few hundred palm-widths.
proof fn lemma_reach_bound(d: int, w: int)
    requires
        0 <= d <= 18_300_000_000,
        w >= 42949672,
    ensures
        0 <= quotient(d, w) <= 500 * ONE,
{
    assert(d * ONE <= (500 * ONE) * w) by (nonlinear_arith)
        requires
            0 <= d <= 18_300_000_000,
            w >= 42949672,
            ONE > 0,
    ;
    vstd::arithmetic::div_mod::lemma_div_is_ordered(0, d * ONE, w);
    vstd::arithmetic::div_mod::lemma_div_is_ordered(d * ONE, (500 * ONE) * w, w);
    vstd::arithmetic::div_mod::lemma_div_by_multiple(500 * ONE as int, w);
    vstd::arithmetic::div_mod::lemma_div_basics(w);
}

/// Landmarks in view lie a few image-widths apart at most.
proof fn lemma_in_view(hand: Hand, i: int, j: int)
    requires
        in_view(hand),
        0 <= i < LANDMARK_COUNT,
        0 <= j < LANDMARK_COUNT,
    ensures
        near(hand.landmarks[i].truncate(), 0x100_0000_0000_0000),
        near(hand.landmarks[j].truncate(), 0x100_0000_0000_0000),
        0 <= hand.landmarks[i].truncate().distance(hand.landmarks[j].truncate()).raw
            <= 18_300_000_000,
{
    let (p, q) = (hand.landmarks[i].truncate(), hand.landmarks[j].truncate());
    let d = p.minus(q);
    crate::vector::lemma_square_bound(d.x.raw);
    crate::vector::lemma_square_bound(d.y.raw);
    crate::fixed::lemma_root(norm2(d));
    let (x, y, r) = (d.x.raw as int, d.y.raw as int, crate::fixed::root(norm2(d)));
    assert(x * x <= 12884901888 * 12884901888 && y * y <= 12884901888 * 12884901888)
        by (nonlinear_arith)
        requires
            -12884901888 <= x <= 12884901888,
            -12884901888 <= y <= 12884901888,
    ;
    assert(18_300_000_000 * 18_300_000_000 > 2 * (12884901888 * 12884901888));
    crate::similar::lemma_square_order(r, 18_300_000_000);
}

/// A pinch does not depend on how the hand is turned, where it is or how far
/// from the camera: it reads the same to within a thousandth.
pub proof fn law_pinch_ignores_rotation_and_distance(
    a: Hand,
    b: Hand,
    s: Similarity,
    f: Finger,
    g: Finger,
)
    requires
        s.wf(),
        is_similar(a, b, s),
        in_view(a),
        in_view(b),
        a.scale().raw >= Fx::ratio(1, 100).raw,
        b.scale().raw >= Fx::ratio(1, 100).raw,
    ensures
        -Fx::ratio(1, 1000).raw <= b.pinch_distance(f, g).raw - a.pinch_distance(f, g).raw
            <= Fx::ratio(1, 1000).raw,
{
    lemma_reach(a, b, s, f.tip() as int, g.tip() as int);
    assert(Fx::ratio(1, 1000).raw == 4294967);
}

/// Curl does not depend on how the hand is turned, where it is or how far from
/// the camera: it reads the same to within a thousandth.
pub proof fn law_curl_ignores_rotation_and_distance(a: Hand, b: Hand, s: Similarity, f: Finger)
    requires
        s.wf(),
        is_similar(a, b, s),
        in_view(a),
        in_view(b),
        a.scale().raw >= Fx::ratio(1, 100).raw,
        b.scale().raw >= Fx::ratio(1, 100).raw,
    ensures
        -Fx::ratio(1, 1000).raw <= b.curl(f).raw - a.curl(f).raw <= Fx::ratio(1, 1000).raw,
{
    lemma_reach(a, b, s, f.tip() as int, f.mcp() as int);
    assert(Fx::ratio(1, 1000).raw == 4294967);
    let p = a.point(f.tip()).distance(a.point(f.mcp())).over(a.scale()).raw as int;
    let q = b.point(f.tip()).distance(b.point(f.mcp())).over(b.scale()).raw as int;
    let extended = f.extended_reference().raw as int;
    let share = Fx::ratio(40, 100).raw as int;
    assert(share == 1717986918);
    assert(2920577761 <= extended <= 4810363371);
    let curled = (extended * share) / 0x1_0000_0000;
    let span = extended - curled;
    assert(0 <= curled && 1_500_000_000 <= span) by (nonlinear_arith)
        requires
            share == 1717986918,
            2920577761 <= extended <= 4810363371,
            curled == (extended * share) / 0x1_0000_0000,
            span == extended - curled,
    ;
    let (x, y) = (extended - p, extended - q);
    let one = ONE as int;
    assert((y * span - x * span) * one <= 3_300_003 * (span * span) && (x * span - y * span) * one
        <= 3_300_003 * (span * span)) by (nonlinear_arith)
        requires
            one == 4294967296,
            -1_100_001 <= x - y <= 1_100_001,
            span >= 1_500_000_000,
    {
        assert(y * span - x * span == (y - x) * span);
        assert(x * span - y * span == (x - y) * span);
        assert((y - x) * one <= 3_300_003 * span);
        assert((x - y) * one <= 3_300_003 * span);
        assert(((y - x) * span) * one == ((y - x) * one) * span);
        assert(((x - y) * span) * one == ((x - y) * one) * span);
    }
    lemma_quotients(x, span, y, span, 3_300_003);
}

/// The distance between two landmarks in steps, by their coordinates.
pub open spec fn gap(hand: Hand, i: int, j: int) -> int {
    let x = hand.landmarks[i].x.raw - hand.landmarks[j].x.raw;
    let y = hand.landmarks[i].y.raw - hand.landmarks[j].y.raw;
    root(x * x + y * y)
}

proof fn lemma_gap(hand: Hand, i: int, j: int)
    requires
        in_view(hand),
        0 <= i < LANDMARK_COUNT,
        0 <= j < LANDMARK_COUNT,
    ensures
        hand.landmarks[i].truncate().distance(hand.landmarks[j].truncate()).raw == gap(hand, i, j),
        0 <= gap(hand, i, j) <= 18_300_000_000,
{
    lemma_in_view(hand, i, j);
    let (p, q) = (hand.landmarks[i].truncate(), hand.landmarks[j].truncate());
    let d = p.minus(q);
    crate::vector::lemma_square_bound(d.x.raw);
    crate::vector::lemma_square_bound(d.y.raw);
    crate::fixed::lemma_root(norm2(d));
}

/// A hand is as wide as the wider of its palm, from the knuckle of the index to
/// that of the pinky, and its length, from the wrist to the knuckle of the
/// middle finger: neither is more, and one is as much, unless both are next to
/// nothing.
pub proof fn law_scale_is_the_wider(hand: Hand)
    requires
        in_view(hand),
    ensures
        hand.scale().raw >= gap(hand, 5, 17),
        hand.scale().raw >= gap(hand, 0, 9),
        hand.scale().raw == gap(hand, 5, 17) || hand.scale().raw == gap(hand, 0, 9) || (gap(
            hand,
            5,
            17,
        ) * 10_000 < ONE && gap(hand, 0, 9) * 10_000 < ONE && hand.scale().raw == ONE as int
            / 10_000),
{
    lemma_gap(hand, 5, 17);
    lemma_gap(hand, 0, 9);
    assert(least_scale().raw == 429496);
    assert(hand.point(5) == hand.landmarks[5].truncate());
    assert(hand.point(17) == hand.landmarks[17].truncate());
    assert(hand.point(0) == hand.landmarks[0].truncate());
    assert(hand.point(9) == hand.landmarks[9].truncate());
}

/// The landmark at the tip of each finger.
pub open spec fn tip_of(finger: Finger) -> int {
    match finger {
        Finger::Thumb => 4,
        Finger::Index => 8,
        Finger::Middle => 12,
        Finger::Ring => 16,
        Finger::Pinky => 20,
    }
}

/// A pinch times the palm width is the distance between the two tips, up to
/// rounding.
pub proof fn law_pinch_times_scale_is_distance(hand: Hand, f: Finger, g: Finger)
    requires
        in_view(hand),
    ensures
        ({
            let (pinch, scale) = (hand.pinch_distance(f, g).raw, hand.scale().raw);
            pinch * scale <= gap(hand, tip_of(f), tip_of(g)) * ONE < (pinch + 1) * scale
        }),
{
    lemma_gap(hand, tip_of(f), tip_of(g));
    law_scale_is_positive(hand);
    assert(least_scale().raw == 429496);
    lemma_measured(gap(hand, tip_of(f), tip_of(g)), hand.scale());
}

/// What a distance measures against a palm width.
proof fn lemma_measured(d: int, scale: Fx)
    requires
        0 <= d <= 18_300_000_000,
        scale.raw >= 429496,
    ensures
        ({
            let q = crate::fixed::fx(quotient(d, scale.raw as int)).raw;
            0 <= q && q * scale.raw <= d * ONE < (q + 1) * scale.raw
        }),
{
    let s = scale.raw as int;
    let n = d * 0x1_0000_0000;
    vstd::arithmetic::div_mod::lemma_fundamental_div_mod(n, s);
    vstd::arithmetic::div_mod::lemma_mod_bound(n, s);
    let q = n / s;
    assert(0 <= q <= n) by (nonlinear_arith)
        requires
            q == n / s,
            s > 0,
            n >= 0,
    ;
    assert(q <= 0x7fff_ffff_ffff_ffff) by (nonlinear_arith)
        requires
            s * q <= n,
            n <= 18_300_000_000 * 0x1_0000_0000,
            s >= 429496,
    ;
    assert(q * s == s * q && (q + 1) * s == s * q + s) by (nonlinear_arith);
}

/// The reach of each finger when it is extended, in hundredths of a palm width.
pub open spec fn full_reach(finger: Finger) -> int {
    match finger {
        Finger::Thumb => 112,
        Finger::Index => 85,
        Finger::Middle => 88,
        Finger::Ring => 88,
        Finger::Pinky => 68,
    }
}

/// The landmark at the knuckle of each finger.
pub open spec fn knuckle_of(finger: Finger) -> int {
    match finger {
        Finger::Thumb => 1,
        Finger::Index => 5,
        Finger::Middle => 9,
        Finger::Ring => 13,
        Finger::Pinky => 17,
    }
}

/// Curl reads the reach of a finger, from its tip to its knuckle in palm
/// widths: nothing at full reach and more, everything at two fifths of it and
/// less, and in between in proportion.
pub proof fn law_curl_is_proportional(hand: Hand, finger: Finger)
    requires
        in_view(hand),
    ensures
        ({
            let reach = (gap(hand, tip_of(finger), knuckle_of(finger)) * ONE) / (
            hand.scale().raw as int);
            let full = full_reach(finger);
            let curl = hand.curl(finger).raw;
            &&& 100 * reach >= full * ONE ==> curl == 0
            &&& 250 * reach <= full * ONE - 2000 ==> curl == ONE
            &&& full * ONE - 2000 < 250 * reach && 100 * reach < full * ONE ==> -50_000 <= 6 * full * curl
                - (10 * full * ONE - 1000 * reach) <= 50_000
        }),
{
    lemma_gap(hand, tip_of(finger), knuckle_of(finger));
    law_scale_is_positive(hand);
    assert(least_scale().raw == 429496);
    let d = gap(hand, tip_of(finger), knuckle_of(finger));
    lemma_measured(d, hand.scale());
    assert(hand.point(finger.tip()) == hand.landmarks[tip_of(finger)].truncate());
    assert(hand.point(finger.mcp()) == hand.landmarks[knuckle_of(finger)].truncate());
    let reach = hand.point(finger.tip()).distance(hand.point(finger.mcp())).over(hand.scale());
    let s = hand.scale().raw as int;
    let r = (d * ONE) / s;
    assert(0 <= r <= 0x7fff_ffff_ffff_ffff) by {
        let n = d * 0x1_0000_0000;
        vstd::arithmetic::div_mod::lemma_fundamental_div_mod(n, s);
        vstd::arithmetic::div_mod::lemma_mod_bound(n, s);
        assert(0 <= r <= 0x7fff_ffff_ffff_ffff) by (nonlinear_arith)
            requires
                s * r <= n < s * r + s,
                0 <= n <= 18_300_000_000 * 0x1_0000_0000,
                s >= 429496,
        ;
    }
    assert(reach.raw == r);
    lemma_curl_reads(finger, reach);
}

proof fn lemma_curl_reads(finger: Finger, reach: Fx)
    requires
        0 <= reach.raw,
    ensures
        ({
            let full = full_reach(finger);
            let curl = curl_at(finger.extended_reference(), reach).raw;
            &&& 100 * reach.raw >= full * ONE ==> curl == 0
            &&& 250 * reach.raw <= full * ONE - 2000 ==> curl == ONE
            &&& full * ONE - 2000 < 250 * reach.raw && 100 * reach.raw < full * ONE ==> -50_000 <= 6 * full
                * curl - (10 * full * ONE - 1000 * reach.raw) <= 50_000
        }),
{
    let full = full_reach(finger);
    let extended = finger.extended_reference().raw as int;
    let share = Fx::ratio(40, 100).raw as int;
    let r = reach.raw as int;
    let one = 0x1_0000_0000int;
    assert(share == 1717986918);
    assert(extended == (full * 0x1_0000_0000) / 100);
    assert(2920577761 <= extended <= 4810363371);
    let curled = (extended * share) / 0x1_0000_0000;
    assert(5 * curled <= 2 * extended && 2 * extended <= 5 * curled + 15) by (nonlinear_arith)
        requires
            share == 1717986918,
            2920577761 <= extended <= 4810363371,
            curled == (extended * share) / 0x1_0000_0000,
    ;
    let span = extended - curled;
    law_curl_extremes(finger, reach);
    if full * one - 2000 < 250 * r && 100 * r < full * one {
        let x = extended - r;
        let n = x * one;
        vstd::arithmetic::div_mod::lemma_fundamental_div_mod(n, span);
        vstd::arithmetic::div_mod::lemma_mod_bound(n, span);
        let q = n / span;
        let k = if q > one {
            one
        } else {
            q
        };
        assert(0 <= x <= span + 20);
        assert(0 <= q) by (nonlinear_arith)
            requires
                n < span * q + span,
                n == x * one,
                x >= 0,
                span > 0,
                one > 0,
        ;
        lemma_spread(one, span, q, x);
        assert(curl_at(finger.extended_reference(), reach).raw == k);
        assert(6 * full * k == (6 * full) * k);
        lemma_proportion(one, full, extended, span, r, q, k);
    }
}

/// A reach barely past the calibration reads barely past the end.
proof fn lemma_spread(one: int, span: int, q: int, x: int)
    requires
        one == 0x1_0000_0000,
        span >= 1_700_000_000,
        span * q <= x * one,
        x <= span + 20,
    ensures
        q <= one + 60,
{
    if q > one + 60 {
        assert(span * q >= span * (one + 61)) by (nonlinear_arith)
            requires
                q >= one + 61,
                span >= 0,
        ;
        assert(span * (one + 61) == span * one + 61 * span) by (nonlinear_arith);
        assert(x * one <= span * one + 20 * one) by (nonlinear_arith)
            requires
                x <= span + 20,
                one > 0,
        ;
    }
}

proof fn lemma_proportion(one: int, full: int, extended: int, span: int, r: int, q: int, k: int)
    requires
        one == 0x1_0000_0000,
        68 <= full <= 112,
        extended == (full * one) / 100,
        2920577761 <= extended <= 4810363371,
        3 * extended <= 5 * span <= 3 * extended + 15,
        span * q <= (extended - r) * one < span * q + span,
        0 <= q <= one + 60,
        k == (if q > one {
            one
        } else {
            q
        }),
    ensures
        -50_000 <= (6 * full) * k - (10 * full * one - 1000 * r) <= 50_000,
{
    // 500 * span is close to 3 * full units.
    assert(full * one - 100 < 100 * extended <= full * one);
    let t = 500 * span;
    let w = 3 * (full * one);
    assert(w - 300 <= t <= w + 1500);
    assert(t * q == 500 * (span * q)) by (nonlinear_arith)
        requires
            t == 500 * span,
    ;
    let e = (extended - r) * one;
    assert(500 * e - t <= t * q <= 500 * e);
    assert(-300 * (one + 60) - 1500 <= t * q - w * q <= 1500 * (one + 60) + 300) by (nonlinear_arith)
        requires
            -300 <= t - w <= 1500,
            -1 <= q <= one + 60,
            one == 0x1_0000_0000,
    ;
    let f = 3 * full;
    assert(w * q == one * (f * q)) by (nonlinear_arith)
        requires
            w == 3 * (full * one),
            f == 3 * full,
    ;
    let g = 500 * (extended - r);
    assert(500 * e == one * g) by (nonlinear_arith)
        requires
            e == (extended - r) * one,
            g == 500 * (extended - r),
    ;
    let u = f * q;
    assert(t <= 340 * one);
    assert(one * u - one * g <= 301 * one && one * g - one * u <= 1900 * one);
    assert(u - g <= 301 && g - u <= 1900) by (nonlinear_arith)
        requires
            one == 0x1_0000_0000,
            one * u - one * g <= 301 * one,
            one * g - one * u <= 1900 * one,
    ;
    assert((6 * full) * q == 2 * u) by (nonlinear_arith)
        requires
            u == f * q,
            f == 3 * full,
    ;
    assert(-40_320 <= (6 * full) * k - (6 * full) * q <= 672) by (nonlinear_arith)
        requires
            -60 <= k - q <= 0,
            68 <= full <= 112,
    ;
}

/// The landmark at the middle joint of each finger.
pub open spec fn joint_of(finger: Finger) -> int {
    match finger {
        Finger::Thumb => 2,
        Finger::Index => 6,
        Finger::Middle => 10,
        Finger::Ring => 14,
        Finger::Pinky => 18,
    }
}

/// A finger is extended when its tip is more than 1.15 times as far from the
/// wrist as its middle joint, and not when it is less, up to rounding.
pub proof fn law_extended_fingers_reach_out(hand: Hand, finger: Finger)
    requires
        in_view(hand),
    ensures
        ({
            let tip = gap(hand, 0, tip_of(finger));
            let joint = gap(hand, 0, joint_of(finger));
            &&& 100 * tip > 115 * joint ==> hand.is_extended(finger)
            &&& 100 * tip <= 115 * joint - 1000 ==> !hand.is_extended(finger)
        }),
{
    lemma_gap(hand, 0, tip_of(finger));
    lemma_gap(hand, 0, joint_of(finger));
    let joint = gap(hand, 0, joint_of(finger));
    let k = Fx::ratio(115, 100).raw as int;
    assert(k == 4939212390);
    let m = (joint * k) / 0x1_0000_0000;
    assert(115 * joint - 1000 < 100 * m <= 115 * joint) by (nonlinear_arith)
        requires
            k == 4939212390,
            0 <= joint <= 18_300_000_000,
            m == (joint * k) / 0x1_0000_0000,
    ;
}

/// The middle of the palm is the mean of the wrist and the four knuckles of the
/// long fingers, rounded down.
pub proof fn law_palm_center_is_the_mean(hand: Hand)
    requires
        in_view(hand),
    ensures
        ({
            let (l, c) = (hand.landmarks, hand.palm_center());
            &&& 0 <= l[0].x.raw + l[5].x.raw + l[9].x.raw + l[13].x.raw + l[17].x.raw - 5 * c.x.raw < 5
            &&& 0 <= l[0].y.raw + l[5].y.raw + l[9].y.raw + l[13].y.raw + l[17].y.raw - 5 * c.y.raw < 5
        }),
{
    let l = hand.landmarks;
    assert(-ONE <= l[0].x.raw <= 2 * ONE && -ONE <= l[0].y.raw <= 2 * ONE);
    assert(-ONE <= l[5].x.raw <= 2 * ONE && -ONE <= l[5].y.raw <= 2 * ONE);
    assert(-ONE <= l[9].x.raw <= 2 * ONE && -ONE <= l[9].y.raw <= 2 * ONE);
    assert(-ONE <= l[13].x.raw <= 2 * ONE && -ONE <= l[13].y.raw <= 2 * ONE);
    assert(-ONE <= l[17].x.raw <= 2 * ONE && -ONE <= l[17].y.raw <= 2 * ONE);
    let x = l[0].x.raw + l[5].x.raw + l[9].x.raw + l[13].x.raw + l[17].x.raw;
    let y = l[0].y.raw + l[5].y.raw + l[9].y.raw + l[13].y.raw + l[17].y.raw;
    assert(Fx::whole(5).raw == 0x5_0000_0000);
    assert((x * 0x1_0000_0000) / 0x5_0000_0000 == x / 5) by (nonlinear_arith);
    assert((y * 0x1_0000_0000) / 0x5_0000_0000 == y / 5) by (nonlinear_arith);
    assert(hand.palm_center().x.raw == x / 5);
    assert(hand.palm_center().y.raw == y / 5);
}

/// A pair of hands is in order: no hand is left of the first, and none but the
/// first is left of the second. Hands level with each other keep their order.
pub proof fn law_pair_is_leftmost(hands: Seq<Hand>, l: int, r: int, k: int)
    requires
        super::is_pair(hands, l, r),
        0 <= k < hands.len(),
    ensures
        hands[l].palm_center().x.raw <= hands[r].palm_center().x.raw,
        k != l ==> hands[r].palm_center().x.raw <= hands[k].palm_center().x.raw,
        k != l && hands[l].palm_center().x.raw == hands[k].palm_center().x.raw ==> l < k,
        k != l && k != r && hands[r].palm_center().x.raw == hands[k].palm_center().x.raw ==> r < k,
{
    if k != l && k != r {
        assert(super::left_of(hands, r, k));
    }
}

/// A mirror swaps left and right and nothing else: a landmark and its image lie
/// equally far from the two sides of the picture.
pub proof fn law_mirror_swaps_sides(a: Hand, b: Hand, i: int)
    requires
        super::is_mirror(a, b),
        in_view(a),
        0 <= i < LANDMARK_COUNT,
    ensures
        a.landmarks[i].x.raw + b.landmarks[i].x.raw == ONE,
        b.landmarks[i].y == a.landmarks[i].y,
        b.landmarks[i].z == a.landmarks[i].z,
        b.handedness == a.handedness,
        b.score == a.score,
{
    assert(-ONE <= a.landmarks[i].x.raw <= 2 * ONE);
    assert(b.landmarks[i] == mirror_point(a.landmarks[i]));
}

} // verus!
