//! Non-maximum suppression, shared by the palm and face detectors.

use crate::fixed::{Fx, ONE};
use crate::sort::{sort, sorts_before};
use crate::vector::Vec2;
use vstd::prelude::*;

verus! {

/// A detection with a box, so overlapping duplicates can be suppressed.
pub trait Detection: Copy {
    /// How sure the detector is.
    spec fn confidence(&self) -> Fx;

    /// The middle of the box.
    spec fn middle(&self) -> Vec2;

    /// The sides of the box.
    spec fn extent(&self) -> Vec2;

    fn score(&self) -> (score: Fx)
        ensures
            score == self.confidence(),
    ;

    fn center(&self) -> (center: Vec2)
        ensures
            center == self.middle(),
    ;

    fn size(&self) -> (size: Vec2)
        ensures
            size == self.extent(),
    ;
}

/// The length that two spans have in common, each given by its middle and its
/// length.
#[verifier::allow_in_spec]
pub fn overlap(a: Fx, a_len: Fx, b: Fx, b_len: Fx) -> Fx
    returns
        a.plus(a_len.over(Fx::whole(2))).min(b.plus(b_len.over(Fx::whole(2)))).minus(
            a.minus(a_len.over(Fx::whole(2))).max(b.minus(b_len.over(Fx::whole(2)))),
        ).max(Fx::zero()),
{
    let a0: Fx = a.minus(a_len.over(Fx::whole(2)));
    let a1: Fx = a.plus(a_len.over(Fx::whole(2)));
    let b0: Fx = b.minus(b_len.over(Fx::whole(2)));
    let b1: Fx = b.plus(b_len.over(Fx::whole(2)));
    a1.min(b1).minus(a0.max(b0)).max(Fx::zero())
}

/// The area that two boxes share.
pub open spec fn shared_area(ac: Vec2, asz: Vec2, bc: Vec2, bsz: Vec2) -> Fx {
    overlap(ac.x, asz.x, bc.x, bsz.x).times(overlap(ac.y, asz.y, bc.y, bsz.y))
}

/// The area that two boxes share, as a part of the area that they cover.
pub open spec fn box_iou(ac: Vec2, asz: Vec2, bc: Vec2, bsz: Vec2) -> Fx {
    let inter = shared_area(ac, asz, bc, bsz);
    let union = asz.x.times(asz.y).plus(bsz.x.times(bsz.y)).minus(inter);
    if union.raw <= 0 {
        Fx::zero()
    } else {
        inter.over(union)
    }
}

/// Intersection over union of two detections.
pub open spec fn iou_of<D: Detection>(a: D, b: D) -> Fx {
    box_iou(a.middle(), a.extent(), b.middle(), b.extent())
}

fn iou<D: Detection>(a: &D, b: &D) -> (share: Fx)
    ensures
        share == iou_of(*a, *b),
{
    let (ac, asz) = (a.center(), a.size());
    let (bc, bsz) = (b.center(), b.size());
    let inter: Fx = overlap(ac.x, asz.x, bc.x, bsz.x).times(overlap(ac.y, asz.y, bc.y, bsz.y));
    let union: Fx = asz.x.times(asz.y).plus(bsz.x.times(bsz.y)).minus(inter);
    if union.raw <= 0 {
        Fx::zero()
    } else {
        inter.over(union)
    }
}

/// Detection `i` is looked at before detection `j`: it scores higher, or as
/// high and came first.
pub open spec fn outranks<D: Detection>(dets: Seq<D>, i: int, j: int) -> bool {
    dets[i].confidence().raw > dets[j].confidence().raw || (dets[i].confidence().raw
        == dets[j].confidence().raw && i < j)
}

/// `order` lists every detection once, the best first.
pub open spec fn is_ranking<D: Detection>(dets: Seq<D>, order: Seq<int>) -> bool {
    &&& order.len() == dets.len()
    &&& forall|a: int| 0 <= a < order.len() ==> 0 <= #[trigger] order[a] < dets.len()
    &&& forall|a: int, b: int|
        0 <= a < b < order.len() ==> outranks(dets, #[trigger] order[a], #[trigger] order[b])
    &&& forall|i: int| 0 <= i < dets.len() ==> order.contains(i)
}

/// `d` overlaps none of `kept` by the threshold or more.
pub open spec fn clear_of<D: Detection>(kept: Seq<D>, d: D, threshold: Fx) -> bool {
    forall|i: int| 0 <= i < kept.len() ==> iou_of(#[trigger] kept[i], d).raw < threshold.raw
}

/// Of the first `n` detections in the order given, those that are kept: each
/// that is clear of the ones kept before it, until there are enough.
pub open spec fn kept_of<D: Detection>(
    dets: Seq<D>,
    order: Seq<int>,
    threshold: Fx,
    max_out: nat,
    n: int,
) -> Seq<D>
    decreases n,
{
    if n <= 0 {
        seq![]
    } else {
        let kept = kept_of(dets, order, threshold, max_out, n - 1);
        let d = dets[order[n - 1]];
        if kept.len() < max_out && clear_of(kept, d, threshold) {
            kept.push(d)
        } else {
            kept
        }
    }
}

/// What detections are sorted by: the higher the score, the smaller the key.
pub open spec fn rank_keys<D: Detection>(dets: Seq<D>) -> Seq<(u64, u32)> {
    dets.map_values(|d: D| ((i64::MAX - d.confidence().raw) as u64, 0u32))
}

/// The detections, best first, as indices. Equals keep their order.
fn rank<D: Detection>(dets: &Vec<D>) -> (order: Vec<usize>)
    ensures
        is_ranking(dets@, order@.map_values(|i: usize| i as int)),
{
    let mut keys: Vec<(u64, u32)> = Vec::new();
    let mut i: usize = 0;
    while i < dets.len()
        invariant
            i <= dets.len(),
            keys@.len() == i,
            forall|k: int| 0 <= k < i ==> #[trigger] keys@[k] == rank_keys(dets@)[k],
        decreases dets.len() - i,
    {
        keys.push(((i64::MAX as i128 - dets[i].score().raw as i128) as u64, 0));
        i += 1;
    }
    assert(keys@ =~= rank_keys(dets@));
    let order: Vec<usize> = sort(&keys);
    proof {
        let view = order@.map_values(|i: usize| i as int);
        assert forall|a: int, b: int| 0 <= a < b < view.len() implies outranks(
            dets@,
            #[trigger] view[a],
            #[trigger] view[b],
        ) by {
            assert(sorts_before(rank_keys(dets@), view[a], view[b]));
        }
    }
    order
}

/// Greedy non-maximum suppression, highest score first.
pub fn nms<D: Detection>(dets: Vec<D>, iou_threshold: Fx, max_out: usize) -> (kept: Vec<D>)
    ensures
        exists|order: Seq<int>| #[trigger]
            is_ranking(dets@, order) && kept@ == kept_of(
                dets@,
                order,
                iou_threshold,
                max_out as nat,
                dets@.len() as int,
            ),
{
    let order: Vec<usize> = rank(&dets);
    let ghost view = order@.map_values(|i: usize| i as int);
    let mut kept: Vec<D> = Vec::new();
    let mut n: usize = 0;
    while n < order.len()
        invariant
            n <= order.len(),
            order@.len() == dets@.len(),
            view == order@.map_values(|i: usize| i as int),
            is_ranking(dets@, view),
            kept@ == kept_of(dets@, view, iou_threshold, max_out as nat, n as int),
        decreases order.len() - n,
    {
        assert(view[n as int] == order@[n as int]);
        let d: D = dets[order[n]];
        let mut clear: bool = kept.len() < max_out;
        let mut i: usize = 0;
        while clear && i < kept.len()
            invariant
                i <= kept.len(),
                clear ==> kept.len() < max_out && forall|k: int|
                    0 <= k < i ==> iou_of(#[trigger] kept@[k], d).raw < iou_threshold.raw,
                !clear ==> kept.len() >= max_out || !clear_of(kept@, d, iou_threshold),
            decreases kept.len() - i,
        {
            if iou(&kept[i], &d).raw >= iou_threshold.raw {
                clear = false;
                assert(!(iou_of(kept@[i as int], d).raw < iou_threshold.raw));
            }
            i += 1;
        }
        if clear {
            kept.push(d);
        }
        n += 1;
    }
    kept
}

/// There is one way to rank detections.
pub proof fn law_ranking_is_unique<D: Detection>(dets: Seq<D>, p: Seq<int>, q: Seq<int>)
    requires
        is_ranking(dets, p),
        is_ranking(dets, q),
    ensures
        p == q,
{
    assert forall|k: int| 0 <= k < p.len() implies p[k] == q[k] by {
        lemma_same_rank(dets, p, q, k);
    }
    assert(p =~= q);
}

proof fn lemma_same_rank<D: Detection>(dets: Seq<D>, p: Seq<int>, q: Seq<int>, k: int)
    requires
        is_ranking(dets, p),
        is_ranking(dets, q),
        0 <= k < p.len(),
    ensures
        p[k] == q[k],
    decreases k,
{
    assert forall|j: int| 0 <= j < k implies p[j] == q[j] by {
        lemma_same_rank(dets, p, q, j);
    }
    if p[k] != q[k] {
        assert(q.contains(p[k]) && p.contains(q[k]));
        let a = choose|a: int| 0 <= a < q.len() && q[a] == p[k];
        let b = choose|b: int| 0 <= b < p.len() && p[b] == q[k];
        // Neither can stand before `k`, where both lists agree.
        if a < k {
            assert(p[a] == q[a]);
            assert(outranks(dets, p[a], p[k]));
        }
        if b < k {
            assert(q[b] == p[b]);
            assert(outranks(dets, q[b], q[k]));
        }
        assert(outranks(dets, q[k], q[a]));
        assert(outranks(dets, p[k], p[b]));
    }
}

/// What is kept was detected, is no more than was asked for, comes best first,
/// and no two of it overlap by the threshold or more.
pub proof fn law_kept_are_apart<D: Detection>(
    dets: Seq<D>,
    order: Seq<int>,
    threshold: Fx,
    max_out: nat,
    n: int,
)
    requires
        is_ranking(dets, order),
        0 <= n <= dets.len(),
    ensures
        ({
            let kept = kept_of(dets, order, threshold, max_out, n);
            &&& kept.len() <= max_out
            &&& kept.len() <= n
            &&& forall|i: int| 0 <= i < kept.len() ==> dets.contains(#[trigger] kept[i])
            &&& forall|i: int, j: int|
                0 <= i < j < kept.len() ==> iou_of(#[trigger] kept[i], #[trigger] kept[j]).raw
                    < threshold.raw && kept[i].confidence().raw >= kept[j].confidence().raw
        }),
    decreases n,
{
    if n > 0 {
        law_kept_are_apart(dets, order, threshold, max_out, n - 1);
        let before = kept_of(dets, order, threshold, max_out, n - 1);
        let kept = kept_of(dets, order, threshold, max_out, n);
        let d = dets[order[n - 1]];
        assert(dets.contains(d));
        if kept.len() > before.len() {
            assert forall|i: int, j: int| 0 <= i < j < kept.len() implies iou_of(
                #[trigger] kept[i],
                #[trigger] kept[j],
            ).raw < threshold.raw && kept[i].confidence().raw >= kept[j].confidence().raw by {
                if j < before.len() {
                    assert(kept[i] == before[i] && kept[j] == before[j]);
                } else {
                    assert(kept[i] == before[i] && kept[j] == d);
                    lemma_kept_rank(dets, order, threshold, max_out, n - 1, i);
                    let a = choose|a: int|
                        0 <= a < n - 1 && dets[#[trigger] order[a]] == before[i];
                    assert(outranks(dets, order[a], order[n - 1]));
                }
            }
            assert forall|i: int| 0 <= i < kept.len() implies dets.contains(
                #[trigger] kept[i],
            ) by {
                if i < before.len() {
                    assert(kept[i] == before[i]);
                }
            }
        }
    }
}

/// What is kept came up in the order.
proof fn lemma_kept_rank<D: Detection>(
    dets: Seq<D>,
    order: Seq<int>,
    threshold: Fx,
    max_out: nat,
    n: int,
    i: int,
)
    requires
        is_ranking(dets, order),
        0 <= n <= dets.len(),
        0 <= i < kept_of(dets, order, threshold, max_out, n).len(),
    ensures
        exists|a: int|
            0 <= a < n && dets[#[trigger] order[a]] == kept_of(
                dets,
                order,
                threshold,
                max_out,
                n,
            )[i],
    decreases n,
{
    if n > 0 {
        let before = kept_of(dets, order, threshold, max_out, n - 1);
        let kept = kept_of(dets, order, threshold, max_out, n);
        if i < before.len() {
            assert(kept[i] == before[i]);
            lemma_kept_rank(dets, order, threshold, max_out, n - 1, i);
            let a = choose|a: int| 0 <= a < n - 1 && dets[#[trigger] order[a]] == before[i];
            assert(dets[order[a]] == kept[i]);
        } else {
            assert(dets[order[n - 1]] == kept[i]);
        }
    }
}

/// Nothing is dropped without a reason: a detection is kept, or it overlaps one
/// that is kept and scores no lower, or there were enough that score no lower.
pub proof fn law_dropped_for_a_reason<D: Detection>(
    dets: Seq<D>,
    order: Seq<int>,
    threshold: Fx,
    max_out: nat,
    i: int,
)
    requires
        is_ranking(dets, order),
        0 <= i < dets.len(),
    ensures
        ({
            let kept = kept_of(dets, order, threshold, max_out, dets.len() as int);
            ||| kept.contains(dets[i])
            ||| exists|k: int|
                0 <= k < kept.len() && iou_of(#[trigger] kept[k], dets[i]).raw >= threshold.raw
                    && kept[k].confidence().raw >= dets[i].confidence().raw
            ||| kept.len() == max_out && forall|k: int|
                0 <= k < kept.len() ==> (#[trigger] kept[k]).confidence().raw
                    >= dets[i].confidence().raw
        }),
{
    let kept = kept_of(dets, order, threshold, max_out, dets.len() as int);
    law_kept_are_apart(dets, order, threshold, max_out, dets.len() as int);
    assert(order.contains(i));
    let n = choose|n: int| 0 <= n < order.len() && order[n] == i;
    let before = kept_of(dets, order, threshold, max_out, n);
    let after = kept_of(dets, order, threshold, max_out, n + 1);
    lemma_kept_stay(dets, order, threshold, max_out, n, dets.len() as int);
    lemma_kept_stay(dets, order, threshold, max_out, n + 1, dets.len() as int);
    law_kept_are_apart(dets, order, threshold, max_out, n);
    assert forall|k: int| 0 <= k < before.len() implies (#[trigger] before[k]).confidence().raw
        >= dets[i].confidence().raw by {
        lemma_kept_rank(dets, order, threshold, max_out, n, k);
        let a = choose|a: int| 0 <= a < n && dets[#[trigger] order[a]] == before[k];
        assert(outranks(dets, order[a], order[n]));
    }
    if before.len() < max_out && clear_of(before, dets[i], threshold) {
        assert(after[before.len() as int] == dets[i]);
        assert(kept[before.len() as int] == dets[i]);
    } else if before.len() < max_out {
        let k = choose|k: int|
            0 <= k < before.len() && !(iou_of(#[trigger] before[k], dets[i]).raw < threshold.raw);
        assert(kept[k] == before[k]);
    } else {
        assert forall|k: int| 0 <= k < kept.len() implies (#[trigger] kept[k]).confidence().raw
            >= dets[i].confidence().raw by {
            assert(kept[k] == before[k]);
        }
    }
}

/// What is kept stays kept.
proof fn lemma_kept_stay<D: Detection>(
    dets: Seq<D>,
    order: Seq<int>,
    threshold: Fx,
    max_out: nat,
    n: int,
    m: int,
)
    requires
        0 <= n <= m,
    ensures
        kept_of(dets, order, threshold, max_out, n).len() <= kept_of(
            dets,
            order,
            threshold,
            max_out,
            m,
        ).len(),
        forall|k: int|
            0 <= k < kept_of(dets, order, threshold, max_out, n).len()
                ==> #[trigger] kept_of(dets, order, threshold, max_out, n)[k] == kept_of(
                dets,
                order,
                threshold,
                max_out,
                m,
            )[k],
    decreases m - n,
{
    if n < m {
        lemma_kept_stay(dets, order, threshold, max_out, n, m - 1);
    }
}

/// The best detection is always kept, and comes first.
pub proof fn law_best_is_kept<D: Detection>(
    dets: Seq<D>,
    order: Seq<int>,
    threshold: Fx,
    max_out: nat,
    i: int,
)
    requires
        is_ranking(dets, order),
        max_out > 0,
        0 <= i < dets.len(),
    ensures
        ({
            let kept = kept_of(dets, order, threshold, max_out, dets.len() as int);
            kept.len() > 0 && kept[0] == dets[order[0]] && kept[0].confidence().raw
                >= dets[i].confidence().raw
        }),
{
    lemma_kept_stay(dets, order, threshold, max_out, 1, dets.len() as int);
    assert(kept_of(dets, order, threshold, max_out, 0) =~= seq![]);
    let first = kept_of(dets, order, threshold, max_out, 1);
    assert(first =~= seq![dets[order[0]]]);
    assert(first[0] == dets[order[0]]);
    assert(order.contains(i));
    let a = choose|a: int| 0 <= a < order.len() && order[a] == i;
    if a > 0 {
        assert(outranks(dets, order[0], order[a]));
    }
}

/// Two boxes overlap as much either way round.
pub proof fn law_iou_is_symmetric(ac: Vec2, asz: Vec2, bc: Vec2, bsz: Vec2)
    ensures
        box_iou(ac, asz, bc, bsz) == box_iou(bc, bsz, ac, asz),
{
}

/// A span shares no more than its own length, and none of it is negative.
proof fn lemma_overlap(a: Fx, a_len: Fx, b: Fx, b_len: Fx)
    requires
        a_len.raw >= 0,
    ensures
        0 <= overlap(a, a_len, b, b_len).raw <= a_len.raw,
{
    assert(Fx::whole(2).raw == 0x2_0000_0000);
    let half = a_len.over(Fx::whole(2)).raw;
    let n = a_len.raw as int;
    assert((n * 0x1_0000_0000) / 0x2_0000_0000 == n / 2) by (nonlinear_arith);
    assert(half == n / 2);
}

/// A rectangle inside another has no more area.
proof fn lemma_area(w: Fx, h: Fx, x: Fx, y: Fx)
    requires
        0 <= w.raw <= x.raw,
        0 <= h.raw <= y.raw,
    ensures
        0 <= w.times(h).raw <= x.times(y).raw,
{
    let (a, b, c, d) = (w.raw as int, h.raw as int, x.raw as int, y.raw as int);
    assert(0 <= a * b <= c * d) by (nonlinear_arith)
        requires
            0 <= a <= c,
            0 <= b <= d,
    ;
    vstd::arithmetic::div_mod::lemma_div_is_ordered(a * b, c * d, 0x1_0000_0000);
    vstd::arithmetic::div_mod::lemma_div_is_ordered(0, a * b, 0x1_0000_0000);
}

/// Boxes overlap between not at all and wholly, as long as the sum of their
/// areas is within range.
pub proof fn law_iou_is_in_range(ac: Vec2, asz: Vec2, bc: Vec2, bsz: Vec2)
    requires
        asz.x.raw >= 0,
        asz.y.raw >= 0,
        bsz.x.raw >= 0,
        bsz.y.raw >= 0,
        asz.x.times(asz.y).raw + bsz.x.times(bsz.y).raw <= i64::MAX,
    ensures
        0 <= box_iou(ac, asz, bc, bsz).raw <= ONE,
{
    let w = overlap(ac.x, asz.x, bc.x, bsz.x);
    let h = overlap(ac.y, asz.y, bc.y, bsz.y);
    lemma_overlap(ac.x, asz.x, bc.x, bsz.x);
    lemma_overlap(ac.y, asz.y, bc.y, bsz.y);
    lemma_overlap(bc.x, bsz.x, ac.x, asz.x);
    lemma_overlap(bc.y, bsz.y, ac.y, asz.y);
    lemma_area(w, h, asz.x, asz.y);
    lemma_area(w, h, bsz.x, bsz.y);
    let i = w.times(h).raw as int;
    let u = asz.x.times(asz.y).plus(bsz.x.times(bsz.y)).minus(w.times(h)).raw as int;
    if u > 0 {
        vstd::arithmetic::div_mod::lemma_div_is_ordered(0, i * ONE, u);
        vstd::arithmetic::div_mod::lemma_div_is_ordered(i * ONE, ONE * u, u);
        vstd::arithmetic::div_mod::lemma_div_by_multiple(ONE as int, u);
    }
}

/// Boxes that lie apart along either side do not overlap.
pub proof fn law_apart_boxes_do_not_overlap(ac: Vec2, asz: Vec2, bc: Vec2, bsz: Vec2)
    requires
        overlap(ac.x, asz.x, bc.x, bsz.x).raw == 0 || overlap(ac.y, asz.y, bc.y, bsz.y).raw == 0,
    ensures
        box_iou(ac, asz, bc, bsz) == Fx::zero(),
{
    let w = overlap(ac.x, asz.x, bc.x, bsz.x).raw as int;
    let h = overlap(ac.y, asz.y, bc.y, bsz.y).raw as int;
    assert(w * h == 0) by (nonlinear_arith)
        requires
            w == 0 || h == 0,
    ;
    let union = asz.x.times(asz.y).plus(bsz.x.times(bsz.y)).minus(
        shared_area(ac, asz, bc, bsz),
    );
    if union.raw > 0 {
        vstd::arithmetic::div_mod::lemma_div_basics(union.raw as int);
    }
}

/// Boxes that fit in a picture, and whose areas can be added up.
pub open spec fn is_box(center: Vec2, size: Vec2) -> bool {
    &&& -0x1000_0000_0000_0000 <= center.x.raw <= 0x1000_0000_0000_0000
    &&& -0x1000_0000_0000_0000 <= center.y.raw <= 0x1000_0000_0000_0000
    &&& 0 <= size.x.raw <= 0x4000_0000_0000
    &&& 0 <= size.y.raw <= 0x4000_0000_0000
}

/// The stretch from `a0` to `a1` that lies between `b0` and `b1` too.
pub open spec fn common(a0: int, a1: int, b0: int, b1: int) -> int {
    let from = if a0 > b0 {
        a0
    } else {
        b0
    };
    let to = if a1 < b1 {
        a1
    } else {
        b1
    };
    if to > from {
        to - from
    } else {
        0
    }
}

/// Twice the length that two spans share, from their edges: every length is
/// doubled, so that the edges of a span of odd length are whole.
pub open spec fn common_span(a: Fx, a_len: Fx, b: Fx, b_len: Fx) -> int {
    common(
        2 * a.raw - a_len.raw,
        2 * a.raw + a_len.raw,
        2 * b.raw - b_len.raw,
        2 * b.raw + b_len.raw,
    )
}

/// Four times the area that two boxes share.
pub open spec fn common_area(ac: Vec2, asz: Vec2, bc: Vec2, bsz: Vec2) -> int {
    common_span(ac.x, asz.x, bc.x, bsz.x) * common_span(ac.y, asz.y, bc.y, bsz.y)
}

/// Four times the area that two boxes cover.
pub open spec fn covered_area(ac: Vec2, asz: Vec2, bc: Vec2, bsz: Vec2) -> int {
    4 * (asz.x.raw * asz.y.raw) + 4 * (bsz.x.raw * bsz.y.raw) - common_area(ac, asz, bc, bsz)
}

proof fn lemma_common_span(a: Fx, a_len: Fx, b: Fx, b_len: Fx)
    requires
        -0x1000_0000_0000_0000 <= a.raw <= 0x1000_0000_0000_0000,
        -0x1000_0000_0000_0000 <= b.raw <= 0x1000_0000_0000_0000,
        0 <= a_len.raw <= 0x4000_0000_0000,
        0 <= b_len.raw <= 0x4000_0000_0000,
    ensures
        ({
            let w = overlap(a, a_len, b, b_len).raw;
            let d = common_span(a, a_len, b, b_len);
            &&& d - 2 <= 2 * w <= d
            &&& 0 <= w <= a_len.raw
            &&& w <= b_len.raw
            &&& 0 <= d <= 2 * a_len.raw
            &&& d <= 2 * b_len.raw
            &&& a_len.raw % 2 == 0 && b_len.raw % 2 == 0 ==> 2 * w == d
        }),
{
    assert(Fx::whole(2).raw == 0x2_0000_0000);
    let (m, n) = (a_len.raw as int, b_len.raw as int);
    assert((m * 0x1_0000_0000) / 0x2_0000_0000 == m / 2) by (nonlinear_arith);
    assert((n * 0x1_0000_0000) / 0x2_0000_0000 == n / 2) by (nonlinear_arith);
    assert(a_len.over(Fx::whole(2)).raw == m / 2);
    assert(b_len.over(Fx::whole(2)).raw == n / 2);
}

/// The area of a box, rounded down.
proof fn lemma_box_area(w: Fx, h: Fx)
    requires
        0 <= w.raw <= 0x4000_0000_0000,
        0 <= h.raw <= 0x4000_0000_0000,
    ensures
        0 <= w.times(h).raw <= 0x1000_0000_0000_0000,
        w.raw * h.raw - 0x1_0000_0000 < 0x1_0000_0000 * w.times(h).raw <= w.raw * h.raw,
{
    let (a, b) = (w.raw as int, h.raw as int);
    assert(0 <= a * b <= 0x4000_0000_0000 * 0x4000_0000_0000) by (nonlinear_arith)
        requires
            0 <= a <= 0x4000_0000_0000,
            0 <= b <= 0x4000_0000_0000,
    ;
}

/// The overlap times the area that two boxes cover is the area that they share,
/// to within a step of the one and eight of the other: with the edges taken
/// from the boxes, whatever their two sizes, as long as a side is a unit or
/// more.
pub proof fn law_iou_is_shared_over_covered(ac: Vec2, asz: Vec2, bc: Vec2, bsz: Vec2)
    requires
        is_box(ac, asz),
        is_box(bc, bsz),
        asz.x.raw >= ONE,
        asz.y.raw >= ONE,
        bsz.x.raw >= ONE,
        bsz.y.raw >= ONE,
    ensures
        ({
            let share = box_iou(ac, asz, bc, bsz).raw;
            let covered = covered_area(ac, asz, bc, bsz);
            &&& covered > 0
            &&& -8 * covered <= share * covered - ONE * common_area(ac, asz, bc, bsz) <= 8 * covered
        }),
{
    lemma_common_span(ac.x, asz.x, bc.x, bsz.x);
    lemma_common_span(ac.y, asz.y, bc.y, bsz.y);
    let w = overlap(ac.x, asz.x, bc.x, bsz.x);
    let h = overlap(ac.y, asz.y, bc.y, bsz.y);
    lemma_box_area(asz.x, asz.y);
    lemma_box_area(bsz.x, bsz.y);
    lemma_box_area(w, h);
    lemma_area(w, h, asz.x, asz.y);
    lemma_area(w, h, bsz.x, bsz.y);
    law_iou_is_in_range(ac, asz, bc, bsz);
    let one = 0x1_0000_0000int;
    let (p, q) = (asz.x.raw * asz.y.raw, bsz.x.raw * bsz.y.raw);
    let (dx, dy) = (
        common_span(ac.x, asz.x, bc.x, bsz.x),
        common_span(ac.y, asz.y, bc.y, bsz.y),
    );
    let x4 = dx * dy;
    let u4 = 4 * p + 4 * q - x4;
    let (wi, hi) = (w.raw as int, h.raw as int);
    let i = w.times(h).raw as int;
    let pa = asz.x.times(asz.y).raw as int;
    let pb = bsz.x.times(bsz.y).raw as int;
    let u = pa + pb - i;
    let r = box_iou(ac, asz, bc, bsz).raw as int;
    let s = 2 * dx + 2 * dy + 4 * one;
    // What is shared is short of the true area by its rounded edges.
    assert(4 * (wi * hi) <= x4 && x4 - 2 * dx - 2 * dy <= 4 * (wi * hi)) by {
        lemma_rounded_product(wi, hi, dx, dy);
    }
    assert(4 * (one * i) <= x4 <= 4 * (one * i) + s);
    // A shared area is part of each box.
    assert(x4 <= 4 * p) by (nonlinear_arith)
        requires
            x4 == dx * dy,
            p == asz.x.raw * asz.y.raw,
            0 <= dx <= 2 * asz.x.raw,
            0 <= dy <= 2 * asz.y.raw,
    ;
    assert(x4 <= 4 * q) by (nonlinear_arith)
        requires
            x4 == dx * dy,
            q == bsz.x.raw * bsz.y.raw,
            0 <= dx <= 2 * bsz.x.raw,
            0 <= dy <= 2 * bsz.y.raw,
    ;
    assert(p >= one * asz.x.raw && p >= one * asz.y.raw && p >= one * one) by (nonlinear_arith)
        requires
            p == asz.x.raw * asz.y.raw,
            asz.x.raw >= one,
            asz.y.raw >= one,
            one > 0,
    ;
    assert(u4 >= 4 * p && u4 > 0);
    assert(u4 - 8 * one <= 4 * (one * u) <= u4 + s) by {
        assert(one * u == one * pa + one * pb - one * i) by (nonlinear_arith)
            requires
                u == pa + pb - i,
        ;
    }
    assert(pa >= one) by {
        if pa < one {
            assert(one * pa <= one * (one - 1)) by (nonlinear_arith)
                requires
                    pa <= one - 1,
                    one > 0,
            ;
            assert(one * (one - 1) == one * one - one) by (nonlinear_arith);
        }
    }
    assert(u > 0);
    let f = i * one;
    assert(r == f / u);
    vstd::arithmetic::div_mod::lemma_fundamental_div_mod(f, u);
    vstd::arithmetic::div_mod::lemma_mod_bound(f, u);
    let ur = u * r;
    assert(ur <= f < ur + u);
    lemma_share_within(one, r, u4, u, x4, i, s, p, asz.x.raw as int, asz.y.raw as int, dx, dy);
}

proof fn lemma_rounded_product(w: int, h: int, dx: int, dy: int)
    requires
        0 <= w,
        0 <= h,
        dx - 2 <= 2 * w <= dx,
        dy - 2 <= 2 * h <= dy,
    ensures
        4 * (w * h) <= dx * dy <= 4 * (w * h) + 2 * dx + 2 * dy,
{
    assert((2 * w) * (2 * h) == 4 * (w * h)) by (nonlinear_arith);
    let (a, b) = (2 * w, 2 * h);
    assert(a * b <= dx * dy) by (nonlinear_arith)
        requires
            0 <= a <= dx,
            0 <= b <= dy,
    ;
    assert(dx * dy - a * b == dx * (dy - b) + (dx - a) * b) by (nonlinear_arith);
    assert(dx * (dy - b) <= 2 * dx) by (nonlinear_arith)
        requires
            0 <= dx,
            dy - b <= 2,
    ;
    assert((dx - a) * b <= 2 * dy) by (nonlinear_arith)
        requires
            0 <= dx - a <= 2,
            0 <= b <= dy,
    ;
}

/// The bounds on a share that was rounded, put together.
proof fn lemma_share_within(
    one: int,
    r: int,
    u4: int,
    u: int,
    x4: int,
    i: int,
    s: int,
    p: int,
    w: int,
    h: int,
    dx: int,
    dy: int,
)
    requires
        one == 0x1_0000_0000,
        0 <= r <= one,
        u * r <= i * one < u * r + u,
        4 * (one * i) <= x4 <= 4 * (one * i) + s,
        u4 - 8 * one <= 4 * (one * u) <= u4 + s,
        u4 >= 4 * p,
        p >= one * w,
        p >= one * h,
        p >= one * one,
        s == 2 * dx + 2 * dy + 4 * one,
        0 <= dx <= 2 * w,
        0 <= dy <= 2 * h,
    ensures
        -8 * u4 <= r * u4 - one * x4 <= 8 * u4,
{
    // One side.
    assert(r * u4 <= 4 * (one * (u * r)) + 8 * (one * r)) by (nonlinear_arith)
        requires
            u4 - 8 * one <= 4 * (one * u),
            0 <= r,
    ;
    assert(one * (u * r) <= one * (i * one)) by (nonlinear_arith)
        requires
            u * r <= i * one,
            one > 0,
    ;
    assert(4 * (one * (i * one)) <= one * x4) by (nonlinear_arith)
        requires
            4 * (one * i) <= x4,
            one > 0,
    ;
    assert(one * r <= one * one) by (nonlinear_arith)
        requires
            0 <= r <= one,
    ;
    assert(r * u4 <= one * x4 + 2 * u4);
    // The other.
    assert(one * x4 <= 4 * (one * (i * one)) + one * s) by (nonlinear_arith)
        requires
            x4 <= 4 * (one * i) + s,
            one > 0,
    ;
    assert(one * (i * one) <= one * (u * r) + one * u) by (nonlinear_arith)
        requires
            i * one < u * r + u,
            one > 0,
    ;
    assert(4 * (one * (u * r)) <= r * u4 + r * s) by (nonlinear_arith)
        requires
            4 * (one * u) <= u4 + s,
            0 <= r,
    ;
    assert(r * s <= one * s) by (nonlinear_arith)
        requires
            0 <= r <= one,
            0 <= s,
    ;
    assert(one * s == 2 * (one * dx) + 2 * (one * dy) + 4 * (one * one)) by (nonlinear_arith)
        requires
            s == 2 * dx + 2 * dy + 4 * one,
    ;
    assert(one * dx <= 2 * (one * w) && one * dy <= 2 * (one * h)) by (nonlinear_arith)
        requires
            dx <= 2 * w,
            dy <= 2 * h,
            one > 0,
    ;
    assert(one * s <= 12 * p);
    assert(s <= p) by {
        assert(s <= one * s / 16) by (nonlinear_arith)
            requires
                one == 0x1_0000_0000,
                s >= 0,
        ;
    }
    assert(one * x4 <= r * u4 + u4 + r * s + one * s + s);
}

/// The overlap in full detail, for boxes of any two sizes: with the edges half
/// a side from the middle and the areas rounded down, the share times the area
/// that they cover is the area that they share, up to one rounding. Boxes that
/// cover nothing share nothing.
pub proof fn law_iou_times_union_is_intersection(ac: Vec2, asz: Vec2, bc: Vec2, bsz: Vec2)
    requires
        is_box(ac, asz),
        is_box(bc, bsz),
    ensures
        ({
            let share = box_iou(ac, asz, bc, bsz).raw;
            let w = common(
                ac.x.raw - asz.x.raw / 2,
                ac.x.raw + asz.x.raw / 2,
                bc.x.raw - bsz.x.raw / 2,
                bc.x.raw + bsz.x.raw / 2,
            );
            let h = common(
                ac.y.raw - asz.y.raw / 2,
                ac.y.raw + asz.y.raw / 2,
                bc.y.raw - bsz.y.raw / 2,
                bc.y.raw + bsz.y.raw / 2,
            );
            let shared = (w * h) / 0x1_0000_0000;
            let covered = (asz.x.raw * asz.y.raw) / 0x1_0000_0000 + (bsz.x.raw * bsz.y.raw)
                / 0x1_0000_0000 - shared;
            &&& covered > 0 ==> share * covered <= shared * 0x1_0000_0000 < (share + 1) * covered
            &&& covered <= 0 ==> share == 0
        }),
{
    lemma_common_span(ac.x, asz.x, bc.x, bsz.x);
    lemma_common_span(ac.y, asz.y, bc.y, bsz.y);
    let w = overlap(ac.x, asz.x, bc.x, bsz.x);
    let h = overlap(ac.y, asz.y, bc.y, bsz.y);
    lemma_halves(asz.x);
    lemma_halves(asz.y);
    lemma_halves(bsz.x);
    lemma_halves(bsz.y);
    lemma_box_area(asz.x, asz.y);
    lemma_box_area(bsz.x, bsz.y);
    lemma_box_area(w, h);
    lemma_area(w, h, asz.x, asz.y);
    law_iou_is_in_range(ac, asz, bc, bsz);
    let i = w.times(h).raw as int;
    let u = asz.x.times(asz.y).raw + bsz.x.times(bsz.y).raw - i;
    let r = box_iou(ac, asz, bc, bsz).raw as int;
    if u > 0 {
        let f = i * 0x1_0000_0000;
        assert(r == f / u);
        vstd::arithmetic::div_mod::lemma_fundamental_div_mod(f, u);
        vstd::arithmetic::div_mod::lemma_mod_bound(f, u);
        assert(r * u == u * r && (r + 1) * u == u * r + u) by (nonlinear_arith);
    }
}

proof fn lemma_halves(len: Fx)
    requires
        0 <= len.raw <= 0x4000_0000_0000,
    ensures
        len.over(Fx::whole(2)).raw == len.raw / 2,
{
    let n = len.raw as int;
    assert(Fx::whole(2).raw == 0x2_0000_0000);
    assert((n * 0x1_0000_0000) / 0x2_0000_0000 == n / 2) by (nonlinear_arith);
}

/// A box inside another overlaps it by the ratio of their areas, to within
/// eight steps, whatever the two sizes.
pub proof fn law_nested_boxes_overlap_by_area(ac: Vec2, asz: Vec2, bc: Vec2, bsz: Vec2)
    requires
        is_box(ac, asz),
        is_box(bc, bsz),
        asz.x.raw >= ONE,
        asz.y.raw >= ONE,
        2 * bc.x.raw - bsz.x.raw <= 2 * ac.x.raw - asz.x.raw,
        2 * ac.x.raw + asz.x.raw <= 2 * bc.x.raw + bsz.x.raw,
        2 * bc.y.raw - bsz.y.raw <= 2 * ac.y.raw - asz.y.raw,
        2 * ac.y.raw + asz.y.raw <= 2 * bc.y.raw + bsz.y.raw,
    ensures
        ({
            let share = box_iou(ac, asz, bc, bsz).raw;
            let (inner, outer) = (asz.x.raw * asz.y.raw, bsz.x.raw * bsz.y.raw);
            -8 * outer <= share * outer - ONE * inner <= 8 * outer
        }),
{
    law_iou_is_shared_over_covered(ac, asz, bc, bsz);
    let share = box_iou(ac, asz, bc, bsz).raw as int;
    let (inner, outer) = (asz.x.raw * asz.y.raw, bsz.x.raw * bsz.y.raw);
    assert(common_area(ac, asz, bc, bsz) == 4 * inner) by {
        let (x, y) = (asz.x.raw as int, asz.y.raw as int);
        assert((2 * x) * (2 * y) == 4 * (x * y)) by (nonlinear_arith);
    }
    let covered = covered_area(ac, asz, bc, bsz);
    assert(covered == 4 * outer);
    assert(share * covered == 4 * (share * outer)) by (nonlinear_arith)
        requires
            covered == 4 * outer,
    ;
}

/// A box overlaps itself wholly: exactly where its sides are even numbers of
/// steps, and to within eight steps where not.
pub proof fn law_equal_boxes_overlap_wholly(c: Vec2, size: Vec2)
    requires
        is_box(c, size),
        size.x.raw >= ONE,
        size.y.raw >= ONE,
    ensures
        ONE - 8 <= box_iou(c, size, c, size).raw <= ONE,
        size.x.raw % 2 == 0 && size.y.raw % 2 == 0 ==> box_iou(c, size, c, size) == Fx::one(),
{
    lemma_box_area(size.x, size.y);
    law_iou_is_in_range(c, size, c, size);
    law_nested_boxes_overlap_by_area(c, size, c, size);
    let share = box_iou(c, size, c, size).raw as int;
    let area = size.x.raw * size.y.raw;
    assert(area > 0) by (nonlinear_arith)
        requires
            area == size.x.raw * size.y.raw,
            size.x.raw > 0,
            size.y.raw > 0,
    ;
    assert(share >= 0x1_0000_0000 - 8) by (nonlinear_arith)
        requires
            -8 * area <= share * area - 0x1_0000_0000 * area,
            area > 0,
    ;
    if size.x.raw % 2 == 0 && size.y.raw % 2 == 0 {
        lemma_common_span(c.x, size.x, c.x, size.x);
        lemma_common_span(c.y, size.y, c.y, size.y);
        let i = size.x.times(size.y).raw as int;
        assert(i > 0) by {
            assert(area >= 0x1_0000_0000) by (nonlinear_arith)
                requires
                    area == size.x.raw * size.y.raw,
                    size.x.raw >= 0x1_0000_0000,
                    size.y.raw >= 1,
            ;
        }
        vstd::arithmetic::div_mod::lemma_div_by_multiple(0x1_0000_0000, i);
        assert(i * ONE == 0x1_0000_0000 * i);
    }
}

/// Detections are looked at from the surest to the least sure, and those that
/// are as sure in the order in which they came.
pub proof fn law_surest_come_first<D: Detection>(dets: Seq<D>, order: Seq<int>, a: int, b: int)
    requires
        is_ranking(dets, order),
        0 <= a < b < order.len(),
    ensures
        dets[order[a]].confidence().raw >= dets[order[b]].confidence().raw,
        dets[order[a]].confidence().raw == dets[order[b]].confidence().raw ==> order[a] < order[b],
{
    assert(outranks(dets, order[a], order[b]));
}

} // verus!
