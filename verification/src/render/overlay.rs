//! Lines over the picture, used for the debug hand skeleton.
//!
//! Each segment is one instance; the vertex shader expands it into a quad in
//! pixel space. That keeps line width constant on screen regardless of how the
//! window is sized.

use crate::effect::KNOB_FINGER;
use crate::fixed::Fx;
use crate::tracking::hand::{Finger, Hand, HandFrame, BONES};
use crate::vector::Vec2;
use vstd::prelude::*;

verus! {

/// A colour with its opacity.
#[derive(Debug, Clone, Copy, PartialEq, Eq, Structural)]
pub struct Rgba {
    pub r: Fx,
    pub g: Fx,
    pub b: Fx,
    pub a: Fx,
}

impl Rgba {
    /// A colour in tenths.
    #[verifier::allow_in_spec]
    pub fn tenths(r: i32, g: i32, b: i32, a: i32) -> Rgba
        returns
            (Rgba {
                r: Fx::ratio(r, 10),
                g: Fx::ratio(g, 10),
                b: Fx::ratio(b, 10),
                a: Fx::ratio(a, 10),
            }),
    {
        Rgba {
            r: Fx::ratio(r, 10),
            g: Fx::ratio(g, 10),
            b: Fx::ratio(b, 10),
            a: Fx::ratio(a, 10),
        }
    }
}

/// One line segment in normalized screen space.
#[derive(Debug, Clone, Copy, PartialEq, Eq, Structural)]
pub struct LineInstance {
    pub a: Vec2,
    pub b: Vec2,
    pub color: Rgba,
    /// Half-width in pixels.
    pub width: Fx,
}

impl LineInstance {
    #[verifier::allow_in_spec]
    pub fn new(a: Vec2, b: Vec2, color: Rgba, width: Fx) -> LineInstance
        returns
            (LineInstance { a, b, color, width }),
    {
        LineInstance { a, b, color, width }
    }
}

/// The colour of a fingertip: the two that anchor the region and the one that
/// drives the knob stand out, so their roles are visible.
#[verifier::allow_in_spec]
pub fn tip_color(finger: Finger) -> Rgba
    returns
        (match finger {
            Finger::Thumb => Rgba::tenths(10, 3, 4, 10),
            Finger::Index => Rgba::tenths(10, 3, 4, 10),
            Finger::Middle => Rgba::tenths(10, 8, 2, 10),
            Finger::Ring => Rgba::tenths(4, 6, 10, 8),
            Finger::Pinky => Rgba::tenths(4, 6, 10, 8),
        }),
{
    match finger {
        // Quad corners.
        Finger::Thumb | Finger::Index => Rgba::tenths(10, 3, 4, 10),
        f => if f == KNOB_FINGER {
            Rgba::tenths(10, 8, 2, 10)
        } else {
            Rgba::tenths(4, 6, 10, 8)
        },
    }
}

/// Bone `k` of a hand.
pub open spec fn bone(hand: Hand, k: int) -> LineInstance {
    LineInstance {
        a: hand.point(BONES[k].0),
        b: hand.point(BONES[k].1),
        color: Rgba::tenths(2, 10, 7, 9),
        width: Fx::ratio(3, 2),
    }
}

/// The mark on fingertip `k` of a hand.
pub open spec fn tip_mark(hand: Hand, k: int) -> LineInstance {
    let p = hand.tip(Finger::ALL[k]);
    let r = Vec2 { x: Fx::ratio(6, 1000), y: Fx::zero() };
    LineInstance {
        a: p.minus(r),
        b: p.plus(r),
        color: tip_color(Finger::ALL[k]),
        width: Fx::whole(3),
    }
}

/// The skeleton of one hand: its bones, then its fingertips.
pub open spec fn skeleton(hand: Hand) -> Seq<LineInstance> {
    Seq::new(21, |k: int| bone(hand, k)) + Seq::new(5, |k: int| tip_mark(hand, k))
}

/// The skeletons of the first `n` hands.
pub open spec fn skeletons(hands: Seq<Hand>, n: int) -> Seq<LineInstance>
    decreases n,
{
    if n <= 0 {
        seq![]
    } else {
        skeletons(hands, n - 1) + skeleton(hands[n - 1])
    }
}

/// Every bone joins two landmarks that exist.
proof fn lemma_bones(k: int)
    requires
        0 <= k < 21,
    ensures
        BONES[k].0 < 21,
        BONES[k].1 < 21,
{
}

/// Appends the skeleton of one hand.
fn push_skeleton(lines: &mut Vec<LineInstance>, hand: &Hand)
    ensures
        final(lines)@ == old(lines)@ + skeleton(*hand),
{
    let bones = BONES;
    let mut k: usize = 0;
    while k < 21
        invariant
            k <= 21,
            bones == BONES,
            bones@.len() == 21,
            lines@ == old(lines)@ + Seq::new(k as nat, |k: int| bone(*hand, k)),
        decreases 21 - k,
    {
        proof {
            lemma_bones(k as int);
        }
        let (a, b) = bones[k];
        lines.push(
            LineInstance::new(
                hand.point(a),
                hand.point(b),
                Rgba::tenths(2, 10, 7, 9),
                Fx::ratio(3, 2),
            ),
        );
        k += 1;
        assert(Seq::new(k as nat, |k: int| bone(*hand, k)) =~= Seq::new(
            (k - 1) as nat,
            |k: int| bone(*hand, k),
        ).push(bone(*hand, k - 1)));
    }
    let ghost so_far = lines@;
    let fingers = Finger::ALL;
    let r: Vec2 = Vec2 { x: Fx::ratio(6, 1000), y: Fx::zero() };
    let mut k: usize = 0;
    while k < 5
        invariant
            k <= 5,
            fingers == Finger::ALL,
            fingers@.len() == 5,
            r == (Vec2 { x: Fx::ratio(6, 1000), y: Fx::zero() }),
            lines@ == so_far + Seq::new(k as nat, |k: int| tip_mark(*hand, k)),
        decreases 5 - k,
    {
        let finger: Finger = fingers[k];
        let p: Vec2 = hand.tip(finger);
        lines.push(
            LineInstance::new(p.minus(r), p.plus(r), tip_color(finger), Fx::whole(3)),
        );
        k += 1;
        assert(Seq::new(k as nat, |k: int| tip_mark(*hand, k)) =~= Seq::new(
            (k - 1) as nat,
            |k: int| tip_mark(*hand, k),
        ).push(tip_mark(*hand, k - 1)));
    }
    assert(lines@ =~= old(lines)@ + skeleton(*hand));
}

/// The debug skeleton for the current hands; nothing if it is switched off.
pub fn build_lines(hands: &HandFrame, show: bool) -> (lines: Vec<LineInstance>)
    ensures
        show ==> lines@ == skeletons(hands.hands@, hands.hands@.len() as int),
        !show ==> lines@.len() == 0,
{
    let mut lines: Vec<LineInstance> = Vec::new();
    if !show {
        return lines;
    }
    let mut n: usize = 0;
    while n < hands.hands.len()
        invariant
            n <= hands.hands.len(),
            lines@ == skeletons(hands.hands@, n as int),
        decreases hands.hands.len() - n,
    {
        push_skeleton(&mut lines, &hands.hands[n]);
        n += 1;
    }
    lines
}

/// A capacity doubled until it suffices.
pub open spec fn doubled(capacity: int, needed: int) -> int
    decreases 2 * needed - capacity,
{
    if capacity >= needed || capacity <= 0 {
        capacity
    } else {
        doubled(2 * capacity, needed)
    }
}

/// The size of the line buffer to make: none if the one there suffices, else a
/// power of two from 64 up that does. Growing geometrically means a varying
/// hand count doesn't reallocate often.
pub fn grow(capacity: usize, needed: usize) -> (new: Option<usize>)
    requires
        needed <= usize::MAX / 2,
    ensures
        new is None <==> needed == 0 || needed <= capacity,
        new matches Some(c) ==> c == doubled(64, needed as int),
{
    if needed == 0 || capacity >= needed {
        return None;
    }
    let mut c: usize = 64;
    while c < needed
        invariant
            needed <= usize::MAX / 2,
            64 <= c,
            doubled(c as int, needed as int) == doubled(64, needed as int),
        decreases 2 * needed - c,
    {
        c = 2 * c;
    }
    Some(c)
}

/// The buffer holds what is needed, and less than twice that once it has grown.
pub proof fn law_buffer_fits(capacity: int, needed: int)
    requires
        0 < capacity,
    ensures
        doubled(capacity, needed) >= needed,
        doubled(capacity, needed) >= capacity,
        doubled(capacity, needed) > capacity ==> doubled(capacity, needed) < 2 * needed,
    decreases 2 * needed - capacity,
{
    if capacity < needed {
        law_buffer_fits(2 * capacity, needed);
    }
}

/// Every hand draws as many lines: a hand that is added or lost changes no
/// other's.
pub proof fn law_lines_per_hand(hands: Seq<Hand>, n: int)
    requires
        0 <= n <= hands.len(),
    ensures
        skeletons(hands, n).len() == 26 * n,
    decreases n,
{
    if n > 0 {
        law_lines_per_hand(hands, n - 1);
    }
}

/// Every hand has its own lines, one hand after the other: a line along each
/// bone, from joint to joint, then a level mark through the middle of each
/// fingertip.
pub proof fn law_skeleton_follows_the_hand(hands: Seq<Hand>, n: int, i: int, k: int)
    requires
        0 <= i < n <= hands.len(),
        0 <= k < 26,
        crate::tracking::hand::laws::in_view(hands[i]),
    ensures
        ({
            let line = skeletons(hands, n)[26 * i + k];
            let at = |j: int|
                Vec2 { x: hands[i].landmarks[j].x, y: hands[i].landmarks[j].y };
            &&& k < 21 ==> line.a == at(BONES[k].0 as int) && line.b == at(BONES[k].1 as int)
                && 2 * line.width.raw == 3 * 0x1_0000_0000
            &&& k >= 21 ==> {
                let tip = at(4 * (k - 20));
                &&& line.color == tip_color(Finger::ALL[k - 21])
                &&& line.width.raw == 3 * 0x1_0000_0000
                &&& line.a.x.raw + line.b.x.raw == 2 * tip.x.raw
                &&& line.a.y == tip.y
                &&& line.b.y == tip.y
                &&& 500 * (line.b.x.raw - line.a.x.raw) <= 6 * 0x1_0000_0000
                &&& 500 * (line.b.x.raw - line.a.x.raw) > 6 * 0x1_0000_0000 - 1000
            }
        }),
    decreases n,
{
    law_lines_per_hand(hands, n - 1);
    if i == n - 1 {
        let line = skeletons(hands, n)[26 * i + k];
        assert(line == skeleton(hands[i])[k]);
        if k < 21 {
            lemma_bones(k);
            assert(line == bone(hands[i], k));
        } else {
            let f = Finger::ALL[k - 21];
            assert(line == tip_mark(hands[i], k - 21));
            assert(f.tip() == 4 * (k - 20));
            let p = hands[i].landmarks[4 * (k - 20)];
            assert(-0x1_0000_0000 <= p.x.raw <= 0x2_0000_0000);
            assert(Fx::ratio(6, 1000).raw == 25769803);
        }
    } else {
        law_skeleton_follows_the_hand(hands, n - 1, i, k);
        assert(skeletons(hands, n)[26 * i + k] == skeletons(hands, n - 1)[26 * i + k]);
    }
}

/// The bones of the skeleton: each finger's three outer joints in a row out
/// from its knuckle, the wrist to the thumb, the index and the pinky, and the
/// knuckles along the palm.
pub proof fn law_bones_join_neighbours(k: int)
    requires
        0 <= k < 21,
    ensures
        ({
            let (a, b) = (BONES[k].0 as int, BONES[k].1 as int);
            ||| b == a + 1
            ||| a == 0 && (b == 5 || b == 17)
            ||| b == a + 4 && (a == 5 || a == 9 || a == 13)
        }),
        forall|j: int| 0 <= j < 21 && j != k ==> #[trigger] BONES[j] != BONES[k],
{
}

/// The fingertips that frame the window look alike, the one that turns the knob
/// like none other, and the two that do nothing alike.
pub proof fn law_roles_show_in_colours()
    ensures
        tip_color(Finger::Thumb) == tip_color(Finger::Index),
        tip_color(Finger::Ring) == tip_color(Finger::Pinky),
        tip_color(Finger::Middle) != tip_color(Finger::Thumb),
        tip_color(Finger::Middle) != tip_color(Finger::Ring),
        tip_color(Finger::Thumb) != tip_color(Finger::Ring),
{
    assert(Fx::ratio(3, 10).raw != Fx::ratio(8, 10).raw);
    assert(Fx::ratio(10, 10).raw != Fx::ratio(4, 10).raw);
}

} // verus!
