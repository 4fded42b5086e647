//! The vocabulary every other layer speaks: a tracked hand and its landmarks.

pub mod laws;
pub mod lm;

use crate::fixed::Fx;
use crate::vector::{Vec2, Vec3};
use vstd::prelude::*;

verus! {

pub const LANDMARK_COUNT: usize = 21;

/// Connected joint pairs, for drawing the skeleton overlay.
pub const BONES: [(usize, usize); 21] = [
    (0, 1), (1, 2), (2, 3), (3, 4),             // thumb
    (0, 5), (5, 6), (6, 7), (7, 8),             // index
    (9, 10), (10, 11), (11, 12),                // middle
    (13, 14), (14, 15), (15, 16),               // ring
    (0, 17), (17, 18), (18, 19), (19, 20),      // pinky
    (5, 9), (9, 13), (13, 17),                  // palm arch
];

#[derive(Debug, Clone, Copy, PartialEq, Eq, Hash, Structural)]
pub enum Finger {
    Thumb,
    Index,
    Middle,
    Ring,
    Pinky,
}

impl Finger {
    pub const ALL: [Finger; 5] = [
        Finger::Thumb,
        Finger::Index,
        Finger::Middle,
        Finger::Ring,
        Finger::Pinky,
    ];

    /// Landmark at the fingertip.
    #[verifier::allow_in_spec]
    pub fn tip(self) -> usize
        returns
            (match self {
                Finger::Thumb => 4usize,
                Finger::Index => 8,
                Finger::Middle => 12,
                Finger::Ring => 16,
                Finger::Pinky => 20,
            }),
    {
        match self {
            Finger::Thumb => lm::THUMB_TIP,
            Finger::Index => lm::INDEX_TIP,
            Finger::Middle => lm::MIDDLE_TIP,
            Finger::Ring => lm::RING_TIP,
            Finger::Pinky => lm::PINKY_TIP,
        }
    }

    /// Knuckle at the base of the finger.
    #[verifier::allow_in_spec]
    pub fn mcp(self) -> usize
        returns
            (match self {
                Finger::Thumb => 1usize,
                Finger::Index => 5,
                Finger::Middle => 9,
                Finger::Ring => 13,
                Finger::Pinky => 17,
            }),
    {
        match self {
            Finger::Thumb => lm::THUMB_CMC,
            Finger::Index => lm::INDEX_MCP,
            Finger::Middle => lm::MIDDLE_MCP,
            Finger::Ring => lm::RING_MCP,
            Finger::Pinky => lm::PINKY_MCP,
        }
    }

    /// Fingertip-to-knuckle distance, in palm-widths, for a fully extended
    /// finger.
    ///
    /// Measured from a reference hand. Individual hands vary by roughly 10%,
    /// which the clamp in [`Hand::curl`] absorbs.
    #[verifier::allow_in_spec]
    pub fn extended_reference(self) -> Fx
        returns
            (match self {
                Finger::Thumb => Fx::ratio(112, 100),
                Finger::Index => Fx::ratio(85, 100),
                Finger::Middle => Fx::ratio(88, 100),
                Finger::Ring => Fx::ratio(88, 100),
                Finger::Pinky => Fx::ratio(68, 100),
            }),
    {
        match self {
            Finger::Thumb => Fx::ratio(112, 100),
            Finger::Index => Fx::ratio(85, 100),
            Finger::Middle => Fx::ratio(88, 100),
            Finger::Ring => Fx::ratio(88, 100),
            Finger::Pinky => Fx::ratio(68, 100),
        }
    }

    /// Middle joint, used to decide whether the finger is curled.
    #[verifier::allow_in_spec]
    pub fn pip(self) -> usize
        returns
            (match self {
                Finger::Thumb => 2usize,
                Finger::Index => 6,
                Finger::Middle => 10,
                Finger::Ring => 14,
                Finger::Pinky => 18,
            }),
    {
        match self {
            Finger::Thumb => lm::THUMB_MCP,
            Finger::Index => lm::INDEX_PIP,
            Finger::Middle => lm::MIDDLE_PIP,
            Finger::Ring => lm::RING_PIP,
            Finger::Pinky => lm::PINKY_PIP,
        }
    }
}

#[derive(Debug, Clone, Copy, PartialEq, Eq, Hash, Structural)]
pub enum Handedness {
    Left,
    Right,
}

/// One tracked hand for one frame.
///
/// Landmark x/y are normalized to the *image* (0..1, origin top-left) so the
/// whole pipeline stays resolution-independent; z is relative depth in roughly
/// the same units as x, negative meaning closer to the camera.
#[derive(Debug, Clone, Copy)]
pub struct Hand {
    pub landmarks: [Vec3; LANDMARK_COUNT],
    pub handedness: Handedness,
    /// Landmark-model presence score, 0..1.
    pub score: Fx,
}

/// The smallest palm width that distances are measured against.
pub open spec fn least_scale() -> Fx {
    Fx::ratio(1, 10000)
}

/// How curled a finger with the extended reach `extended` is when its tip lies
/// `reach` palm-widths from its knuckle. A curled finger bottoms out at 40% of
/// its extended reach.
pub open spec fn curl_at(extended: Fx, reach: Fx) -> Fx {
    extended.minus(reach).over(extended.minus(extended.times(Fx::ratio(40, 100)))).clamp(
        Fx::zero(),
        Fx::one(),
    )
}

impl Hand {
    /// A landmark's place in the image.
    #[verifier::allow_in_spec]
    pub fn point(&self, idx: usize) -> Vec2
        requires
            idx < LANDMARK_COUNT,
        returns
            self.landmarks[idx as int].truncate(),
    {
        self.landmarks[idx].truncate()
    }

    #[verifier::allow_in_spec]
    pub fn tip(&self, finger: Finger) -> Vec2
        returns
            self.point(finger.tip()),
    {
        self.point(finger.tip())
    }

    #[verifier::allow_in_spec]
    pub fn wrist(&self) -> Vec2
        returns
            self.point(lm::WRIST),
    {
        self.point(lm::WRIST)
    }

    /// Rough palm width in normalized units.
    ///
    /// Every gesture threshold is expressed as a multiple of this so that
    /// gestures fire the same way whether the hand is near or far from the
    /// camera.
    #[verifier::allow_in_spec]
    pub fn scale(&self) -> Fx
        returns
            self.point(lm::INDEX_MCP).distance(self.point(lm::PINKY_MCP)).max(
                self.point(lm::WRIST).distance(self.point(lm::MIDDLE_MCP)),
            ).max(least_scale()),
    {
        let a = self.point(lm::INDEX_MCP).distance(self.point(lm::PINKY_MCP));
        let b = self.point(lm::WRIST).distance(self.point(lm::MIDDLE_MCP));
        // `b` alone collapses when the hand points at the camera, `a` alone
        // collapses when the hand turns edge-on; the larger survives both.
        a.max(b).max(Fx::ratio(1, 10000))
    }

    /// Distance between two fingertips, in palm-widths.
    #[verifier::allow_in_spec]
    pub fn pinch_distance(&self, a: Finger, b: Finger) -> Fx
        returns
            self.tip(a).distance(self.tip(b)).over(self.scale()),
    {
        self.tip(a).distance(self.tip(b)).over(self.scale())
    }

    /// How curled a finger is: 0 fully extended, 1 fully curled.
    ///
    /// Measured as fingertip-to-knuckle distance in palm-widths, so it does not
    /// depend on hand rotation, on where the hand is or on how far it is from
    /// the camera.
    #[verifier::allow_in_spec]
    pub fn curl(&self, finger: Finger) -> Fx
        returns
            curl_at(
                finger.extended_reference(),
                self.point(finger.tip()).distance(self.point(finger.mcp())).over(self.scale()),
            ),
    {
        let extended = finger.extended_reference();
        // A fully curled finger brings its tip back toward its knuckle,
        // bottoming out near 40% of the extended distance.
        let curled = extended.times(Fx::ratio(40, 100));
        let d = self.point(finger.tip()).distance(self.point(finger.mcp())).over(self.scale());
        extended.minus(d).over(extended.minus(curled)).clamp(Fx::zero(), Fx::one())
    }

    /// Whether a finger is extended, judged by tip-vs-knuckle distance from
    /// the wrist. Robust to hand rotation, unlike a pure y comparison.
    #[verifier::allow_in_spec]
    pub fn is_extended(&self, finger: Finger) -> bool
        returns
            self.wrist().distance(self.point(finger.tip())).raw > self.wrist().distance(
                self.point(finger.pip()),
            ).times(Fx::ratio(115, 100)).raw,
    {
        let wrist = self.wrist();
        let tip = wrist.distance(self.point(finger.tip()));
        let pip = wrist.distance(self.point(finger.pip()));
        tip.raw > pip.times(Fx::ratio(115, 100)).raw
    }

    /// How many of the five fingers are extended.
    pub fn extended_count(&self) -> (count: usize)
        ensures
            count == Finger::ALL@.filter(|f: Finger| self.is_extended(f)).len(),
    {
        let mut count: usize = 0;
        let all = Finger::ALL;
        let mut i: usize = 0;
        proof {
            assert(all@.take(0) =~= Seq::empty());
            assert(all@.take(0).filter(|f: Finger| self.is_extended(f)).len() == 0) by {
                reveal(Seq::filter);
            }
        }
        while i < 5
            invariant
                i <= 5,
                all == Finger::ALL,
                all@.len() == 5,
                count <= i,
                count == all@.take(i as int).filter(|f: Finger| self.is_extended(f)).len(),
            decreases 5 - i,
        {
            proof {
                assert(all@.take(i + 1).drop_last() =~= all@.take(i as int));
                reveal(Seq::filter);
            }
            if self.is_extended(all[i]) {
                count += 1;
            }
            i += 1;
        }
        assert(all@.take(5) =~= all@);
        count
    }

    /// Centroid of the palm, steadier than any single landmark.
    #[verifier::allow_in_spec]
    pub fn palm_center(&self) -> Vec2
        returns
            self.point(lm::WRIST).plus(self.point(lm::INDEX_MCP)).plus(
                self.point(lm::MIDDLE_MCP),
            ).plus(self.point(lm::RING_MCP)).plus(self.point(lm::PINKY_MCP)).over(Fx::whole(5)),
    {
        self.point(lm::WRIST).plus(self.point(lm::INDEX_MCP)).plus(
            self.point(lm::MIDDLE_MCP),
        ).plus(self.point(lm::RING_MCP)).plus(self.point(lm::PINKY_MCP)).over(Fx::whole(5))
    }
}

/// All hands seen in one frame.
#[derive(Debug, Clone)]
pub struct HandFrame {
    pub hands: Vec<Hand>,
    /// Monotonic frame counter, so consumers can tell stale data from fresh.
    pub seq: u64,
}

impl Default for HandFrame {
    /// A frame without hands.
    fn default() -> (frame: HandFrame)
        ensures
            frame.hands@ == Seq::<Hand>::empty(),
            frame.seq == 0,
    {
        HandFrame { hands: Vec::new(), seq: 0 }
    }
}

/// Hand `i` comes before hand `j` from left to right on screen; hands level
/// with each other keep the order in which they were tracked.
pub open spec fn left_of(hands: Seq<Hand>, i: int, j: int) -> bool {
    let a = hands[i].palm_center().x.raw;
    let b = hands[j].palm_center().x.raw;
    a < b || (a == b && i < j)
}

/// `l` is the first and `r` the second hand from left to right.
pub open spec fn is_pair(hands: Seq<Hand>, l: int, r: int) -> bool {
    &&& 0 <= l < hands.len()
    &&& 0 <= r < hands.len()
    &&& l != r
    &&& left_of(hands, l, r)
    &&& forall|k: int| 0 <= k < hands.len() && k != l && k != r ==> #[trigger] left_of(hands, r, k)
}

/// A landmark reflected left to right.
pub open spec fn mirror_point(p: Vec3) -> Vec3 {
    Vec3 { x: Fx::one().minus(p.x), y: p.y, z: p.z }
}

/// `b` is `a` with every landmark reflected left to right.
pub open spec fn is_mirror(a: Hand, b: Hand) -> bool {
    &&& b.handedness == a.handedness
    &&& b.score == a.score
    &&& forall|i: int|
        0 <= i < LANDMARK_COUNT ==> #[trigger] b.landmarks[i] == mirror_point(a.landmarks[i])
}

impl Hand {
    /// The hand as a mirror shows it.
    pub fn mirrored(&self) -> (out: Hand)
        ensures
            is_mirror(*self, out),
    {
        let mut out = *self;
        let mut i: usize = 0;
        while i < LANDMARK_COUNT
            invariant
                i <= LANDMARK_COUNT,
                out.handedness == self.handedness,
                out.score == self.score,
                forall|k: int|
                    0 <= k < i ==> #[trigger] out.landmarks[k] == mirror_point(self.landmarks[k]),
                forall|k: int|
                    i <= k < LANDMARK_COUNT ==> #[trigger] out.landmarks[k] == self.landmarks[k],
            decreases LANDMARK_COUNT - i,
        {
            let p = out.landmarks[i];
            out.landmarks[i] = Vec3 { x: Fx::one().minus(p.x), y: p.y, z: p.z };
            i += 1;
        }
        out
    }
}

impl HandFrame {
    /// The first tracked hand of the given side.
    pub fn get(&self, which: Handedness) -> (found: Option<&Hand>)
        ensures
            match found {
                Some(hand) => exists|i: int|
                    0 <= i < self.hands@.len() && *hand == #[trigger] self.hands@[i]
                        && self.hands@[i].handedness == which && (forall|j: int|
                        0 <= j < i ==> (#[trigger] self.hands@[j]).handedness != which),
                None => forall|i: int|
                    0 <= i < self.hands@.len() ==> (#[trigger] self.hands@[i]).handedness != which,
            },
    {
        let mut i: usize = 0;
        while i < self.hands.len()
            invariant
                i <= self.hands.len(),
                forall|j: int| 0 <= j < i ==> (#[trigger] self.hands@[j]).handedness != which,
            decreases self.hands.len() - i,
        {
            if self.hands[i].handedness == which {
                return Some(&self.hands[i]);
            }
            i += 1;
        }
        None
    }

    /// The strongest curl of `finger` across all tracked hands.
    ///
    /// Taking the maximum means either hand can drive the control, which
    /// avoids depending on hand ordering: that is not stable across a hand
    /// being lost and reacquired.
    pub fn max_curl(&self, finger: Finger) -> (curl: Option<Fx>)
        ensures
            curl == max_curl_of(self.hands@, finger),
    {
        let mut best: Option<Fx> = None;
        let mut i: usize = 0;
        assert(self.hands@.take(0) =~= Seq::empty());
        while i < self.hands.len()
            invariant
                i <= self.hands.len(),
                best == max_curl_of(self.hands@.take(i as int), finger),
            decreases self.hands.len() - i,
        {
            let curl = self.hands[i].curl(finger);
            proof {
                assert(self.hands@.take(i + 1).drop_last() =~= self.hands@.take(i as int));
            }
            best = match best {
                Some(b) => Some(b.max(curl)),
                None => Some(curl),
            };
            i += 1;
        }
        assert(self.hands@.take(i as int) =~= self.hands@);
        best
    }

    /// The two hands ordered left-to-right *on screen*, which is what region
    /// builders actually care about. Goes by x-position rather than trusting
    /// the model's handedness flag.
    pub fn left_right_pair(&self) -> (pair: Option<(&Hand, &Hand)>)
        ensures
            pair is None <==> self.hands@.len() < 2,
            pair matches Some((left, right)) ==> exists|l: int, r: int| #[trigger]
                is_pair(self.hands@, l, r) && *left == self.hands@[l] && *right == self.hands@[r],
    {
        if self.hands.len() < 2 {
            return None;
        }
        let first: Fx = self.hands[0].palm_center().x;
        let second: Fx = self.hands[1].palm_center().x;
        let (mut l, mut r): (usize, usize) = if second.raw < first.raw {
            (1, 0)
        } else {
            (0, 1)
        };
        let mut i: usize = 2;
        while i < self.hands.len()
            invariant
                2 <= i <= self.hands.len(),
                l < i,
                r < i,
                l != r,
                left_of(self.hands@, l as int, r as int),
                forall|k: int|
                    0 <= k < i && k != l && k != r ==> #[trigger] left_of(
                        self.hands@,
                        r as int,
                        k,
                    ),
            decreases self.hands.len() - i,
        {
            let x: Fx = self.hands[i].palm_center().x;
            let ghost second = r as int;
            if x.raw < self.hands[l].palm_center().x.raw {
                r = l;
                l = i;
            } else if x.raw < self.hands[r].palm_center().x.raw {
                r = i;
            }
            i += 1;
            assert forall|k: int| 0 <= k < i && k != l && k != r implies #[trigger] left_of(
                self.hands@,
                r as int,
                k,
            ) by {
                assert(k == second || k == i - 1 || left_of(self.hands@, second, k));
            }
        }
        assert(is_pair(self.hands@, l as int, r as int));
        Some((&self.hands[l], &self.hands[r]))
    }

    /// The frame as a mirror shows it.
    pub fn mirrored(&self) -> (out: HandFrame)
        ensures
            out.seq == self.seq,
            out.hands@.len() == self.hands@.len(),
            forall|i: int|
                0 <= i < out.hands@.len() ==> is_mirror(self.hands@[i], #[trigger] out.hands@[i]),
    {
        let mut hands: Vec<Hand> = Vec::new();
        let mut i: usize = 0;
        while i < self.hands.len()
            invariant
                i <= self.hands.len(),
                hands@.len() == i,
                forall|k: int| 0 <= k < i ==> is_mirror(self.hands@[k], #[trigger] hands@[k]),
            decreases self.hands.len() - i,
        {
            hands.push(self.hands[i].mirrored());
            i += 1;
        }
        HandFrame { hands, seq: self.seq }
    }
}

/// The strongest curl of `finger` among `hands`.
pub open spec fn max_curl_of(hands: Seq<Hand>, finger: Finger) -> Option<Fx>
    decreases hands.len(),
{
    if hands.len() == 0 {
        None
    } else {
        let last = hands.last().curl(finger);
        Some(
            match max_curl_of(hands.drop_last(), finger) {
                Some(best) => best.max(last),
                None => last,
            },
        )
    }
}

} // verus!
