//! Gesture recognition: turns landmark geometry into discrete events.
//!
//! Detectors are independent and stateful. Add a feature by implementing
//! `GestureDetector` and pushing it into the `GestureEngine`.

use crate::fixed::Fx;
use crate::settings::{Knob, Tunable};
use crate::tracking::hand::{Finger, Hand, HandFrame};
use vstd::prelude::*;

verus! {

/// Something a hand did. Consumers match on this to drive behaviour.
#[derive(Debug, Clone, Copy, PartialEq, Eq, Structural)]
pub enum GestureEvent {
    /// Two fingertips on the same hand came together.
    TouchStart { hand: usize, a: Finger, b: Finger },
    /// ...and separated again.
    TouchEnd { hand: usize, a: Finger, b: Finger },
    /// The number of tracked hands changed.
    HandCountChanged { count: usize },
}

/// One frame as a detector sees it: the hands, and the time since the last.
pub ghost struct Shown {
    pub hands: Seq<Hand>,
    pub dt: Fx,
}

pub trait GestureDetector: Send {
    /// The detector's name.
    spec fn label(&self) -> Seq<char>;

    /// What the detector emits on the last of a run of frames.
    spec fn emits(&self, frames: Seq<Shown>) -> Seq<GestureEvent>;

    /// The knobs that the panel may turn.
    spec fn knobs(&self) -> Seq<Knob>;

    /// The detector becomes `after` when it is shown a frame.
    spec fn steps_to(&self, shown: Shown, after: &Self) -> bool;

    fn name(&self) -> (name: &str)
        ensures
            name@ == self.label(),
    ;

    fn update(&mut self, frame: &HandFrame, dt: Fx, out: &mut Vec<GestureEvent>)
        ensures
            final(self).label() == old(self).label(),
            final(self).knobs() == old(self).knobs(),
            old(self).steps_to(Shown { hands: frame.hands@, dt }, final(self)),
            final(out)@ == old(out)@ + old(self).emits(
                seq![Shown { hands: frame.hands@, dt }],
            ),
            forall|later: Seq<Shown>|
                later.len() > 0 ==> #[trigger] final(self).emits(later) == old(self).emits(
                    seq![Shown { hands: frame.hands@, dt }] + later,
                ),
    ;

    fn tunables(&mut self) -> (out: Vec<Tunable<'_>>)
        ensures
            final(self).label() == old(self).label(),
            out@.len() == old(self).knobs().len(),
            final(self).knobs().len() == old(self).knobs().len(),
            forall|i: int| 0 <= i < out@.len() ==> (#[trigger] out@[i]).shows(old(self).knobs()[i]),
            forall|i: int|
                0 <= i < out@.len() ==> #[trigger] final(self).knobs()[i] == (Knob {
                    value: *final(out@[i].value),
                    ..old(self).knobs()[i]
                }),
    ;
}

/// Runs every detector over each frame and collects their events.
pub struct GestureEngine<D> {
    detectors: Vec<D>,
    events: Vec<GestureEvent>,
}

/// What the first `n` detectors emit between them.
pub open spec fn emitted<D: GestureDetector>(
    detectors: Seq<D>,
    frames: Seq<Shown>,
    n: int,
) -> Seq<GestureEvent>
    decreases n,
{
    if n <= 0 {
        seq![]
    } else {
        emitted(detectors, frames, n - 1) + detectors[n - 1].emits(frames)
    }
}

impl<D: GestureDetector> GestureEngine<D> {
    pub closed spec fn detectors(&self) -> Seq<D> {
        self.detectors@
    }

    /// What the engine emits on the last of a run of frames.
    pub open spec fn emits(&self, frames: Seq<Shown>) -> Seq<GestureEvent> {
        emitted(self.detectors(), frames, self.detectors().len() as int)
    }

    pub fn new() -> (engine: GestureEngine<D>)
        ensures
            engine.detectors() == Seq::<D>::empty(),
    {
        GestureEngine { detectors: Vec::new(), events: Vec::new() }
    }

    pub fn with(self, d: D) -> (engine: GestureEngine<D>)
        ensures
            engine.detectors() == self.detectors().push(d),
    {
        let mut engine = self;
        engine.detectors.push(d);
        engine
    }

    pub fn update(&mut self, frame: &HandFrame, dt: Fx) -> (events: &[GestureEvent])
        ensures
            events@ == old(self).emits(seq![Shown { hands: frame.hands@, dt }]),
            final(self).detectors().len() == old(self).detectors().len(),
            forall|i: int|
                0 <= i < old(self).detectors().len() ==> (
                #[trigger] final(self).detectors()[i]).knobs() == old(self).detectors()[i].knobs()
                    && final(self).detectors()[i].label() == old(self).detectors()[i].label()
                    && old(self).detectors()[i].steps_to(
                    Shown { hands: frame.hands@, dt },
                    &final(self).detectors()[i],
                ),
            forall|later: Seq<Shown>|
                later.len() > 0 ==> #[trigger] final(self).emits(later) == old(self).emits(
                    seq![Shown { hands: frame.hands@, dt }] + later,
                ),
    {
        let ghost now = seq![Shown { hands: frame.hands@, dt }];
        let ghost before = self.detectors@;
        self.events.clear();
        let mut i: usize = 0;
        while i < self.detectors.len()
            invariant
                i <= self.detectors.len(),
                self.detectors.len() == before.len(),
                now == seq![Shown { hands: frame.hands@, dt }],
                self.events@ == emitted(before, now, i as int),
                forall|j: int| i <= j < before.len() ==> self.detectors@[j] == before[j],
                forall|j: int|
                    0 <= j < i ==> (#[trigger] self.detectors@[j]).knobs() == before[j].knobs()
                        && self.detectors@[j].label() == before[j].label()
                        && before[j].steps_to(now[0], &self.detectors@[j]),
                forall|j: int, later: Seq<Shown>|
                    0 <= j < i && later.len() > 0 ==> #[trigger] self.detectors@[j].emits(later)
                        == before[j].emits(now + later),
            decreases self.detectors.len() - i,
        {
            self.detectors[i].update(frame, dt, &mut self.events);
            i += 1;
        }
        proof {
            assert forall|later: Seq<Shown>| later.len() > 0 implies #[trigger] self.emits(later)
                == old(self).emits(now + later) by {
                lemma_emitted(self.detectors@, before, later, now + later, before.len() as int);
            }
        }
        &self.events
    }

    /// How many detectors there are.
    pub fn count(&self) -> (n: usize)
        ensures
            n == self.detectors().len(),
    {
        self.detectors.len()
    }

    /// Detector `index`, for the panel to name and to tune.
    pub fn detector(&mut self, index: usize) -> (detector: &mut D)
        requires
            index < old(self).detectors().len(),
        ensures
            *detector == old(self).detectors()[index as int],
            final(self).detectors() == old(self).detectors().update(
                index as int,
                *final(detector),
            ),
    {
        &mut self.detectors[index]
    }
}

proof fn lemma_emitted<D: GestureDetector>(
    after: Seq<D>,
    before: Seq<D>,
    later: Seq<Shown>,
    all: Seq<Shown>,
    n: int,
)
    requires
        forall|j: int| 0 <= j < n ==> (#[trigger] after[j]).emits(later) == before[j].emits(all),
    ensures
        emitted(after, later, n) == emitted(before, all, n),
    decreases n,
{
    if n > 0 {
        lemma_emitted(after, before, later, all, n - 1);
        assert(after[n - 1].emits(later) == before[n - 1].emits(all));
    }
}

impl<D: GestureDetector> Default for GestureEngine<D> {
    fn default() -> (engine: GestureEngine<D>)
        ensures
            engine.detectors() == Seq::<D>::empty(),
    {
        GestureEngine::new()
    }
}

/// Fires when two fingertips touch.
///
/// Thresholds are in palm-widths, so the gesture behaves identically whether
/// the hand is close to the camera or far away. Separate enter/exit distances
/// give hysteresis, which stops the event flickering when the fingers hover
/// right at the boundary.
pub struct FingerTouch {
    a: Finger,
    b: Finger,
    enter: Fx,
    exit: Fx,
    /// Per-hand state, indexed like `HandFrame::hands`.
    grips: Vec<Grip>,
    cooldown_secs: Fx,
}

/// What is remembered of one hand.
#[derive(Debug, Clone, Copy)]
pub struct Grip {
    pub contact: bool,
    /// Refuses a re-trigger until this reaches zero, so one physical tap
    /// cannot emit a burst of events.
    pub cooldown: Fx,
}

/// What a [`FingerTouch`] holds: its two fingers, its thresholds, and for each
/// hand whether they touch and how long a new touch is refused.
pub ghost struct Touch {
    pub a: Finger,
    pub b: Finger,
    pub enter: Fx,
    pub exit: Fx,
    pub cooldown_secs: Fx,
    pub grips: Seq<Grip>,
}

/// A hand that has just come into view.
pub open spec fn fresh_grip() -> Grip {
    Grip { contact: false, cooldown: Fx::zero() }
}

impl Touch {
    /// What is remembered of hand `i`.
    pub open spec fn grip(self, i: int) -> Grip {
        if 0 <= i < self.grips.len() {
            self.grips[i]
        } else {
            fresh_grip()
        }
    }

    /// How long hand `i` still refuses a touch, `dt` later.
    pub open spec fn wait(self, dt: Fx, i: int) -> Fx {
        self.grip(i).cooldown.minus(dt).max(Fx::zero())
    }

    /// The two fingertips of hand `i` come together.
    pub open spec fn closes(self, shown: Shown, i: int) -> bool {
        !self.grip(i).contact && shown.hands[i].pinch_distance(self.a, self.b).raw < self.enter.raw
    }

    /// The two fingertips of hand `i` come apart.
    pub open spec fn opens(self, shown: Shown, i: int) -> bool {
        self.grip(i).contact && shown.hands[i].pinch_distance(self.a, self.b).raw > self.exit.raw
    }

    /// Hand `i` after a frame.
    pub open spec fn next_grip(self, shown: Shown, i: int) -> Grip {
        Grip {
            contact: self.closes(shown, i) || (self.grip(i).contact && !self.opens(shown, i)),
            cooldown: if self.closes(shown, i) && self.wait(shown.dt, i).raw <= 0 {
                self.cooldown_secs
            } else {
                self.wait(shown.dt, i)
            },
        }
    }

    /// The event that hand `i` gives rise to, if any.
    pub open spec fn event(self, shown: Shown, i: int) -> Option<GestureEvent> {
        if self.closes(shown, i) && self.wait(shown.dt, i).raw <= 0 {
            Some(GestureEvent::TouchStart { hand: i as usize, a: self.a, b: self.b })
        } else if self.opens(shown, i) {
            Some(GestureEvent::TouchEnd { hand: i as usize, a: self.a, b: self.b })
        } else {
            None
        }
    }

    /// The events of the first `n` hands.
    pub open spec fn events(self, shown: Shown, n: int) -> Seq<GestureEvent>
        decreases n,
    {
        if n <= 0 {
            seq![]
        } else {
            match self.event(shown, n - 1) {
                Some(event) => self.events(shown, n - 1).push(event),
                None => self.events(shown, n - 1),
            }
        }
    }

    /// The detector after a frame.
    pub open spec fn next(self, shown: Shown) -> Touch {
        Touch {
            grips: Seq::new(shown.hands.len(), |i: int| self.next_grip(shown, i)),
            ..self
        }
    }

    /// The detector after a run of frames.
    pub open spec fn after(self, frames: Seq<Shown>) -> Touch
        decreases frames.len(),
    {
        if frames.len() == 0 {
            self
        } else {
            self.after(frames.drop_last()).next(frames.last())
        }
    }

    /// The events of the last of a run of frames.
    pub open spec fn emits(self, frames: Seq<Shown>) -> Seq<GestureEvent> {
        if frames.len() == 0 {
            seq![]
        } else {
            self.after(frames.drop_last()).events(frames.last(), frames.last().hands.len() as int)
        }
    }
}

impl View for FingerTouch {
    type V = Touch;

    closed spec fn view(&self) -> Touch {
        Touch {
            a: self.a,
            b: self.b,
            enter: self.enter,
            exit: self.exit,
            cooldown_secs: self.cooldown_secs,
            grips: self.grips@,
        }
    }
}

/// A run of frames is a frame and then the rest.
proof fn lemma_after(touch: Touch, first: Shown, later: Seq<Shown>)
    ensures
        touch.after(seq![first] + later) == touch.next(first).after(later),
    decreases later.len(),
{
    let all = seq![first] + later;
    if later.len() == 0 {
        assert(all.drop_last() =~= seq![]);
        assert(touch.after(seq![]) == touch);
        assert(touch.after(all) == touch.after(all.drop_last()).next(all.last()));
    } else {
        assert(all.drop_last() =~= seq![first] + later.drop_last());
        lemma_after(touch, first, later.drop_last());
    }
}

impl FingerTouch {
    pub fn new(a: Finger, b: Finger) -> (detector: FingerTouch)
        ensures
            detector@ == (Touch {
                a,
                b,
                enter: Fx::ratio(32, 100),
                exit: Fx::ratio(45, 100),
                cooldown_secs: Fx::ratio(35, 100),
                grips: seq![],
            }),
    {
        let detector = FingerTouch {
            a,
            b,
            enter: Fx::ratio(32, 100),
            exit: Fx::ratio(45, 100),
            grips: Vec::new(),
            cooldown_secs: Fx::ratio(35, 100),
        };
        assert(detector@.grips =~= seq![]);
        detector
    }
}

impl GestureDetector for FingerTouch {
    open spec fn label(&self) -> Seq<char> {
        "finger-touch"@
    }

    open spec fn steps_to(&self, shown: Shown, after: &Self) -> bool {
        after@ == self@.next(shown)
    }

    open spec fn emits(&self, frames: Seq<Shown>) -> Seq<GestureEvent> {
        self@.emits(frames)
    }

    open spec fn knobs(&self) -> Seq<Knob> {
        seq![
            Knob {
                label: "touch below"@,
                value: self@.enter,
                min: Fx::ratio(5, 100),
                max: Fx::one(),
            },
            Knob {
                label: "release above"@,
                value: self@.exit,
                min: Fx::ratio(5, 100),
                max: Fx::ratio(3, 2),
            },
            Knob {
                label: "debounce"@,
                value: self@.cooldown_secs,
                min: Fx::zero(),
                max: Fx::whole(2),
            },
        ]
    }

    fn name(&self) -> &str {
        "finger-touch"
    }

    fn update(&mut self, frame: &HandFrame, dt: Fx, out: &mut Vec<GestureEvent>)
        ensures
            final(self)@ == old(self)@.next(Shown { hands: frame.hands@, dt }),
            final(out)@ == old(out)@ + old(self)@.events(
                Shown { hands: frame.hands@, dt },
                frame.hands@.len() as int,
            ),
    {
        let ghost shown = Shown { hands: frame.hands@, dt };
        let ghost before = self@;
        let mut grips: Vec<Grip> = Vec::new();
        let mut i: usize = 0;
        while i < frame.hands.len()
            invariant
                i <= frame.hands.len(),
                shown == (Shown { hands: frame.hands@, dt }),
                before == self@,
                grips@.len() == i,
                forall|j: int| 0 <= j < i ==> #[trigger] grips@[j] == before.next_grip(shown, j),
                out@ == old(out)@ + before.events(shown, i as int),
            decreases frame.hands.len() - i,
        {
            let grip: Grip = if i < self.grips.len() {
                self.grips[i]
            } else {
                Grip { contact: false, cooldown: Fx::zero() }
            };
            let mut contact: bool = grip.contact;
            let mut cooldown: Fx = grip.cooldown.minus(dt).max(Fx::zero());
            let d: Fx = frame.hands[i].pinch_distance(self.a, self.b);
            if !contact && d.raw < self.enter.raw {
                contact = true;
                if cooldown.raw <= 0 {
                    cooldown = self.cooldown_secs;
                    out.push(GestureEvent::TouchStart { hand: i, a: self.a, b: self.b });
                }
            } else if contact && d.raw > self.exit.raw {
                contact = false;
                out.push(GestureEvent::TouchEnd { hand: i, a: self.a, b: self.b });
            }
            grips.push(Grip { contact, cooldown });
            i += 1;
        }
        self.grips = grips;
        proof {
            assert(self@.grips =~= before.next(shown).grips);
            let now = seq![shown];
            assert(now.drop_last() =~= seq![]);
            assert(before.after(seq![]) == before);
            assert forall|later: Seq<Shown>| later.len() > 0 implies #[trigger] self.emits(later)
                == old(self).emits(now + later) by {
                assert((now + later).drop_last() =~= now + later.drop_last());
                lemma_after(before, shown, later.drop_last());
            }
        }
    }

    fn tunables(&mut self) -> (out: Vec<Tunable<'_>>)
        ensures
            out@.len() == 3,
            *out@[0].value == old(self)@.enter,
            *out@[1].value == old(self)@.exit,
            *out@[2].value == old(self)@.cooldown_secs,
            final(self)@ == (Touch {
                enter: *final(out@[0].value),
                exit: *final(out@[1].value),
                cooldown_secs: *final(out@[2].value),
                ..old(self)@
            }),
    {
        let mut out: Vec<Tunable> = Vec::new();
        out.push(
            Tunable::new("touch below", &mut self.enter, Fx::ratio(5, 100), Fx::one()),
        );
        out.push(
            Tunable::new("release above", &mut self.exit, Fx::ratio(5, 100), Fx::ratio(3, 2)),
        );
        out.push(Tunable::new("debounce", &mut self.cooldown_secs, Fx::zero(), Fx::whole(2)));
        out
    }
}

/// Reports when hands enter or leave the frame.
pub struct HandCount {
    last: Option<usize>,
}

impl View for HandCount {
    type V = Option<usize>;

    closed spec fn view(&self) -> Option<usize> {
        self.last
    }
}

/// The number of hands in the last of a run of frames, as a detector that
/// last saw `last` knows it.
pub open spec fn count_after(last: Option<usize>, frames: Seq<Shown>) -> Option<usize> {
    if frames.len() == 0 {
        last
    } else {
        Some(frames.last().hands.len() as usize)
    }
}

/// The event that a number of hands gives rise to: none if it was known.
pub open spec fn count_events(last: Option<usize>, count: usize) -> Seq<GestureEvent> {
    if last == Some(count) {
        seq![]
    } else {
        seq![GestureEvent::HandCountChanged { count }]
    }
}

impl Default for HandCount {
    fn default() -> (detector: HandCount)
        ensures
            detector@ is None,
    {
        HandCount { last: None }
    }
}

impl GestureDetector for HandCount {
    open spec fn label(&self) -> Seq<char> {
        "hand-count"@
    }

    open spec fn steps_to(&self, shown: Shown, after: &Self) -> bool {
        after@ == Some(shown.hands.len() as usize)
    }

    open spec fn emits(&self, frames: Seq<Shown>) -> Seq<GestureEvent> {
        if frames.len() == 0 {
            seq![]
        } else {
            count_events(
                count_after(self@, frames.drop_last()),
                frames.last().hands.len() as usize,
            )
        }
    }

    open spec fn knobs(&self) -> Seq<Knob> {
        seq![]
    }

    fn name(&self) -> &str {
        "hand-count"
    }

    fn update(&mut self, frame: &HandFrame, _dt: Fx, out: &mut Vec<GestureEvent>)
        ensures
            final(self)@ == Some(frame.hands.len()),
            final(out)@ == old(out)@ + count_events(old(self)@, frame.hands.len()),
    {
        let count: usize = frame.hands.len();
        let known: bool = match self.last {
            Some(last) => last == count,
            None => false,
        };
        if !known {
            self.last = Some(count);
            out.push(GestureEvent::HandCountChanged { count });
        }
        proof {
            let now = seq![Shown { hands: frame.hands@, dt: _dt }];
            assert(now.drop_last() =~= seq![]);
            assert forall|later: Seq<Shown>| later.len() > 0 implies #[trigger] self.emits(later)
                == old(self).emits(now + later) by {
                assert((now + later).drop_last() =~= now + later.drop_last());
            }
        }
    }

    fn tunables(&mut self) -> (out: Vec<Tunable<'_>>)
        ensures
            out@.len() == 0,
            final(self)@ == old(self)@,
    {
        Vec::new()
    }
}

/// The detectors that come with the library, as one type an engine can hold.
pub enum Detector {
    Touch(FingerTouch),
    Count(HandCount),
}

impl GestureDetector for Detector {
    open spec fn label(&self) -> Seq<char> {
        match self {
            Detector::Touch(d) => d.label(),
            Detector::Count(d) => d.label(),
        }
    }

    open spec fn steps_to(&self, shown: Shown, after: &Self) -> bool {
        match (self, after) {
            (Detector::Touch(d), Detector::Touch(e)) => d.steps_to(shown, e),
            (Detector::Count(d), Detector::Count(e)) => d.steps_to(shown, e),
            _ => false,
        }
    }

    open spec fn emits(&self, frames: Seq<Shown>) -> Seq<GestureEvent> {
        match self {
            Detector::Touch(d) => d.emits(frames),
            Detector::Count(d) => d.emits(frames),
        }
    }

    open spec fn knobs(&self) -> Seq<Knob> {
        match self {
            Detector::Touch(d) => d.knobs(),
            Detector::Count(d) => d.knobs(),
        }
    }

    fn name(&self) -> &str {
        match self {
            Detector::Touch(d) => d.name(),
            Detector::Count(d) => d.name(),
        }
    }

    fn update(&mut self, frame: &HandFrame, dt: Fx, out: &mut Vec<GestureEvent>) {
        match self {
            Detector::Touch(d) => d.update(frame, dt, out),
            Detector::Count(d) => d.update(frame, dt, out),
        }
    }

    fn tunables(&mut self) -> (out: Vec<Tunable<'_>>)
        ensures
            *old(self) matches Detector::Touch(d) ==> *final(self) matches Detector::Touch(e)
                && e@ == (Touch {
                enter: *final(out@[0].value),
                exit: *final(out@[1].value),
                cooldown_secs: *final(out@[2].value),
                ..d@
            }),
            *old(self) matches Detector::Count(d) ==> *final(self) matches Detector::Count(e)
                && e@ == d@,
    {
        match self {
            Detector::Touch(d) => d.tunables(),
            Detector::Count(d) => d.tunables(),
        }
    }
}

/// Between the two thresholds nothing happens: a hand neither touches nor lets
/// go, whichever it was doing.
pub proof fn law_hysteresis(touch: Touch, shown: Shown, i: int)
    requires
        touch.enter.raw <= shown.hands[i].pinch_distance(touch.a, touch.b).raw <= touch.exit.raw,
    ensures
        touch.event(shown, i) is None,
        touch.next_grip(shown, i).contact == touch.grip(i).contact,
{
}

/// Thresholds that were edited between two frames apply from the next one on,
/// whatever they were before: an open hand whose wait is over touches below
/// `enter`, and a touching one lets go above `exit`.
pub proof fn law_edited_thresholds_apply(touch: Touch, enter: Fx, exit: Fx, shown: Shown, i: int)
    ensures
        ({
            let edited = Touch { enter, exit, ..touch };
            let d = shown.hands[i].pinch_distance(touch.a, touch.b);
            &&& !touch.grip(i).contact && touch.wait(shown.dt, i).raw <= 0 ==> edited.event(
                shown,
                i,
            ) == if d.raw < enter.raw {
                Some(GestureEvent::TouchStart { hand: i as usize, a: touch.a, b: touch.b })
            } else {
                None
            }
            &&& touch.grip(i).contact ==> edited.event(shown, i) == if d.raw > exit.raw {
                Some(GestureEvent::TouchEnd { hand: i as usize, a: touch.a, b: touch.b })
            } else {
                None
            }
        }),
{
}

/// A touch starts only where there was none, and ends only where there was one.
pub proof fn law_touches_alternate(touch: Touch, shown: Shown, i: int)
    ensures
        touch.event(shown, i) matches Some(GestureEvent::TouchStart { .. }) ==> !touch.grip(
            i,
        ).contact && touch.next_grip(shown, i).contact,
        touch.event(shown, i) matches Some(GestureEvent::TouchEnd { .. }) ==> touch.grip(i).contact
            && !touch.next_grip(shown, i).contact,
{
}

/// Hand `i` is in every frame, its fingers no further apart than they are
/// released at.
pub open spec fn holds(touch: Touch, frames: Seq<Shown>, i: int) -> bool {
    forall|k: int|
        0 <= k < frames.len() ==> i < (#[trigger] frames[k]).hands.len()
            && frames[k].hands[i].pinch_distance(touch.a, touch.b).raw <= touch.exit.raw
}

/// A touch that is held is reported once: however many frames it lasts, the
/// hand stays silent.
pub proof fn law_no_repeat_while_held(touch: Touch, frames: Seq<Shown>, i: int)
    requires
        0 <= i,
        touch.grip(i).contact,
        frames.len() > 0,
        holds(touch, frames, i),
    ensures
        touch.after(frames.drop_last()).event(frames.last(), i) is None,
        touch.after(frames).grip(i).contact,
    decreases frames.len(),
{
    let start = frames.drop_last();
    lemma_keeps_settings(touch, start);
    assert(frames[frames.len() - 1] == frames.last());
    if start.len() > 0 {
        assert(holds(touch, start, i)) by {
            assert forall|k: int| 0 <= k < start.len() implies i < (
            #[trigger] start[k]).hands.len() && start[k].hands[i].pinch_distance(
                touch.a,
                touch.b,
            ).raw <= touch.exit.raw by {
                assert(start[k] == frames[k]);
            }
        }
        law_no_repeat_while_held(touch, start, i);
    }
}

/// Frames change what is remembered of the hands and nothing else.
proof fn lemma_keeps_settings(touch: Touch, frames: Seq<Shown>)
    ensures
        touch.after(frames).a == touch.a,
        touch.after(frames).b == touch.b,
        touch.after(frames).enter == touch.enter,
        touch.after(frames).exit == touch.exit,
        touch.after(frames).cooldown_secs == touch.cooldown_secs,
    decreases frames.len(),
{
    if frames.len() > 0 {
        lemma_keeps_settings(touch, frames.drop_last());
    }
}

/// The time that a run of frames takes, in steps.
pub open spec fn elapsed(frames: Seq<Shown>) -> int
    decreases frames.len(),
{
    if frames.len() == 0 {
        0
    } else {
        elapsed(frames.drop_last()) + frames.last().dt.raw
    }
}

/// Hand `i` is in every frame, and no frame runs time backwards.
pub open spec fn in_view(frames: Seq<Shown>, i: int) -> bool {
    forall|k: int|
        0 <= k < frames.len() ==> i < (#[trigger] frames[k]).hands.len() && frames[k].dt.raw >= 0
}

/// After a touch, the same hand starts no other until the cooldown is over,
/// however often its fingers meet.
pub proof fn law_cooldown_blocks_retrigger(
    touch: Touch,
    first: Shown,
    frames: Seq<Shown>,
    i: int,
)
    requires
        0 <= i < first.hands.len(),
        touch.event(first, i) matches Some(GestureEvent::TouchStart { .. }),
        in_view(frames, i),
        frames.len() > 0,
        elapsed(frames) < touch.cooldown_secs.raw,
    ensures
        !(touch.next(first).after(frames.drop_last()).event(frames.last(), i) matches Some(
            GestureEvent::TouchStart { .. },
        )),
{
    let start = frames.drop_last();
    let now = touch.next(first);
    assert(now.grip(i).cooldown == touch.cooldown_secs);
    assert(in_view(start, i)) by {
        assert forall|k: int| 0 <= k < start.len() implies i < (#[trigger] start[k]).hands.len()
            && start[k].dt.raw >= 0 by {
            assert(start[k] == frames[k]);
        }
    }
    assert(frames[frames.len() - 1].dt.raw >= 0);
    lemma_elapsed(frames, i);
    lemma_elapsed(start, i);
    lemma_cooldown(now, start, i);
}

proof fn lemma_cooldown(touch: Touch, frames: Seq<Shown>, i: int)
    requires
        0 <= i,
        in_view(frames, i),
        0 <= elapsed(frames) < touch.grip(i).cooldown.raw || frames.len() == 0,
        touch.grip(i).cooldown.raw <= touch.cooldown_secs.raw,
        touch.grip(i).cooldown.raw >= 0,
    ensures
        elapsed(frames) >= 0,
        touch.after(frames).grip(i).cooldown.raw >= touch.grip(i).cooldown.raw - elapsed(frames),
    decreases frames.len(),
{
    if frames.len() > 0 {
        let start = frames.drop_last();
        assert(in_view(start, i)) by {
            assert forall|k: int| 0 <= k < start.len() implies i < (
            #[trigger] start[k]).hands.len() && start[k].dt.raw >= 0 by {
                assert(start[k] == frames[k]);
            }
        }
        lemma_elapsed(start, i);
        assert(frames[frames.len() - 1].dt.raw >= 0);
        lemma_cooldown(touch, start, i);
        lemma_keeps_settings(touch, start);
        let before = touch.after(start);
        assert(touch.after(frames).grip(i) == before.next_grip(frames.last(), i));
    }
}

proof fn lemma_elapsed(frames: Seq<Shown>, i: int)
    requires
        in_view(frames, i),
    ensures
        elapsed(frames) >= 0,
    decreases frames.len(),
{
    if frames.len() > 0 {
        let start = frames.drop_last();
        assert(in_view(start, i)) by {
            assert forall|k: int| 0 <= k < start.len() implies i < (
            #[trigger] start[k]).hands.len() && start[k].dt.raw >= 0 by {
                assert(start[k] == frames[k]);
            }
        }
        lemma_elapsed(start, i);
        assert(frames[frames.len() - 1].dt.raw >= 0);
    }
}

/// A hand that comes into view has no touch to end.
pub proof fn law_new_hand_starts_open(touch: Touch, shown: Shown, i: int)
    requires
        i >= touch.grips.len(),
    ensures
        !(touch.event(shown, i) matches Some(GestureEvent::TouchEnd { .. })),
{
}

/// The number of hands is reported when it differs from the frame before, and
/// on the first frame; never otherwise.
pub proof fn law_count_reports_changes_only(detector: HandCount, frames: Seq<Shown>)
    requires
        detector@ is None,
        frames.len() > 0,
        forall|k: int|
            0 <= k < frames.len() ==> (#[trigger] frames[k]).hands.len() <= usize::MAX,
    ensures
        detector.emits(frames).len() == 0 <==> frames.len() > 1 && frames[frames.len()
            - 2].hands.len() == frames.last().hands.len(),
        detector.emits(frames).len() <= 1,
{
    assert(frames[frames.len() - 1] == frames.last());
    if frames.len() > 1 {
        assert(frames.drop_last().last() == frames[frames.len() - 2]);
    }
}

/// What a hand does is among the events of the frame.
proof fn lemma_event_is_emitted(touch: Touch, shown: Shown, i: int, n: int)
    requires
        0 <= i < n,
        touch.event(shown, i) is Some,
    ensures
        touch.events(shown, n).contains(touch.event(shown, i)->0),
    decreases n,
{
    let e = touch.event(shown, i)->0;
    let all = touch.events(shown, n);
    if i == n - 1 {
        assert(all[all.len() - 1] == e);
    } else {
        lemma_event_is_emitted(touch, shown, i, n - 1);
        let before = touch.events(shown, n - 1);
        let k = choose|k: int| 0 <= k < before.len() && before[k] == e;
        assert(all[k] == e);
    }
}

/// An event of a frame is what its hand does.
proof fn lemma_emitted_by_its_hand(touch: Touch, shown: Shown, i: int, e: GestureEvent, n: int)
    requires
        touch.events(shown, n).contains(e),
        0 <= i,
        n <= usize::MAX,
        e == (GestureEvent::TouchStart { hand: i as usize, a: touch.a, b: touch.b }),
        i <= usize::MAX,
    ensures
        0 <= i < n,
        touch.event(shown, i) == Some(e),
    decreases n,
{
    let all = touch.events(shown, n);
    let k = choose|k: int| 0 <= k < all.len() && all[k] == e;
    if n > 0 {
        let before = touch.events(shown, n - 1);
        if k < before.len() {
            assert(before[k] == e);
            lemma_emitted_by_its_hand(touch, shown, i, e, n - 1);
        }
    }
}

/// What is left of the wait after a run of frames without a touch: at most what
/// the run did not use up.
proof fn lemma_wait_runs_down(touch: Touch, frames: Seq<Shown>, i: int, left: int)
    requires
        0 <= i,
        touch.grip(i).cooldown.raw <= left,
        forall|k: int|
            0 <= k < frames.len() ==> i < (#[trigger] frames[k]).hands.len() && frames[k].dt.raw >= 0
                && !(touch.after(frames.take(k)).closes(frames[k], i) && touch.after(
                frames.take(k),
            ).wait(frames[k].dt, i).raw <= 0),
    ensures
        touch.after(frames).grip(i).cooldown.raw <= (if left - elapsed(frames) > 0 {
            left - elapsed(frames)
        } else {
            if frames.len() == 0 {
                left
            } else {
                0
            }
        }),
        elapsed(frames) >= 0,
    decreases frames.len(),
{
    if frames.len() > 0 {
        let n = frames.len() - 1;
        let start = frames.drop_last();
        assert(frames.take(n) =~= start);
        assert forall|k: int| 0 <= k < start.len() implies i < (#[trigger] start[k]).hands.len()
            && start[k].dt.raw >= 0 && !(touch.after(start.take(k)).closes(start[k], i)
            && touch.after(start.take(k)).wait(start[k].dt, i).raw <= 0) by {
            assert(start.take(k) =~= frames.take(k));
            assert(start[k] == frames[k]);
        }
        lemma_wait_runs_down(touch, start, i, left);
        assert(frames[n] == frames.last());
        let before = touch.after(start);
        assert(touch.after(frames).grip(i) == before.next_grip(frames.last(), i));
    }
}

/// The wait ends: a hand that stays in view, and that has not touched again
/// since a touch was reported, touches anew once the time since adds up to the
/// cooldown, however it is divided into frames. Its fingers come apart in frame
/// `j`, stay apart, and come together in `last`, and `last` reports it.
#[verifier::rlimit(40)]
pub proof fn law_cooldown_ends(
    d: FingerTouch,
    start: Shown,
    frames: Seq<Shown>,
    last: Shown,
    i: int,
    j: int,
)
    requires
        0 <= i < last.hands.len() <= usize::MAX,
        start.hands.len() <= usize::MAX,
        forall|k: int|
            0 <= k < frames.len() ==> i < (#[trigger] frames[k]).hands.len() <= usize::MAX
                && frames[k].dt.raw >= 0,
        last.dt.raw >= 0,
        d.emits(seq![start]).contains(
            GestureEvent::TouchStart { hand: i as usize, a: d@.a, b: d@.b },
        ),
        forall|k: int|
            0 <= k < frames.len() ==> !(#[trigger] d.emits(
                seq![start] + frames.take(k + 1),
            )).contains(GestureEvent::TouchStart { hand: i as usize, a: d@.a, b: d@.b }),
        elapsed(frames) + last.dt.raw >= d@.cooldown_secs.raw,
        0 <= j < frames.len(),
        frames[j].hands[i].pinch_distance(d@.a, d@.b).raw > d@.exit.raw,
        forall|k: int|
            j <= k < frames.len() ==> (#[trigger] frames[k]).hands[i].pinch_distance(
                d@.a,
                d@.b,
            ).raw >= d@.enter.raw,
        last.hands[i].pinch_distance(d@.a, d@.b).raw < d@.enter.raw,
    ensures
        d.emits((seq![start] + frames).push(last)).contains(
            GestureEvent::TouchStart { hand: i as usize, a: d@.a, b: d@.b },
        ),
{
    let touch = d@;
    let tap = GestureEvent::TouchStart { hand: i as usize, a: touch.a, b: touch.b };
    assert(seq![start].drop_last() =~= seq![]);
    assert(touch.after(seq![]) == touch);
    lemma_emitted_by_its_hand(touch, start, i, tap, start.hands.len() as int);
    let held = touch.next(start);
    assert(held.grip(i).cooldown == touch.cooldown_secs);
    assert forall|k: int| 0 <= k < frames.len() implies i < (#[trigger] frames[k]).hands.len()
        && frames[k].dt.raw >= 0 && !(held.after(frames.take(k)).closes(frames[k], i) && held.after(
        frames.take(k),
    ).wait(frames[k].dt, i).raw <= 0) by {
        assert(!d.emits(seq![start] + frames.take(k + 1)).contains(tap));
        lemma_silent_frame(touch, start, frames, i, k);
    }
    lemma_wait_runs_down(held, frames, i, touch.cooldown_secs.raw as int);
    let now = held.after(frames);
    lemma_after(touch, start, frames);
    lemma_keeps_settings(held, frames);
    lemma_stays_apart(held, frames, i, j, frames.len() as int);
    assert(frames.take(frames.len() as int) =~= frames);
    assert(!now.grip(i).contact);
    assert(now.closes(last, i) && now.wait(last.dt, i).raw <= 0);
    lemma_event_is_emitted(now, last, i, last.hands.len() as int);
    let all = (seq![start] + frames).push(last);
    assert(all.drop_last() =~= seq![start] + frames);
    assert(all.last() == last);
}

/// A hand that comes into view with its fingers together touches at once, and
/// the detector says so.
pub proof fn law_new_hand_can_touch(d: FingerTouch, shown: Shown, i: int)
    requires
        0 <= i < shown.hands.len() <= usize::MAX,
        d@.grips.len() <= i,
        shown.dt.raw >= 0,
        shown.hands[i].pinch_distance(d@.a, d@.b).raw < d@.enter.raw,
    ensures
        d.emits(seq![shown]).contains(
            GestureEvent::TouchStart { hand: i as usize, a: d@.a, b: d@.b },
        ),
{
    assert(seq![shown].drop_last() =~= seq![]);
    assert(d@.after(seq![]) == d@);
    lemma_event_is_emitted(d@, shown, i, shown.hands.len() as int);
}

/// A touch ends: once a touch was reported, and after any frames in which the
/// fingers stayed together, the frame in which they are further apart than
/// `exit` reports that they separated.
pub proof fn law_release_is_reported(
    d: FingerTouch,
    start: Shown,
    frames: Seq<Shown>,
    last: Shown,
    i: int,
)
    requires
        0 <= i < last.hands.len() <= usize::MAX,
        start.hands.len() <= usize::MAX,
        d.emits(seq![start]).contains(
            GestureEvent::TouchStart { hand: i as usize, a: d@.a, b: d@.b },
        ),
        holds(d@, frames, i),
        last.hands[i].pinch_distance(d@.a, d@.b).raw > d@.exit.raw,
        d@.enter.raw <= d@.exit.raw,
    ensures
        d.emits((seq![start] + frames).push(last)).contains(
            GestureEvent::TouchEnd { hand: i as usize, a: d@.a, b: d@.b },
        ),
{
    let touch = d@;
    let tap = GestureEvent::TouchStart { hand: i as usize, a: touch.a, b: touch.b };
    assert(seq![start].drop_last() =~= seq![]);
    assert(touch.after(seq![]) == touch);
    lemma_emitted_by_its_hand(touch, start, i, tap, start.hands.len() as int);
    let held = touch.next(start);
    assert(held.grip(i).contact);
    if frames.len() > 0 {
        law_no_repeat_while_held(held, frames, i);
    }
    lemma_after(touch, start, frames);
    lemma_keeps_settings(held, frames);
    let now = held.after(frames);
    assert(now.grip(i).contact);
    lemma_event_is_emitted(now, last, i, last.hands.len() as int);
    let all = (seq![start] + frames).push(last);
    assert(all.drop_last() =~= seq![start] + frames);
    assert(all.last() == last);
}

/// A hand that leaves is forgotten: when one comes back in its place it is new,
/// with no touch and nothing to wait for.
pub proof fn law_hand_that_left_is_forgotten(touch: Touch, shown: Shown, i: int)
    requires
        shown.hands.len() <= i,
    ensures
        !touch.next(shown).grip(i).contact,
        touch.next(shown).grip(i).cooldown.raw == 0,
        touch.next(shown).grips.len() == shown.hands.len(),
{
}

/// A change in the number of hands is reported, once, and only a change is.
pub proof fn law_only_changes_of_count_are_reported(
    d: HandCount,
    frames: Seq<Shown>,
    last: Shown,
)
    requires
        frames.len() > 0,
        frames.last().hands.len() <= usize::MAX,
        last.hands.len() <= usize::MAX,
    ensures
        frames.last().hands.len() == last.hands.len() ==> d.emits(frames.push(last)).len() == 0,
        frames.last().hands.len() != last.hands.len() ==> d.emits(frames.push(last)) == seq![
            GestureEvent::HandCountChanged { count: last.hands.len() as usize },
        ],
{
    assert(frames.push(last).drop_last() =~= frames);
}

/// An engine reports what its detectors do, all of it and nothing else.
pub proof fn law_engine_reports_every_detector<D: GestureDetector>(
    detectors: Seq<D>,
    frames: Seq<Shown>,
    n: int,
    event: GestureEvent,
)
    requires
        0 <= n <= detectors.len(),
    ensures
        emitted(detectors, frames, n).contains(event) <==> exists|i: int|
            0 <= i < n && (#[trigger] detectors[i]).emits(frames).contains(event),
    decreases n,
{
    if n > 0 {
        law_engine_reports_every_detector(detectors, frames, n - 1, event);
        let start = emitted(detectors, frames, n - 1);
        let own = detectors[n - 1].emits(frames);
        let all = emitted(detectors, frames, n);
        if start.contains(event) {
            let k = choose|k: int| 0 <= k < start.len() && start[k] == event;
            assert(all[k] == event);
        }
        if own.contains(event) {
            let k = choose|k: int| 0 <= k < own.len() && own[k] == event;
            assert(all[start.len() + k] == event);
        }
        if all.contains(event) {
            let k = choose|k: int| 0 <= k < all.len() && all[k] == event;
            if k < start.len() {
                assert(start[k] == event);
            } else {
                assert(own[k - start.len()] == event);
                assert(detectors[n - 1].emits(frames).contains(event));
            }
        }
    }
}

/// The panel's three sliders are the two thresholds and the wait, each within
/// its range by default.
pub proof fn law_sliders_are_the_thresholds(d: FingerTouch, k: int)
    requires
        0 <= k < 3,
    ensures
        d.knobs().len() == 3,
        d.knobs()[0].value == d@.enter,
        d.knobs()[1].value == d@.exit,
        d.knobs()[2].value == d@.cooldown_secs,
        d.knobs()[k].min.raw < d.knobs()[k].max.raw,
        d.knobs()[0].min.raw <= Fx::ratio(32, 100).raw <= d.knobs()[0].max.raw,
        d.knobs()[1].min.raw <= Fx::ratio(45, 100).raw <= d.knobs()[1].max.raw,
        d.knobs()[2].min.raw <= Fx::ratio(35, 100).raw <= d.knobs()[2].max.raw,
{
}

/// A detector that has seen nothing yet reports how many hands there are,
/// whether any are.
pub proof fn law_first_count_is_reported(d: HandCount, first: Shown)
    requires
        d@ is None,
    ensures
        d.emits(seq![first]) == seq![
            GestureEvent::HandCountChanged { count: first.hands.len() as usize },
        ],
{
    assert(seq![first].drop_last() =~= seq![]);
}

/// Fingers that came apart and stay apart do not touch.
proof fn lemma_stays_apart(touch: Touch, frames: Seq<Shown>, i: int, j: int, n: int)
    requires
        0 <= i,
        0 <= j < n <= frames.len(),
        forall|k: int| 0 <= k < frames.len() ==> i < (#[trigger] frames[k]).hands.len(),
        frames[j].hands[i].pinch_distance(touch.a, touch.b).raw > touch.exit.raw,
        forall|k: int|
            j <= k < frames.len() ==> (#[trigger] frames[k]).hands[i].pinch_distance(
                touch.a,
                touch.b,
            ).raw >= touch.enter.raw,
    ensures
        !touch.after(frames.take(n)).grip(i).contact,
    decreases n,
{
    let run = frames.take(n);
    assert(run.drop_last() =~= frames.take(n - 1));
    assert(run.last() == frames[n - 1]);
    lemma_keeps_settings(touch, frames.take(n - 1));
    let before = touch.after(frames.take(n - 1));
    if j < n - 1 {
        lemma_stays_apart(touch, frames, i, j, n - 1);
    }
    assert(touch.after(run).grip(i) == before.next_grip(frames[n - 1], i));
}

/// A frame that reports no touch of a hand has none that was not refused.
proof fn lemma_silent_frame(touch: Touch, start: Shown, frames: Seq<Shown>, i: int, k: int)
    requires
        0 <= k < frames.len(),
        0 <= i < frames[k].hands.len(),
        !touch.emits(seq![start] + frames.take(k + 1)).contains(
            GestureEvent::TouchStart { hand: i as usize, a: touch.a, b: touch.b },
        ),
    ensures
        ({
            let now = touch.next(start).after(frames.take(k));
            !(now.closes(frames[k], i) && now.wait(frames[k].dt, i).raw <= 0)
        }),
{
    let run = seq![start] + frames.take(k + 1);
    assert(run.drop_last() =~= seq![start] + frames.take(k));
    assert(run.last() == frames[k]);
    lemma_after(touch, start, frames.take(k));
    let now = touch.next(start).after(frames.take(k));
    lemma_keeps_settings(touch.next(start), frames.take(k));
    if now.closes(frames[k], i) && now.wait(frames[k].dt, i).raw <= 0 {
        lemma_event_is_emitted(now, frames[k], i, frames[k].hands.len() as int);
    }
}

} // verus!
