//! Application state and the per-frame pipeline: hands in, a scene out.

use crate::effect::{self, catalogue, knob_after, registry, AnyEffect, Effect, EffectCtx};
use crate::fixed::Fx;
use crate::gesture::{
    Detector, FingerTouch, GestureDetector, GestureEngine, GestureEvent, HandCount, Shown, Touch,
};
use crate::region::{
    latch, resolve, resolved, spans, Region, RegionSource, TwoHandQuad,
};
use crate::render::overlay::{build_lines, skeletons, LineInstance};
use crate::render::Outline;
use crate::tracking::face::eye::{
    aspect_ratio, ear_of, fires, next, watching, BlinkConfig, BlinkDetector, Eye,
};
use crate::tracking::face::FaceFrame;
use crate::tracking::hand::{is_mirror, Finger, Hand, HandFrame};
use vstd::prelude::*;

verus! {

#[derive(Debug, Clone, Copy, PartialEq, Eq, Structural)]
pub struct AppOptions {
    pub camera: Option<u32>,
}

pub struct App {
    pub effects: Vec<AnyEffect>,
    pub effect_index: usize,
    pub region_source: TwoHandQuad,
    pub gestures: GestureEngine<Detector>,
    pub mirror: bool,
    pub show_skeleton: bool,
    pub show_outline: bool,
    pub outline_color: [Fx; 3],
    pub outline_width: Fx,
    /// When set, the intensity slider wins over middle-finger curl.
    pub knob_manual: bool,
    /// Whether the zone is held in place.
    pub freeze: bool,
    /// The region latched when freezing began.
    pub latched_region: Option<Region>,
    /// Watches the right eye for a long blink.
    pub blink: BlinkDetector,
    pub blink_config: BlinkConfig,
    /// Whether the control panel is showing.
    pub panel_open: bool,
    /// Smoothed frame rate for the panel readout.
    pub fps: Fx,
    /// Effect intensity, driven by middle-finger curl while the region is up.
    pub knob: Fx,
}

/// What to draw for one frame.
pub struct Scene {
    /// The hands as the user sees them.
    pub hands: HandFrame,
    /// The region that the hands span right now.
    pub live: Region,
    /// The region to mask by, which may be frozen.
    pub region: Region,
    /// The effect's parameters.
    pub params: [Fx; 4],
    /// The debug skeleton.
    pub lines: Vec<LineInstance>,
}

/// A key that was pressed.
#[derive(Debug, Clone, Copy, PartialEq, Eq, Structural)]
pub enum KeyPress {
    Escape,
    Space,
    Letter(char),
    Other,
}

/// The application after a key.
pub open spec fn after_key(app: App, key: KeyPress) -> App {
    match key {
        KeyPress::Space => App {
            effect_index: cycled(
                app.effect_index as int,
                1,
                app.effects@.len() as int,
            ) as usize,
            ..app
        },
        KeyPress::Letter('m') => App { mirror: !app.mirror, ..app },
        KeyPress::Letter('d') => App { show_skeleton: !app.show_skeleton, ..app },
        KeyPress::Letter('o') => App { show_outline: !app.show_outline, ..app },
        KeyPress::Letter('f') => App { freeze: !app.freeze, ..app },
        KeyPress::Letter('h') => App { panel_open: !app.panel_open, ..app },
        _ => app,
    }
}

/// The effect `delta` places on from `index` among `n`, going round.
pub open spec fn cycled(index: int, delta: int, n: int) -> int {
    if n <= 0 {
        index
    } else {
        (index + delta) % n
    }
}

/// A gesture that steps to the next effect: thumb to pinky.
pub open spec fn is_tap(event: GestureEvent) -> bool {
    event matches GestureEvent::TouchStart { a: Finger::Thumb, b: Finger::Pinky, .. }
}

/// How many of the first `n` events step to the next effect.
pub open spec fn taps(events: Seq<GestureEvent>, n: int) -> int
    decreases n,
{
    if n <= 0 {
        0
    } else if is_tap(events[n - 1]) {
        taps(events, n - 1) + 1
    } else {
        taps(events, n - 1)
    }
}

/// The hands as the user sees them: mirrored if the preview is.
pub open spec fn is_shown(hands: Seq<Hand>, mirror: bool, shown: Seq<Hand>) -> bool {
    &&& shown.len() == hands.len()
    &&& forall|i: int|
        0 <= i < hands.len() ==> if mirror {
            is_mirror(hands[i], #[trigger] shown[i])
        } else {
            shown[i] == hands[i]
        }
}

/// The frame rate readout after a frame that took `dt`, smoothed so it is
/// steady enough to read.
pub open spec fn fps_after(fps: Fx, dt: Fx) -> Fx {
    if dt.raw <= 0 {
        fps
    } else if fps.raw == 0 {
        Fx::one().over(dt)
    } else {
        fps.times(Fx::ratio(9, 10)).plus(Fx::one().over(dt).times(Fx::ratio(1, 10)))
    }
}

/// How open the right eye of the first face is.
pub open spec fn right_eye(faces: FaceFrame) -> Option<Fx> {
    if faces.faces@.len() == 0 {
        None
    } else {
        ear_of(faces.faces@[0].landmarks@, Eye::Right)
    }
}

/// The hands as the user sees them: mirrored if the preview is, so gestures
/// and regions agree with what is on screen.
fn displayed(frame: &HandFrame, mirror: bool) -> (out: HandFrame)
    ensures
        out.seq == frame.seq,
        is_shown(frame.hands@, mirror, out.hands@),
{
    if mirror {
        return frame.mirrored();
    }
    let mut hands: Vec<Hand> = Vec::new();
    let mut i: usize = 0;
    while i < frame.hands.len()
        invariant
            i <= frame.hands.len(),
            hands@.len() == i,
            forall|k: int| 0 <= k < i ==> #[trigger] hands@[k] == frame.hands@[k],
        decreases frame.hands.len() - i,
    {
        hands.push(frame.hands[i]);
        i += 1;
    }
    HandFrame { hands, seq: frame.seq }
}

/// How many of the events step to the next effect.
fn count_taps(events: &[GestureEvent]) -> (n: usize)
    ensures
        n == taps(events@, events@.len() as int),
        n <= events@.len(),
{
    let mut n: usize = 0;
    let mut i: usize = 0;
    while i < events.len()
        invariant
            i <= events@.len(),
            n <= i,
            n == taps(events@, i as int),
        decreases events@.len() - i,
    {
        match events[i] {
            GestureEvent::TouchStart { a: Finger::Thumb, b: Finger::Pinky, .. } => {
                n += 1;
            },
            _ => {},
        }
        i += 1;
    }
    n
}

impl App {
    /// The effect that is selected exists.
    pub open spec fn wf(&self) -> bool {
        self.effect_index < self.effects@.len()
    }

    pub fn new() -> (app: App)
        ensures
            app.wf(),
            app.effects@ == catalogue(),
            app.effect_index == 0,
            app.region_source == (TwoHandQuad { top: Finger::Index, bottom: Finger::Thumb }),
            app.gestures.detectors().len() == 2,
            app.gestures.detectors()[0] matches Detector::Touch(touch) && touch@ == (Touch {
                a: Finger::Thumb,
                b: Finger::Pinky,
                enter: Fx::ratio(32, 100),
                exit: Fx::ratio(45, 100),
                cooldown_secs: Fx::ratio(35, 100),
                grips: seq![],
            }),
            app.gestures.detectors()[1] matches Detector::Count(count) && count@ is None,
            app.mirror,
            !app.show_skeleton,
            app.show_outline,
            app.outline_color@ == seq![Fx::one(), Fx::one(), Fx::one()],
            app.outline_width == Fx::ratio(12, 10),
            !app.knob_manual,
            !app.freeze,
            app.latched_region is None,
            app.blink == watching(),
            app.blink_config == (BlinkConfig {
                close_below: Fx::ratio(18, 100),
                open_above: Fx::ratio(25, 100),
                hold_secs: Fx::ratio(7, 10),
            }),
            app.panel_open,
            app.fps == Fx::zero(),
            app.knob == Fx::zero(),
    {
        let outline_color = [Fx::one(), Fx::one(), Fx::one()];
        assert(outline_color@ =~= seq![Fx::one(), Fx::one(), Fx::one()]);
        let gestures: GestureEngine<Detector> = GestureEngine::new()
            // Thumb-to-pinky cycles the effect.
            .with(Detector::Touch(FingerTouch::new(Finger::Thumb, Finger::Pinky)))
            .with(Detector::Count(HandCount::default()));
        App {
            effects: registry(),
            effect_index: 0,
            region_source: TwoHandQuad::default(),
            gestures,
            mirror: true,
            show_skeleton: false,
            show_outline: true,
            outline_color,
            outline_width: Fx::ratio(12, 10),
            knob_manual: false,
            freeze: false,
            latched_region: None,
            blink: BlinkDetector::default(),
            blink_config: BlinkConfig::default(),
            panel_open: true,
            fps: Fx::zero(),
            knob: Fx::zero(),
        }
    }

    /// Step through the effects, going round at either end. Without any there
    /// is nowhere to go.
    pub fn cycle_effect(&mut self, delta: i32)
        ensures
            old(self).effects@.len() > 0 ==> final(self).wf(),
            final(self).effect_index == cycled(
                old(self).effect_index as int,
                delta as int,
                old(self).effects@.len() as int,
            ),
            *final(self) == (App { effect_index: final(self).effect_index, ..*old(self) }),
    {
        let n: usize = self.effects.len();
        if n > 0 {
            self.effect_index = stepped(self.effect_index, delta as i128, n);
        }
    }

    /// How the outline is drawn.
    pub fn outline(&self) -> (outline: Outline)
        ensures
            outline.show == self.show_outline,
            outline.color == self.outline_color,
            outline.width == self.outline_width,
    {
        Outline {
            show: self.show_outline,
            color: self.outline_color,
            width: self.outline_width,
        }
    }

    /// Act on a key. Returns whether the program should quit.
    pub fn press(&mut self, key: KeyPress) -> (quit: bool)
        ensures
            old(self).wf() ==> final(self).wf(),
            quit <==> key == KeyPress::Escape,
            *final(self) == after_key(*old(self), key),
    {
        match key {
            KeyPress::Escape => {
                return true;
            },
            KeyPress::Space => self.cycle_effect(1),
            KeyPress::Letter(c) => {
                if c == 'm' {
                    self.mirror = !self.mirror;
                } else if c == 'd' {
                    self.show_skeleton = !self.show_skeleton;
                } else if c == 'o' {
                    self.show_outline = !self.show_outline;
                } else if c == 'f' {
                    self.freeze = !self.freeze;
                } else if c == 'h' {
                    self.panel_open = !self.panel_open;
                }
            },
            KeyPress::Other => {},
        }
        false
    }

    /// Run one frame: hands and faces as the tracker saw them, `dt` seconds
    /// after the last.
    ///
    /// Gestures step through the effects, a long blink of the right eye freezes
    /// or unfreezes the zone, and the hands span the region and turn the knob.
    pub fn step(&mut self, frame: &HandFrame, faces: &FaceFrame, dt: Fx) -> (scene: Scene)
        requires
            old(self).wf(),
        ensures
            final(self).wf(),
            // What the user sees.
            scene.hands.seq == frame.seq,
            is_shown(frame.hands@, old(self).mirror, scene.hands.hands@),
            // Gestures.
            final(self).effect_index == cycled(
                old(self).effect_index as int,
                old(self).taps_in(scene.hands.hands@, dt),
                old(self).effects@.len() as int,
            ),
            forall|later: Seq<Shown>|
                later.len() > 0 ==> #[trigger] final(self).gestures.emits(later) == old(self).gestures.emits(seq![Shown { hands: scene.hands.hands@, dt }] + later),
            final(self).gestures.detectors().len() == old(self).gestures.detectors().len(),
            forall|i: int|
                0 <= i < old(self).gestures.detectors().len() ==> (
                #[trigger] final(self).gestures.detectors()[i]).knobs()
                    == old(self).gestures.detectors()[i].knobs()
                    && final(self).gestures.detectors()[i].label()
                    == old(self).gestures.detectors()[i].label()
                    && old(self).gestures.detectors()[i].steps_to(
                    Shown { hands: scene.hands.hands@, dt },
                    &final(self).gestures.detectors()[i],
                ),
            // The blink.
            final(self).blink == next(
                old(self).blink,
                right_eye(*faces),
                dt,
                old(self).blink_config,
            ),
            final(self).freeze == (old(self).freeze != fires(
                old(self).blink,
                right_eye(*faces),
                dt,
                old(self).blink_config,
            )),
            // The region.
            spans(old(self).region_source, scene.hands, scene.live),
            scene.region == resolved(
                scene.live,
                old(self).latched_region,
                final(self).freeze,
            ),
            final(self).latched_region == latch(
                scene.live,
                old(self).latched_region,
                final(self).freeze,
            ),
            // The effect. The knob follows the live region: with the zone
            // frozen one can still dial intensity.
            final(self).knob == if old(self).knob_manual {
                old(self).knob
            } else {
                knob_after(old(self).knob, scene.hands.hands@, scene.live.is_active())
            },
            scene.params@ == old(self).effects@[final(self).effect_index as int].values(
                EffectCtx { region: scene.region, knob: final(self).knob },
            ),
            // The rest.
            old(self).show_skeleton ==> scene.lines@ == skeletons(
                scene.hands.hands@,
                scene.hands.hands@.len() as int,
            ),
            !old(self).show_skeleton ==> scene.lines@.len() == 0,
            final(self).fps == fps_after(old(self).fps, dt),
            *final(self) == (App {
                effect_index: final(self).effect_index,
                gestures: final(self).gestures,
                blink: final(self).blink,
                freeze: final(self).freeze,
                latched_region: final(self).latched_region,
                knob: final(self).knob,
                fps: final(self).fps,
                ..*old(self)
            }),
    {
        let hands: HandFrame = displayed(frame, self.mirror);
        let n: usize = count_taps(self.gestures.update(&hands, dt));
        self.effect_index = stepped(self.effect_index, n as i128, self.effects.len());
        self.watch(faces, dt);

        let live: Region = self.region_source.region(&hands);
        let freeze: bool = self.freeze;
        let region: Region = resolve(live, &mut self.latched_region, freeze);
        // The knob only tracks while the window is actually up, so curling a
        // finger with no region showing leaves the setting untouched.
        if !self.knob_manual {
            self.knob = effect::update_knob(self.knob, &hands, live.is_active());
        }
        let ctx = EffectCtx { region, knob: self.knob };
        let params: [Fx; 4] = self.effects[self.effect_index].params(&ctx);
        let lines: Vec<LineInstance> = build_lines(&hands, self.show_skeleton);
        self.fps = smooth_fps(self.fps, dt);
        Scene { hands, live, region, params, lines }
    }

    /// How many of the gestures in a frame step to the next effect.
    pub open spec fn taps_in(&self, hands: Seq<Hand>, dt: Fx) -> int {
        let events = self.gestures.emits(seq![Shown { hands, dt }]);
        taps(events, events.len() as int)
    }

    /// Watch the right eye; a long blink freezes or unfreezes the zone.
    fn watch(&mut self, faces: &FaceFrame, dt: Fx)
        ensures
            *final(self) == (App {
                blink: next(old(self).blink, right_eye(*faces), dt, old(self).blink_config),
                freeze: old(self).freeze != fires(
                    old(self).blink,
                    right_eye(*faces),
                    dt,
                    old(self).blink_config,
                ),
                ..*old(self)
            }),
    {
        let ear: Option<Fx> = match faces.first() {
            Some(face) => aspect_ratio(face.landmarks.as_slice(), Eye::Right),
            None => None,
        };
        let cfg: BlinkConfig = self.blink_config;
        if self.blink.update(ear, dt, &cfg).is_some() {
            self.freeze = !self.freeze;
        }
    }
}

/// The frame rate readout after a frame that took `dt`.
fn smooth_fps(fps: Fx, dt: Fx) -> (out: Fx)
    ensures
        out == fps_after(fps, dt),
{
    if dt.raw > 0 {
        let instant: Fx = Fx::one().over(dt);
        if fps.raw == 0 {
            instant
        } else {
            fps.times(Fx::ratio(9, 10)).plus(instant.times(Fx::ratio(1, 10)))
        }
    } else {
        fps
    }
}

/// Counts frames between the lines of the console readout.
#[derive(Debug, Clone, Copy)]
pub struct FrameCounter {
    /// Frames drawn since the last line.
    pub frames: u32,
}

impl FrameCounter {
    pub fn new() -> (counter: FrameCounter)
        ensures
            counter.frames == 0,
    {
        FrameCounter { frames: 0 }
    }

    /// A frame was drawn, `elapsed` seconds after the last line. Every two
    /// seconds it is time for another: gives the frames per second since, and
    /// starts again.
    pub fn drawn(&mut self, elapsed: Fx) -> (rate: Option<Fx>)
        requires
            old(self).frames < u32::MAX,
        ensures
            elapsed.raw < Fx::whole(2).raw ==> rate is None && final(self).frames == old(
                self,
            ).frames + 1,
            elapsed.raw >= Fx::whole(2).raw ==> rate == Some(
                Fx::count((old(self).frames + 1) as u32).over(elapsed),
            ) && final(self).frames == 0,
    {
        self.frames += 1;
        if elapsed.raw >= Fx::whole(2).raw {
            let rate: Fx = Fx::count(self.frames).over(elapsed);
            self.frames = 0;
            Some(rate)
        } else {
            None
        }
    }
}

/// What the tracking thread does next.
#[derive(Debug, Clone, Copy, PartialEq, Eq, Structural)]
pub enum Poll {
    /// No camera frame has come yet: wait a little.
    Wait,
    /// No new one has: don't burn a core re-running inference on data that was
    /// already processed.
    Stale,
    /// Track this frame.
    Fresh,
}

impl Poll {
    /// How many milliseconds to sleep before looking again; none with a frame
    /// to track.
    #[verifier::allow_in_spec]
    pub fn pause_ms(self) -> Option<u64>
        returns
            (match self {
                Poll::Wait => Some(4u64),
                Poll::Stale => Some(1u64),
                Poll::Fresh => None,
            }),
    {
        match self {
            Poll::Wait => Some(4),
            Poll::Stale => Some(1),
            Poll::Fresh => None,
        }
    }
}

/// What the tracking thread remembers of the frames it has taken.
#[derive(Debug, Clone, Copy)]
pub struct Poller {
    /// The number of the last frame that was tracked.
    pub last_seq: u64,
}

impl Poller {
    pub fn new() -> (poller: Poller)
        ensures
            poller.last_seq == 0,
    {
        Poller { last_seq: 0 }
    }

    /// Look at the number of the latest frame, if there is one.
    pub fn poll(&mut self, seq: Option<u64>) -> (poll: Poll)
        ensures
            seq is None ==> poll == Poll::Wait && *final(self) == *old(self),
            seq == Some(old(self).last_seq) ==> poll == Poll::Stale && *final(self) == *old(self),
            seq is Some && seq != Some(old(self).last_seq) ==> poll == Poll::Fresh && Some(
                final(self).last_seq,
            ) == seq,
    {
        match seq {
            None => Poll::Wait,
            Some(n) => if n == self.last_seq {
                Poll::Stale
            } else {
                self.last_seq = n;
                Poll::Fresh
            },
        }
    }
}

/// Stepping on and back again is no step, and going all the way round leads
/// back.
pub proof fn law_cycling_goes_round(index: int, delta: int, n: int)
    requires
        0 <= index < n,
    ensures
        0 <= cycled(index, delta, n) < n,
        cycled(cycled(index, delta, n), -delta, n) == index,
        cycled(index, n, n) == index,
{
    vstd::arithmetic::div_mod::lemma_mod_bound(index + delta, n);
    law_steps_add_up(index, delta, -delta, n);
    lemma_whole_turns(index, 0, n);
    lemma_whole_turns(index, 1, n);
}

/// Whole turns lead back to the start.
proof fn lemma_whole_turns(index: int, turns: int, n: int)
    requires
        0 <= index < n,
    ensures
        (index + turns * n) % n == index,
{
    assert(index + turns * n == turns * n + index);
    vstd::arithmetic::div_mod::lemma_fundamental_div_mod_converse(
        index + turns * n,
        n,
        turns,
        index,
    );
}

/// Two steps in one go lead where one step after the other does.
pub proof fn law_steps_add_up(index: int, a: int, b: int, n: int)
    requires
        0 <= index < n,
    ensures
        cycled(cycled(index, a, n), b, n) == cycled(index, a + b, n),
{
    vstd::arithmetic::div_mod::lemma_add_mod_noop_right(b, index + a, n);
    assert(b + (index + a) % n == (index + a) % n + b);
    assert(b + (index + a) == index + (a + b));
}

/// Every letter is a switch: pressed twice, it changes nothing.
pub proof fn law_letters_are_switches(app: App, c: char)
    ensures
        after_key(after_key(app, KeyPress::Letter(c)), KeyPress::Letter(c)) == app,
{
}

/// The hands that are shown are fixed by those that were tracked.
pub proof fn law_one_way_to_show(hands: Seq<Hand>, mirror: bool, a: Seq<Hand>, b: Seq<Hand>)
    requires
        is_shown(hands, mirror, a),
        is_shown(hands, mirror, b),
    ensures
        a == b,
{
    assert forall|i: int| 0 <= i < a.len() implies a[i] == b[i] by {
        if mirror {
            assert(is_mirror(hands[i], a[i]) && is_mirror(hands[i], b[i]));
            assert forall|k: int| 0 <= k < 21 implies a[i].landmarks[k] == b[i].landmarks[k] by {
                assert(a[i].landmarks[k] == crate::tracking::hand::mirror_point(
                    hands[i].landmarks[k],
                ));
            }
            assert(a[i].landmarks =~= b[i].landmarks);
        }
    }
    assert(a =~= b);
}

/// The effect `delta` places on.
fn stepped(index: usize, delta: i128, n: usize) -> (out: usize)
    requires
        n > 0,
        -0x8000_0000 <= delta <= usize::MAX,
    ensures
        out == cycled(index as int, delta as int, n as int),
        out < n,
{
    let sum: i128 = index as i128 + delta;
    let m: i128 = n as i128;
    let q: i128 = crate::fixed::floor_quotient(sum, m);
    proof {
        vstd::arithmetic::div_mod::lemma_fundamental_div_mod(sum as int, m as int);
        vstd::arithmetic::div_mod::lemma_mod_bound(sum as int, m as int);
        vstd::arithmetic::mul::lemma_mul_is_commutative(m as int, sum as int / (m as int));
    }
    let r: i128 = sum - q * m;
    r as usize
}

/// The next effect is the one after it in the list, and the first after the
/// last; the one before it goes the other way.
pub proof fn law_next_effect_is_the_one_after(index: int, n: int)
    requires
        0 <= index < n,
    ensures
        index + 1 < n ==> cycled(index, 1, n) == index + 1,
        index + 1 == n ==> cycled(index, 1, n) == 0,
        index > 0 ==> cycled(index, -1, n) == index - 1,
        index == 0 ==> cycled(index, -1, n) == n - 1,
{
    if index + 1 < n {
        lemma_whole_turns(index + 1, 0, n);
    } else {
        lemma_whole_turns(0, 1, n);
    }
    if index > 0 {
        lemma_whole_turns(index - 1, 0, n);
    } else {
        lemma_whole_turns(n - 1, -1, n);
    }
}

/// Each touch of thumb and pinky counts as one step, whichever hand makes it
/// and whatever else happens in the frame, and nothing else counts.
pub proof fn law_each_tap_is_a_step(events: Seq<GestureEvent>, hand: usize, event: GestureEvent)
    ensures
        ({
            let n = events.len() as int;
            let tap = GestureEvent::TouchStart { hand, a: Finger::Thumb, b: Finger::Pinky };
            &&& taps(events.push(tap), n + 1) == taps(events, n) + 1
            &&& !(event matches GestureEvent::TouchStart {
                a: Finger::Thumb,
                b: Finger::Pinky,
                ..
            }) ==> taps(events.push(event), n + 1) == taps(events, n)
            &&& taps(seq![], 0) == 0
        }),
{
    let n = events.len() as int;
    let tap = GestureEvent::TouchStart { hand, a: Finger::Thumb, b: Finger::Pinky };
    lemma_taps_of_prefix(events, events.push(tap), n);
    lemma_taps_of_prefix(events, events.push(event), n);
}

proof fn lemma_taps_of_prefix(a: Seq<GestureEvent>, b: Seq<GestureEvent>, n: int)
    requires
        0 <= n <= a.len() <= b.len(),
        forall|i: int| 0 <= i < n ==> a[i] == b[i],
    ensures
        taps(a, n) == taps(b, n),
    decreases n,
{
    if n > 0 {
        lemma_taps_of_prefix(a, b, n - 1);
    }
}

/// Every key has its one effect: space goes to the next effect, five letters
/// switch one thing each, and no other key changes anything.
pub proof fn law_keys_do_what_they_say(app: App, c: char)
    requires
        app.wf(),
    ensures
        ({
            let next = after_key(app, KeyPress::Space);
            let now = after_key(app, KeyPress::Letter(c));
            &&& next.effect_index == if app.effect_index + 1 == app.effects@.len() {
                0
            } else {
                app.effect_index + 1
            }
            &&& next == (App { effect_index: next.effect_index, ..app })
            &&& (now.mirror != app.mirror <==> c == 'm')
            &&& (now.show_skeleton != app.show_skeleton <==> c == 'd')
            &&& (now.show_outline != app.show_outline <==> c == 'o')
            &&& (now.freeze != app.freeze <==> c == 'f')
            &&& (now.panel_open != app.panel_open <==> c == 'h')
            &&& now == (App {
                mirror: now.mirror,
                show_skeleton: now.show_skeleton,
                show_outline: now.show_outline,
                freeze: now.freeze,
                panel_open: now.panel_open,
                ..app
            })
            &&& after_key(app, KeyPress::Escape) == app
            &&& after_key(app, KeyPress::Other) == app
        }),
{
    assert(app.effects.len() == app.effects@.len());
    law_next_effect_is_the_one_after(app.effect_index as int, app.effects@.len() as int);
}

/// The first reading of the frame rate is the frames that would fit in a
/// second; each one after moves a tenth of the way to it.
pub proof fn law_frame_rate_moves_a_tenth(fps: Fx, dt: Fx)
    requires
        0 <= fps.raw <= 0x1000_0000_0000,
        0x1_0000 <= dt.raw <= 0x1000_0000_0000,
    ensures
        ({
            let now = 0x1_0000_0000_0000_0000int / (dt.raw as int);
            &&& fps.raw == 0 ==> fps_after(fps, dt).raw == now
            &&& fps.raw > 0 ==> -700_000 <= 10 * fps_after(fps, dt).raw - 9 * fps.raw - now <= 0
        }),
        fps_after(fps, Fx::zero()) == fps,
{
    let d = dt.raw as int;
    let n = 0x1_0000_0000int * 0x1_0000_0000int;
    let now = n / d;
    vstd::arithmetic::div_mod::lemma_fundamental_div_mod(n, d);
    vstd::arithmetic::div_mod::lemma_mod_bound(n, d);
    assert(0 <= now <= 0x1_0000_0000_0000) by (nonlinear_arith)
        requires
            d * now <= n < d * now + d,
            n == 0x1_0000_0000_0000_0000,
            d >= 0x1_0000,
    ;
    assert(Fx::one().over(dt).raw == now);
    let f = fps.raw as int;
    assert(Fx::ratio(9, 10).raw == 3865470566 && Fx::ratio(1, 10).raw == 429496729);
    assert(9 * f - 30_000 <= 10 * ((f * 3865470566) / 0x1_0000_0000) <= 9 * f) by (nonlinear_arith)
        requires
            0 <= f <= 0x1000_0000_0000,
    ;
    assert(now - 30_000 - 600_000 <= 10 * ((now * 429496729) / 0x1_0000_0000) <= now)
        by (nonlinear_arith)
        requires
            0 <= now <= 0x1_0000_0000_0000,
    ;
}

/// Only the right eye of the first face is watched.
pub proof fn law_right_eye_of_the_first_face_is_watched(faces: FaceFrame, others: FaceFrame)
    requires
        faces.faces@.len() > 0,
        others.faces@.len() > 0,
        faces.faces@[0].landmarks@.len() == others.faces@[0].landmarks@.len(),
        forall|i: int|
            0 <= i < faces.faces@[0].landmarks@.len() && (i == 33 || i == 133 || i == 144 || i == 153
                || i == 158 || i == 160) ==> faces.faces@[0].landmarks@[i]
                == #[trigger] others.faces@[0].landmarks@[i],
    ensures
        right_eye(faces) == right_eye(others),
        right_eye(faces) == ear_of(faces.faces@[0].landmarks@, Eye::Right),
        faces.faces@[0].landmarks@.len() <= 160 ==> right_eye(faces) is None,
        forall|none: FaceFrame|
            none.faces@.len() == 0 ==> (#[trigger] right_eye(none)) is None,
{
    let (a, b) = (faces.faces@[0].landmarks@, others.faces@[0].landmarks@);
    let p = Eye::Right.landmarks();
    if a.len() > 160 {
        assert(a[33] == b[33] && a[133] == b[133] && a[144] == b[144] && a[153] == b[153] && a[158]
            == b[158] && a[160] == b[160]);
    }
}

/// What is shown is what was tracked, or its mirror image while the preview is
/// mirrored: left and right swapped, and nothing else.
pub proof fn law_hands_are_shown_as_tracked(
    hands: Seq<Hand>,
    mirror: bool,
    shown: Seq<Hand>,
    i: int,
    k: int,
)
    requires
        is_shown(hands, mirror, shown),
        0 <= i < hands.len(),
        0 <= k < 21,
        crate::tracking::hand::laws::in_view(hands[i]),
    ensures
        shown.len() == hands.len(),
        !mirror ==> shown[i] == hands[i],
        mirror ==> shown[i].landmarks[k].x.raw == 0x1_0000_0000 - hands[i].landmarks[k].x.raw,
        shown[i].landmarks[k].y == hands[i].landmarks[k].y,
        shown[i].landmarks[k].z == hands[i].landmarks[k].z,
        shown[i].score == hands[i].score,
{
    if mirror {
        assert(is_mirror(hands[i], shown[i]));
        crate::tracking::hand::laws::law_mirror_swaps_sides(hands[i], shown[i], k);
    } else {
        assert(shown[i] == hands[i]);
    }
}

} // verus!
