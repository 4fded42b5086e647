//! Effects: what happens inside the region.
//!
//! An effect is a WGSL `effect(uv)` function plus up to four runtime
//! parameters. To add one, drop a `.wgsl` file in `assets/shaders/effects/`
//! and add a line to `registry()`.

use crate::fixed::{Fx, ONE};
use crate::region::Region;
use crate::settings::{Knob, Tunable};
use crate::tracking::hand::{max_curl_of, Finger, Hand, HandFrame};
use crate::vector::Vec2;
use vstd::prelude::*;

verus! {

/// The finger that drives the intensity knob.
///
/// Deliberately *not* index or thumb: `TwoHandQuad` builds the region from
/// those two fingertips, so using them would make the knob and the window the
/// same control. Middle, ring and pinky are free.
pub const KNOB_FINGER: Finger = Finger::Middle;

/// The knob after a frame with these hands.
pub open spec fn knob_after(current: Fx, hands: Seq<Hand>, region_active: bool) -> Fx {
    match max_curl_of(hands, KNOB_FINGER) {
        Some(curl) if region_active => curl,
        _ => current,
    }
}

/// Update the intensity knob from the current hands.
///
/// Returns the new value, or `current` unchanged when the region is not live.
/// Holding the value while the window is down means curling a finger between
/// poses cannot silently move the setting: bring the window back up and the
/// effect is exactly where you left it.
pub fn update_knob(current: Fx, hands: &HandFrame, region_active: bool) -> (knob: Fx)
    ensures
        knob == knob_after(current, hands.hands@, region_active),
{
    if !region_active {
        return current;
    }
    match hands.max_curl(KNOB_FINGER) {
        Some(curl) => curl,
        None => current,
    }
}

/// What an effect can react to when computing its parameters.
#[derive(Debug, Clone, Copy)]
pub struct EffectCtx {
    pub region: Region,
    /// Intensity control, 0..1: 0 with the middle finger extended, 1 fully
    /// curled. Held steady while the region is off; see [`update_knob`].
    pub knob: Fx,
}

impl EffectCtx {
    /// Intensity control, 0..1. Curl the middle finger to raise it.
    #[verifier::allow_in_spec]
    pub fn knob(&self) -> Fx
        returns
            self.knob.clamp(Fx::zero(), Fx::one()),
    {
        self.knob.clamp(Fx::zero(), Fx::one())
    }

    /// Diagonal of the region in normalized units, for size-aware effects.
    #[verifier::allow_in_spec]
    pub fn region_extent(&self) -> Fx
        returns
            (match self.region {
                Region::Quad(c) => c[2].minus(c[0]).length().max(Fx::ratio(1, 10000)),
                Region::Empty => Fx::zero(),
            }),
    {
        match self.region.corners() {
            Some(c) => c[2].minus(c[0]).length().max(Fx::ratio(1, 10000)),
            None => Fx::zero(),
        }
    }
}

pub trait Effect: Send {
    /// The effect's name.
    spec fn label(&self) -> Seq<char>;

    /// The name of the file with its shader.
    spec fn file(&self) -> Seq<char>;

    /// The values that the shader reads.
    spec fn values(&self, ctx: EffectCtx) -> Seq<Fx>;

    /// The knobs that the panel may turn.
    spec fn knobs(&self) -> Seq<Knob>;

    fn name(&self) -> (name: &str)
        ensures
            name@ == self.label(),
    ;

    /// The file under `assets/shaders/effects/` that defines
    /// `fn effect(uv: vec2<f32>) -> vec3<f32>`.
    fn shader(&self) -> (path: &'static str)
        ensures
            path@ == self.file(),
    ;

    /// Values exposed to the shader as `g.params`.
    fn params(&self, ctx: &EffectCtx) -> (params: [Fx; 4])
        ensures
            params@ == self.values(*ctx),
    ;

    /// The effect's own knobs, for the panel to edit in place.
    fn tunables(&mut self) -> (out: Vec<Tunable<'_>>)
        ensures
            final(self).label() == old(self).label(),
            final(self).file() == old(self).file(),
            out@.len() == old(self).knobs().len(),
            final(self).knobs().len() == old(self).knobs().len(),
            forall|i: int| 0 <= i < out@.len() ==> (#[trigger] out@[i]).shows(old(self).knobs()[i]),
            forall|i: int|
                0 <= i < out@.len() ==> #[trigger] final(self).knobs()[i] == (Knob {
                    value: *final(out@[i].value),
                    ..old(self).knobs()[i]
                }),
    ;
}

/// `low` with the knob at zero, `low + span` with the knob at one.
#[verifier::allow_in_spec]
pub fn dial(low: Fx, span: Fx, knob: Fx) -> Fx
    returns
        low.plus(span.times(knob)),
{
    low.plus(span.times(knob))
}

/// Mosaic.
#[derive(Debug, Clone, Copy)]
pub struct Pixelate {
    /// Block size range in pixels, mapped from the knob.
    pub min_block: Fx,
    pub max_block: Fx,
}

impl Default for Pixelate {
    fn default() -> (effect: Pixelate)
        ensures
            effect == (Pixelate { min_block: Fx::whole(12), max_block: Fx::whole(64) }),
    {
        // An open hand rests at the low end; curling dials it chunkier.
        Pixelate { min_block: Fx::whole(12), max_block: Fx::whole(64) }
    }
}

impl Effect for Pixelate {
    open spec fn label(&self) -> Seq<char> {
        "pixelate"@
    }

    open spec fn file(&self) -> Seq<char> {
        "pixelate.wgsl"@
    }

    open spec fn values(&self, ctx: EffectCtx) -> Seq<Fx> {
        seq![
            dial(self.min_block, self.max_block.minus(self.min_block), ctx.knob()),
            Fx::zero(),
            Fx::zero(),
            Fx::zero(),
        ]
    }

    open spec fn knobs(&self) -> Seq<Knob> {
        seq![
            Knob {
                label: "smallest block"@,
                value: self.min_block,
                min: Fx::one(),
                max: Fx::whole(64),
            },
            Knob {
                label: "largest block"@,
                value: self.max_block,
                min: Fx::one(),
                max: Fx::whole(64),
            },
        ]
    }

    fn name(&self) -> &str {
        "pixelate"
    }

    fn shader(&self) -> &'static str {
        "pixelate.wgsl"
    }

    fn params(&self, ctx: &EffectCtx) -> [Fx; 4] {
        let block: Fx = dial(self.min_block, self.max_block.minus(self.min_block), ctx.knob());
        let params = [block, Fx::zero(), Fx::zero(), Fx::zero()];
        assert(params@ =~= self.values(*ctx));
        params
    }

    fn tunables(&mut self) -> Vec<Tunable<'_>> {
        let mut out: Vec<Tunable> = Vec::new();
        out.push(Tunable::new("smallest block", &mut self.min_block, Fx::one(), Fx::whole(64)));
        out.push(Tunable::new("largest block", &mut self.max_block, Fx::one(), Fx::whole(64)));
        out
    }
}

#[derive(Debug, Clone, Copy)]
pub struct Blur {
    pub max_radius: Fx,
}

impl Default for Blur {
    fn default() -> (effect: Blur)
        ensures
            effect == (Blur { max_radius: Fx::whole(10) }),
    {
        Blur { max_radius: Fx::whole(10) }
    }
}

impl Effect for Blur {
    open spec fn label(&self) -> Seq<char> {
        "blur"@
    }

    open spec fn file(&self) -> Seq<char> {
        "blur.wgsl"@
    }

    open spec fn values(&self, ctx: EffectCtx) -> Seq<Fx> {
        seq![
            dial(Fx::whole(2), self.max_radius, ctx.knob()),
            Fx::zero(),
            Fx::zero(),
            Fx::zero(),
        ]
    }

    open spec fn knobs(&self) -> Seq<Knob> {
        seq![
            Knob {
                label: "largest radius"@,
                value: self.max_radius,
                min: Fx::one(),
                max: Fx::whole(32),
            },
        ]
    }

    fn name(&self) -> &str {
        "blur"
    }

    fn shader(&self) -> &'static str {
        "blur.wgsl"
    }

    fn params(&self, ctx: &EffectCtx) -> [Fx; 4] {
        let radius: Fx = dial(Fx::whole(2), self.max_radius, ctx.knob());
        let params = [radius, Fx::zero(), Fx::zero(), Fx::zero()];
        assert(params@ =~= self.values(*ctx));
        params
    }

    fn tunables(&mut self) -> Vec<Tunable<'_>> {
        let mut out: Vec<Tunable> = Vec::new();
        out.push(Tunable::new("largest radius", &mut self.max_radius, Fx::one(), Fx::whole(32)));
        out
    }
}

#[derive(Debug, Clone, Copy, Default)]
pub struct RgbShift;

impl Effect for RgbShift {
    open spec fn label(&self) -> Seq<char> {
        "rgb-shift"@
    }

    open spec fn file(&self) -> Seq<char> {
        "rgb_shift.wgsl"@
    }

    open spec fn values(&self, ctx: EffectCtx) -> Seq<Fx> {
        seq![
            dial(Fx::whole(3), Fx::whole(33), ctx.knob()),
            Fx::zero(),
            Fx::zero(),
            Fx::zero(),
        ]
    }

    open spec fn knobs(&self) -> Seq<Knob> {
        seq![]
    }

    fn name(&self) -> &str {
        "rgb-shift"
    }

    fn shader(&self) -> &'static str {
        "rgb_shift.wgsl"
    }

    fn params(&self, ctx: &EffectCtx) -> [Fx; 4] {
        let shift: Fx = dial(Fx::whole(3), Fx::whole(33), ctx.knob());
        let params = [shift, Fx::zero(), Fx::zero(), Fx::zero()];
        assert(params@ =~= self.values(*ctx));
        params
    }

    fn tunables(&mut self) -> Vec<Tunable<'_>> {
        Vec::new()
    }
}

#[derive(Debug, Clone, Copy, Default)]
pub struct EdgeGlow;

impl Effect for EdgeGlow {
    open spec fn label(&self) -> Seq<char> {
        "edge-glow"@
    }

    open spec fn file(&self) -> Seq<char> {
        "edge_glow.wgsl"@
    }

    open spec fn values(&self, ctx: EffectCtx) -> Seq<Fx> {
        seq![
            dial(Fx::whole(3), Fx::whole(9), ctx.knob()),
            Fx::ratio(3, 2),
            Fx::zero(),
            Fx::zero(),
        ]
    }

    open spec fn knobs(&self) -> Seq<Knob> {
        seq![]
    }

    fn name(&self) -> &str {
        "edge-glow"
    }

    fn shader(&self) -> &'static str {
        "edge_glow.wgsl"
    }

    fn params(&self, ctx: &EffectCtx) -> [Fx; 4] {
        let glow: Fx = dial(Fx::whole(3), Fx::whole(9), ctx.knob());
        let params = [glow, Fx::ratio(3, 2), Fx::zero(), Fx::zero()];
        assert(params@ =~= self.values(*ctx));
        params
    }

    fn tunables(&mut self) -> Vec<Tunable<'_>> {
        Vec::new()
    }
}

#[derive(Debug, Clone, Copy, Default)]
pub struct Swirl;

impl Effect for Swirl {
    open spec fn label(&self) -> Seq<char> {
        "swirl"@
    }

    open spec fn file(&self) -> Seq<char> {
        "swirl.wgsl"@
    }

    open spec fn values(&self, ctx: EffectCtx) -> Seq<Fx> {
        seq![
            dial(Fx::ratio(6, 10), Fx::ratio(44, 10), ctx.knob()),
            ctx.region_extent().max(Fx::ratio(15, 100)).times(Fx::ratio(6, 10)),
            Fx::zero(),
            Fx::zero(),
        ]
    }

    open spec fn knobs(&self) -> Seq<Knob> {
        seq![]
    }

    fn name(&self) -> &str {
        "swirl"
    }

    fn shader(&self) -> &'static str {
        "swirl.wgsl"
    }

    fn params(&self, ctx: &EffectCtx) -> [Fx; 4] {
        let twist: Fx = dial(Fx::ratio(6, 10), Fx::ratio(44, 10), ctx.knob());
        // Scale the falloff with the region so the swirl fills whatever
        // window the hands make.
        let extent: Fx = ctx.region_extent().max(Fx::ratio(15, 100));
        let params = [twist, extent.times(Fx::ratio(6, 10)), Fx::zero(), Fx::zero()];
        assert(params@ =~= self.values(*ctx));
        params
    }

    fn tunables(&mut self) -> Vec<Tunable<'_>> {
        Vec::new()
    }
}

/// Any one of the effects.
#[derive(Debug, Clone, Copy)]
pub enum AnyEffect {
    Pixelate(Pixelate),
    Blur(Blur),
    RgbShift(RgbShift),
    EdgeGlow(EdgeGlow),
    Swirl(Swirl),
}

impl Effect for AnyEffect {
    open spec fn label(&self) -> Seq<char> {
        match self {
            AnyEffect::Pixelate(e) => e.label(),
            AnyEffect::Blur(e) => e.label(),
            AnyEffect::RgbShift(e) => e.label(),
            AnyEffect::EdgeGlow(e) => e.label(),
            AnyEffect::Swirl(e) => e.label(),
        }
    }

    open spec fn file(&self) -> Seq<char> {
        match self {
            AnyEffect::Pixelate(e) => e.file(),
            AnyEffect::Blur(e) => e.file(),
            AnyEffect::RgbShift(e) => e.file(),
            AnyEffect::EdgeGlow(e) => e.file(),
            AnyEffect::Swirl(e) => e.file(),
        }
    }

    open spec fn values(&self, ctx: EffectCtx) -> Seq<Fx> {
        match self {
            AnyEffect::Pixelate(e) => e.values(ctx),
            AnyEffect::Blur(e) => e.values(ctx),
            AnyEffect::RgbShift(e) => e.values(ctx),
            AnyEffect::EdgeGlow(e) => e.values(ctx),
            AnyEffect::Swirl(e) => e.values(ctx),
        }
    }

    open spec fn knobs(&self) -> Seq<Knob> {
        match self {
            AnyEffect::Pixelate(e) => e.knobs(),
            AnyEffect::Blur(e) => e.knobs(),
            AnyEffect::RgbShift(e) => e.knobs(),
            AnyEffect::EdgeGlow(e) => e.knobs(),
            AnyEffect::Swirl(e) => e.knobs(),
        }
    }

    fn name(&self) -> &str {
        match self {
            AnyEffect::Pixelate(e) => e.name(),
            AnyEffect::Blur(e) => e.name(),
            AnyEffect::RgbShift(e) => e.name(),
            AnyEffect::EdgeGlow(e) => e.name(),
            AnyEffect::Swirl(e) => e.name(),
        }
    }

    fn shader(&self) -> &'static str {
        match self {
            AnyEffect::Pixelate(e) => e.shader(),
            AnyEffect::Blur(e) => e.shader(),
            AnyEffect::RgbShift(e) => e.shader(),
            AnyEffect::EdgeGlow(e) => e.shader(),
            AnyEffect::Swirl(e) => e.shader(),
        }
    }

    fn params(&self, ctx: &EffectCtx) -> [Fx; 4] {
        match self {
            AnyEffect::Pixelate(e) => e.params(ctx),
            AnyEffect::Blur(e) => e.params(ctx),
            AnyEffect::RgbShift(e) => e.params(ctx),
            AnyEffect::EdgeGlow(e) => e.params(ctx),
            AnyEffect::Swirl(e) => e.params(ctx),
        }
    }

    fn tunables(&mut self) -> Vec<Tunable<'_>> {
        match self {
            AnyEffect::Pixelate(e) => e.tunables(),
            AnyEffect::Blur(e) => e.tunables(),
            AnyEffect::RgbShift(e) => e.tunables(),
            AnyEffect::EdgeGlow(e) => e.tunables(),
            AnyEffect::Swirl(e) => e.tunables(),
        }
    }
}

/// Every effect, in cycle order.
pub open spec fn catalogue() -> Seq<AnyEffect> {
    seq![
        AnyEffect::Pixelate(Pixelate { min_block: Fx::whole(12), max_block: Fx::whole(64) }),
        AnyEffect::Blur(Blur { max_radius: Fx::whole(10) }),
        AnyEffect::RgbShift(RgbShift),
        AnyEffect::EdgeGlow(EdgeGlow),
        AnyEffect::Swirl(Swirl),
    ]
}

/// Every effect, in cycle order. Thumb-to-pinky steps through this list.
pub fn registry() -> (effects: Vec<AnyEffect>)
    ensures
        effects@ == catalogue(),
{
    let mut effects: Vec<AnyEffect> = Vec::new();
    effects.push(AnyEffect::Pixelate(Pixelate::default()));
    effects.push(AnyEffect::Blur(Blur::default()));
    effects.push(AnyEffect::RgbShift(RgbShift));
    effects.push(AnyEffect::EdgeGlow(EdgeGlow));
    effects.push(AnyEffect::Swirl(Swirl));
    effects
}

/// While the region is off, or no hand is tracked, the knob holds its value.
pub proof fn law_knob_holds(current: Fx, hands: Seq<Hand>)
    ensures
        knob_after(current, hands, false) == current,
        forall|active: bool| #[trigger] knob_after(current, seq![], active) == current,
{
}

/// A knob that was between 0 and 1 stays there.
pub proof fn law_knob_stays_in_range(current: Fx, hands: Seq<Hand>, active: bool)
    requires
        0 <= current.raw <= ONE,
    ensures
        0 <= knob_after(current, hands, active).raw <= ONE,
{
    crate::tracking::hand::laws::law_max_curl_is_strongest(hands, KNOB_FINGER);
}

/// The landmarks that a hand's middle finger is read from: its tip and
/// knuckle, and those that the palm is measured by.
pub open spec fn same_middle_finger(a: Hand, b: Hand) -> bool {
    &&& a.landmarks[0] == b.landmarks[0]
    &&& a.landmarks[5] == b.landmarks[5]
    &&& a.landmarks[9] == b.landmarks[9]
    &&& a.landmarks[12] == b.landmarks[12]
    &&& a.landmarks[17] == b.landmarks[17]
}

/// The fingers that span the region do not move the knob: only the middle
/// finger does, read against the palm.
pub proof fn law_knob_ignores_region_fingers(
    current: Fx,
    a: Seq<Hand>,
    b: Seq<Hand>,
    active: bool,
)
    requires
        a.len() == b.len(),
        forall|i: int| 0 <= i < a.len() ==> same_middle_finger(#[trigger] a[i], b[i]),
    ensures
        knob_after(current, a, active) == knob_after(current, b, active),
{
    lemma_same_curl(a, b);
}

proof fn lemma_same_curl(a: Seq<Hand>, b: Seq<Hand>)
    requires
        a.len() == b.len(),
        forall|i: int| 0 <= i < a.len() ==> same_middle_finger(#[trigger] a[i], b[i]),
    ensures
        max_curl_of(a, KNOB_FINGER) == max_curl_of(b, KNOB_FINGER),
    decreases a.len(),
{
    if a.len() > 0 {
        let n = a.len() - 1;
        assert forall|i: int| 0 <= i < n implies same_middle_finger(
            #[trigger] a.drop_last()[i],
            b.drop_last()[i],
        ) by {
            assert(same_middle_finger(a[i], b[i]));
        }
        lemma_same_curl(a.drop_last(), b.drop_last());
        assert(same_middle_finger(a[n], b[n]));
        assert(a.last().curl(KNOB_FINGER) == b.last().curl(KNOB_FINGER));
    }
}

/// A dial runs from its low end to its high end, and never past either.
pub proof fn law_dial(low: Fx, span: Fx, knob: Fx)
    requires
        0 <= knob.raw <= ONE,
        0 <= span.raw,
        low.raw + span.raw <= i64::MAX,
    ensures
        low.raw <= dial(low, span, knob).raw <= low.raw + span.raw,
        dial(low, span, Fx::zero()) == low,
        dial(low, span, Fx::one()).raw == low.raw + span.raw,
{
    let s = span.raw as int;
    let k = knob.raw as int;
    assert(0 <= (s * k) / 0x1_0000_0000 <= s) by (nonlinear_arith)
        requires
            0 <= s,
            0 <= k <= 0x1_0000_0000,
    ;
    assert((s * 0x1_0000_0000) / 0x1_0000_0000 == s) by (nonlinear_arith);
    assert(s * 0 == 0);
}

/// Turning the knob up never turns an effect down.
pub proof fn law_dial_rises(low: Fx, span: Fx, a: Fx, b: Fx)
    requires
        0 <= span.raw,
        a.raw <= b.raw,
    ensures
        dial(low, span, a).raw <= dial(low, span, b).raw,
{
    let s = span.raw as int;
    let x = a.raw as int;
    let y = b.raw as int;
    assert(s * x <= s * y) by (nonlinear_arith)
        requires
            0 <= s,
            x <= y,
    ;
    vstd::arithmetic::div_mod::lemma_div_is_ordered(s * x, s * y, 0x1_0000_0000);
}

/// Whatever the hands do, every effect's first parameter stays in its range.
pub proof fn law_params_stay_in_range(ctx: EffectCtx)
    ensures
        12 * ONE <= catalogue()[0].values(ctx)[0].raw <= 64 * ONE,
        2 * ONE <= catalogue()[1].values(ctx)[0].raw <= 12 * ONE,
        3 * ONE <= catalogue()[2].values(ctx)[0].raw <= 36 * ONE,
        3 * ONE <= catalogue()[3].values(ctx)[0].raw <= 12 * ONE,
        Fx::ratio(6, 10).raw <= catalogue()[4].values(ctx)[0].raw <= 5 * ONE,
        catalogue()[4].values(ctx)[1].raw >= Fx::ratio(15, 100).times(Fx::ratio(6, 10)).raw,
{
    let k = ctx.knob();
    law_dial(Fx::whole(12), Fx::whole(64).minus(Fx::whole(12)), k);
    law_dial(Fx::whole(2), Fx::whole(10), k);
    law_dial(Fx::whole(3), Fx::whole(33), k);
    law_dial(Fx::whole(3), Fx::whole(9), k);
    law_dial(Fx::ratio(6, 10), Fx::ratio(44, 10), k);
    let x = Fx::ratio(15, 100).raw as int;
    let y = ctx.region_extent().max(Fx::ratio(15, 100)).raw as int;
    let s = Fx::ratio(6, 10).raw as int;
    assert(x * s <= y * s) by (nonlinear_arith)
        requires
            0 <= s,
            x <= y,
    ;
    vstd::arithmetic::div_mod::lemma_div_is_ordered(x * s, y * s, 0x1_0000_0000);
}

/// No two effects share a name.
pub proof fn law_names_are_unique(i: int, j: int)
    requires
        0 <= i < j < catalogue().len(),
    ensures
        catalogue()[i].label() != catalogue()[j].label(),
{
    reveal_strlit("pixelate");
    reveal_strlit("blur");
    reveal_strlit("rgb-shift");
    reveal_strlit("edge-glow");
    reveal_strlit("swirl");
    assert("rgb-shift"@[0] != "edge-glow"@[0]);
    assert(catalogue()[0].label() == "pixelate"@);
    assert(catalogue()[1].label() == "blur"@);
    assert(catalogue()[2].label() == "rgb-shift"@);
    assert(catalogue()[3].label() == "edge-glow"@);
    assert(catalogue()[4].label() == "swirl"@);
    assert(catalogue()[i].label() != catalogue()[j].label()) by {
        assert("pixelate"@.len() == 8 && "blur"@.len() == 4 && "rgb-shift"@.len() == 9
            && "edge-glow"@.len() == 9 && "swirl"@.len() == 5);
    }
}

/// While the window is up the knob follows the middle fingers: it reads the
/// curl of one of them, and none is curled more.
pub proof fn law_knob_follows_the_strongest_curl(current: Fx, hands: Seq<Hand>)
    requires
        hands.len() > 0,
    ensures
        ({
            let knob = knob_after(current, hands, true);
            &&& exists|i: int|
                0 <= i < hands.len() && #[trigger] hands[i].curl(Finger::Middle) == knob
            &&& forall|i: int|
                0 <= i < hands.len() ==> #[trigger] hands[i].curl(Finger::Middle).raw <= knob.raw
        }),
{
    crate::tracking::hand::laws::law_max_curl_is_strongest(hands, Finger::Middle);
}

/// Every effect turns with the knob in proportion, from one end of its range to
/// the other: the mosaic from its smallest block to its largest, the blur from
/// two pixels by its largest radius, and the others over fixed ranges.
pub proof fn law_effects_turn_with_the_knob(ctx: EffectCtx, mosaic: Pixelate, blur: Blur)
    requires
        0 <= ctx.knob.raw <= ONE,
        0 <= mosaic.min_block.raw <= mosaic.max_block.raw <= 0x1000_0000_0000,
        0 <= blur.max_radius.raw <= 0x1000_0000_0000,
    ensures
        ({
            let k = ctx.knob.raw as int;
            let block = mosaic.values(ctx)[0].raw - mosaic.min_block.raw;
            let radius = blur.values(ctx)[0].raw - 2 * ONE;
            &&& 0 <= (mosaic.max_block.raw - mosaic.min_block.raw) * k - block * 0x1_0000_0000
                < 0x1_0000_0000
            &&& 0 <= blur.max_radius.raw * k - radius * 0x1_0000_0000 < 0x1_0000_0000
            &&& RgbShift.values(ctx)[0].raw == 3 * ONE + 33 * k
            &&& EdgeGlow.values(ctx)[0].raw == 3 * ONE + 9 * k
            &&& 2 * EdgeGlow.values(ctx)[1].raw == 3 * ONE
            &&& -40 <= 10 * Swirl.values(ctx)[0].raw - 6 * ONE - 44 * k <= 0
        }),
{
    let k = ctx.knob.raw as int;
    let s = mosaic.max_block.raw - mosaic.min_block.raw;
    let r = blur.max_radius.raw as int;
    assert(ctx.knob() == ctx.knob);
    assert(0 <= s * k <= s * 0x1_0000_0000) by (nonlinear_arith)
        requires
            0 <= s,
            0 <= k <= 0x1_0000_0000,
    ;
    assert(0 <= r * k <= r * 0x1_0000_0000) by (nonlinear_arith)
        requires
            0 <= r,
            0 <= k <= 0x1_0000_0000,
    ;
    assert(((33 * 0x1_0000_0000) * k) / 0x1_0000_0000 == 33 * k) by (nonlinear_arith);
    assert(((9 * 0x1_0000_0000) * k) / 0x1_0000_0000 == 9 * k) by (nonlinear_arith);
    assert(Fx::whole(33).raw == 33 * 0x1_0000_0000 && Fx::whole(9).raw == 9 * 0x1_0000_0000);
    let t = Fx::ratio(44, 10).raw as int;
    assert(t == 18897856102 && Fx::ratio(6, 10).raw == 2576980377);
    let q = (t * k) / 0x1_0000_0000;
    assert(44 * k - 20 <= 10 * q <= 44 * k) by (nonlinear_arith)
        requires
            t == 18897856102,
            q == (t * k) / 0x1_0000_0000,
            0 <= k <= 0x1_0000_0000,
    ;
}

/// The swirl reaches over six tenths of the window's diagonal, and of 0.15 if
/// the window is smaller or there is none.
pub proof fn law_swirl_fills_the_window(ctx: EffectCtx)
    requires
        ctx.region_extent().raw <= 0x1000_0000_0000,
    ensures
        ({
            let extent = ctx.region_extent().raw as int;
            let reach = Swirl.values(ctx)[1].raw;
            &&& 100 * extent >= 15 * ONE ==> 6 * extent - 30_000 <= 10 * reach <= 6 * extent
            &&& 100 * extent < 15 * ONE - 100 ==> 9 * ONE - 2000 <= 100 * reach <= 9 * ONE
        }),
{
    let e = ctx.region_extent().raw as int;
    assert(Fx::ratio(15, 100).raw == 644245094 && Fx::ratio(6, 10).raw == 2576980377);
    let m = if e < 644245094 {
        644245094
    } else {
        e
    };
    let q = (m * 2576980377) / 0x1_0000_0000;
    assert(6 * m - 30_000 <= 10 * q <= 6 * m && 0 <= q) by (nonlinear_arith)
        requires
            0 <= m <= 0x1000_0000_0000,
            q == (m * 2576980377) / 0x1_0000_0000,
    ;
    if e < 644245094 {
        assert(q == (644245094 * 2576980377) / 0x1_0000_0000);
        assert(q == 386547056);
    }
}

/// The extent of a window is the distance between its first and third corner.
pub proof fn law_extent_is_the_diagonal(ctx: EffectCtx, c: [Vec2; 4], d: int)
    requires
        ctx.region == Region::Quad(c),
        crate::region::in_bounds(c[0]),
        crate::region::in_bounds(c[2]),
        429496 <= d <= i64::MAX,
        crate::fixed::is_root(d, crate::region::distance2(c[2], c[0])),
    ensures
        ctx.region_extent().raw == d,
{
    let v = c[2].minus(c[0]);
    let n = crate::vector::norm2(v);
    assert(n == crate::region::distance2(c[2], c[0]));
    crate::vector::lemma_square_bound(v.x.raw);
    crate::vector::lemma_square_bound(v.y.raw);
    crate::fixed::lemma_root(n);
    crate::fixed::lemma_root_unique(d, crate::fixed::root(n), n);
    assert(Fx::ratio(1, 10000).raw == 429496);
}

/// Each effect's shader is in the file of its name, with low lines for hyphens.
pub proof fn law_shaders_are_named_after_effects(i: int, k: int)
    requires
        0 <= i < catalogue().len(),
        0 <= k < catalogue()[i].label().len(),
    ensures
        catalogue()[i].file().len() == catalogue()[i].label().len() + 5,
        catalogue()[i].file()[k] == if catalogue()[i].label()[k] == '-' {
            '_'
        } else {
            catalogue()[i].label()[k]
        },
{
    reveal_strlit("pixelate");
    reveal_strlit("blur");
    reveal_strlit("rgb-shift");
    reveal_strlit("edge-glow");
    reveal_strlit("swirl");
    reveal_strlit("pixelate.wgsl");
    reveal_strlit("blur.wgsl");
    reveal_strlit("rgb_shift.wgsl");
    reveal_strlit("edge_glow.wgsl");
    reveal_strlit("swirl.wgsl");
    assert(i == 0 || i == 1 || i == 2 || i == 3 || i == 4);
    assert(k == 0 || k == 1 || k == 2 || k == 3 || k == 4 || k == 5 || k == 6 || k == 7 || k == 8);
}

} // verus!
