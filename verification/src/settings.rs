//! Runtime-tunable settings, shared between the control panel and the pipeline.

use crate::fixed::Fx;
use crate::tracking::face::{self, FaceSettings};
use crate::tracking::filter::{self, OneEuroConfig};
use vstd::prelude::*;

verus! {

/// A single knob a subsystem exposes to the control panel.
///
/// Borrowing the value directly means a component declares its tunables once
/// and the panel edits them in place: no copying settings back and forth, and
/// no central registry to keep in sync.
pub struct Tunable<'a> {
    pub label: &'static str,
    pub value: &'a mut Fx,
    pub min: Fx,
    pub max: Fx,
}

impl<'a> Tunable<'a> {
    pub fn new(label: &'static str, value: &'a mut Fx, min: Fx, max: Fx) -> (t: Tunable<'a>)
        ensures
            t.label == label,
            *t.value == *old(value),
            *final(value) == *final(t.value),
            t.min == min,
            t.max == max,
    {
        Tunable { label, value, min, max }
    }
}

/// What the panel is told of a knob.
pub ghost struct Knob {
    pub label: Seq<char>,
    pub value: Fx,
    pub min: Fx,
    pub max: Fx,
}

impl<'a> Tunable<'a> {
    /// The tunable stands for this knob.
    pub open spec fn shows(&self, knob: Knob) -> bool {
        &&& self.label@ == knob.label
        &&& *self.value == knob.value
        &&& self.min == knob.min
        &&& self.max == knob.max
    }
}

/// Settings the tracking thread reads. Shared because tracking runs on its own
/// thread; it re-reads these once per frame, so edits apply live.
#[derive(Clone, Copy, Debug, PartialEq, Eq, Structural)]
pub struct TrackingSettings {
    pub max_hands: usize,
    /// Landmark confidence below which a hand is considered lost.
    pub presence_threshold: Fx,
    /// Palm-detector confidence needed to seed a new track.
    pub palm_score_threshold: Fx,
    /// Frames between palm-detection attempts while short of hands.
    pub redetect_interval: u64,
    pub filter: OneEuroConfig,
    pub face: FaceSettings,
}

/// The settings that tracking starts with.
pub open spec fn default_settings() -> TrackingSettings {
    TrackingSettings {
        max_hands: 2,
        presence_threshold: Fx::ratio(6, 10),
        palm_score_threshold: Fx::ratio(1, 2),
        redetect_interval: 4,
        filter: filter::default_config(),
        face: face::default_settings(),
    }
}

impl Default for TrackingSettings {
    fn default() -> (settings: TrackingSettings)
        ensures
            settings == default_settings(),
    {
        TrackingSettings {
            max_hands: 2,
            presence_threshold: Fx::ratio(6, 10),
            palm_score_threshold: Fx::ratio(1, 2),
            redetect_interval: 4,
            filter: OneEuroConfig::default(),
            face: FaceSettings::default(),
        }
    }
}

/// Tracking starts with two hands, a hand that is kept from 0.6 and a palm that
/// is followed from 0.5 on, looked for every fourth frame; and with a face that
/// is kept from 0.4 and found from 0.6 on, looked for every sixth frame, in a
/// crop 1.4 times its mesh.
pub proof fn law_default_thresholds()
    ensures
        default_settings().max_hands == 2,
        0 <= 6 * 0x1_0000_0000 - 10 * default_settings().presence_threshold.raw < 10,
        2 * default_settings().palm_score_threshold.raw == 0x1_0000_0000,
        default_settings().redetect_interval == 4,
        default_settings().filter == filter::default_config(),
        default_settings().face.enabled,
        0 <= 6 * 0x1_0000_0000 - 10 * default_settings().face.detect_threshold.raw < 10,
        0 <= 4 * 0x1_0000_0000 - 10 * default_settings().face.presence_threshold.raw < 10,
        default_settings().face.redetect_interval == 6,
        0 <= 14 * 0x1_0000_0000 - 10 * default_settings().face.track_roi_scale.raw < 10,
{
}

} // verus!
