//! The control panel's readout.

use crate::fixed::{Fx, ONE};
use crate::text::{decimal, push_decimal};
use vstd::prelude::*;
use vstd::string::StringExecFns;

verus! {

/// Read-only figures shown at the top of the panel.
#[derive(Debug, Clone)]
pub struct Stats {
    pub fps: Fx,
    pub hands: usize,
    pub region_active: bool,
    pub adapter: String,
    pub inference_backend: String,
}

/// The whole number closest to `x`, and the even one of two that are equally
/// close; zero below zero.
pub open spec fn rounded(x: Fx) -> int {
    let whole = x.raw as int / ONE as int;
    let rest = x.raw as int % ONE as int;
    if x.raw <= 0 {
        0
    } else if 2 * rest > ONE || (2 * rest == ONE && whole % 2 == 1) {
        whole + 1
    } else {
        whole
    }
}

/// The whole number closest to `x`.
fn round(x: Fx) -> (n: u64)
    ensures
        n == rounded(x),
{
    if x.raw <= 0 {
        return 0;
    }
    let raw: u64 = x.raw as u64;
    let whole: u64 = raw / 0x1_0000_0000;
    let rest: u64 = raw % 0x1_0000_0000;
    if 2 * rest > 0x1_0000_0000 || (2 * rest == 0x1_0000_0000 && whole % 2 == 1) {
        whole + 1
    } else {
        whole
    }
}

impl Stats {
    /// The panel's first line: frame rate, hands, and whether a region is up.
    pub fn headline(&self) -> (text: String)
        ensures
            text@ == decimal(rounded(self.fps) as nat) + " fps   ·   "@ + decimal(
                self.hands as nat,
            ) + (if self.hands == 1 {
                " hand"@
            } else {
                " hands"@
            }) + "   ·   region "@ + (if self.region_active {
                "on"@
            } else {
                "off"@
            }),
    {
        let mut text: String = String::new();
        push_decimal(&mut text, round(self.fps));
        text.append(" fps   ·   ");
        push_decimal(&mut text, self.hands as u64);
        if self.hands == 1 {
            text.append(" hand");
        } else {
            text.append(" hands");
        }
        text.append("   ·   region ");
        if self.region_active {
            text.append("on");
        } else {
            text.append("off");
        }
        text
    }

    /// The panel's second line: what renders and what infers.
    pub fn backends(&self) -> (text: String)
        ensures
            text@ == self.adapter@ + " · "@ + self.inference_backend@,
    {
        let mut text: String = self.adapter.clone();
        text.append(" · ");
        text.append(self.inference_backend.as_str());
        text
    }
}

/// A figure is shown as the nearest whole number: half a unit off at most, and
/// even where two are as near.
pub proof fn law_rounded_is_nearest(x: Fx)
    requires
        0 <= x.raw,
    ensures
        -ONE <= 2 * (rounded(x) * 0x1_0000_0000 - x.raw) <= ONE,
        2 * (rounded(x) * 0x1_0000_0000 - x.raw) == ONE || 2 * (rounded(x) * 0x1_0000_0000 - x.raw)
            == -ONE ==> rounded(x) % 2 == 0,
{
}

} // verus!
