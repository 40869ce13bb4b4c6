//! The display model: outputs, their modes and resolutions.

use vstd::prelude::*;
use crate::text::{chars_of, has_prefix};

verus! {

/// A width and a height in pixels.
#[derive(Debug, Clone, Copy, PartialEq, Eq, Hash, Structural)]
pub struct Resolution {
    pub width: u32,
    pub height: u32,
}

impl Resolution {
    /// Number of pixels covered by this resolution.
    pub open spec fn spec_area(self) -> int {
        self.width * self.height
    }

    /// The area, computed in 64 bits so that it never overflows.
    pub fn area(&self) -> (r: u64)
        ensures
            r == self.spec_area(),
    {
        assert(self.width as int * self.height as int <= u32::MAX as int * u32::MAX as int)
            by (nonlinear_arith);
        self.width as u64 * self.height as u64
    }
}

/// A resolution together with a refresh rate in millihertz.
#[derive(Debug, Clone, Copy, PartialEq, Eq, Structural)]
pub struct Mode {
    pub resolution: Resolution,
    pub refresh_rate: u32,
}

/// Where a display sits: built into the machine or plugged in.
#[derive(Debug, Clone, Copy, PartialEq, Eq, Structural)]
pub enum Location {
    Internal,
    External,
}

/// One video connector and what is known about the display behind it.
#[derive(Debug, PartialEq, Eq)]
pub struct Output {
    pub name: String,
    pub connected: bool,
    pub enabled: bool,
    pub modes: Vec<Mode>,
    pub location: Location,
}

/// A snapshot of all outputs.
#[derive(Debug, PartialEq, Eq)]
pub struct Screen {
    pub outputs: Vec<Output>,
}

/// Connector names of built-in panels.
pub open spec fn is_internal_name(name: Seq<char>) -> bool {
    has_prefix(name, "eDP-"@) || has_prefix(name, "LVDS-"@)
}

/// Connector names of plugged-in displays.
pub open spec fn is_external_name(name: Seq<char>) -> bool {
    has_prefix(name, "DP-"@) || has_prefix(name, "DVI-"@) || has_prefix(name, "HDMI-"@)
        || has_prefix(name, "VGA-"@)
}

/// The connector name follows one of the known naming conventions.
pub open spec fn is_known_name(name: Seq<char>) -> bool {
    is_internal_name(name) || is_external_name(name)
}

/// The location that a known connector name stands for.
pub open spec fn location_of(name: Seq<char>) -> Location {
    if is_internal_name(name) {
        Location::Internal
    } else {
        Location::External
    }
}

fn starts_with(s: &Vec<char>, p: &str) -> (r: bool)
    ensures
        r == has_prefix(s@, p@),
{
    let pc = chars_of(p);
    if pc.len() > s.len() {
        return false;
    }
    let mut i: usize = 0;
    while i < pc.len()
        invariant
            i <= pc.len() <= s.len(),
            pc@ == p@,
            forall|j: int| 0 <= j < i ==> s@[j] == pc@[j],
        decreases pc.len() - i,
    {
        if s[i] != pc[i] {
            assert(s@.subrange(0, pc@.len() as int)[i as int] != pc@[i as int]);
            return false;
        }
        i = i + 1;
    }
    assert(s@.subrange(0, pc@.len() as int) =~= pc@);
    true
}

/// Whether `name` follows a known connector naming convention.
pub fn is_known_output_name(name: &str) -> (r: bool)
    ensures
        r == is_known_name(name@),
{
    let cs = chars_of(name);
    starts_with(&cs, "eDP-") || starts_with(&cs, "LVDS-") || starts_with(&cs, "DP-")
        || starts_with(&cs, "DVI-") || starts_with(&cs, "HDMI-") || starts_with(&cs, "VGA-")
}

impl Location {
    /// The location of the output named `name`; only known connector
    /// names are accepted.
    pub fn from_output_name(name: &str) -> (r: Location)
        requires
            is_known_name(name@),
        ensures
            r == location_of(name@),
    {
        let cs = chars_of(name);
        if starts_with(&cs, "eDP-") || starts_with(&cs, "LVDS-") {
            Location::Internal
        } else {
            Location::External
        }
    }
}

} // verus!
