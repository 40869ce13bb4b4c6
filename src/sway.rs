//! The outputs that the sway compositor reports (`swaymsg -t get_outputs`),
//! as plain values. The compositor lists connected outputs only.

use vstd::prelude::*;
use crate::screen::{is_known_name, is_known_output_name, location_of, Location, Mode, Output, Resolution, Screen};

verus! {

/// A mode as the compositor reports it; the refresh rate is in millihertz.
#[derive(Debug, Clone, Copy, PartialEq, Eq, Structural)]
pub struct SwayMode {
    pub width: i32,
    pub height: i32,
    pub refresh: i32,
}

/// An output as the compositor reports it.
#[derive(Debug, PartialEq, Eq)]
pub struct SwayOutput {
    pub name: String,
    pub active: bool,
    pub modes: Vec<SwayMode>,
}

/// Why a report could not be read.
#[derive(Debug, Clone, Copy, PartialEq, Eq, Structural)]
pub enum SwayError {
    /// A negative size or refresh rate.
    BadNumber,
    /// An output name that follows no known connector convention.
    UnknownOutputName,
}

/// None of the mode's numbers is negative.
pub open spec fn sway_mode_valid(m: SwayMode) -> bool {
    m.width >= 0 && m.height >= 0 && m.refresh >= 0
}

/// The display-model mode of a valid reported mode.
pub open spec fn sway_mode(m: SwayMode) -> Mode {
    Mode {
        resolution: Resolution { width: m.width as u32, height: m.height as u32 },
        refresh_rate: m.refresh as u32,
    }
}

/// The reported output can be read: its name is known and its modes valid.
pub open spec fn sway_output_ok(o: SwayOutput) -> bool {
    &&& is_known_name(o.name@)
    &&& forall|j: int| 0 <= j < o.modes@.len() ==> sway_mode_valid(#[trigger] o.modes@[j])
}

/// The display-model output for a readable reported output: connected, on
/// if active, with its modes, located by its name.
pub open spec fn describes_sway(o: Output, s: SwayOutput) -> bool {
    &&& o.name@ == s.name@
    &&& o.connected
    &&& o.enabled == s.active
    &&& o.modes@ == s.modes@.map_values(|m: SwayMode| sway_mode(m))
    &&& o.location == location_of(s.name@)
}

/// A display-model mode from a reported one; none when a number is negative.
pub fn mode_from_sway(m: SwayMode) -> (r: Option<Mode>)
    ensures
        r is Some <==> sway_mode_valid(m),
        r matches Some(mode) ==> mode == sway_mode(m),
{
    if m.width >= 0 && m.height >= 0 && m.refresh >= 0 {
        Some(
            Mode {
                resolution: Resolution { width: m.width as u32, height: m.height as u32 },
                refresh_rate: m.refresh as u32,
            },
        )
    } else {
        None
    }
}

/// The display-model output that the compositor reports: connected, on if
/// active, located by its name.
pub fn output_from_sway(name: &str, active: bool, modes: Vec<Mode>) -> (r: Result<Output, SwayError>)
    ensures
        r is Ok <==> is_known_name(name@),
        r matches Ok(o) ==> o.name@ == name@ && o.connected && o.enabled == active && o.modes@
            == modes@ && o.location == location_of(name@),
{
    if !is_known_output_name(name) {
        return Err(SwayError::UnknownOutputName);
    }
    let location = Location::from_output_name(name);
    Ok(Output { name: name.to_owned(), connected: true, enabled: active, modes, location })
}

fn modes_from_sway(modes: &Vec<SwayMode>) -> (r: Option<Vec<Mode>>)
    ensures
        r is Some <==> forall|j: int| 0 <= j < modes@.len() ==> sway_mode_valid(#[trigger] modes@[j]),
        r matches Some(v) ==> v@ == modes@.map_values(|m: SwayMode| sway_mode(m)),
{
    let mut v: Vec<Mode> = Vec::new();
    let mut j: usize = 0;
    while j < modes.len()
        invariant
            j <= modes.len(),
            forall|k: int| 0 <= k < j ==> sway_mode_valid(#[trigger] modes@[k]),
            v@ == modes@.subrange(0, j as int).map_values(|m: SwayMode| sway_mode(m)),
        decreases modes.len() - j,
    {
        match mode_from_sway(modes[j]) {
            Some(m) => v.push(m),
            None => {
                return None;
            },
        }
        assert(modes@.subrange(0, j + 1).map_values(|m: SwayMode| sway_mode(m)) =~= modes@.subrange(
            0,
            j as int,
        ).map_values(|m: SwayMode| sway_mode(m)).push(sway_mode(modes@[j as int])));
        j = j + 1;
    }
    assert(modes@.subrange(0, modes@.len() as int) =~= modes@);
    Some(v)
}

/// The outputs that the compositor reports, in order. A report with an
/// unknown output name or a negative number is an error.
pub fn screen_from_sway(outputs: &Vec<SwayOutput>) -> (r: Result<Screen, SwayError>)
    ensures
        r is Ok <==> forall|k: int| 0 <= k < outputs@.len() ==> sway_output_ok(#[trigger] outputs@[k]),
        r matches Ok(screen) ==> screen.outputs@.len() == outputs@.len() && forall|k: int|
            0 <= k < outputs@.len() ==> describes_sway(#[trigger] screen.outputs@[k], outputs@[k]),
        r == Err::<Screen, SwayError>(SwayError::UnknownOutputName) ==> exists|k: int|
            0 <= k < outputs@.len() && !is_known_name((#[trigger] outputs@[k]).name@),
        r == Err::<Screen, SwayError>(SwayError::BadNumber) ==> exists|k: int, j: int|
            0 <= k < outputs@.len() && 0 <= j < outputs@[k].modes@.len() && !sway_mode_valid(
                #[trigger] outputs@[k].modes@[j],
            ),
{
    let mut result: Vec<Output> = Vec::new();
    let mut k: usize = 0;
    while k < outputs.len()
        invariant
            k <= outputs.len(),
            result@.len() == k,
            forall|i: int| 0 <= i < k ==> sway_output_ok(#[trigger] outputs@[i]),
            forall|i: int| 0 <= i < k ==> describes_sway(#[trigger] result@[i], outputs@[i]),
        decreases outputs.len() - k,
    {
        let item = &outputs[k];
        let modes = match modes_from_sway(&item.modes) {
            Some(m) => m,
            None => {
                assert(exists|j: int|
                    0 <= j < outputs@[k as int].modes@.len() && !sway_mode_valid(
                        #[trigger] outputs@[k as int].modes@[j],
                    ));
                return Err(SwayError::BadNumber);
            },
        };
        let o = match output_from_sway(item.name.as_str(), item.active, modes) {
            Ok(o) => o,
            Err(_) => {
                assert(!is_known_name(outputs@[k as int].name@));
                return Err(SwayError::UnknownOutputName);
            },
        };
        result.push(o);
        k = k + 1;
    }
    Ok(Screen { outputs: result })
}

} // verus!
