//! The display-controller side: modes, outputs and controllers (CRTCs) as the
//! RandR protocol reports them, the choice of a mode per output, the
//! assignment of controllers, and the size of the resulting screen.

use vstd::prelude::*;
use crate::screen::{is_known_name, location_of, Location, Mode, Output, Resolution, Screen};

verus! {

/// The mode id that stands for "no mode": an idle controller.
pub const NO_MODE: u32 = 0;

/// The controller id that stands for "no controller": an unbound output.
pub const NO_CRTC: u32 = 0;

/// The protocol's bit for a line-doubled mode.
pub const MODE_FLAG_DOUBLE_SCAN: u32 = 32;

/// The protocol's rotation value for "not rotated".
pub const ROTATE_0: u16 = 1;

/// A mode as the protocol describes it: size and raw timings.
#[derive(Debug, Clone, Copy, Default, PartialEq, Eq, Structural)]
pub struct ModeInfo {
    pub id: u32,
    pub width: u16,
    pub height: u16,
    pub dot_clock: u32,
    pub htotal: u16,
    pub vtotal: u16,
    pub mode_flags: u32,
}

/// An output as the protocol describes it.
#[derive(Debug, Default, PartialEq, Eq)]
pub struct OutputInfo {
    pub id: u32,
    /// The controller driving this output, or `NO_CRTC`.
    pub crtc: u32,
    pub connected: bool,
    /// The controllers able to drive this output.
    pub crtcs: Vec<u32>,
    /// Ids of the supported modes; the first `num_preferred` are preferred.
    pub modes: Vec<u32>,
    pub num_preferred: u16,
    pub name: String,
    pub mm_width: u32,
    pub mm_height: u32,
}

/// A display controller as the protocol describes it.
#[derive(Debug, Default, PartialEq, Eq)]
pub struct CrtcInfo {
    pub id: u32,
    pub x: i16,
    pub y: i16,
    /// The active mode, or `NO_MODE` when idle.
    pub mode: u32,
    pub rotation: u16,
    /// The outputs showing this controller's image.
    pub outputs: Vec<u32>,
}

/// Why the display-controller state could not be read or planned.
#[derive(Debug, Clone, Copy, PartialEq, Eq, Structural)]
pub enum RandrError {
    /// An output's name follows no known connector convention.
    UnknownOutputName,
    /// A mode id that the mode table does not hold.
    UnknownMode,
    /// A refresh rate that does not fit in 32 bits.
    RefreshRateTooLarge,
    /// Outputs and controllers do not refer to each other consistently.
    Inconsistent,
    /// An output to enable found no idle controller.
    NoFreeCrtc,
    /// An output to enable has no usable mode.
    NoUsableMode,
    /// The bounding box of the active controllers is too large.
    ScreenTooLarge,
}

/// The mode table holds a mode with id `id`.
pub open spec fn has_mode(modes: Seq<ModeInfo>, id: u32) -> bool {
    exists|k: int| 0 <= k < modes.len() && (#[trigger] modes[k]).id == id
}

/// `k` is the first position of id `id` in the mode table.
pub open spec fn is_first_mode(modes: Seq<ModeInfo>, id: u32, k: int) -> bool {
    0 <= k < modes.len() && modes[k].id == id && forall|j: int| 0 <= j < k ==> (#[trigger] modes[j]).id != id
}

/// The mode that id `id` names in the table (its first entry).
pub open spec fn mode_of(modes: Seq<ModeInfo>, id: u32) -> ModeInfo {
    modes[choose|k: int| is_first_mode(modes, id, k)]
}

/// Every id in `ids` names a mode of the table.
pub open spec fn all_modes_known(ids: Seq<u32>, modes: Seq<ModeInfo>) -> bool {
    forall|i: int| 0 <= i < ids.len() ==> has_mode(modes, #[trigger] ids[i])
}

proof fn lemma_first_mode(modes: Seq<ModeInfo>, id: u32, k: int)
    requires
        is_first_mode(modes, id, k),
    ensures
        mode_of(modes, id) == modes[k],
{
    let c = choose|c: int| is_first_mode(modes, id, c);
    assert(is_first_mode(modes, id, c));
    if c < k {
        assert(modes[c].id != id);
    }
    if k < c {
        assert(modes[k].id != id);
    }
}

/// Looks a mode up by id.
pub fn find_mode(modes: &Vec<ModeInfo>, id: u32) -> (r: Option<ModeInfo>)
    ensures
        r is None <==> !has_mode(modes@, id),
        r matches Some(m) ==> m == mode_of(modes@, id),
{
    let mut k: usize = 0;
    while k < modes.len()
        invariant
            k <= modes.len(),
            forall|j: int| 0 <= j < k ==> (#[trigger] modes@[j]).id != id,
        decreases modes.len() - k,
    {
        if modes[k].id == id {
            proof {
                lemma_first_mode(modes@, id, k as int);
            }
            return Some(modes[k]);
        }
        k = k + 1;
    }
    None
}

/// Whether every id of `ids` names a mode of the table.
pub fn modes_known(ids: &Vec<u32>, modes: &Vec<ModeInfo>) -> (r: bool)
    ensures
        r == all_modes_known(ids@, modes@),
{
    let mut i: usize = 0;
    while i < ids.len()
        invariant
            i <= ids.len(),
            forall|j: int| 0 <= j < i ==> has_mode(modes@, #[trigger] ids@[j]),
        decreases ids.len() - i,
    {
        if find_mode(modes, ids[i]).is_none() {
            return false;
        }
        i = i + 1;
    }
    true
}

/// The mode is line-doubled.
pub open spec fn is_double_scan(m: ModeInfo) -> bool {
    m.mode_flags & MODE_FLAG_DOUBLE_SCAN != 0
}

/// A mode is admissible unless it is line-doubled.
pub fn is_admissible(mode: &ModeInfo) -> (r: bool)
    ensures
        r == !is_double_scan(*mode),
{
    mode.mode_flags & MODE_FLAG_DOUBLE_SCAN == 0
}

/// The refresh rate in millihertz that the timings give:
/// `dot_clock * 1000 / (htotal * vtotal)`, or zero when a total is zero.
pub open spec fn refresh_of(m: ModeInfo) -> int {
    if m.htotal > 0 && m.vtotal > 0 {
        (m.dot_clock * 1000) / (m.htotal * m.vtotal)
    } else {
        0
    }
}

/// The refresh rate, in 64 bits, where it always fits.
fn refresh_wide(mode: &ModeInfo) -> (r: u64)
    ensures
        r == refresh_of(*mode),
        r <= u32::MAX as int * 1000,
{
    if mode.htotal > 0 && mode.vtotal > 0 {
        let num: u64 = mode.dot_clock as u64 * 1000;
        assert(mode.htotal as int * mode.vtotal as int <= 65535 * 65535) by (nonlinear_arith)
            requires
                mode.htotal <= 65535,
                mode.vtotal <= 65535,
        ;
        let den: u64 = mode.htotal as u64 * mode.vtotal as u64;
        assert(den >= 1) by (nonlinear_arith)
            requires
                den == mode.htotal as int * mode.vtotal as int,
                mode.htotal > 0,
                mode.vtotal > 0,
        ;
        assert(num / den <= num) by (nonlinear_arith)
            requires
                den >= 1,
                num >= 0,
        ;
        num / den
    } else {
        0
    }
}

/// The refresh rate in millihertz computed from a mode's timings.
pub fn compute_refresh_rate_millihz(mode: &ModeInfo) -> (r: u32)
    requires
        refresh_of(*mode) <= u32::MAX,
    ensures
        r == refresh_of(*mode),
{
    refresh_wide(mode) as u32
}

/// The size of a protocol mode.
pub open spec fn resolution_of(m: ModeInfo) -> Resolution {
    Resolution { width: m.width as u32, height: m.height as u32 }
}

/// The size of a protocol mode as a resolution.
pub fn randr_mode_to_resolution(mode: &ModeInfo) -> (r: Resolution)
    ensures
        r == resolution_of(*mode),
{
    Resolution { width: mode.width as u32, height: mode.height as u32 }
}

/// The display-model mode that a protocol mode stands for.
pub open spec fn to_mode(m: ModeInfo) -> Mode {
    Mode { resolution: resolution_of(m), refresh_rate: refresh_of(m) as u32 }
}

/// Converts a protocol mode to a display-model mode.
pub fn randr_mode_to_mode(mode: &ModeInfo) -> (r: Mode)
    requires
        refresh_of(*mode) <= u32::MAX,
    ensures
        r == to_mode(*mode),
{
    Mode {
        resolution: randr_mode_to_resolution(mode),
        refresh_rate: compute_refresh_rate_millihz(mode),
    }
}

/// The mode at position `i` of mode list `ids` is usable: it is not
/// line-doubled, or it is among the first `num_preferred`, which the
/// hardware prefers.
pub open spec fn usable_at(ids: Seq<u32>, modes: Seq<ModeInfo>, num_preferred: int, i: int) -> bool {
    i < num_preferred || !is_double_scan(mode_of(modes, ids[i]))
}

/// The display-model modes of an output with mode ids `ids`: its usable
/// modes, converted, in the order of `ids`.
pub open spec fn screen_modes(ids: Seq<u32>, modes: Seq<ModeInfo>, num_preferred: int) -> Seq<Mode>
    decreases ids.len(),
{
    if ids.len() == 0 {
        Seq::empty()
    } else {
        let rest = screen_modes(ids.drop_last(), modes, num_preferred);
        if usable_at(ids, modes, num_preferred, ids.len() - 1) {
            rest.push(to_mode(mode_of(modes, ids.last())))
        } else {
            rest
        }
    }
}

/// Every usable mode among `ids` has a refresh rate that fits in 32 bits.
pub open spec fn refresh_rates_fit(ids: Seq<u32>, modes: Seq<ModeInfo>, num_preferred: int) -> bool {
    forall|i: int|
        0 <= i < ids.len() && #[trigger] usable_at(ids, modes, num_preferred, i) ==> refresh_of(
            mode_of(modes, ids[i]),
        ) <= u32::MAX
}

/// Converts a protocol output to the display model, keeping its usable
/// modes. The name must follow a known connector convention, every mode id
/// must be in the table, and the refresh rates of the usable modes must fit
/// in 32 bits.
pub fn randr_output_to_output(output: &OutputInfo, modes: &Vec<ModeInfo>) -> (r: Result<
    Output,
    RandrError,
>)
    ensures
        !is_known_name(output.name@) ==> r == Err::<Output, RandrError>(
            RandrError::UnknownOutputName,
        ),
        is_known_name(output.name@) && !all_modes_known(output.modes@, modes@) ==> r == Err::<
            Output,
            RandrError,
        >(RandrError::UnknownMode),
        is_known_name(output.name@) && all_modes_known(output.modes@, modes@) && !refresh_rates_fit(
            output.modes@,
            modes@,
            output.num_preferred as int,
        ) ==> r == Err::<Output, RandrError>(RandrError::RefreshRateTooLarge),
        is_known_name(output.name@) && all_modes_known(output.modes@, modes@) && refresh_rates_fit(
            output.modes@,
            modes@,
            output.num_preferred as int,
        ) ==> (r matches Ok(o) && o.name@ == output.name@ && o.connected == output.connected
            && o.enabled == (output.crtc != NO_CRTC) && o.location == location_of(output.name@)
            && o.modes@ == screen_modes(output.modes@, modes@, output.num_preferred as int)),
{
    if !crate::screen::is_known_output_name(output.name.as_str()) {
        return Err(RandrError::UnknownOutputName);
    }
    if !modes_known(&output.modes, modes) {
        return Err(RandrError::UnknownMode);
    }
    let ids = &output.modes;
    let mut converted: Vec<Mode> = Vec::new();
    let mut i: usize = 0;
    while i < ids.len()
        invariant
            i <= ids.len(),
            ids == &output.modes,
            is_known_name(output.name@),
            all_modes_known(ids@, modes@),
            converted@ == screen_modes(ids@.subrange(0, i as int), modes@, output.num_preferred as int),
            forall|j: int|
                0 <= j < i && #[trigger] usable_at(ids@, modes@, output.num_preferred as int, j) ==> refresh_of(
                    mode_of(modes@, ids@[j]),
                ) <= u32::MAX,
        decreases ids.len() - i,
    {
        assert(has_mode(modes@, ids@[i as int]));
        let m = match find_mode(modes, ids[i]) {
            Some(m) => m,
            None => {
                return Err(RandrError::UnknownMode);
            },
        };
        let ghost prefix = ids@.subrange(0, i + 1);
        assert(prefix.drop_last() =~= ids@.subrange(0, i as int));
        assert(usable_at(prefix, modes@, output.num_preferred as int, i as int) == usable_at(
            ids@,
            modes@,
            output.num_preferred as int,
            i as int,
        ));
        if i < output.num_preferred as usize || is_admissible(&m) {
            if refresh_wide(&m) > u32::MAX as u64 {
                assert(!refresh_rates_fit(output.modes@, modes@, output.num_preferred as int)) by {
                    assert(usable_at(ids@, modes@, output.num_preferred as int, i as int));
                }
                return Err(RandrError::RefreshRateTooLarge);
            }
            converted.push(randr_mode_to_mode(&m));
        }
        i = i + 1;
    }
    assert(ids@.subrange(0, ids@.len() as int) =~= ids@);
    let name = output.name.clone();
    let location = Location::from_output_name(output.name.as_str());
    Ok(
        Output {
            name,
            connected: output.connected,
            enabled: output.crtc != NO_CRTC,
            modes: converted,
            location,
        },
    )
}

/// The last position below `n` at which `ok` holds and `key` is largest:
/// an arg-max in which a later position wins a tie.
pub open spec fn last_best(n: int, ok: spec_fn(int) -> bool, key: spec_fn(int) -> int) -> Option<
    int,
>
    decreases n,
{
    if n <= 0 {
        None
    } else {
        let prev = last_best(n - 1, ok, key);
        if ok(n - 1) && (prev is None || key(n - 1) >= key(prev->0)) {
            Some(n - 1)
        } else {
            prev
        }
    }
}

/// What `last_best` picks: an allowed position whose key no allowed
/// position exceeds; none only when no position is allowed.
pub proof fn lemma_last_best(n: int, ok: spec_fn(int) -> bool, key: spec_fn(int) -> int)
    ensures
        last_best(n, ok, key) is None <==> forall|j: int| 0 <= j < n ==> !#[trigger] ok(j),
        last_best(n, ok, key) matches Some(k) ==> 0 <= k < n && ok(k) && forall|j: int|
            0 <= j < n && #[trigger] ok(j) ==> key(j) <= key(k),
    decreases n,
{
    if n > 0 {
        lemma_last_best(n - 1, ok, key);
    }
}

/// Position `i` of the output's mode list is preferred by the hardware.
pub open spec fn is_preferred(o: OutputInfo, i: int) -> bool {
    i < o.num_preferred
}

/// Position `i` may be chosen: preferred, or not line-doubled.
pub open spec fn is_candidate(o: OutputInfo, modes: Seq<ModeInfo>, i: int) -> bool {
    is_preferred(o, i) || !is_double_scan(mode_of(modes, o.modes@[i]))
}

/// Ranks candidates of the target resolution: preferred first, then by
/// refresh rate.
pub open spec fn key_at_resolution(o: OutputInfo, modes: Seq<ModeInfo>, i: int) -> int {
    (if is_preferred(o, i) { 0x1_0000_0000_0000int } else { 0int }) + refresh_of(
        mode_of(modes, o.modes@[i]),
    )
}

/// Ranks all candidates: preferred first, then by area, then by refresh rate.
pub open spec fn key_overall(o: OutputInfo, modes: Seq<ModeInfo>, i: int) -> int {
    (if is_preferred(o, i) { 0x1_0000_0000_0000_0000_0000int } else { 0int })
        + resolution_of(mode_of(modes, o.modes@[i])).spec_area() * 0x1000_0000_0000int
        + refresh_of(mode_of(modes, o.modes@[i]))
}

pub open spec fn ok_at_resolution(o: OutputInfo, modes: Seq<ModeInfo>, r: Resolution) -> spec_fn(
    int,
) -> bool {
    |i: int| is_candidate(o, modes, i) && resolution_of(mode_of(modes, o.modes@[i])) == r
}

pub open spec fn ok_overall(o: OutputInfo, modes: Seq<ModeInfo>) -> spec_fn(int) -> bool {
    |i: int| is_candidate(o, modes, i)
}

pub open spec fn rank_at_resolution(o: OutputInfo, modes: Seq<ModeInfo>) -> spec_fn(int) -> int {
    |i: int| key_at_resolution(o, modes, i)
}

pub open spec fn rank_overall(o: OutputInfo, modes: Seq<ModeInfo>) -> spec_fn(int) -> int {
    |i: int| key_overall(o, modes, i)
}

/// The position of the mode chosen for an output: the best candidate of
/// the target resolution, if there is a target and one matches it; else
/// the best candidate overall.
pub open spec fn best_mode_index(o: OutputInfo, modes: Seq<ModeInfo>, resolution: Option<
    Resolution,
>) -> Option<int> {
    let n = o.modes@.len() as int;
    let at_res = match resolution {
        Some(r) => last_best(n, ok_at_resolution(o, modes, r), rank_at_resolution(o, modes)),
        None => None,
    };
    match at_res {
        Some(i) => Some(i),
        None => last_best(n, ok_overall(o, modes), rank_overall(o, modes)),
    }
}

/// The id of the mode chosen for an output.
pub open spec fn best_mode(o: OutputInfo, modes: Seq<ModeInfo>, resolution: Option<Resolution>) -> Option<u32> {
    match best_mode_index(o, modes, resolution) {
        Some(i) => Some(o.modes@[i]),
        None => None,
    }
}

proof fn lemma_key_bounds(m: ModeInfo)
    ensures
        0 <= resolution_of(m).spec_area() <= 0xFFFF * 0xFFFF,
        0 <= refresh_of(m) <= u32::MAX as int * 1000,
{
    assert(0 <= (m.width as int) * (m.height as int) <= 0xFFFF * 0xFFFF) by (nonlinear_arith)
        requires
            m.width <= 0xFFFF,
            m.height <= 0xFFFF,
    ;
    if m.htotal > 0 && m.vtotal > 0 {
        let num = m.dot_clock * 1000;
        let den = m.htotal * m.vtotal;
        assert(den >= 1 && num >= 0) by (nonlinear_arith)
            requires
                den == m.htotal * m.vtotal,
                num == m.dot_clock * 1000,
                m.htotal > 0,
                m.vtotal > 0,
        ;
        assert(0 <= num / den <= num) by (nonlinear_arith)
            requires
                den >= 1,
                num >= 0,
        ;
    }
}

/// Chooses the mode for an output: among candidates (preferred modes, and
/// modes that are not line-doubled), the best of the target resolution by
/// preference then refresh rate; failing that, the best overall by
/// preference, then area, then refresh rate. A later mode wins a tie.
pub fn choose_best_mode(output: &OutputInfo, modes: &Vec<ModeInfo>, resolution: Option<Resolution>) -> (r: Option<u32>)
    requires
        all_modes_known(output.modes@, modes@),
    ensures
        r == best_mode(*output, modes@, resolution),
        forall|p: int|
            #[trigger] preferred_can_win(*output, modes@, resolution, p) ==> (best_mode_index(
                *output,
                modes@,
                resolution,
            ) matches Some(k) && is_preferred(*output, k)),
{
    let ghost o = *output;
    let ghost ok_r = match resolution {
        Some(res) => ok_at_resolution(o, modes@, res),
        None => |i: int| false,
    };
    let ids = &output.modes;
    let mut best_res: Option<usize> = None;
    let mut best_res_key: u128 = 0;
    let mut best_all: Option<usize> = None;
    let mut best_all_key: u128 = 0;
    let mut i: usize = 0;
    while i < ids.len()
        invariant
            o == *output,
            ids == &output.modes,
            i <= ids.len(),
            all_modes_known(ids@, modes@),
            ok_r == (match resolution {
                Some(res) => ok_at_resolution(o, modes@, res),
                None => |i: int| false,
            }),
            (match best_all {
                Some(k) => Some(k as int),
                None => None,
            }) == last_best(i as int, ok_overall(o, modes@), rank_overall(o, modes@)),
            best_all matches Some(k) ==> best_all_key == key_overall(o, modes@, k as int),
            (match best_res {
                Some(k) => Some(k as int),
                None => None,
            }) == last_best(i as int, ok_r, rank_at_resolution(o, modes@)),
            best_res matches Some(k) ==> best_res_key == key_at_resolution(o, modes@, k as int),
        decreases ids.len() - i,
    {
        assert(has_mode(modes@, ids@[i as int]));
        let m = match find_mode(modes, ids[i]) {
            Some(m) => m,
            None => {
                return None;
            },
        };
        proof {
            lemma_key_bounds(m);
        }
        let preferred = i < output.num_preferred as usize;
        if preferred || is_admissible(&m) {
            let refresh = refresh_wide(&m) as u128;
            let area = randr_mode_to_resolution(&m).area() as u128;
            let k_all: u128 = (if preferred { 0x1_0000_0000_0000_0000_0000u128 } else { 0u128 })
                + area * 0x1000_0000_0000u128 + refresh;
            if best_all.is_none() || k_all >= best_all_key {
                best_all = Some(i);
                best_all_key = k_all;
            }
            match resolution {
                Some(res) => {
                    if randr_mode_to_resolution(&m) == res {
                        let k_res: u128 = (if preferred { 0x1_0000_0000_0000u128 } else { 0u128 })
                            + refresh;
                        if best_res.is_none() || k_res >= best_res_key {
                            best_res = Some(i);
                            best_res_key = k_res;
                        }
                    }
                },
                None => {},
            }
        }
        i = i + 1;
    }
    proof {
        lemma_last_best(ids@.len() as int, ok_r, rank_at_resolution(o, modes@));
        lemma_last_best(ids@.len() as int, ok_overall(o, modes@), rank_overall(o, modes@));
    }
    if resolution.is_none() {
        assert(last_best(ids@.len() as int, ok_r, rank_at_resolution(o, modes@)) is None) by {
            lemma_last_best(ids@.len() as int, ok_r, rank_at_resolution(o, modes@));
        }
    }
    proof {
        assert forall|p: int| #[trigger] preferred_can_win(*output, modes@, resolution, p) implies (
        best_mode_index(*output, modes@, resolution) matches Some(k) && is_preferred(*output, k)) by {
            lemma_preferred_mode_wins(*output, modes@, resolution, p);
        }
    }
    match best_res {
        Some(k) => Some(ids[k]),
        None => match best_all {
            Some(k) => Some(ids[k]),
            None => None,
        },
    }
}

/// Position `p` holds a preferred mode, and the target resolution, if any,
/// does not favour other modes: the mode at `p` has it, or no candidate has.
pub open spec fn preferred_can_win(output: OutputInfo, modes: Seq<ModeInfo>, resolution: Option<Resolution>, p: int) -> bool {
    &&& 0 <= p < output.modes@.len()
    &&& is_preferred(output, p)
    &&& match resolution {
        Some(r) => resolution_of(mode_of(modes, output.modes@[p])) == r || forall|j: int|
            0 <= j < output.modes@.len() ==> !(#[trigger] is_candidate(output, modes, j)
                && resolution_of(mode_of(modes, output.modes@[j])) == r),
        None => true,
    }
}

/// A preferred mode wins over every mode that is not preferred, whatever
/// their sizes and refresh rates: when a preferred mode matches the target
/// resolution, or when no candidate matches it and some mode is preferred,
/// the chosen mode is a preferred one.
pub proof fn lemma_preferred_mode_wins(output: OutputInfo, modes: Seq<ModeInfo>, resolution: Option<Resolution>, p: int)
    requires
        preferred_can_win(output, modes, resolution, p),
    ensures
        (best_mode_index(output, modes, resolution) matches Some(k) && is_preferred(output, k)),
{
    let n = output.modes@.len() as int;
    lemma_last_best(n, ok_overall(output, modes), rank_overall(output, modes));
    let k_all = last_best(n, ok_overall(output, modes), rank_overall(output, modes))->0;
    assert(ok_overall(output, modes)(p));
    lemma_key_bounds(mode_of(modes, output.modes@[p]));
    lemma_key_bounds(mode_of(modes, output.modes@[k_all]));
    match resolution {
        Some(r) => {
            lemma_last_best(n, ok_at_resolution(output, modes, r), rank_at_resolution(output, modes));
            if resolution_of(mode_of(modes, output.modes@[p])) == r {
                assert(ok_at_resolution(output, modes, r)(p));
                let k = last_best(n, ok_at_resolution(output, modes, r), rank_at_resolution(output, modes))->0;
                lemma_key_bounds(mode_of(modes, output.modes@[k]));
                assert(rank_at_resolution(output, modes)(p) <= rank_at_resolution(output, modes)(k));
            } else {
                assert(rank_overall(output, modes)(p) <= rank_overall(output, modes)(k_all));
            }
        },
        None => {
            assert(rank_overall(output, modes)(p) <= rank_overall(output, modes)(k_all));
        },
    }
}

/// Millimetres from pixels at 96 dots per inch, rounded to the nearest
/// millimetre (halves up): `round(px * 25.4 / 96)`.
pub fn px_to_mm(px: u16) -> (r: u32)
    ensures
        r == (px as int * 254 + 480) / 960,
{
    (px as u32 * 254 + 480) / 960
}

/// The size to declare for the virtual screen, in pixels and millimetres.
#[derive(Debug, Clone, Copy, PartialEq, Eq, Structural)]
pub struct ScreenSize {
    pub width: u16,
    pub height: u16,
    pub mm_width: u32,
    pub mm_height: u32,
}

/// The controller is active: it scans out a mode.
pub open spec fn is_active(c: CrtcInfo) -> bool {
    c.mode != NO_MODE
}

/// Every active controller's mode is in the table.
pub open spec fn active_modes_known(crtcs: Seq<CrtcInfo>, modes: Seq<ModeInfo>) -> bool {
    forall|i: int| 0 <= i < crtcs.len() && is_active(#[trigger] crtcs[i]) ==> has_mode(modes, crtcs[i].mode)
}

/// The least value of `f` over the active controllers, if any is active.
pub open spec fn active_min(crtcs: Seq<CrtcInfo>, f: spec_fn(CrtcInfo) -> int) -> Option<int>
    decreases crtcs.len(),
{
    if crtcs.len() == 0 {
        None
    } else {
        let prev = active_min(crtcs.drop_last(), f);
        let c = crtcs.last();
        if !is_active(c) {
            prev
        } else {
            match prev {
                None => Some(f(c)),
                Some(v) => Some(if f(c) < v { f(c) } else { v }),
            }
        }
    }
}

/// The greatest value of `f` over the active controllers, if any is active.
pub open spec fn active_max(crtcs: Seq<CrtcInfo>, f: spec_fn(CrtcInfo) -> int) -> Option<int>
    decreases crtcs.len(),
{
    if crtcs.len() == 0 {
        None
    } else {
        let prev = active_max(crtcs.drop_last(), f);
        let c = crtcs.last();
        if !is_active(c) {
            prev
        } else {
            match prev {
                None => Some(f(c)),
                Some(v) => Some(if f(c) > v { f(c) } else { v }),
            }
        }
    }
}

pub open spec fn left_edge() -> spec_fn(CrtcInfo) -> int {
    |c: CrtcInfo| c.x as int
}

pub open spec fn top_edge() -> spec_fn(CrtcInfo) -> int {
    |c: CrtcInfo| c.y as int
}

pub open spec fn right_edge(modes: Seq<ModeInfo>) -> spec_fn(CrtcInfo) -> int {
    |c: CrtcInfo| c.x + mode_of(modes, c.mode).width
}

pub open spec fn bottom_edge(modes: Seq<ModeInfo>) -> spec_fn(CrtcInfo) -> int {
    |c: CrtcInfo| c.y + mode_of(modes, c.mode).height
}

/// Width of the bounding box of the active controllers.
pub open spec fn bbox_width(crtcs: Seq<CrtcInfo>, modes: Seq<ModeInfo>) -> int {
    active_max(crtcs, right_edge(modes))->0 - active_min(crtcs, left_edge())->0
}

/// Height of the bounding box of the active controllers.
pub open spec fn bbox_height(crtcs: Seq<CrtcInfo>, modes: Seq<ModeInfo>) -> int {
    active_max(crtcs, bottom_edge(modes))->0 - active_min(crtcs, top_edge())->0
}

/// The output table holds an output with id `id`.
pub open spec fn has_output(outputs: Seq<OutputInfo>, id: u32) -> bool {
    exists|k: int| 0 <= k < outputs.len() && (#[trigger] outputs[k]).id == id
}

/// `k` is the first position of id `id` in the output table.
pub open spec fn is_first_output(outputs: Seq<OutputInfo>, id: u32, k: int) -> bool {
    0 <= k < outputs.len() && outputs[k].id == id && forall|j: int|
        0 <= j < k ==> (#[trigger] outputs[j]).id != id
}

/// The position of the output that id `id` names in the table.
pub open spec fn output_index(outputs: Seq<OutputInfo>, id: u32) -> int {
    choose|k: int| is_first_output(outputs, id, k)
}

pub(crate) proof fn lemma_first_output(outputs: Seq<OutputInfo>, id: u32, k: int)
    requires
        is_first_output(outputs, id, k),
    ensures
        output_index(outputs, id) == k,
{
    let c = choose|c: int| is_first_output(outputs, id, c);
    assert(is_first_output(outputs, id, c));
    if c < k {
        assert(outputs[c].id != id);
    }
    if k < c {
        assert(outputs[k].id != id);
    }
}

/// Looks an output up by id, giving its position.
pub fn find_output(outputs: &Vec<OutputInfo>, id: u32) -> (r: Option<usize>)
    ensures
        r is None <==> !has_output(outputs@, id),
        r matches Some(k) ==> k == output_index(outputs@, id) && is_first_output(outputs@, id, k as int),
{
    let mut k: usize = 0;
    while k < outputs.len()
        invariant
            k <= outputs.len(),
            forall|j: int| 0 <= j < k ==> (#[trigger] outputs@[j]).id != id,
        decreases outputs.len() - k,
    {
        if outputs[k].id == id {
            proof {
                lemma_first_output(outputs@, id, k as int);
            }
            return Some(k);
        }
        k = k + 1;
    }
    None
}

/// The ids of the outputs bound to the controllers, controller by controller.
pub open spec fn shown_ids(crtcs: Seq<CrtcInfo>) -> Seq<u32>
    decreases crtcs.len(),
{
    if crtcs.len() == 0 {
        Seq::empty()
    } else {
        shown_ids(crtcs.drop_last()) + crtcs.last().outputs@
    }
}

/// Every id in `ids` names an output of the table.
pub open spec fn all_outputs_known(ids: Seq<u32>, outputs: Seq<OutputInfo>) -> bool {
    forall|i: int| 0 <= i < ids.len() ==> has_output(outputs, #[trigger] ids[i])
}

/// The output reports a physical size.
pub open spec fn reports_size(o: OutputInfo) -> bool {
    o.mm_width != 0 && o.mm_height != 0
}

pub open spec fn reports_size_at(ids: Seq<u32>, outputs: Seq<OutputInfo>) -> spec_fn(int) -> bool {
    |k: int| reports_size(outputs[output_index(outputs, ids[k])])
}

pub open spec fn mm_area_at(ids: Seq<u32>, outputs: Seq<OutputInfo>) -> spec_fn(int) -> int {
    |k: int|
        outputs[output_index(outputs, ids[k])].mm_width * outputs[output_index(
            outputs,
            ids[k],
        )].mm_height
}

/// The physical size of the screen: the largest reported by a bound output
/// (by area, a later one winning a tie), or else the estimate from the
/// pixel size at 96 dots per inch.
pub open spec fn physical_size(crtcs: Seq<CrtcInfo>, outputs: Seq<OutputInfo>, width: u16, height: u16) -> (u32, u32) {
    let ids = shown_ids(crtcs);
    match last_best(ids.len() as int, reports_size_at(ids, outputs), mm_area_at(ids, outputs)) {
        Some(k) => {
            let o = outputs[output_index(outputs, ids[k])];
            (o.mm_width, o.mm_height)
        },
        None => (((width * 254 + 480) / 960) as u32, ((height * 254 + 480) / 960) as u32),
    }
}

proof fn lemma_active_min_step(crtcs: Seq<CrtcInfo>, f: spec_fn(CrtcInfo) -> int, i: int)
    requires
        0 <= i < crtcs.len(),
    ensures
        active_min(crtcs.subrange(0, i + 1), f) == (if !is_active(crtcs[i]) {
            active_min(crtcs.subrange(0, i), f)
        } else {
            match active_min(crtcs.subrange(0, i), f) {
                None => Some(f(crtcs[i])),
                Some(v) => Some(if f(crtcs[i]) < v { f(crtcs[i]) } else { v }),
            }
        }),
        active_max(crtcs.subrange(0, i + 1), f) == (if !is_active(crtcs[i]) {
            active_max(crtcs.subrange(0, i), f)
        } else {
            match active_max(crtcs.subrange(0, i), f) {
                None => Some(f(crtcs[i])),
                Some(v) => Some(if f(crtcs[i]) > v { f(crtcs[i]) } else { v }),
            }
        }),
{
    assert(crtcs.subrange(0, i + 1).drop_last() =~= crtcs.subrange(0, i));
}

proof fn lemma_active_none(crtcs: Seq<CrtcInfo>, f: spec_fn(CrtcInfo) -> int, g: spec_fn(CrtcInfo) -> int)
    ensures
        active_min(crtcs, f) is None <==> active_max(crtcs, g) is None,
    decreases crtcs.len(),
{
    if crtcs.len() > 0 {
        lemma_active_none(crtcs.drop_last(), f, g);
    }
}

#[verifier::loop_isolation(false)]
/// Computes the size of the virtual screen from the active controllers:
/// the bounding box of their images in pixels, and a physical size. None
/// when no controller is active.
pub fn compute_screen_size(modes: &Vec<ModeInfo>, outputs: &Vec<OutputInfo>, crtcs: &Vec<CrtcInfo>) -> (r: Result<Option<ScreenSize>, RandrError>)
    ensures
        !active_modes_known(crtcs@, modes@) ==> r == Err::<Option<ScreenSize>, RandrError>(RandrError::UnknownMode),
        active_modes_known(crtcs@, modes@) && active_min(crtcs@, left_edge()) is None ==> r == Ok::<Option<ScreenSize>, RandrError>(None),
        active_modes_known(crtcs@, modes@) && active_min(crtcs@, left_edge()) is Some && (
        bbox_width(crtcs@, modes@) > u16::MAX || bbox_height(crtcs@, modes@) > u16::MAX) ==> r == Err::<Option<ScreenSize>, RandrError>(RandrError::ScreenTooLarge),
        active_modes_known(crtcs@, modes@) && active_min(crtcs@, left_edge()) is Some
            && bbox_width(crtcs@, modes@) <= u16::MAX && bbox_height(crtcs@, modes@) <= u16::MAX
            && !all_outputs_known(shown_ids(crtcs@), outputs@) ==> r == Err::<Option<ScreenSize>, RandrError>(RandrError::Inconsistent),
        active_modes_known(crtcs@, modes@) && active_min(crtcs@, left_edge()) is Some
            && bbox_width(crtcs@, modes@) <= u16::MAX && bbox_height(crtcs@, modes@) <= u16::MAX
            && all_outputs_known(shown_ids(crtcs@), outputs@) ==> (r matches Ok(Some(size)) && size.width == bbox_width(crtcs@, modes@)
            && size.height == bbox_height(crtcs@, modes@)
            && (size.mm_width, size.mm_height) == physical_size(crtcs@, outputs@, size.width, size.height)),
{
    let mut any = false;
    let mut min_x: i32 = 0;
    let mut min_y: i32 = 0;
    let mut max_x: i32 = 0;
    let mut max_y: i32 = 0;
    let mut i: usize = 0;
    while i < crtcs.len()
        invariant
            i <= crtcs.len(),
            forall|j: int| 0 <= j < i && is_active(#[trigger] crtcs@[j]) ==> has_mode(modes@, crtcs@[j].mode),
            any == active_min(crtcs@.subrange(0, i as int), left_edge()) is Some,
            any ==> active_min(crtcs@.subrange(0, i as int), left_edge()) == Some(min_x as int),
            any ==> active_min(crtcs@.subrange(0, i as int), top_edge()) == Some(min_y as int),
            any ==> active_max(crtcs@.subrange(0, i as int), right_edge(modes@)) == Some(max_x as int),
            any ==> active_max(crtcs@.subrange(0, i as int), bottom_edge(modes@)) == Some(max_y as int),
            !any ==> active_max(crtcs@.subrange(0, i as int), right_edge(modes@)) is None,
            !any ==> active_max(crtcs@.subrange(0, i as int), bottom_edge(modes@)) is None,
            !any ==> active_min(crtcs@.subrange(0, i as int), top_edge()) is None,
            any ==> -0x8000 <= min_x <= 0x7fff && -0x8000 <= min_y <= 0x7fff,
            any ==> min_x <= max_x && min_y <= max_y,
            any ==> -0x8000 <= max_x <= 0x7fff + 0xffff && -0x8000 <= max_y <= 0x7fff + 0xffff,
        decreases crtcs.len() - i,
    {
        let c = &crtcs[i];
        proof {
            lemma_active_min_step(crtcs@, left_edge(), i as int);
            lemma_active_min_step(crtcs@, top_edge(), i as int);
            lemma_active_min_step(crtcs@, right_edge(modes@), i as int);
            lemma_active_min_step(crtcs@, bottom_edge(modes@), i as int);
        }
        if c.mode != NO_MODE {
            let m = match find_mode(modes, c.mode) {
                Some(m) => m,
                None => {
                    return Err(RandrError::UnknownMode);
                },
            };
            let left = c.x as i32;
            let top = c.y as i32;
            let right = c.x as i32 + m.width as i32;
            let bottom = c.y as i32 + m.height as i32;
            if !any || left < min_x {
                min_x = left;
            }
            if !any || top < min_y {
                min_y = top;
            }
            if !any || right > max_x {
                max_x = right;
            }
            if !any || bottom > max_y {
                max_y = bottom;
            }
            any = true;
        }
        i = i + 1;
    }
    assert(crtcs@.subrange(0, crtcs@.len() as int) =~= crtcs@);
    if !any {
        return Ok(None);
    }
    if max_x - min_x > u16::MAX as i32 || max_y - min_y > u16::MAX as i32 {
        return Err(RandrError::ScreenTooLarge);
    }
    let width = (max_x - min_x) as u16;
    let height = (max_y - min_y) as u16;

    // The ids of all bound outputs, controller by controller.
    let mut ids: Vec<u32> = Vec::new();
    let mut i: usize = 0;
    while i < crtcs.len()
        invariant
            i <= crtcs.len(),
            ids@ == shown_ids(crtcs@.subrange(0, i as int)),
        decreases crtcs.len() - i,
    {
        let c = &crtcs[i];
        let mut j: usize = 0;
        while j < c.outputs.len()
            invariant
                j <= c.outputs.len(),
                i < crtcs.len(),
                c == &crtcs@[i as int],
                ids@ == shown_ids(crtcs@.subrange(0, i as int)) + c.outputs@.subrange(0, j as int),
            decreases c.outputs.len() - j,
        {
            ids.push(c.outputs[j]);
            assert(c.outputs@.subrange(0, j + 1) =~= c.outputs@.subrange(0, j as int).push(c.outputs@[j as int]));
            j = j + 1;
        }
        assert(crtcs@.subrange(0, i + 1).drop_last() =~= crtcs@.subrange(0, i as int));
        assert(c.outputs@.subrange(0, c.outputs@.len() as int) =~= c.outputs@);
        i = i + 1;
    }
    assert(crtcs@.subrange(0, crtcs@.len() as int) =~= crtcs@);

    let ghost ok = reports_size_at(ids@, outputs@);
    let ghost key = mm_area_at(ids@, outputs@);
    let mut best: Option<usize> = None;
    let mut best_idx: usize = 0;
    let mut best_area: u64 = 0;
    let mut k: usize = 0;
    while k < ids.len()
        invariant
            k <= ids.len(),
            ok == reports_size_at(ids@, outputs@),
            key == mm_area_at(ids@, outputs@),
            forall|j: int| 0 <= j < k ==> has_output(outputs@, #[trigger] ids@[j]),
            (match best {
                Some(b) => Some(b as int),
                None => None,
            }) == last_best(k as int, ok, key),
            best matches Some(b) ==> b < k && best_idx < outputs.len() && best_idx == output_index(
                outputs@,
                ids@[b as int],
            ) && best_area == key(b as int),
        decreases ids.len() - k,
    {
        let idx = match find_output(outputs, ids[k]) {
            Some(idx) => idx,
            None => {
                return Err(RandrError::Inconsistent);
            },
        };
        let o = &outputs[idx];
        if o.mm_width != 0 && o.mm_height != 0 {
            assert(o.mm_width as int * o.mm_height as int <= u32::MAX as int * u32::MAX as int)
                by (nonlinear_arith);
            let area = o.mm_width as u64 * o.mm_height as u64;
            if best.is_none() || area >= best_area {
                best = Some(k);
                best_idx = idx;
                best_area = area;
            }
        }
        k = k + 1;
    }
    let (mm_width, mm_height) = match best {
        Some(_) => (outputs[best_idx].mm_width, outputs[best_idx].mm_height),
        None => (px_to_mm(width), px_to_mm(height)),
    };
    proof {
        lemma_last_best(ids@.len() as int, ok, key);
    }
    Ok(Some(ScreenSize { width, height, mm_width, mm_height }))
}

/// The chosen position, when there is one, is a position of the output's
/// mode list.
pub proof fn lemma_best_mode_index(o: OutputInfo, modes: Seq<ModeInfo>, resolution: Option<Resolution>)
    ensures
        best_mode_index(o, modes, resolution) matches Some(k) ==> 0 <= k < o.modes@.len(),
{
    let n = o.modes@.len() as int;
    lemma_last_best(n, ok_overall(o, modes), rank_overall(o, modes));
    if let Some(r) = resolution {
        lemma_last_best(n, ok_at_resolution(o, modes, r), rank_at_resolution(o, modes));
    }
}

/// Every protocol output converts to the display model.
pub open spec fn all_convertible(outputs: Seq<OutputInfo>, modes: Seq<ModeInfo>) -> bool {
    forall|i: int|
        0 <= i < outputs.len() ==> is_known_name((#[trigger] outputs[i]).name@) && all_modes_known(
            outputs[i].modes@,
            modes,
        ) && refresh_rates_fit(outputs[i].modes@, modes, outputs[i].num_preferred as int)
}

/// The display model of all protocol outputs, in order; the first output
/// that does not convert gives the error.
pub fn screen_from_outputs(outputs: &Vec<OutputInfo>, modes: &Vec<ModeInfo>) -> (r: Result<Screen, RandrError>)
    ensures
        r is Ok <==> all_convertible(outputs@, modes@),
        r matches Ok(screen) ==> screen.outputs@.len() == outputs@.len() && forall|i: int|
            0 <= i < outputs@.len() ==> {
                let o = #[trigger] screen.outputs@[i];
                &&& o.name@ == outputs@[i].name@
                &&& o.connected == outputs@[i].connected
                &&& o.enabled == (outputs@[i].crtc != NO_CRTC)
                &&& o.location == location_of(outputs@[i].name@)
                &&& o.modes@ == screen_modes(outputs@[i].modes@, modes@, outputs@[i].num_preferred as int)
            },
{
    let mut converted: Vec<Output> = Vec::new();
    let mut i: usize = 0;
    while i < outputs.len()
        invariant
            i <= outputs.len(),
            converted@.len() == i,
            forall|j: int|
                0 <= j < i ==> is_known_name((#[trigger] outputs@[j]).name@) && all_modes_known(
                    outputs@[j].modes@,
                    modes@,
                ) && refresh_rates_fit(outputs@[j].modes@, modes@, outputs@[j].num_preferred as int),
            forall|j: int|
                0 <= j < i ==> {
                    let o = #[trigger] converted@[j];
                    &&& o.name@ == outputs@[j].name@
                    &&& o.connected == outputs@[j].connected
                    &&& o.enabled == (outputs@[j].crtc != NO_CRTC)
                    &&& o.location == location_of(outputs@[j].name@)
                    &&& o.modes@ == screen_modes(outputs@[j].modes@, modes@, outputs@[j].num_preferred as int)
                },
        decreases outputs.len() - i,
    {
        match randr_output_to_output(&outputs[i], modes) {
            Ok(o) => {
                converted.push(o);
            },
            Err(e) => {
                return Err(e);
            },
        }
        i = i + 1;
    }
    Ok(Screen { outputs: converted })
}

} // verus!
