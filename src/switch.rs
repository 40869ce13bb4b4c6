//! The switch policy and the choice of a resolution common to several outputs.

use vstd::prelude::*;
use crate::screen::{Location, Mode, Output, Resolution, Screen};

verus! {

/// Which outputs of a screen are to be turned off and which on, as indices
/// into the screen's list of outputs, in the order of that list.
#[derive(Debug, PartialEq, Eq)]
pub struct SwitchPlan {
    pub outputs_to_disable: Vec<usize>,
    pub outputs_to_enable: Vec<usize>,
}

/// A built-in panel that is connected and currently shows an image.
pub open spec fn internal_on(o: Output) -> bool {
    o.location == Location::Internal && o.connected && o.enabled
}

/// A plugged-in display that is connected and currently shows an image.
pub open spec fn external_on(o: Output) -> bool {
    o.location == Location::External && o.connected && o.enabled
}

/// A plugged-in display that is connected.
pub open spec fn external_plugged(o: Output) -> bool {
    o.location == Location::External && o.connected
}

pub open spec fn has_internal_on(outs: Seq<Output>) -> bool {
    exists|i: int| 0 <= i < outs.len() && internal_on(#[trigger] outs[i])
}

pub open spec fn has_external_on(outs: Seq<Output>) -> bool {
    exists|i: int| 0 <= i < outs.len() && external_on(#[trigger] outs[i])
}

pub open spec fn has_external_plugged(outs: Seq<Output>) -> bool {
    exists|i: int| 0 <= i < outs.len() && external_plugged(#[trigger] outs[i])
}

/// The policy's verdict on turning `o` off, given all outputs `outs`.
///
/// With a built-in panel on and a plugged-in display on as well, the panel
/// and everything disconnected go off. With only a built-in panel on, what is
/// disconnected goes off. With no built-in panel on, what is disconnected goes
/// off, and, if a plugged-in display is connected, the built-in panels too.
pub open spec fn should_disable(outs: Seq<Output>, o: Output) -> bool {
    if has_internal_on(outs) {
        if has_external_on(outs) {
            o.enabled && (!o.connected || o.location == Location::Internal)
        } else {
            o.enabled && !o.connected
        }
    } else {
        o.enabled && (!o.connected || (has_external_plugged(outs) && o.location
            == Location::Internal))
    }
}

/// The policy's verdict on turning `o` on, given all outputs `outs`.
///
/// With a built-in panel on and a plugged-in display on as well, the
/// connected plugged-in displays stay on. With only a built-in panel on, every
/// connected output is turned on. With no built-in panel on, the connected
/// plugged-in displays are turned on if there are any, else the connected
/// built-in panels.
pub open spec fn should_enable(outs: Seq<Output>, o: Output) -> bool {
    if has_internal_on(outs) {
        if has_external_on(outs) {
            o.connected && o.location == Location::External
        } else {
            o.connected
        }
    } else if has_external_plugged(outs) {
        o.connected && o.location == Location::External
    } else {
        o.connected && o.location == Location::Internal
    }
}

/// `idx` lists, in increasing order and exactly once each, the indices
/// below `n` at which `p` holds.
pub open spec fn lists_exactly(idx: Seq<usize>, n: int, p: spec_fn(int) -> bool) -> bool {
    &&& forall|k: int| 0 <= k < idx.len() ==> (#[trigger] idx[k]) < n && p(idx[k] as int)
    &&& forall|k1: int, k2: int|
        0 <= k1 < k2 < idx.len() ==> (#[trigger] idx[k1]) < (#[trigger] idx[k2])
    &&& forall|i: int| 0 <= i < n && #[trigger] p(i) ==> exists|k: int| 0 <= k < idx.len() && idx[k] == i
}

/// The plan is the one the policy gives for `outs`.
pub open spec fn is_plan_for(outs: Seq<Output>, plan: SwitchPlan) -> bool {
    &&& lists_exactly(plan.outputs_to_disable@, outs.len() as int, |i: int| should_disable(outs, outs[i]))
    &&& lists_exactly(plan.outputs_to_enable@, outs.len() as int, |i: int| should_enable(outs, outs[i]))
}

proof fn lemma_lists_same(idx: Seq<usize>, n: int, p: spec_fn(int) -> bool, q: spec_fn(int) -> bool)
    requires
        lists_exactly(idx, n, p),
        forall|i: int| 0 <= i < n ==> #[trigger] p(i) == q(i),
    ensures
        lists_exactly(idx, n, q),
{
    assert forall|i: int| 0 <= i < n && #[trigger] q(i) implies exists|k: int| 0 <= k < idx.len() && idx[k] == i by {
        assert(p(i));
    }
}

fn indices_where(outs: &Vec<Output>, flags: &Vec<bool>) -> (r: Vec<usize>)
    requires
        flags.len() == outs.len(),
    ensures
        lists_exactly(r@, outs.len() as int, |i: int| flags@[i]),
{
    let mut r: Vec<usize> = Vec::new();
    let mut i: usize = 0;
    while i < flags.len()
        invariant
            i <= flags.len(),
            forall|k: int| 0 <= k < r@.len() ==> (#[trigger] r@[k]) < i && flags@[r@[k] as int],
            forall|k1: int, k2: int|
                0 <= k1 < k2 < r@.len() ==> (#[trigger] r@[k1]) < (#[trigger] r@[k2]),
            forall|j: int|
                0 <= j < i && #[trigger] flags@[j] ==> exists|k: int| 0 <= k < r@.len() && r@[k] == j,
        decreases flags.len() - i,
    {
        let ghost old_r = r@;
        if flags[i] {
            r.push(i);
        }
        assert forall|j: int| 0 <= j < i + 1 && #[trigger] flags@[j] implies exists|k: int|
            0 <= k < r@.len() && r@[k] == j by {
            if j < i {
                let k = choose|k: int| 0 <= k < old_r.len() && old_r[k] == j;
                assert(r@[k] == j);
            } else {
                assert(r@[r@.len() - 1] == j);
            }
        }
        i = i + 1;
    }
    r
}

/// Decides which outputs to turn off and which to turn on.
pub fn build_switch_plan(screen: &Screen) -> (plan: SwitchPlan)
    ensures
        is_plan_for(screen.outputs@, plan),
{
    let outs = &screen.outputs;
    let n = outs.len();
    let mut int_on = false;
    let mut ext_on = false;
    let mut ext_plugged = false;
    let mut i: usize = 0;
    while i < n
        invariant
            n == outs.len(),
            i <= n,
            int_on == exists|j: int| 0 <= j < i && internal_on(#[trigger] outs@[j]),
            ext_on == exists|j: int| 0 <= j < i && external_on(#[trigger] outs@[j]),
            ext_plugged == exists|j: int| 0 <= j < i && external_plugged(#[trigger] outs@[j]),
        decreases n - i,
    {
        let o = &outs[i];
        let internal = o.location == Location::Internal;
        if internal && o.connected && o.enabled {
            int_on = true;
        }
        if !internal && o.connected && o.enabled {
            ext_on = true;
        }
        if !internal && o.connected {
            ext_plugged = true;
        }
        i = i + 1;
    }
    let mut dis: Vec<bool> = Vec::new();
    let mut en: Vec<bool> = Vec::new();
    let mut i: usize = 0;
    while i < n
        invariant
            n == outs.len(),
            i <= n,
            dis.len() == i,
            en.len() == i,
            int_on == has_internal_on(outs@),
            ext_on == has_external_on(outs@),
            ext_plugged == has_external_plugged(outs@),
            forall|j: int| 0 <= j < i ==> dis@[j] == should_disable(outs@, #[trigger] outs@[j]),
            forall|j: int| 0 <= j < i ==> en@[j] == should_enable(outs@, #[trigger] outs@[j]),
        decreases n - i,
    {
        let o = &outs[i];
        let internal = o.location == Location::Internal;
        let d = if int_on {
            if ext_on {
                o.enabled && (!o.connected || internal)
            } else {
                o.enabled && !o.connected
            }
        } else {
            o.enabled && (!o.connected || (ext_plugged && internal))
        };
        let e = if int_on {
            if ext_on {
                o.connected && !internal
            } else {
                o.connected
            }
        } else if ext_plugged {
            o.connected && !internal
        } else {
            o.connected && internal
        };
        dis.push(d);
        en.push(e);
        i = i + 1;
    }
    let to_disable = indices_where(outs, &dis);
    let to_enable = indices_where(outs, &en);
    proof {
        lemma_lists_same(to_disable@, n as int, |i: int| dis@[i], |i: int| should_disable(outs@, outs@[i]));
        lemma_lists_same(to_enable@, n as int, |i: int| en@[i], |i: int| should_enable(outs@, outs@[i]));
    }
    SwitchPlan { outputs_to_disable: to_disable, outputs_to_enable: to_enable }
}

/// The mode meets the optional minimum refresh rate.
pub open spec fn meets_min_rate(m: Mode, min_refresh_rate: Option<u32>) -> bool {
    match min_refresh_rate {
        None => true,
        Some(min) => m.refresh_rate >= min,
    }
}

/// Output `o` has a mode of resolution `r` that meets the minimum refresh rate.
pub open spec fn offers(o: Output, r: Resolution, min_refresh_rate: Option<u32>) -> bool {
    exists|j: int|
        0 <= j < o.modes@.len() && (#[trigger] o.modes@[j]).resolution == r && meets_min_rate(
            o.modes@[j],
            min_refresh_rate,
        )
}

/// Every output in `outs` offers resolution `r`.
pub open spec fn offered_by_all(outs: Seq<&Output>, r: Resolution, min_refresh_rate: Option<u32>) -> bool {
    forall|i: int| 0 <= i < outs.len() ==> offers(*#[trigger] outs[i], r, min_refresh_rate)
}

fn output_offers(o: &Output, r: Resolution, min_refresh_rate: Option<u32>) -> (b: bool)
    ensures
        b == offers(*o, r, min_refresh_rate),
{
    let mut j: usize = 0;
    while j < o.modes.len()
        invariant
            j <= o.modes.len(),
            forall|k: int|
                0 <= k < j ==> !((#[trigger] o.modes@[k]).resolution == r && meets_min_rate(
                    o.modes@[k],
                    min_refresh_rate,
                )),
        decreases o.modes.len() - j,
    {
        let m = o.modes[j];
        let meets = match min_refresh_rate {
            None => true,
            Some(min) => m.refresh_rate >= min,
        };
        if m.resolution == r && meets {
            return true;
        }
        j = j + 1;
    }
    false
}

fn offered_by_rest(outputs: &[&Output], r: Resolution, min_refresh_rate: Option<u32>) -> (b: bool)
    requires
        outputs@.len() > 0,
    ensures
        b == forall|i: int| 1 <= i < outputs@.len() ==> offers(*#[trigger] outputs@[i], r, min_refresh_rate),
{
    let mut i: usize = 1;
    while i < outputs.len()
        invariant
            1 <= i <= outputs@.len(),
            forall|k: int| 1 <= k < i ==> offers(*#[trigger] outputs@[k], r, min_refresh_rate),
        decreases outputs@.len() - i,
    {
        if !output_offers(outputs[i], r, min_refresh_rate) {
            return false;
        }
        i = i + 1;
    }
    true
}

/// Picks the resolution of largest area that every output offers with a
/// mode meeting the minimum refresh rate; none when no resolution is
/// common to all of them, or when there are no outputs.
pub fn choose_best_resolution(outputs: &[&Output], min_refresh_rate: Option<u32>) -> (r: Option<
    Resolution,
>)
    ensures
        outputs@.len() == 0 ==> r is None,
        outputs@.len() > 0 ==> (r is None <==> forall|c: Resolution|
            !offered_by_all(outputs@, c, min_refresh_rate)),
        r matches Some(best) ==> offered_by_all(outputs@, best, min_refresh_rate) && forall|
            c: Resolution,
        | offered_by_all(outputs@, c, min_refresh_rate) ==> c.spec_area() <= best.spec_area(),
{
    if outputs.len() == 0 {
        return None;
    }
    let first: &Output = outputs[0];
    let mut best: Option<Resolution> = None;
    let mut best_area: u64 = 0;
    let mut j: usize = 0;
    while j < first.modes.len()
        invariant
            outputs@.len() > 0,
            *first == *outputs@[0],
            j <= first.modes.len(),
            best matches Some(b) ==> offered_by_all(outputs@, b, min_refresh_rate)
                && best_area == b.spec_area(),
            forall|k: int|
                0 <= k < j && meets_min_rate(#[trigger] first.modes@[k], min_refresh_rate)
                    && offered_by_all(outputs@, first.modes@[k].resolution, min_refresh_rate) ==> (
                best matches Some(b) && first.modes@[k].resolution.spec_area() <= b.spec_area()),
        decreases first.modes.len() - j,
    {
        let m = first.modes[j];
        let meets = match min_refresh_rate {
            None => true,
            Some(min) => m.refresh_rate >= min,
        };
        if meets && offered_by_rest(outputs, m.resolution, min_refresh_rate) {
            proof {
                assert(offers(*outputs@[0], m.resolution, min_refresh_rate));
                assert(offered_by_all(outputs@, m.resolution, min_refresh_rate));
            }
            let a = m.resolution.area();
            if best.is_none() || a > best_area {
                best = Some(m.resolution);
                best_area = a;
            }
        }
        j = j + 1;
    }
    proof {
        assert forall|c: Resolution| offered_by_all(outputs@, c, min_refresh_rate) implies (
        best matches Some(b) && c.spec_area() <= b.spec_area()) by {
            assert(offers(*outputs@[0], c, min_refresh_rate));
            let k = choose|k: int|
                0 <= k < first.modes@.len() && (#[trigger] first.modes@[k]).resolution == c
                    && meets_min_rate(first.modes@[k], min_refresh_rate);
        }
    }
    best
}

/// The outputs after a plan has been carried out: what the plan turns on is
/// on, what it turns off is off, the rest is as it was.
pub open spec fn applied(outs: Seq<Output>, plan: SwitchPlan) -> Seq<Output> {
    Seq::new(
        outs.len(),
        |i: int|
            Output {
                enabled: plan.outputs_to_enable@.contains(i as usize) || (outs[i].enabled
                    && !plan.outputs_to_disable@.contains(i as usize)),
                ..outs[i]
            },
    )
}

proof fn lemma_listed(idx: Seq<usize>, n: int, p: spec_fn(int) -> bool, i: int)
    requires
        lists_exactly(idx, n, p),
        0 <= i < n <= usize::MAX,
    ensures
        idx.contains(i as usize) <==> p(i),
{
    if p(i) {
        let k = choose|k: int| 0 <= k < idx.len() && idx[k] == i;
        assert(idx[k] == i as usize);
    }
    if idx.contains(i as usize) {
        let k = choose|k: int| 0 <= k < idx.len() && idx[k] == i as usize;
        assert(p(idx[k] as int));
    }
}

/// When no built-in panel is on and a plugged-in display is on, the plan
/// turns on exactly the connected plugged-in displays and turns off every
/// other output that is on.
pub proof fn lemma_external_takes_over(outs: Seq<Output>, plan: SwitchPlan)
    requires
        outs.len() <= usize::MAX,
        is_plan_for(outs, plan),
        !has_internal_on(outs),
        has_external_on(outs),
    ensures
        lists_exactly(
            plan.outputs_to_enable@,
            outs.len() as int,
            |i: int| outs[i].connected && outs[i].location == Location::External,
        ),
        forall|i: int|
            0 <= i < outs.len() && (#[trigger] outs[i]).enabled && !(outs[i].connected
                && outs[i].location == Location::External) ==> plan.outputs_to_disable@.contains(
                i as usize,
            ),
{
    let n = outs.len() as int;
    let j = choose|j: int| 0 <= j < outs.len() && external_on(#[trigger] outs[j]);
    assert(external_plugged(outs[j]));
    assert(has_external_plugged(outs));
    lemma_lists_same(
        plan.outputs_to_enable@,
        n,
        |i: int| should_enable(outs, outs[i]),
        |i: int| outs[i].connected && outs[i].location == Location::External,
    );
    assert forall|i: int|
        0 <= i < outs.len() && (#[trigger] outs[i]).enabled && !(outs[i].connected
            && outs[i].location == Location::External) implies plan.outputs_to_disable@.contains(
        i as usize,
    ) by {
        lemma_listed(plan.outputs_to_disable@, n, |i: int| should_disable(outs, outs[i]), i);
    }
}

/// When no plugged-in display is connected, the plan turns on exactly the
/// connected built-in panels.
pub proof fn lemma_undocked_enables_internal(outs: Seq<Output>, plan: SwitchPlan)
    requires
        is_plan_for(outs, plan),
        !has_external_plugged(outs),
    ensures
        lists_exactly(
            plan.outputs_to_enable@,
            outs.len() as int,
            |i: int| outs[i].connected && outs[i].location == Location::Internal,
        ),
{
    assert forall|i: int| 0 <= i < outs.len() implies #[trigger] should_enable(outs, outs[i]) == (
    outs[i].connected && outs[i].location == Location::Internal) by {
        if outs[i].connected && outs[i].location == Location::External {
            assert(external_plugged(outs[i]));
        }
    }
    lemma_lists_same(
        plan.outputs_to_enable@,
        outs.len() as int,
        |i: int| should_enable(outs, outs[i]),
        |i: int| outs[i].connected && outs[i].location == Location::Internal,
    );
}

/// Carrying out a plan reaches a fixed point of the policy: the plan
/// computed again on the result turns nothing off and turns on only outputs
/// that are already on. The one state excluded is the step where a built-in
/// panel is on, no plugged-in display is on yet and one is connected: there
/// the plan first adds the plugged-in display beside the panel.
pub proof fn lemma_plan_settles(outs: Seq<Output>, plan: SwitchPlan, next: SwitchPlan)
    requires
        outs.len() <= usize::MAX,
        is_plan_for(outs, plan),
        is_plan_for(applied(outs, plan), next),
        !(has_internal_on(outs) && !has_external_on(outs) && has_external_plugged(outs)),
    ensures
        next.outputs_to_disable@.len() == 0,
        lists_exactly(
            next.outputs_to_enable@,
            outs.len() as int,
            |i: int| applied(outs, plan)[i].enabled,
        ),
{
    let n = outs.len() as int;
    let after = applied(outs, plan);
    let int_on = has_internal_on(outs);
    let ext_on = has_external_on(outs);
    let plugged = has_external_plugged(outs);
    // Which outputs are on afterwards.
    assert forall|i: int| 0 <= i < n implies (#[trigger] after[i]).enabled == (if (int_on
        && ext_on) || (!int_on && plugged) {
        outs[i].connected && outs[i].location == Location::External
    } else {
        outs[i].connected
    }) && after[i].connected == outs[i].connected && after[i].location == outs[i].location by {
        lemma_listed(plan.outputs_to_enable@, n, |i: int| should_enable(outs, outs[i]), i);
        lemma_listed(plan.outputs_to_disable@, n, |i: int| should_disable(outs, outs[i]), i);
        if !plugged && outs[i].connected && outs[i].location == Location::External {
            assert(external_plugged(outs[i]));
        }
    }
    // The three flags of the policy on the state afterwards.
    if (int_on && ext_on) || (!int_on && plugged) {
        assert(!has_internal_on(after));
        let j = choose|j: int| 0 <= j < n && external_plugged(#[trigger] outs[j]);
        assert(after[j].enabled);
        assert(external_plugged(after[j]));
        assert(has_external_plugged(after));
    } else {
        assert(!has_external_plugged(after)) by {
            if has_external_plugged(after) {
                let j = choose|j: int| 0 <= j < n && external_plugged(#[trigger] after[j]);
                assert(external_plugged(outs[j]));
            }
        }
        assert(!has_external_on(after));
    }
    assert forall|i: int| 0 <= i < n implies !#[trigger] should_disable(after, after[i])
        && should_enable(after, after[i]) == after[i].enabled by {}
    lemma_lists_same(
        next.outputs_to_disable@,
        n,
        |i: int| should_disable(after, after[i]),
        |i: int| false,
    );
    if next.outputs_to_disable@.len() > 0 {
        assert((|i: int| false)(next.outputs_to_disable@[0] as int));
    }
    lemma_lists_same(
        next.outputs_to_enable@,
        n,
        |i: int| should_enable(after, after[i]),
        |i: int| after[i].enabled,
    );
}

/// Carrying out a plan never leaves work for the next plan to turn on: the
/// plan computed again on the result turns on only outputs that are
/// already on.
pub proof fn lemma_replan_turns_nothing_new_on(outs: Seq<Output>, plan: SwitchPlan, next: SwitchPlan)
    requires
        outs.len() <= usize::MAX,
        is_plan_for(outs, plan),
        is_plan_for(applied(outs, plan), next),
    ensures
        forall|k: int|
            0 <= k < next.outputs_to_enable@.len() ==> applied(outs, plan)[#[trigger] next.outputs_to_enable@[k] as int].enabled,
{
    let n = outs.len() as int;
    let after = applied(outs, plan);
    if !(has_internal_on(outs) && !has_external_on(outs) && has_external_plugged(outs)) {
        lemma_plan_settles(outs, plan, next);
        assert forall|k: int| 0 <= k < next.outputs_to_enable@.len() implies after[#[trigger] next.outputs_to_enable@[k] as int].enabled by {
            let i = next.outputs_to_enable@[k] as int;
            assert((|i: int| after[i].enabled)(i));
        }
    } else {
        // A built-in panel is on and a plugged-in display is connected but
        // off: every connected output is on afterwards.
        assert forall|i: int| 0 <= i < n implies (#[trigger] after[i]).enabled == outs[i].connected
            && after[i].connected == outs[i].connected && after[i].location == outs[i].location by {
            lemma_listed(plan.outputs_to_enable@, n, |i: int| should_enable(outs, outs[i]), i);
            lemma_listed(plan.outputs_to_disable@, n, |i: int| should_disable(outs, outs[i]), i);
        }
        let a = choose|a: int| 0 <= a < n && internal_on(#[trigger] outs[a]);
        assert(internal_on(after[a]));
        assert(has_internal_on(after));
        let b = choose|b: int| 0 <= b < n && external_plugged(#[trigger] outs[b]);
        assert(external_on(after[b]));
        assert(has_external_on(after));
        assert forall|k: int| 0 <= k < next.outputs_to_enable@.len() implies after[#[trigger] next.outputs_to_enable@[k] as int].enabled by {
            let i = next.outputs_to_enable@[k] as int;
            assert((|i: int| should_enable(after, after[i]))(i));
        }
    }
}

} // verus!
