//! The controller allocator: frees the controllers of outputs that go off
//! and binds outputs that go on to controllers, keeping outputs and
//! controllers consistent with each other.

use vstd::prelude::*;
use crate::randr::{
    all_modes_known, best_mode, best_mode_index, choose_best_mode, has_mode, find_output, has_output, is_first_output,
    output_index, CrtcInfo, ModeInfo, OutputInfo, RandrError, NO_CRTC, NO_MODE, ROTATE_0,
};
use crate::screen::{Resolution, Screen};
use crate::switch::SwitchPlan;

verus! {

/// The controller table holds a controller with id `id`.
pub open spec fn has_crtc(crtcs: Seq<CrtcInfo>, id: u32) -> bool {
    exists|a: int| 0 <= a < crtcs.len() && (#[trigger] crtcs[a]).id == id
}

/// Ids in the mode table are real mode ids.
pub open spec fn mode_ids_valid(modes: Seq<ModeInfo>) -> bool {
    forall|k: int| 0 <= k < modes.len() ==> (#[trigger] modes[k]).id != NO_MODE
}

/// Controller ids are real and distinct.
pub open spec fn crtc_ids_valid(crtcs: Seq<CrtcInfo>) -> bool {
    &&& forall|a: int| 0 <= a < crtcs.len() ==> (#[trigger] crtcs[a]).id != NO_CRTC
    &&& forall|a: int, b: int|
        0 <= a < crtcs.len() && 0 <= b < crtcs.len() && a != b ==> (#[trigger] crtcs[a]).id
            != (#[trigger] crtcs[b]).id
}

/// Output ids are distinct.
pub open spec fn output_ids_valid(outputs: Seq<OutputInfo>) -> bool {
    forall|i: int, j: int|
        0 <= i < outputs.len() && 0 <= j < outputs.len() && i != j ==> (#[trigger] outputs[i]).id
            != (#[trigger] outputs[j]).id
}

/// A controller is idle exactly when no output is bound to it, and lists
/// each of its outputs once.
pub open spec fn crtc_well_formed(c: CrtcInfo) -> bool {
    &&& (c.mode == NO_MODE <==> c.outputs@.len() == 0)
    &&& forall|j1: int, j2: int|
        0 <= j1 < c.outputs@.len() && 0 <= j2 < c.outputs@.len() && j1 != j2 ==> (
        #[trigger] c.outputs@[j1]) != (#[trigger] c.outputs@[j2])
}

/// Output `i` points at controller `a` and `a` lists it.
pub open spec fn bound(outputs: Seq<OutputInfo>, crtcs: Seq<CrtcInfo>, i: int, a: int) -> bool {
    0 <= i < outputs.len() && 0 <= a < crtcs.len() && outputs[i].crtc == crtcs[a].id
        && crtcs[a].outputs@.contains(outputs[i].id)
}

/// The `j`-th output listed by controller `a` points back at `a`.
pub open spec fn points_back(outputs: Seq<OutputInfo>, crtcs: Seq<CrtcInfo>, a: int, j: int) -> bool {
    exists|i: int|
        0 <= i < outputs.len() && outputs[i].id == crtcs[a].outputs@[j] && outputs[i].crtc
            == crtcs[a].id
}

/// Every bound output's controller lists it, and every output a controller
/// lists points back at that controller.
pub open spec fn bindings_symmetric(outputs: Seq<OutputInfo>, crtcs: Seq<CrtcInfo>) -> bool {
    &&& forall|i: int|
        0 <= i < outputs.len() && (#[trigger] outputs[i]).crtc != NO_CRTC ==> exists|a: int|
            bound(outputs, crtcs, i, a)
    &&& forall|a: int, j: int|
        0 <= a < crtcs.len() && 0 <= j < crtcs[a].outputs@.len() ==> #[trigger] points_back(
            outputs,
            crtcs,
            a,
            j,
        )
}

/// Every controller that an output names as able to drive it exists.
pub open spec fn candidates_known(outputs: Seq<OutputInfo>, crtcs: Seq<CrtcInfo>) -> bool {
    forall|i: int, m: int|
        0 <= i < outputs.len() && 0 <= m < outputs[i].crtcs@.len() ==> has_crtc(
            crtcs,
            #[trigger] outputs[i].crtcs@[m],
        )
}

/// The state of outputs and controllers is consistent.
pub open spec fn consistent(modes: Seq<ModeInfo>, outputs: Seq<OutputInfo>, crtcs: Seq<CrtcInfo>) -> bool {
    &&& mode_ids_valid(modes)
    &&& crtc_ids_valid(crtcs)
    &&& output_ids_valid(outputs)
    &&& forall|a: int| 0 <= a < crtcs.len() ==> crtc_well_formed(#[trigger] crtcs[a])
    &&& bindings_symmetric(outputs, crtcs)
    &&& candidates_known(outputs, crtcs)
}

/// Finds the position of the controller with id `id`.
pub fn find_crtc(crtcs: &Vec<CrtcInfo>, id: u32) -> (r: Option<usize>)
    ensures
        r is None <==> !has_crtc(crtcs@, id),
        r matches Some(a) ==> a < crtcs@.len() && crtcs@[a as int].id == id,
{
    let mut a: usize = 0;
    while a < crtcs.len()
        invariant
            a <= crtcs.len(),
            forall|b: int| 0 <= b < a ==> (#[trigger] crtcs@[b]).id != id,
        decreases crtcs.len() - a,
    {
        if crtcs[a].id == id {
            return Some(a);
        }
        a = a + 1;
    }
    None
}

fn list_contains(ids: &Vec<u32>, id: u32) -> (r: bool)
    ensures
        r == ids@.contains(id),
{
    let mut j: usize = 0;
    while j < ids.len()
        invariant
            j <= ids.len(),
            forall|k: int| 0 <= k < j ==> ids@[k] != id,
        decreases ids.len() - j,
    {
        if ids[j] == id {
            assert(ids@[j as int] == id);
            return true;
        }
        j = j + 1;
    }
    false
}

fn check_mode_ids(modes: &Vec<ModeInfo>) -> (r: bool)
    ensures
        r == mode_ids_valid(modes@),
{
    let mut k: usize = 0;
    while k < modes.len()
        invariant
            k <= modes.len(),
            forall|j: int| 0 <= j < k ==> (#[trigger] modes@[j]).id != NO_MODE,
        decreases modes.len() - k,
    {
        if modes[k].id == NO_MODE {
            return false;
        }
        k = k + 1;
    }
    true
}

fn check_crtc_ids(crtcs: &Vec<CrtcInfo>) -> (r: bool)
    ensures
        r == crtc_ids_valid(crtcs@),
{
    let mut a: usize = 0;
    while a < crtcs.len()
        invariant
            a <= crtcs.len(),
            forall|x: int| 0 <= x < a ==> (#[trigger] crtcs@[x]).id != NO_CRTC,
            forall|x: int, y: int|
                0 <= x < a && 0 <= y < crtcs.len() && x != y ==> (#[trigger] crtcs@[x]).id
                    != (#[trigger] crtcs@[y]).id,
        decreases crtcs.len() - a,
    {
        if crtcs[a].id == NO_CRTC {
            return false;
        }
        let mut b: usize = 0;
        while b < crtcs.len()
            invariant
                a < crtcs.len(),
                b <= crtcs.len(),
                forall|y: int| 0 <= y < b && y != a ==> crtcs@[a as int].id != (#[trigger] crtcs@[y]).id,
            decreases crtcs.len() - b,
        {
            if b != a && crtcs[a].id == crtcs[b].id {
                return false;
            }
            b = b + 1;
        }
        a = a + 1;
    }
    true
}

fn check_output_ids(outputs: &Vec<OutputInfo>) -> (r: bool)
    ensures
        r == output_ids_valid(outputs@),
{
    let mut i: usize = 0;
    while i < outputs.len()
        invariant
            i <= outputs.len(),
            forall|x: int, y: int|
                0 <= x < i && 0 <= y < outputs.len() && x != y ==> (#[trigger] outputs@[x]).id
                    != (#[trigger] outputs@[y]).id,
        decreases outputs.len() - i,
    {
        let mut j: usize = 0;
        while j < outputs.len()
            invariant
                i < outputs.len(),
                j <= outputs.len(),
                forall|y: int| 0 <= y < j && y != i ==> outputs@[i as int].id != (#[trigger] outputs@[y]).id,
            decreases outputs.len() - j,
        {
            if j != i && outputs[i].id == outputs[j].id {
                return false;
            }
            j = j + 1;
        }
        i = i + 1;
    }
    true
}

fn check_crtc_well_formed(c: &CrtcInfo) -> (r: bool)
    ensures
        r == crtc_well_formed(*c),
{
    if (c.mode == NO_MODE) != (c.outputs.len() == 0) {
        return false;
    }
    let ids = &c.outputs;
    let mut x: usize = 0;
    while x < ids.len()
        invariant
            ids == &c.outputs,
            (c.mode == NO_MODE) == (c.outputs@.len() == 0),
            x <= ids.len(),
            forall|j1: int, j2: int|
                0 <= j1 < x && 0 <= j2 < ids@.len() && j1 != j2 ==> (#[trigger] ids@[j1]) != (
                #[trigger] ids@[j2]),
        decreases ids.len() - x,
    {
        let mut y: usize = 0;
        while y < ids.len()
            invariant
                ids == &c.outputs,
                x < ids.len(),
                y <= ids.len(),
                forall|j2: int| 0 <= j2 < y && j2 != x ==> ids@[x as int] != (#[trigger] ids@[j2]),
            decreases ids.len() - y,
        {
            if y != x && ids[x] == ids[y] {
                assert(c.outputs@[x as int] == c.outputs@[y as int]);
                return false;
            }
            y = y + 1;
        }
        x = x + 1;
    }
    true
}

fn check_bindings(outputs: &Vec<OutputInfo>, crtcs: &Vec<CrtcInfo>) -> (r: bool)
    requires
        crtc_ids_valid(crtcs@),
        output_ids_valid(outputs@),
    ensures
        r == bindings_symmetric(outputs@, crtcs@),
{
    let mut i: usize = 0;
    while i < outputs.len()
        invariant
            i <= outputs.len(),
            crtc_ids_valid(crtcs@),
            forall|x: int|
                0 <= x < i && (#[trigger] outputs@[x]).crtc != NO_CRTC ==> exists|a: int|
                    bound(outputs@, crtcs@, x, a),
        decreases outputs.len() - i,
    {
        let o = &outputs[i];
        if o.crtc != NO_CRTC {
            let a = match find_crtc(crtcs, o.crtc) {
                Some(a) => a,
                None => {
                    assert(!exists|a: int| bound(outputs@, crtcs@, i as int, a)) by {
                        if exists|a: int| bound(outputs@, crtcs@, i as int, a) {
                            let a = choose|a: int| bound(outputs@, crtcs@, i as int, a);
                            assert(crtcs@[a].id == o.crtc);
                        }
                    }
                    return false;
                },
            };
            if !list_contains(&crtcs[a].outputs, o.id) {
                assert(!exists|b: int| bound(outputs@, crtcs@, i as int, b)) by {
                    if exists|b: int| bound(outputs@, crtcs@, i as int, b) {
                        let b = choose|b: int| bound(outputs@, crtcs@, i as int, b);
                        assert(crtcs@[b].id == crtcs@[a as int].id);
                    }
                }
                return false;
            }
            assert(bound(outputs@, crtcs@, i as int, a as int));
        }
        i = i + 1;
    }
    let mut a: usize = 0;
    while a < crtcs.len()
        invariant
            a <= crtcs.len(),
            output_ids_valid(outputs@),
            forall|x: int|
                0 <= x < outputs@.len() && (#[trigger] outputs@[x]).crtc != NO_CRTC ==> exists|b: int|
                    bound(outputs@, crtcs@, x, b),
            forall|b: int, j: int|
                0 <= b < a && 0 <= j < crtcs@[b].outputs@.len() ==> #[trigger] points_back(
                    outputs@,
                    crtcs@,
                    b,
                    j,
                ),
        decreases crtcs.len() - a,
    {
        let c = &crtcs[a];
        let mut j: usize = 0;
        while j < c.outputs.len()
            invariant
                a < crtcs.len(),
                c == &crtcs@[a as int],
                j <= c.outputs.len(),
                output_ids_valid(outputs@),
                forall|x: int|
                    0 <= x < outputs@.len() && (#[trigger] outputs@[x]).crtc != NO_CRTC ==> exists|b: int|
                        bound(outputs@, crtcs@, x, b),
                forall|b: int, jj: int|
                    0 <= b < a && 0 <= jj < crtcs@[b].outputs@.len() ==> #[trigger] points_back(
                        outputs@,
                        crtcs@,
                        b,
                        jj,
                    ),
                forall|y: int| 0 <= y < j ==> #[trigger] points_back(outputs@, crtcs@, a as int, y),
            decreases c.outputs.len() - j,
        {
            let oid = c.outputs[j];
            let k = match find_output(outputs, oid) {
                Some(k) => k,
                None => {
                    assert(c.outputs@[j as int] == oid);
                    assert(!points_back(outputs@, crtcs@, a as int, j as int));
                    return false;
                },
            };
            if outputs[k].crtc != c.id {
                assert(c.outputs@[j as int] == oid);
                assert(!points_back(outputs@, crtcs@, a as int, j as int));
                assert(!exists|x: int|
                    0 <= x < outputs@.len() && outputs@[x].id == oid && outputs@[x].crtc == c.id) by {
                    if exists|x: int|
                        0 <= x < outputs@.len() && outputs@[x].id == oid && outputs@[x].crtc == c.id {
                        let x = choose|x: int|
                            0 <= x < outputs@.len() && outputs@[x].id == oid && outputs@[x].crtc == c.id;
                        assert(outputs@[x].id == outputs@[k as int].id);
                    }
                }
                return false;
            }
            assert(c.outputs@[j as int] == oid && outputs@[k as int].id == oid);
            assert(points_back(outputs@, crtcs@, a as int, j as int));
            j = j + 1;
        }
        a = a + 1;
    }
    true
}

fn check_candidates(outputs: &Vec<OutputInfo>, crtcs: &Vec<CrtcInfo>) -> (r: bool)
    ensures
        r == candidates_known(outputs@, crtcs@),
{
    let mut i: usize = 0;
    while i < outputs.len()
        invariant
            i <= outputs.len(),
            forall|x: int, m: int|
                0 <= x < i && 0 <= m < outputs@[x].crtcs@.len() ==> has_crtc(
                    crtcs@,
                    #[trigger] outputs@[x].crtcs@[m],
                ),
        decreases outputs.len() - i,
    {
        let cands = &outputs[i].crtcs;
        let mut m: usize = 0;
        while m < cands.len()
            invariant
                i < outputs.len(),
                cands == &outputs@[i as int].crtcs,
                m <= cands.len(),
                forall|y: int| 0 <= y < m ==> has_crtc(crtcs@, #[trigger] cands@[y]),
            decreases cands.len() - m,
        {
            if find_crtc(crtcs, cands[m]).is_none() {
                assert(outputs@[i as int].crtcs@[m as int] == cands@[m as int]);
                return false;
            }
            m = m + 1;
        }
        i = i + 1;
    }
    true
}

/// Whether outputs and controllers are consistent with each other and with
/// the mode table.
pub fn is_consistent(modes: &Vec<ModeInfo>, outputs: &Vec<OutputInfo>, crtcs: &Vec<CrtcInfo>) -> (r: bool)
    ensures
        r == consistent(modes@, outputs@, crtcs@),
{
    if !check_mode_ids(modes) || !check_crtc_ids(crtcs) || !check_output_ids(outputs) {
        return false;
    }
    let mut a: usize = 0;
    while a < crtcs.len()
        invariant
            a <= crtcs.len(),
            forall|b: int| 0 <= b < a ==> crtc_well_formed(#[trigger] crtcs@[b]),
        decreases crtcs.len() - a,
    {
        if !check_crtc_well_formed(&crtcs[a]) {
            return false;
        }
        a = a + 1;
    }
    check_bindings(outputs, crtcs) && check_candidates(outputs, crtcs)
}

/// Output `o` after pass one: unbound if it is to be turned off.
pub open spec fn released(o: OutputInfo, off: bool) -> OutputInfo {
    OutputInfo { crtc: if off { NO_CRTC } else { o.crtc }, ..o }
}

/// An output id whose output is not turned off.
pub open spec fn still_shown(outputs: Seq<OutputInfo>, off: Seq<bool>) -> spec_fn(u32) -> bool {
    |oid: u32| !off[output_index(outputs, oid)]
}

/// Controller `c` after pass one: it no longer lists the outputs turned
/// off, keeps the others in order, and is idle if it lists none.
pub open spec fn released_crtc(c: CrtcInfo, c2: CrtcInfo, outputs: Seq<OutputInfo>, off: Seq<bool>) -> bool {
    &&& c2.id == c.id && c2.x == c.x && c2.y == c.y && c2.rotation == c.rotation
    &&& c2.outputs@ == c.outputs@.filter(still_shown(outputs, off))
    &&& (forall|oid: u32|
        #[trigger] c2.outputs@.contains(oid) <==> c.outputs@.contains(oid) && !off[output_index(
            outputs,
            oid,
        )])
    &&& c2.mode == (if c2.outputs@.len() == 0 {
        NO_MODE
    } else {
        c.mode
    })
}

proof fn lemma_unique_output(outputs: Seq<OutputInfo>, x: int, id: u32)
    requires
        output_ids_valid(outputs),
        0 <= x < outputs.len(),
        outputs[x].id == id,
    ensures
        output_index(outputs, id) == x,
{
    assert(is_first_output(outputs, id, x));
    crate::randr::lemma_first_output(outputs, id, x);
}

fn release_crtc(c: &CrtcInfo, outputs: &Vec<OutputInfo>, off: &Vec<bool>, Ghost(crtcs): Ghost<Seq<CrtcInfo>>, Ghost(a): Ghost<int>) -> (r: CrtcInfo)
    requires
        off@.len() == outputs@.len(),
        output_ids_valid(outputs@),
        0 <= a < crtcs.len(),
        crtcs[a] == *c,
        crtc_well_formed(*c),
        forall|j: int| 0 <= j < c.outputs@.len() ==> #[trigger] points_back(outputs@, crtcs, a, j),
    ensures
        released_crtc(*c, r, outputs@, off@),
        crtc_well_formed(r),
        forall|oid: u32| #[trigger] r.outputs@.contains(oid) ==> has_output(outputs@, oid),
{
    let mut kept: Vec<u32> = Vec::new();
    let mut j: usize = 0;
    while j < c.outputs.len()
        invariant
            j <= c.outputs.len(),
            off@.len() == outputs@.len(),
            output_ids_valid(outputs@),
            0 <= a < crtcs.len(),
            crtcs[a] == *c,
            crtc_well_formed(*c),
            forall|y: int| 0 <= y < c.outputs@.len() ==> #[trigger] points_back(outputs@, crtcs, a, y),
            forall|oid: u32|
                #[trigger] kept@.contains(oid) <==> c.outputs@.subrange(0, j as int).contains(oid)
                    && !off@[output_index(outputs@, oid)],
            forall|y1: int, y2: int|
                0 <= y1 < kept@.len() && 0 <= y2 < kept@.len() && y1 != y2 ==> (#[trigger] kept@[y1])
                    != (#[trigger] kept@[y2]),
            forall|oid: u32| #[trigger] kept@.contains(oid) ==> has_output(outputs@, oid),
            kept@ == c.outputs@.subrange(0, j as int).filter(still_shown(outputs@, off@)),
        decreases c.outputs.len() - j,
    {
        let oid = c.outputs[j];
        assert(c.outputs@.subrange(0, j + 1).drop_last() =~= c.outputs@.subrange(0, j as int));
        assert(c.outputs@.subrange(0, j + 1).last() == oid);
        assert(points_back(outputs@, crtcs, a, j as int));
        let k = match find_output(outputs, oid) {
            Some(k) => k,
            None => {
                assert(false);
                return CrtcInfo { id: 0, x: 0, y: 0, mode: 0, rotation: 0, outputs: Vec::new() };
            },
        };
        let ghost old_kept = kept@;
        assert(!c.outputs@.subrange(0, j as int).contains(oid)) by {
            if c.outputs@.subrange(0, j as int).contains(oid) {
                let y = choose|y: int| 0 <= y < j && c.outputs@.subrange(0, j as int)[y] == oid;
                assert(c.outputs@[y] == c.outputs@[j as int]);
            }
        }
        if !off[k] {
            kept.push(oid);
            assert forall|y1: int, y2: int|
                0 <= y1 < kept@.len() && 0 <= y2 < kept@.len() && y1 != y2 implies (
                #[trigger] kept@[y1]) != (#[trigger] kept@[y2]) by {
                if y1 == kept@.len() - 1 {
                    assert(old_kept.contains(kept@[y2]));
                } else if y2 == kept@.len() - 1 {
                    assert(old_kept.contains(kept@[y1]));
                }
            }
        }
        assert forall|x: u32|
            #[trigger] kept@.contains(x) <==> c.outputs@.subrange(0, j + 1).contains(x)
                && !off@[output_index(outputs@, x)] by {
            assert(c.outputs@.subrange(0, j + 1) =~= c.outputs@.subrange(0, j as int).push(oid));
            assert(c.outputs@.subrange(0, j + 1)[j as int] == oid);
            if kept@.contains(x) && x != oid {
                let y = choose|y: int| 0 <= y < kept@.len() && kept@[y] == x;
                if !off[k as int] {
                    assert(y < old_kept.len());
                }
                assert(old_kept[y] == x);
                assert(old_kept.contains(x));
                let z = choose|z: int| 0 <= z < j && c.outputs@.subrange(0, j as int)[z] == x;
                assert(c.outputs@.subrange(0, j + 1)[z] == x);
            }
            if kept@.contains(x) && x == oid {
                if off[k as int] {
                    assert(!old_kept.contains(x));
                }
            }
            if x == oid && !off@[output_index(outputs@, x)] {
                assert(kept@[kept@.len() - 1] == x);
            }
            if x != oid && c.outputs@.subrange(0, j as int).contains(x) && !off@[output_index(outputs@, x)] {
                assert(old_kept.contains(x));
                let y = choose|y: int| 0 <= y < old_kept.len() && old_kept[y] == x;
                assert(kept@[y] == x);
            }
        }
        assert(still_shown(outputs@, off@)(oid) == !off@[k as int]);
        assert(kept@ == c.outputs@.subrange(0, j + 1).filter(still_shown(outputs@, off@))) by {
            let t = c.outputs@.subrange(0, j + 1);
            let f = still_shown(outputs@, off@);
            reveal(Seq::filter);
            assert(t.len() > 0);
            assert(t.filter(f) == (if f(t.last()) {
                t.drop_last().filter(f).push(t.last())
            } else {
                t.drop_last().filter(f)
            }));
            assert(t.drop_last() == c.outputs@.subrange(0, j as int));
            if !off@[k as int] {
                assert(kept@ == old_kept.push(oid));
            } else {
                assert(kept@ == old_kept);
            }
        }
        assert forall|x: u32| #[trigger] kept@.contains(x) implies has_output(outputs@, x) by {
            if x == oid {
                assert(outputs@[k as int].id == oid);
            } else {
                assert(old_kept.contains(x));
            }
        }
        j = j + 1;
    }
    assert(c.outputs@.subrange(0, c.outputs@.len() as int) =~= c.outputs@);
    let mode = if kept.len() == 0 {
        NO_MODE
    } else {
        assert(c.outputs@.len() > 0) by {
            assert(kept@.contains(kept@[0]));
        }
        c.mode
    };
    CrtcInfo { id: c.id, x: c.x, y: c.y, mode, rotation: c.rotation, outputs: kept }
}

proof fn lemma_release_consistent(
    modes: Seq<ModeInfo>,
    outputs: Seq<OutputInfo>,
    crtcs: Seq<CrtcInfo>,
    off: Seq<bool>,
    outputs2: Seq<OutputInfo>,
    crtcs2: Seq<CrtcInfo>,
)
    requires
        consistent(modes, outputs, crtcs),
        off.len() == outputs.len(),
        outputs2.len() == outputs.len(),
        crtcs2.len() == crtcs.len(),
        forall|i: int| 0 <= i < outputs.len() ==> #[trigger] outputs2[i] == released(outputs[i], off[i]),
        forall|a: int| 0 <= a < crtcs.len() ==> #[trigger] released_crtc(crtcs[a], crtcs2[a], outputs, off),
        forall|a: int| 0 <= a < crtcs.len() ==> crtc_well_formed(#[trigger] crtcs2[a]),
    ensures
        consistent(modes, outputs2, crtcs2),
{
    assert forall|a: int| 0 <= a < crtcs.len() implies (#[trigger] crtcs2[a]).id == crtcs[a].id by {
        assert(released_crtc(crtcs[a], crtcs2[a], outputs, off));
    }
    assert(crtc_ids_valid(crtcs2)) by {
        assert forall|a: int, b: int|
            0 <= a < crtcs2.len() && 0 <= b < crtcs2.len() && a != b implies (#[trigger] crtcs2[a]).id
                != (#[trigger] crtcs2[b]).id by {
            assert(crtcs[a].id != crtcs[b].id);
        }
        assert forall|a: int| 0 <= a < crtcs2.len() implies (#[trigger] crtcs2[a]).id != NO_CRTC by {
            assert(crtcs[a].id != NO_CRTC);
        }
    }
    assert(output_ids_valid(outputs2)) by {
        assert forall|i: int, j: int|
            0 <= i < outputs2.len() && 0 <= j < outputs2.len() && i != j implies (
            #[trigger] outputs2[i]).id != (#[trigger] outputs2[j]).id by {
            assert(outputs2[i] == released(outputs[i], off[i]));
            assert(outputs2[j] == released(outputs[j], off[j]));
            assert(outputs[i].id != outputs[j].id);
        }
    }
    assert forall|i: int|
        0 <= i < outputs2.len() && (#[trigger] outputs2[i]).crtc != NO_CRTC implies exists|a: int|
        bound(outputs2, crtcs2, i, a) by {
        assert(outputs2[i] == released(outputs[i], off[i]));
        assert(outputs[i].crtc != NO_CRTC);
        let a = choose|a: int| bound(outputs, crtcs, i, a);
        lemma_unique_output(outputs, i, outputs[i].id);
        assert(released_crtc(crtcs[a], crtcs2[a], outputs, off));
        assert(crtcs2[a].outputs@.contains(outputs[i].id));
        assert(bound(outputs2, crtcs2, i, a));
    }
    assert forall|a: int, j: int|
        0 <= a < crtcs2.len() && 0 <= j < crtcs2[a].outputs@.len() implies #[trigger] points_back(
        outputs2,
        crtcs2,
        a,
        j,
    ) by {
        let oid = crtcs2[a].outputs@[j];
        assert(released_crtc(crtcs[a], crtcs2[a], outputs, off));
        assert(crtcs2[a].outputs@.contains(oid));
        assert(crtcs[a].outputs@.contains(oid));
        let j0 = choose|j0: int| 0 <= j0 < crtcs[a].outputs@.len() && crtcs[a].outputs@[j0] == oid;
        assert(points_back(outputs, crtcs, a, j0));
        let x = choose|x: int|
            0 <= x < outputs.len() && outputs[x].id == crtcs[a].outputs@[j0] && outputs[x].crtc
                == crtcs[a].id;
        lemma_unique_output(outputs, x, oid);
        assert(outputs2[x] == released(outputs[x], off[x]));
    }
    assert forall|i: int, m: int|
        0 <= i < outputs2.len() && 0 <= m < outputs2[i].crtcs@.len() implies has_crtc(
        crtcs2,
        #[trigger] outputs2[i].crtcs@[m],
    ) by {
        assert(outputs2[i] == released(outputs[i], off[i]));
        assert(has_crtc(crtcs, outputs[i].crtcs@[m]));
        let a = choose|a: int| 0 <= a < crtcs.len() && (#[trigger] crtcs[a]).id == outputs[i].crtcs@[m];
        assert(crtcs2[a].id == crtcs[a].id);
    }
}

/// Pass one: unbinds the outputs marked in `off` from their controllers;
/// a controller left without outputs becomes idle.
fn release_outputs(
    outputs: &mut Vec<OutputInfo>,
    crtcs: &mut Vec<CrtcInfo>,
    off: &Vec<bool>,
    Ghost(modes): Ghost<Seq<ModeInfo>>,
)
    requires
        consistent(modes, old(outputs)@, old(crtcs)@),
        off@.len() == old(outputs)@.len(),
    ensures
        final(outputs)@.len() == old(outputs)@.len(),
        final(crtcs)@.len() == old(crtcs)@.len(),
        forall|i: int|
            0 <= i < old(outputs)@.len() ==> #[trigger] final(outputs)@[i] == released(
                old(outputs)@[i],
                off@[i],
            ),
        forall|a: int|
            0 <= a < old(crtcs)@.len() ==> #[trigger] released_crtc(
                old(crtcs)@[a],
                final(crtcs)@[a],
                old(outputs)@,
                off@,
            ),
        consistent(modes, final(outputs)@, final(crtcs)@),
{
    let ghost out0 = outputs@;
    let ghost crt0 = crtcs@;
    let mut a: usize = 0;
    while a < crtcs.len()
        invariant
            consistent(modes, out0, crt0),
            outputs@ == out0,
            off@.len() == out0.len(),
            crtcs@.len() == crt0.len(),
            a <= crtcs.len(),
            forall|b: int| 0 <= b < a ==> #[trigger] released_crtc(crt0[b], crtcs@[b], out0, off@),
            forall|b: int| 0 <= b < a ==> crtc_well_formed(#[trigger] crtcs@[b]),
            forall|b: int| a <= b < crtcs@.len() ==> #[trigger] crtcs@[b] == crt0[b],
        decreases crtcs.len() - a,
    {
        assert(crt0[a as int] == crtcs@[a as int]);
        assert(crtc_well_formed(crt0[a as int]));
        assert forall|j: int| 0 <= j < crt0[a as int].outputs@.len() implies #[trigger] points_back(
            out0,
            crt0,
            a as int,
            j,
        ) by {}
        let nc = release_crtc(&crtcs[a], outputs, off, Ghost(crt0), Ghost(a as int));
        crtcs[a] = nc;
        a = a + 1;
    }
    let mut i: usize = 0;
    while i < outputs.len()
        invariant
            outputs@.len() == out0.len(),
            off@.len() == out0.len(),
            i <= outputs.len(),
            forall|j: int| 0 <= j < i ==> #[trigger] outputs@[j] == released(out0[j], off@[j]),
            forall|j: int| i <= j < outputs@.len() ==> #[trigger] outputs@[j] == out0[j],
        decreases outputs.len() - i,
    {
        if off[i] {
            outputs[i].crtc = NO_CRTC;
        }
        assert(outputs@[i as int] == released(out0[i as int], off@[i as int]));
        i = i + 1;
    }
    proof {
        lemma_release_consistent(modes, out0, crt0, off@, outputs@, crtcs@);
    }
}

/// Controller `cid` is free for output `i` in pass two: no output was bound
/// to it after pass one (`p`), and no output before `i` took it (`fin`).
pub open spec fn free_for(p: Seq<OutputInfo>, fin: Seq<OutputInfo>, on: Seq<bool>, i: int, cid: u32) -> bool {
    &&& forall|k: int| 0 <= k < p.len() ==> (#[trigger] p[k]).crtc != cid
    &&& forall|j: int|
        0 <= j < i && on[j] && p[j].crtc == NO_CRTC ==> (#[trigger] fin[j]).crtc != cid
}

/// Output `i` got the first of its candidate controllers that was free for it.
pub open spec fn first_free(p: Seq<OutputInfo>, fin: Seq<OutputInfo>, on: Seq<bool>, i: int) -> bool {
    exists|m: int|
        0 <= m < p[i].crtcs@.len() && p[i].crtcs@[m] == fin[i].crtc && free_for(
            p,
            fin,
            on,
            i,
            fin[i].crtc,
        ) && forall|m2: int| 0 <= m2 < m ==> !free_for(p, fin, on, i, #[trigger] p[i].crtcs@[m2])
}

/// Output `i` after pass two: an output to turn on that had no controller
/// got the first free one; every other output kept its controller.
pub open spec fn bound_after(p: Seq<OutputInfo>, fin: Seq<OutputInfo>, on: Seq<bool>, i: int) -> bool {
    &&& fin[i] == OutputInfo { crtc: fin[i].crtc, ..p[i] }
    &&& if on[i] && p[i].crtc == NO_CRTC {
        first_free(p, fin, on, i)
    } else {
        fin[i].crtc == p[i].crtc
    }
}

/// The last output below `n` that is turned on and bound to controller `id`.
pub open spec fn last_on(fin: Seq<OutputInfo>, on: Seq<bool>, id: u32, n: int) -> Option<int>
    decreases n,
{
    if n <= 0 {
        None
    } else if on[n - 1] && fin[n - 1].crtc == id {
        Some(n - 1)
    } else {
        last_on(fin, on, id, n - 1)
    }
}

/// The ids of the outputs below `n` that pass two bound to controller `id`
/// because they had none, in order.
pub open spec fn newly_bound_ids(p: Seq<OutputInfo>, fin: Seq<OutputInfo>, on: Seq<bool>, id: u32, n: int) -> Seq<u32>
    decreases n,
{
    if n <= 0 {
        Seq::empty()
    } else {
        let prev = newly_bound_ids(p, fin, on, id, n - 1);
        if on[n - 1] && p[n - 1].crtc == NO_CRTC && fin[n - 1].crtc == id {
            prev.push(p[n - 1].id)
        } else {
            prev
        }
    }
}

proof fn lemma_newly_bound_prefix(p: Seq<OutputInfo>, f1: Seq<OutputInfo>, f2: Seq<OutputInfo>, on: Seq<bool>, id: u32, n: int)
    requires
        forall|j: int| 0 <= j < n ==> (#[trigger] f1[j]).crtc == f2[j].crtc,
    ensures
        newly_bound_ids(p, f1, on, id, n) == newly_bound_ids(p, f2, on, id, n),
    decreases n,
{
    if n > 0 {
        lemma_newly_bound_prefix(p, f1, f2, on, id, n - 1);
    }
}

/// Controller `c` after pass two (`c2`): it lists the outputs it listed,
/// then those newly bound to it, in order. If an output turned on is bound
/// to it, it shows the mode chosen for the last such output, unrotated at
/// the origin; otherwise its mode and placement are as they were.
pub open spec fn configured_crtc(
    c: CrtcInfo,
    c2: CrtcInfo,
    p: Seq<OutputInfo>,
    fin: Seq<OutputInfo>,
    on: Seq<bool>,
    modes: Seq<ModeInfo>,
    resolution: Option<Resolution>,
    n: int,
) -> bool {
    &&& c2.id == c.id
    &&& c2.outputs@ == c.outputs@ + newly_bound_ids(p, fin, on, c.id, n)
    &&& match last_on(fin, on, c.id, n) {
        Some(j) => c2.x == 0 && c2.y == 0 && c2.rotation == ROTATE_0 && best_mode(
            p[j],
            modes,
            resolution,
        ) == Some(c2.mode),
        None => c2.x == c.x && c2.y == c.y && c2.rotation == c.rotation && c2.mode == c.mode,
    }
}

proof fn lemma_last_on_prefix(f1: Seq<OutputInfo>, f2: Seq<OutputInfo>, on: Seq<bool>, id: u32, n: int)
    requires
        forall|j: int| 0 <= j < n ==> (#[trigger] f1[j]).crtc == f2[j].crtc,
    ensures
        last_on(f1, on, id, n) == last_on(f2, on, id, n),
    decreases n,
{
    if n > 0 {
        lemma_last_on_prefix(f1, f2, on, id, n - 1);
    }
}

proof fn lemma_free_for_prefix(p: Seq<OutputInfo>, f1: Seq<OutputInfo>, f2: Seq<OutputInfo>, on: Seq<bool>, i: int, cid: u32)
    requires
        forall|j: int| 0 <= j < i ==> (#[trigger] f1[j]).crtc == f2[j].crtc,
    ensures
        free_for(p, f1, on, i, cid) == free_for(p, f2, on, i, cid),
{
    if free_for(p, f1, on, i, cid) {
        assert forall|j: int|
            0 <= j < i && on[j] && p[j].crtc == NO_CRTC implies (#[trigger] f2[j]).crtc != cid by {
            assert(f1[j].crtc == f2[j].crtc);
        }
    }
    if free_for(p, f2, on, i, cid) {
        assert forall|j: int|
            0 <= j < i && on[j] && p[j].crtc == NO_CRTC implies (#[trigger] f1[j]).crtc != cid by {
            assert(f1[j].crtc == f2[j].crtc);
        }
    }
}

proof fn lemma_first_free_stable(p: Seq<OutputInfo>, f1: Seq<OutputInfo>, f2: Seq<OutputInfo>, on: Seq<bool>, i: int)
    requires
        0 <= i < f1.len(),
        forall|j: int| 0 <= j <= i ==> (#[trigger] f1[j]).crtc == f2[j].crtc,
        first_free(p, f1, on, i),
    ensures
        first_free(p, f2, on, i),
{
    assert forall|cid: u32| free_for(p, f1, on, i, cid) == free_for(p, f2, on, i, cid) by {
        if free_for(p, f1, on, i, cid) {
            assert forall|j: int|
                0 <= j < i && on[j] && p[j].crtc == NO_CRTC implies (#[trigger] f2[j]).crtc != cid by {
                assert(f1[j].crtc == f2[j].crtc);
            }
        }
        if free_for(p, f2, on, i, cid) {
            assert forall|j: int|
                0 <= j < i && on[j] && p[j].crtc == NO_CRTC implies (#[trigger] f1[j]).crtc != cid by {
                assert(f1[j].crtc == f2[j].crtc);
            }
        }
    }
    assert(f1[i].crtc == f2[i].crtc);
    let m = choose|m: int|
        0 <= m < p[i].crtcs@.len() && p[i].crtcs@[m] == f1[i].crtc && free_for(
            p,
            f1,
            on,
            i,
            f1[i].crtc,
        ) && forall|m2: int| 0 <= m2 < m ==> !free_for(p, f1, on, i, #[trigger] p[i].crtcs@[m2]);
    assert forall|m2: int| 0 <= m2 < m implies !free_for(p, f2, on, i, #[trigger] p[i].crtcs@[m2]) by {
        assert(!free_for(p, f1, on, i, p[i].crtcs@[m2]));
    }
}

/// During pass two, at output `i`: a controller is idle exactly when it is
/// free for `i`.
proof fn lemma_idle_iff_free(
    modes: Seq<ModeInfo>,
    p: Seq<OutputInfo>,
    cur: Seq<OutputInfo>,
    crtcs: Seq<CrtcInfo>,
    on: Seq<bool>,
    i: int,
    a: int,
)
    requires
        consistent(modes, cur, crtcs),
        0 <= i < cur.len(),
        cur.len() == p.len(),
        on.len() == p.len(),
        0 <= a < crtcs.len(),
        crtcs[a].id != NO_CRTC,
        forall|j: int| 0 <= j < i ==> bound_after(p, cur, on, j),
        forall|j: int| i <= j < cur.len() ==> #[trigger] cur[j] == p[j],
    ensures
        (crtcs[a].outputs@.len() == 0) <==> free_for(p, cur, on, i, crtcs[a].id),
{
    let cid = crtcs[a].id;
    if crtcs[a].outputs@.len() != 0 {
        assert(points_back(cur, crtcs, a, 0));
        let x = choose|x: int|
            0 <= x < cur.len() && cur[x].id == crtcs[a].outputs@[0] && cur[x].crtc == crtcs[a].id;
        if x >= i {
            assert(cur[x] == p[x]);
            assert(p[x].crtc == cid);
        } else {
            assert(bound_after(p, cur, on, x));
            if on[x] && p[x].crtc == NO_CRTC {
                assert(cur[x].crtc == cid);
            } else {
                assert(p[x].crtc == cid);
            }
        }
    }
    if !free_for(p, cur, on, i, cid) {
        let k: int;
        if exists|k: int| 0 <= k < p.len() && (#[trigger] p[k]).crtc == cid {
            k = choose|k: int| 0 <= k < p.len() && (#[trigger] p[k]).crtc == cid;
            if k >= i {
                assert(cur[k] == p[k]);
            } else {
                assert(bound_after(p, cur, on, k));
            }
        } else {
            k = choose|j: int|
                0 <= j < i && on[j] && p[j].crtc == NO_CRTC && (#[trigger] cur[j]).crtc == cid;
        }
        assert(cur[k].crtc == cid);
        assert(cur[k].crtc != NO_CRTC);
        let b = choose|b: int| bound(cur, crtcs, k, b);
        assert(crtcs[b].id == crtcs[a].id);
        assert(b == a);
        assert(crtcs[a].outputs@.contains(cur[k].id));
    }
}

proof fn lemma_bind_consistent(
    modes: Seq<ModeInfo>,
    cur: Seq<OutputInfo>,
    crtcs: Seq<CrtcInfo>,
    cur2: Seq<OutputInfo>,
    crtcs2: Seq<CrtcInfo>,
    i: int,
    a: int,
)
    requires
        consistent(modes, cur, crtcs),
        0 <= i < cur.len(),
        0 <= a < crtcs.len(),
        cur2.len() == cur.len(),
        crtcs2.len() == crtcs.len(),
        crtcs2[a].mode != NO_MODE,
        crtcs2[a].id == crtcs[a].id,
        forall|b: int| 0 <= b < crtcs.len() && b != a ==> #[trigger] crtcs2[b] == crtcs[b],
        forall|j: int| 0 <= j < cur.len() && j != i ==> #[trigger] cur2[j] == cur[j],
        cur2[i] == (OutputInfo { crtc: crtcs[a].id, ..cur[i] }),
        cur[i].crtc == crtcs[a].id ==> crtcs2[a].outputs@ == crtcs[a].outputs@,
        cur[i].crtc != crtcs[a].id ==> cur[i].crtc == NO_CRTC && crtcs2[a].outputs@ == crtcs[a].outputs@.push(cur[i].id),
    ensures
        consistent(modes, cur2, crtcs2),
{
    let id = cur[i].id;
    let cid = crtcs[a].id;
    let newly = cur[i].crtc != cid;
    if newly {
        assert(!crtcs[a].outputs@.contains(id)) by {
            if crtcs[a].outputs@.contains(id) {
                let j = choose|j: int| 0 <= j < crtcs[a].outputs@.len() && crtcs[a].outputs@[j] == id;
                assert(points_back(cur, crtcs, a, j));
                let x = choose|x: int|
                    0 <= x < cur.len() && cur[x].id == crtcs[a].outputs@[j] && cur[x].crtc == crtcs[a].id;
                assert(x == i);
            }
        }
    }
    assert(crtc_ids_valid(crtcs2)) by {
        assert forall|b: int, d: int|
            0 <= b < crtcs2.len() && 0 <= d < crtcs2.len() && b != d implies (#[trigger] crtcs2[b]).id
                != (#[trigger] crtcs2[d]).id by {
            assert(crtcs[b].id != crtcs[d].id);
        }
        assert forall|b: int| 0 <= b < crtcs2.len() implies (#[trigger] crtcs2[b]).id != NO_CRTC by {
            assert(crtcs[b].id != NO_CRTC);
        }
    }
    assert(output_ids_valid(cur2)) by {
        assert forall|x: int, y: int|
            0 <= x < cur2.len() && 0 <= y < cur2.len() && x != y implies (#[trigger] cur2[x]).id != (
            #[trigger] cur2[y]).id by {
            assert(cur[x].id != cur[y].id);
        }
    }
    assert forall|b: int| 0 <= b < crtcs2.len() implies crtc_well_formed(#[trigger] crtcs2[b]) by {
        assert(crtc_well_formed(crtcs[b]));
        if b == a {
            if newly {
                let l = crtcs2[a].outputs@;
                assert forall|j1: int, j2: int|
                    0 <= j1 < l.len() && 0 <= j2 < l.len() && j1 != j2 implies (#[trigger] l[j1]) != (
                    #[trigger] l[j2]) by {
                    if j1 == l.len() - 1 {
                        assert(crtcs[a].outputs@.contains(l[j2]));
                    } else if j2 == l.len() - 1 {
                        assert(crtcs[a].outputs@.contains(l[j1]));
                    } else {
                        assert(crtcs[a].outputs@[j1] != crtcs[a].outputs@[j2]);
                    }
                }
            } else {
                assert(crtcs[a].outputs@.contains(id));
            }
        }
    }
    assert forall|x: int|
        0 <= x < cur2.len() && (#[trigger] cur2[x]).crtc != NO_CRTC implies exists|b: int|
        bound(cur2, crtcs2, x, b) by {
        if x == i {
            if newly {
                assert(crtcs2[a].outputs@[crtcs2[a].outputs@.len() - 1] == id);
            } else {
                let b = choose|b: int| bound(cur, crtcs, x, b);
                assert(crtcs[b].id == crtcs[a].id);
                assert(b == a);
            }
            assert(bound(cur2, crtcs2, x, a));
        } else {
            let b = choose|b: int| bound(cur, crtcs, x, b);
            if b == a && newly {
                let j = choose|j: int| 0 <= j < crtcs[a].outputs@.len() && crtcs[a].outputs@[j] == cur[x].id;
                assert(crtcs2[a].outputs@[j] == cur[x].id);
            }
            assert(bound(cur2, crtcs2, x, b));
        }
    }
    assert forall|b: int, j: int|
        0 <= b < crtcs2.len() && 0 <= j < crtcs2[b].outputs@.len() implies #[trigger] points_back(
        cur2,
        crtcs2,
        b,
        j,
    ) by {
        if b == a && newly && j == crtcs2[a].outputs@.len() - 1 {
            assert(cur2[i].id == crtcs2[b].outputs@[j]);
        } else {
            assert(crtcs2[b].outputs@[j] == crtcs[b].outputs@[j]);
            assert(points_back(cur, crtcs, b, j));
            let x = choose|x: int|
                0 <= x < cur.len() && cur[x].id == crtcs[b].outputs@[j] && cur[x].crtc == crtcs[b].id;
            if x == i {
                assert(cur2[i].crtc == crtcs[a].id);
                if b != a {
                    assert(cur[i].crtc == crtcs[b].id);
                    assert(cur[i].crtc != NO_CRTC);
                    assert(crtcs[b].id != crtcs[a].id);
                }
            }
            assert(cur2[x].id == crtcs2[b].outputs@[j] && cur2[x].crtc == crtcs2[b].id);
        }
    }
    assert forall|x: int, m: int|
        0 <= x < cur2.len() && 0 <= m < cur2[x].crtcs@.len() implies has_crtc(
        crtcs2,
        #[trigger] cur2[x].crtcs@[m],
    ) by {
        assert(has_crtc(crtcs, cur[x].crtcs@[m]));
        let b = choose|b: int| 0 <= b < crtcs.len() && (#[trigger] crtcs[b]).id == cur[x].crtcs@[m];
        assert(crtcs2[b].id == crtcs[b].id);
    }
}

/// Pass two: binds each output marked in `on` to a controller (its own, or
/// else the first idle one it can use) and sets that controller's mode. An
/// output that finds no controller fails first; one that finds a controller
/// but has no usable mode fails next.
#[verifier::rlimit(50)]
fn bind_outputs(
    outputs: &mut Vec<OutputInfo>,
    crtcs: &mut Vec<CrtcInfo>,
    on: &Vec<bool>,
    resolution: Option<Resolution>,
    modes: &Vec<ModeInfo>,
) -> (r: Result<(), RandrError>)
    requires
        consistent(modes@, old(outputs)@, old(crtcs)@),
        on@.len() == old(outputs)@.len(),
        forall|i: int|
            0 <= i < old(outputs)@.len() && on@[i] ==> all_modes_known(
                (#[trigger] old(outputs)@[i]).modes@,
                modes@,
            ),
    ensures
        r is Ok ==> forall|i: int|
            0 <= i < old(outputs)@.len() && on@[i] ==> best_mode(
                #[trigger] old(outputs)@[i],
                modes@,
                resolution,
            ) is Some,
        r is Ok ==> final(outputs)@.len() == old(outputs)@.len() && final(crtcs)@.len() == old(
            crtcs,
        )@.len() && consistent(modes@, final(outputs)@, final(crtcs)@) && (forall|i: int|
            0 <= i < old(outputs)@.len() ==> bound_after(old(outputs)@, final(outputs)@, on@, i))
            && (forall|a: int|
            0 <= a < old(crtcs)@.len() ==> #[trigger] configured_crtc(
                old(crtcs)@[a],
                final(crtcs)@[a],
                old(outputs)@,
                final(outputs)@,
                on@,
                modes@,
                resolution,
                old(outputs)@.len() as int,
            )),
        r == Err::<(), RandrError>(RandrError::NoUsableMode) ==> exists|i: int|
            0 <= i < old(outputs)@.len() && on@[i] && best_mode(
                #[trigger] old(outputs)@[i],
                modes@,
                resolution,
            ) is None && final(outputs)@.len() == old(outputs)@.len() && forall|j: int|
                0 <= j < i ==> bound_after(old(outputs)@, final(outputs)@, on@, j),
        r == Err::<(), RandrError>(RandrError::NoFreeCrtc) ==> exists|i: int|
            0 <= i < old(outputs)@.len() && on@[i] && (#[trigger] old(outputs)@[i]).crtc == NO_CRTC
                && final(outputs)@.len() == old(outputs)@.len() && (forall|j: int|
                0 <= j < i ==> bound_after(old(outputs)@, final(outputs)@, on@, j)) && forall|m: int|
                0 <= m < old(outputs)@[i].crtcs@.len() ==> !free_for(
                    old(outputs)@,
                    final(outputs)@,
                    on@,
                    i,
                    #[trigger] old(outputs)@[i].crtcs@[m],
                ),
        r is Err ==> r == Err::<(), RandrError>(RandrError::NoUsableMode) || r == Err::<
            (),
            RandrError,
        >(RandrError::NoFreeCrtc),
{
    let ghost p = outputs@;
    let ghost c0 = crtcs@;
    let n = outputs.len();
    let mut i: usize = 0;
    while i < n
        invariant
            p == old(outputs)@,
            c0 == old(crtcs)@,
            n == p.len(),
            on@.len() == p.len(),
            outputs@.len() == p.len(),
            crtcs@.len() == c0.len(),
            i <= n,
            consistent(modes@, outputs@, crtcs@),
            forall|j: int| 0 <= j < p.len() && on@[j] ==> all_modes_known((#[trigger] p[j]).modes@, modes@),
            forall|j: int| 0 <= j < i ==> bound_after(p, outputs@, on@, j),
            forall|j: int| i <= j < n ==> #[trigger] outputs@[j] == p[j],
            forall|j: int| 0 <= j < i && on@[j] ==> best_mode(#[trigger] p[j], modes@, resolution) is Some,
            forall|a: int|
                0 <= a < c0.len() ==> #[trigger] configured_crtc(
                    c0[a],
                    crtcs@[a],
                    p,
                    outputs@,
                    on@,
                    modes@,
                    resolution,
                    i as int,
                ),
        decreases n - i,
    {
        let ghost cur = outputs@;
        let ghost crt = crtcs@;
        assert(cur[i as int] == p[i as int]);
        if on[i] {
            let chosen = choose_best_mode(&outputs[i], modes, resolution);
            let a: usize;
            if outputs[i].crtc != NO_CRTC {
                let ghost b = choose|b: int| bound(cur, crt, i as int, b);
                a = match find_crtc(crtcs, outputs[i].crtc) {
                    Some(a) => a,
                    None => {
                        assert(crt[b].id == cur[i as int].crtc);
                        return Err(RandrError::NoFreeCrtc);
                    },
                };
                assert(crt[b].id == crt[a as int].id);
            } else {
                let cands = &outputs[i].crtcs;
                let mut m: usize = 0;
                let mut found: Option<usize> = None;
                while m < cands.len()
                    invariant_except_break
                        found is None,
                    invariant
                        cands == &outputs@[i as int].crtcs,
                        outputs@ == cur,
                        crtcs@ == crt,
                        m <= cands.len(),
                        forall|m2: int| 0 <= m2 < m ==> !free_for(p, cur, on@, i as int, #[trigger] cands@[m2]),
                        consistent(modes@, cur, crt),
                        i < n,
                        n == p.len(),
                        cur.len() == p.len(),
                        on@.len() == p.len(),
                        forall|j: int| 0 <= j < i ==> bound_after(p, cur, on@, j),
                        forall|j: int| i <= j < n ==> #[trigger] cur[j] == p[j],
                    ensures
                        found matches Some(b) ==> b < crt.len() && m < cands@.len() && cands@[m as int]
                            == crt[b as int].id && crt[b as int].outputs@.len() == 0,
                        found is None ==> m == cands.len(),
                    decreases cands.len() - m,
                {
                    assert(has_crtc(crt, cands@[m as int]));
                    let b = match find_crtc(crtcs, cands[m]) {
                        Some(b) => b,
                        None => {
                            return Err(RandrError::NoFreeCrtc);
                        },
                    };
                    proof {
                        lemma_idle_iff_free(modes@, p, cur, crt, on@, i as int, b as int);
                    }
                    if crtcs[b].outputs.len() == 0 {
                        found = Some(b);
                        break;
                    }
                    m = m + 1;
                }
                a = match found {
                    Some(a) => a,
                    None => {
                        assert(p[i as int].crtc == NO_CRTC);
                        assert forall|m2: int| 0 <= m2 < p[i as int].crtcs@.len() implies !free_for(
                            p,
                            outputs@,
                            on@,
                            i as int,
                            #[trigger] p[i as int].crtcs@[m2],
                        ) by {
                            assert(cands@[m2] == p[i as int].crtcs@[m2]);
                        }
                        return Err(RandrError::NoFreeCrtc);
                    },
                };
                proof {
                    lemma_idle_iff_free(modes@, p, cur, crt, on@, i as int, a as int);
                }
                let id = outputs[i].id;
                if chosen.is_none() {
                    return Err(RandrError::NoUsableMode);
                }
                crtcs[a].outputs.push(id);
                outputs[i].crtc = crtcs[a].id;
                proof {
                    let fin = outputs@;
                    let cid = crt[a as int].id;
                    assert forall|j: int| 0 <= j < i implies (#[trigger] cur[j]).crtc == fin[j].crtc by {}
                    lemma_free_for_prefix(p, cur, fin, on@, i as int, cid);
                    assert forall|m2: int| 0 <= m2 < m implies !free_for(p, fin, on@, i as int, #[trigger] p[i as int].crtcs@[m2]) by {
                        lemma_free_for_prefix(p, cur, fin, on@, i as int, p[i as int].crtcs@[m2]);
                        assert(cands@[m2] == p[i as int].crtcs@[m2]);
                    }
                    assert(p[i as int].crtcs@[m as int] == fin[i as int].crtc);
                    assert(first_free(p, fin, on@, i as int));
                }
            }
            let mode = match chosen {
                Some(m) => m,
                None => {
                    return Err(RandrError::NoUsableMode);
                },
            };
            assert(mode != NO_MODE) by {
                let k = best_mode_index(p[i as int], modes@, resolution)->0;
                crate::randr::lemma_best_mode_index(p[i as int], modes@, resolution);
                assert(has_mode(modes@, p[i as int].modes@[k]));
                let q = choose|q: int| 0 <= q < modes@.len() && (#[trigger] modes@[q]).id == p[i as int].modes@[k];
            }
            crtcs[a].x = 0;
            crtcs[a].y = 0;
            crtcs[a].rotation = ROTATE_0;
            crtcs[a].mode = mode;
            proof {
                lemma_bind_consistent(modes@, cur, crt, outputs@, crtcs@, i as int, a as int);
            }
        }
        proof {
            assert forall|j: int| 0 <= j < i + 1 implies bound_after(p, outputs@, on@, j) by {
                if j < i {
                    assert(bound_after(p, cur, on@, j));
                    if on@[j] && p[j].crtc == NO_CRTC {
                        lemma_first_free_stable(p, cur, outputs@, on@, j);
                    }
                }
            }
            assert forall|a: int|
                0 <= a < c0.len() implies #[trigger] configured_crtc(
                c0[a],
                crtcs@[a],
                p,
                outputs@,
                on@,
                modes@,
                resolution,
                i + 1,
            ) by {
                assert(configured_crtc(c0[a], crt[a], p, cur, on@, modes@, resolution, i as int));
                lemma_last_on_prefix(cur, outputs@, on@, c0[a].id, i as int);
                lemma_newly_bound_prefix(p, cur, outputs@, on@, c0[a].id, i as int);
                assert(crtc_ids_valid(crt));
                assert(crt[a].id == c0[a].id);
            }
        }
        i = i + 1;
    }
    Ok(())
}

/// Some output of the screen at a position in `idx` has name `name`.
pub open spec fn named_in(screen: Screen, idx: Seq<usize>, name: Seq<char>) -> bool {
    exists|k: int| 0 <= k < idx.len() && (#[trigger] screen.outputs@[idx[k] as int]).name@ == name
}

/// The plan's positions are positions of the screen's outputs.
pub open spec fn plan_fits(screen: Screen, plan: SwitchPlan) -> bool {
    &&& forall|k: int|
        0 <= k < plan.outputs_to_disable@.len() ==> (#[trigger] plan.outputs_to_disable@[k])
            < screen.outputs@.len()
    &&& forall|k: int|
        0 <= k < plan.outputs_to_enable@.len() ==> (#[trigger] plan.outputs_to_enable@[k])
            < screen.outputs@.len()
}

/// For each protocol output, whether the plan turns it off.
pub open spec fn off_flags(screen: Screen, plan: SwitchPlan, outputs: Seq<OutputInfo>) -> Seq<bool> {
    Seq::new(outputs.len(), |i: int| named_in(screen, plan.outputs_to_disable@, outputs[i].name@))
}

/// For each protocol output, whether the plan turns it on.
pub open spec fn on_flags(screen: Screen, plan: SwitchPlan, outputs: Seq<OutputInfo>) -> Seq<bool> {
    Seq::new(outputs.len(), |i: int| named_in(screen, plan.outputs_to_enable@, outputs[i].name@))
}

/// The protocol outputs after pass one.
pub open spec fn after_release(outputs: Seq<OutputInfo>, off: Seq<bool>) -> Seq<OutputInfo> {
    Seq::new(outputs.len(), |i: int| released(outputs[i], off[i]))
}

/// Controller `c` still shows some output after pass one.
pub open spec fn keeps_an_output(c: CrtcInfo, outputs: Seq<OutputInfo>, off: Seq<bool>) -> bool {
    exists|oid: u32| #[trigger] c.outputs@.contains(oid) && !off[output_index(outputs, oid)]
}

fn name_listed(screen: &Screen, idx: &Vec<usize>, name: &String) -> (r: bool)
    requires
        forall|k: int| 0 <= k < idx@.len() ==> (#[trigger] idx@[k]) < screen.outputs@.len(),
    ensures
        r == named_in(*screen, idx@, name@),
{
    let mut k: usize = 0;
    while k < idx.len()
        invariant
            k <= idx.len(),
            forall|j: int| 0 <= j < idx@.len() ==> (#[trigger] idx@[j]) < screen.outputs@.len(),
            forall|j: int| 0 <= j < k ==> (#[trigger] screen.outputs@[idx@[j] as int]).name@ != name@,
        decreases idx.len() - k,
    {
        if screen.outputs[idx[k]].name == *name {
            return true;
        }
        k = k + 1;
    }
    false
}

/// Carries out a switch plan on the controllers: pass one unbinds the
/// outputs to turn off, and idles controllers left without outputs; pass
/// two binds each output to turn on to its controller, or to the first idle
/// controller it can use, and gives that controller the chosen mode,
/// unrotated at the origin. Outputs are matched to the plan by name.
/// Afterwards a controller is idle exactly when it shows no output, and
/// outputs and controllers point at each other. When an output to turn on
/// finds no idle controller, or has no usable mode, the run stops there
/// with that error; the outputs before it were bound as described.
#[verifier::rlimit(50)]
pub fn update_crtcs(
    screen: &Screen,
    switch_plan: &SwitchPlan,
    resolution: Option<Resolution>,
    modes: &Vec<ModeInfo>,
    outputs: &mut Vec<OutputInfo>,
    crtcs: &mut Vec<CrtcInfo>,
) -> (r: Result<(), RandrError>)
    requires
        plan_fits(*screen, *switch_plan),
    ensures
        !consistent(modes@, old(outputs)@, old(crtcs)@) <==> r == Err::<(), RandrError>(
            RandrError::Inconsistent,
        ),
        consistent(modes@, old(outputs)@, old(crtcs)@) && (exists|i: int|
            0 <= i < old(outputs)@.len() && on_flags(*screen, *switch_plan, old(outputs)@)[i]
                && !all_modes_known((#[trigger] old(outputs)@[i]).modes@, modes@)) <==> r == Err::<
            (),
            RandrError,
        >(RandrError::UnknownMode),
        consistent(modes@, old(outputs)@, old(crtcs)@) && (forall|i: int|
            0 <= i < old(outputs)@.len() && on_flags(*screen, *switch_plan, old(outputs)@)[i]
                ==> all_modes_known((#[trigger] old(outputs)@[i]).modes@, modes@)) ==> r is Ok || r
            == Err::<(), RandrError>(RandrError::NoUsableMode) || r == Err::<(), RandrError>(
            RandrError::NoFreeCrtc),
        ({
            let off = off_flags(*screen, *switch_plan, old(outputs)@);
            let on = on_flags(*screen, *switch_plan, old(outputs)@);
            let p = after_release(old(outputs)@, off);
            &&& r == Err::<(), RandrError>(RandrError::NoUsableMode) ==> exists|i: int|
                0 <= i < p.len() && on[i] && best_mode(#[trigger] p[i], modes@, resolution) is None
                    && final(outputs)@.len() == p.len() && forall|j: int|
                    0 <= j < i ==> bound_after(p, final(outputs)@, on, j)
            &&& r == Err::<(), RandrError>(RandrError::NoFreeCrtc) ==> exists|i: int|
                0 <= i < p.len() && on[i] && (#[trigger] p[i]).crtc == NO_CRTC
                    && final(outputs)@.len() == p.len() && (forall|j: int|
                    0 <= j < i ==> bound_after(p, final(outputs)@, on, j)) && forall|m: int|
                    0 <= m < p[i].crtcs@.len() ==> !free_for(
                        p,
                        final(outputs)@,
                        on,
                        i,
                        #[trigger] p[i].crtcs@[m],
                    )
            &&& r is Ok ==> {
                &&& final(outputs)@.len() == old(outputs)@.len()
                &&& final(crtcs)@.len() == old(crtcs)@.len()
                &&& forall|i: int|
                    0 <= i < p.len() && on[i] ==> best_mode(#[trigger] p[i], modes@, resolution) is Some
                &&& forall|a: int|
                    0 <= a < old(crtcs)@.len() ==> (#[trigger] final(crtcs)@[a]).outputs@ == old(
                        crtcs,
                    )@[a].outputs@.filter(still_shown(old(outputs)@, off)) + newly_bound_ids(
                        p,
                        final(outputs)@,
                        on,
                        old(crtcs)@[a].id,
                        p.len() as int,
                    )
                &&& consistent(modes@, final(outputs)@, final(crtcs)@)
                &&& forall|i: int| 0 <= i < p.len() ==> bound_after(p, final(outputs)@, on, i)
                &&& forall|a: int|
                    0 <= a < old(crtcs)@.len() ==> (#[trigger] final(crtcs)@[a]).id == old(
                        crtcs,
                    )@[a].id && match last_on(final(outputs)@, on, old(crtcs)@[a].id, p.len() as int) {
                        Some(j) => final(crtcs)@[a].x == 0 && final(crtcs)@[a].y == 0
                            && final(crtcs)@[a].rotation == ROTATE_0 && best_mode(
                            p[j],
                            modes@,
                            resolution,
                        ) == Some(final(crtcs)@[a].mode),
                        None => final(crtcs)@[a].x == old(crtcs)@[a].x && final(crtcs)@[a].y == old(
                            crtcs,
                        )@[a].y && final(crtcs)@[a].rotation == old(crtcs)@[a].rotation
                            && final(crtcs)@[a].mode == (if keeps_an_output(
                            old(crtcs)@[a],
                            old(outputs)@,
                            off,
                        ) {
                            old(crtcs)@[a].mode
                        } else {
                            NO_MODE
                        }),
                    }
            }
        }),
{
    if !is_consistent(modes, outputs, crtcs) {
        return Err(RandrError::Inconsistent);
    }
    let ghost out0 = outputs@;
    let ghost crt0 = crtcs@;
    let mut off: Vec<bool> = Vec::new();
    let mut on: Vec<bool> = Vec::new();
    let mut i: usize = 0;
    while i < outputs.len()
        invariant
            outputs@ == out0,
            out0 == old(outputs)@,
            crt0 == old(crtcs)@,
            crtcs@ == crt0,
            plan_fits(*screen, *switch_plan),
            i <= outputs.len(),
            off@.len() == i,
            on@.len() == i,
            consistent(modes@, out0, crt0),
            forall|j: int| 0 <= j < i ==> off@[j] == off_flags(*screen, *switch_plan, out0)[j],
            forall|j: int| 0 <= j < i ==> on@[j] == on_flags(*screen, *switch_plan, out0)[j],
            forall|j: int| 0 <= j < i && on@[j] ==> all_modes_known((#[trigger] out0[j]).modes@, modes@),
        decreases outputs.len() - i,
    {
        let d = name_listed(screen, &switch_plan.outputs_to_disable, &outputs[i].name);
        let e = name_listed(screen, &switch_plan.outputs_to_enable, &outputs[i].name);
        if e && !crate::randr::modes_known(&outputs[i].modes, modes) {
            return Err(RandrError::UnknownMode);
        }
        off.push(d);
        on.push(e);
        i = i + 1;
    }
    assert(off@ =~= off_flags(*screen, *switch_plan, out0));
    assert(on@ =~= on_flags(*screen, *switch_plan, out0));
    release_outputs(outputs, crtcs, &off, Ghost(modes@));
    let ghost p = outputs@;
    let ghost c1 = crtcs@;
    assert(p =~= after_release(out0, off@));
    assert forall|j: int| 0 <= j < p.len() && on@[j] implies all_modes_known((#[trigger] p[j]).modes@, modes@) by {
        assert(p[j] == released(out0[j], off@[j]));
    }
    let r = bind_outputs(outputs, crtcs, &on, resolution, modes);
    proof {
        if r is Ok {
            assert forall|a: int| 0 <= a < crt0.len() implies (#[trigger] crtcs@[a]).outputs@
                == crt0[a].outputs@.filter(still_shown(out0, off@)) + newly_bound_ids(
                p,
                outputs@,
                on@,
                crt0[a].id,
                p.len() as int,
            ) by {
                assert(released_crtc(crt0[a], c1[a], out0, off@));
                assert(configured_crtc(c1[a], crtcs@[a], p, outputs@, on@, modes@, resolution, p.len() as int));
            }
            assert forall|a: int| 0 <= a < crt0.len() implies (#[trigger] crtcs@[a]).id == crt0[a].id
                && match last_on(outputs@, on@, crt0[a].id, p.len() as int) {
                    Some(j) => crtcs@[a].x == 0 && crtcs@[a].y == 0 && crtcs@[a].rotation == ROTATE_0
                        && best_mode(p[j], modes@, resolution) == Some(crtcs@[a].mode),
                    None => crtcs@[a].x == crt0[a].x && crtcs@[a].y == crt0[a].y
                        && crtcs@[a].rotation == crt0[a].rotation && crtcs@[a].mode == (if keeps_an_output(
                        crt0[a],
                        out0,
                        off@,
                    ) {
                        crt0[a].mode
                    } else {
                        NO_MODE
                    }),
                } by {
                assert(released_crtc(crt0[a], c1[a], out0, off@));
                assert(configured_crtc(c1[a], crtcs@[a], p, outputs@, on@, modes@, resolution, p.len() as int));
                assert(c1[a].id == crt0[a].id);
                if c1[a].outputs@.len() == 0 {
                    if keeps_an_output(crt0[a], out0, off@) {
                        let oid = choose|oid: u32| #[trigger] crt0[a].outputs@.contains(oid) && !off@[output_index(out0, oid)];
                        assert(c1[a].outputs@.contains(oid));
                    }
                } else {
                    assert(c1[a].outputs@.contains(c1[a].outputs@[0]));
                }
            }
        }
    }
    r
}

/// In a consistent state a controller is idle exactly when it shows no
/// output, every output a controller lists points back at that controller,
/// and every bound output is listed by its controller.
pub proof fn lemma_bindings_agree(modes: Seq<ModeInfo>, outputs: Seq<OutputInfo>, crtcs: Seq<CrtcInfo>)
    requires
        consistent(modes, outputs, crtcs),
    ensures
        forall|a: int|
            0 <= a < crtcs.len() ==> ((#[trigger] crtcs[a]).mode == NO_MODE <==> crtcs[a].outputs@.len()
                == 0),
        forall|a: int, i: int|
            0 <= a < crtcs.len() && 0 <= i < outputs.len() && (#[trigger] crtcs[a]).outputs@.contains(
                (#[trigger] outputs[i]).id,
            ) ==> outputs[i].crtc == crtcs[a].id,
        forall|i: int|
            0 <= i < outputs.len() && (#[trigger] outputs[i]).crtc != NO_CRTC ==> exists|a: int|
                0 <= a < crtcs.len() && crtcs[a].id == outputs[i].crtc && crtcs[a].outputs@.contains(
                    outputs[i].id,
                ),
{
    assert forall|a: int| 0 <= a < crtcs.len() implies ((#[trigger] crtcs[a]).mode == NO_MODE
        <==> crtcs[a].outputs@.len() == 0) by {
        assert(crtc_well_formed(crtcs[a]));
    }
    assert forall|a: int, i: int|
        0 <= a < crtcs.len() && 0 <= i < outputs.len() && (#[trigger] crtcs[a]).outputs@.contains(
            (#[trigger] outputs[i]).id,
        ) implies outputs[i].crtc == crtcs[a].id by {
        let j = choose|j: int| 0 <= j < crtcs[a].outputs@.len() && crtcs[a].outputs@[j] == outputs[i].id;
        assert(points_back(outputs, crtcs, a, j));
        let x = choose|x: int|
            0 <= x < outputs.len() && outputs[x].id == crtcs[a].outputs@[j] && outputs[x].crtc
                == crtcs[a].id;
        assert(x == i);
    }
    assert forall|i: int| 0 <= i < outputs.len() && (#[trigger] outputs[i]).crtc != NO_CRTC implies exists|a: int|
        0 <= a < crtcs.len() && crtcs[a].id == outputs[i].crtc && crtcs[a].outputs@.contains(
            outputs[i].id,
        ) by {
        let a = choose|a: int| bound(outputs, crtcs, i, a);
    }
}

} // verus!
