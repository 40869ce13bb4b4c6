//! The commands that carry out a switch plan with the `xrandr` tool or
//! with `swaymsg`, as program names and argument lists.

use vstd::prelude::*;
use crate::allocator::plan_fits;
use crate::screen::{Resolution, Screen};
use crate::switch::SwitchPlan;
use crate::text::{chars_of, string_from_chars};

verus! {

/// A program to run and its arguments.
#[derive(Debug, PartialEq, Eq)]
pub struct Command {
    pub program: String,
    pub args: Vec<String>,
}

/// The arguments of a command, as character sequences.
pub open spec fn args_of(c: Command) -> Seq<Seq<char>> {
    c.args@.map_values(|a: String| a@)
}

/// The decimal digit `d`.
pub open spec fn digit(d: nat) -> char {
    seq!['0', '1', '2', '3', '4', '5', '6', '7', '8', '9'][d as int]
}

/// The decimal notation of `n`, without leading zeros.
pub open spec fn decimal(n: nat) -> Seq<char>
    decreases n,
{
    if n < 10 {
        seq![digit(n)]
    } else {
        decimal(n / 10).push(digit(n % 10))
    }
}

/// A resolution written `WIDTHxHEIGHT`.
pub open spec fn size_text(r: Resolution) -> Seq<char> {
    decimal(r.width as nat) + "x"@ + decimal(r.height as nat)
}

fn push_decimal(out: &mut Vec<char>, n: u32)
    ensures
        final(out)@ == old(out)@ + decimal(n as nat),
    decreases n,
{
    if n >= 10 {
        push_decimal(out, n / 10);
    }
    let d = n % 10;
    let c = if d == 0 { '0' } else if d == 1 { '1' } else if d == 2 { '2' } else if d == 3 { '3' }
    else if d == 4 { '4' } else if d == 5 { '5' } else if d == 6 { '6' } else if d == 7 { '7' }
    else if d == 8 { '8' } else { '9' };
    out.push(c);
    assert(c == digit(d as nat));
}

fn push_str(out: &mut Vec<char>, s: &str)
    ensures
        final(out)@ == old(out)@ + s@,
{
    let cs = chars_of(s);
    let ghost start = out@;
    let mut i: usize = 0;
    while i < cs.len()
        invariant
            i <= cs.len(),
            cs@ == s@,
            out@ == start + cs@.subrange(0, i as int),
        decreases cs.len() - i,
    {
        out.push(cs[i]);
        assert(cs@.subrange(0, i + 1) =~= cs@.subrange(0, i as int).push(cs@[i as int]));
        i = i + 1;
    }
    assert(cs@.subrange(0, cs@.len() as int) =~= cs@);
}

/// Writes a resolution as `WIDTHxHEIGHT`.
pub fn resolution_text(r: Resolution) -> (s: String)
    ensures
        s@ == size_text(r),
{
    let mut out: Vec<char> = Vec::new();
    push_decimal(&mut out, r.width);
    push_str(&mut out, "x");
    push_decimal(&mut out, r.height);
    assert(out@ =~= size_text(r));
    string_from_chars(out.as_slice())
}

fn text(s: &str) -> (r: String)
    ensures
        r@ == s@,
{
    let mut out: Vec<char> = Vec::new();
    push_str(&mut out, s);
    assert(out@ =~= s@);
    string_from_chars(out.as_slice())
}

/// The `xrandr` arguments that select the mode: the given resolution, or
/// the tool's own choice.
pub open spec fn xrandr_mode_args(resolution: Option<Resolution>) -> Seq<Seq<char>> {
    match resolution {
        Some(r) => seq!["--mode"@, size_text(r)],
        None => seq!["--auto"@],
    }
}

/// `xrandr` arguments that turn output `name` off.
pub open spec fn xrandr_off_args(name: Seq<char>) -> Seq<Seq<char>> {
    seq!["--output"@, name, "--off"@]
}

/// `xrandr` arguments that turn output `name` on, cloning `first` unless
/// it is the first output turned on.
pub open spec fn xrandr_on_args(name: Seq<char>, resolution: Option<Resolution>, first: Option<Seq<char>>) -> Seq<Seq<char>> {
    seq!["--output"@, name] + xrandr_mode_args(resolution) + match first {
        Some(f) => seq!["--same-as"@, f],
        None => Seq::empty(),
    }
}

fn push_mode_args(args: &mut Vec<String>, resolution: Option<Resolution>)
    ensures
        final(args)@.map_values(|a: String| a@) == old(args)@.map_values(|a: String| a@) + xrandr_mode_args(resolution),
{
    match resolution {
        Some(r) => {
            args.push(text("--mode"));
            args.push(resolution_text(r));
        },
        None => {
            args.push(text("--auto"));
        },
    }
    assert(args@.map_values(|a: String| a@) =~= old(args)@.map_values(|a: String| a@) + xrandr_mode_args(resolution));
}

/// The `xrandr` commands for a plan: first one per output to turn off, then
/// one per output to turn on, every output after the first cloning the first.
pub fn build_xrandr_commands(screen: &Screen, switch_plan: &SwitchPlan, resolution: Option<Resolution>) -> (r: Vec<Command>)
    requires
        plan_fits(*screen, *switch_plan),
    ensures
        r@.len() == switch_plan.outputs_to_disable@.len() + switch_plan.outputs_to_enable@.len(),
        forall|k: int| 0 <= k < r@.len() ==> (#[trigger] r@[k]).program@ == "xrandr"@,
        forall|k: int|
            0 <= k < switch_plan.outputs_to_disable@.len() ==> args_of(#[trigger] r@[k]) == xrandr_off_args(
                screen.outputs@[switch_plan.outputs_to_disable@[k] as int].name@,
            ),
        forall|k: int|
            0 <= k < switch_plan.outputs_to_enable@.len() ==> args_of(
                #[trigger] r@[switch_plan.outputs_to_disable@.len() + k],
            ) == xrandr_on_args(
                screen.outputs@[switch_plan.outputs_to_enable@[k] as int].name@,
                resolution,
                if k == 0 {
                    None
                } else {
                    Some(screen.outputs@[switch_plan.outputs_to_enable@[0] as int].name@)
                },
            ),
{
    let off = &switch_plan.outputs_to_disable;
    let on = &switch_plan.outputs_to_enable;
    let mut r: Vec<Command> = Vec::new();
    let mut k: usize = 0;
    while k < off.len()
        invariant
            plan_fits(*screen, *switch_plan),
            off == &switch_plan.outputs_to_disable,
            k <= off.len(),
            r@.len() == k,
            forall|j: int| 0 <= j < r@.len() ==> (#[trigger] r@[j]).program@ == "xrandr"@,
            forall|j: int|
                0 <= j < k ==> args_of(#[trigger] r@[j]) == xrandr_off_args(
                    screen.outputs@[off@[j] as int].name@,
                ),
        decreases off.len() - k,
    {
        let name = &screen.outputs[off[k]].name;
        let mut args: Vec<String> = Vec::new();
        args.push(text("--output"));
        args.push(name.clone());
        args.push(text("--off"));
        let c = Command { program: text("xrandr"), args };
        assert(args_of(c) =~= xrandr_off_args(name@));
        r.push(c);
        k = k + 1;
    }
    let mut k: usize = 0;
    while k < on.len()
        invariant
            plan_fits(*screen, *switch_plan),
            off == &switch_plan.outputs_to_disable,
            on == &switch_plan.outputs_to_enable,
            k <= on.len(),
            r@.len() == off.len() + k,
            forall|j: int| 0 <= j < r@.len() ==> (#[trigger] r@[j]).program@ == "xrandr"@,
            forall|j: int|
                0 <= j < off@.len() ==> args_of(#[trigger] r@[j]) == xrandr_off_args(
                    screen.outputs@[off@[j] as int].name@,
                ),
            forall|j: int|
                0 <= j < k ==> args_of(#[trigger] r@[off@.len() + j]) == xrandr_on_args(
                    screen.outputs@[on@[j] as int].name@,
                    resolution,
                    if j == 0 {
                        None
                    } else {
                        Some(screen.outputs@[on@[0] as int].name@)
                    },
                ),
        decreases on.len() - k,
    {
        let name = &screen.outputs[on[k]].name;
        let mut args: Vec<String> = Vec::new();
        args.push(text("--output"));
        args.push(name.clone());
        assert(args@.map_values(|a: String| a@) =~= seq!["--output"@, name@]);
        push_mode_args(&mut args, resolution);
        let ghost mid = args@.map_values(|a: String| a@);
        if k > 0 {
            args.push(text("--same-as"));
            args.push(screen.outputs[on[0]].name.clone());
            assert(args@.map_values(|a: String| a@) =~= mid + seq!["--same-as"@, screen.outputs@[on@[0] as int].name@]);
        } else {
            assert(args@.map_values(|a: String| a@) =~= mid + Seq::<Seq<char>>::empty());
        }
        let c = Command { program: text("xrandr"), args };
        assert(args_of(c) =~= xrandr_on_args(
            name@,
            resolution,
            if k == 0 {
                None
            } else {
                Some(screen.outputs@[on@[0] as int].name@)
            },
        ));
        r.push(c);
        k = k + 1;
    }
    r
}

/// The `swaymsg` message that turns output `name` off.
pub open spec fn sway_off_message(name: Seq<char>) -> Seq<char> {
    "output \""@ + name + "\" disable"@
}

/// The `swaymsg` message that turns output `name` on at the origin, in the
/// given resolution if there is one.
pub open spec fn sway_on_message(name: Seq<char>, resolution: Option<Resolution>) -> Seq<char> {
    "output \""@ + name + "\" enable position 0 0"@ + match resolution {
        Some(r) => " mode \""@ + size_text(r) + "\""@,
        None => Seq::empty(),
    }
}

fn sway_message(name: &String, enable: bool, resolution: Option<Resolution>) -> (r: String)
    ensures
        r@ == if enable {
            sway_on_message(name@, resolution)
        } else {
            sway_off_message(name@)
        },
{
    let mut out: Vec<char> = Vec::new();
    push_str(&mut out, "output \"");
    push_str(&mut out, name.as_str());
    if enable {
        push_str(&mut out, "\" enable position 0 0");
        match resolution {
            Some(r) => {
                push_str(&mut out, " mode \"");
                push_decimal(&mut out, r.width);
                push_str(&mut out, "x");
                push_decimal(&mut out, r.height);
                push_str(&mut out, "\"");
            },
            None => {},
        }
        assert(out@ =~= sway_on_message(name@, resolution));
    } else {
        push_str(&mut out, "\" disable");
        assert(out@ =~= sway_off_message(name@));
    }
    string_from_chars(out.as_slice())
}

/// The `swaymsg` commands for a plan: one per output to turn off, then one
/// per output to turn on.
pub fn build_sway_commands(screen: &Screen, switch_plan: &SwitchPlan, resolution: Option<Resolution>) -> (r: Vec<Command>)
    requires
        plan_fits(*screen, *switch_plan),
    ensures
        r@.len() == switch_plan.outputs_to_disable@.len() + switch_plan.outputs_to_enable@.len(),
        forall|k: int| 0 <= k < r@.len() ==> (#[trigger] r@[k]).program@ == "swaymsg"@,
        forall|k: int|
            0 <= k < switch_plan.outputs_to_disable@.len() ==> args_of(#[trigger] r@[k]) == seq![
                sway_off_message(screen.outputs@[switch_plan.outputs_to_disable@[k] as int].name@),
            ],
        forall|k: int|
            0 <= k < switch_plan.outputs_to_enable@.len() ==> args_of(
                #[trigger] r@[switch_plan.outputs_to_disable@.len() + k],
            ) == seq![
                sway_on_message(
                    screen.outputs@[switch_plan.outputs_to_enable@[k] as int].name@,
                    resolution,
                ),
            ],
{
    let off = &switch_plan.outputs_to_disable;
    let on = &switch_plan.outputs_to_enable;
    let mut r: Vec<Command> = Vec::new();
    let mut k: usize = 0;
    while k < off.len()
        invariant
            plan_fits(*screen, *switch_plan),
            off == &switch_plan.outputs_to_disable,
            k <= off.len(),
            r@.len() == k,
            forall|j: int| 0 <= j < r@.len() ==> (#[trigger] r@[j]).program@ == "swaymsg"@,
            forall|j: int|
                0 <= j < k ==> args_of(#[trigger] r@[j]) == seq![
                    sway_off_message(screen.outputs@[off@[j] as int].name@),
                ],
        decreases off.len() - k,
    {
        let mut args: Vec<String> = Vec::new();
        args.push(sway_message(&screen.outputs[off[k]].name, false, resolution));
        let c = Command { program: text("swaymsg"), args };
        assert(args_of(c) =~= seq![sway_off_message(screen.outputs@[off@[k as int] as int].name@)]);
        r.push(c);
        k = k + 1;
    }
    let mut k: usize = 0;
    while k < on.len()
        invariant
            plan_fits(*screen, *switch_plan),
            off == &switch_plan.outputs_to_disable,
            on == &switch_plan.outputs_to_enable,
            k <= on.len(),
            r@.len() == off.len() + k,
            forall|j: int| 0 <= j < r@.len() ==> (#[trigger] r@[j]).program@ == "swaymsg"@,
            forall|j: int|
                0 <= j < off@.len() ==> args_of(#[trigger] r@[j]) == seq![
                    sway_off_message(screen.outputs@[off@[j] as int].name@),
                ],
            forall|j: int|
                0 <= j < k ==> args_of(#[trigger] r@[off@.len() + j]) == seq![
                    sway_on_message(screen.outputs@[on@[j] as int].name@, resolution),
                ],
        decreases on.len() - k,
    {
        let mut args: Vec<String> = Vec::new();
        args.push(sway_message(&screen.outputs[on[k]].name, true, resolution));
        let c = Command { program: text("swaymsg"), args };
        assert(args_of(c) =~= seq![sway_on_message(screen.outputs@[on@[k as int] as int].name@, resolution)]);
        r.push(c);
        k = k + 1;
    }
    r
}

} // verus!
