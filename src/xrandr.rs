//! A quick reading of an `xrandr` listing: the outputs by name and
//! connection state only, without their modes.

use vstd::prelude::*;
use crate::screen::{is_known_name, is_known_output_name, location_of, Location, Mode, Output, Screen};
use crate::listing::{entry_of, lines_of, located, split_lines, Entry};
use crate::text::{
    chars_of, contains_chars, contains_seq, first_word, first_word_bounds, lemma_first_word_unique,
    string_from_chars,
};

verus! {

/// Why a listing could not be read.
#[derive(Debug, Clone, Copy, PartialEq, Eq, Structural)]
pub enum ParseError {
    /// An output name that follows no known connector convention.
    UnknownOutputName,
    /// A size or refresh rate that does not fit in 32 bits.
    NumberTooLarge,
}

/// The line describes an output.
pub open spec fn is_output_line(line: Seq<char>) -> bool {
    contains_seq(line, "connected"@)
}

/// An output line starts with a known output name.
pub open spec fn output_line_ok(line: Seq<char>) -> bool {
    is_output_line(line) ==> first_word(line).len() > 0 && is_known_name(first_word(line))
}

/// `o` is what the output line `line` describes: the output named by its
/// first word, connected unless the line says "disconnected", off, and with
/// no modes.
pub open spec fn describes(line: Seq<char>, o: Output) -> bool {
    &&& o.name@ == first_word(line)
    &&& o.connected == !contains_seq(line, "disconnected"@)
    &&& !o.enabled
    &&& o.modes@.len() == 0
    &&& o.location == location_of(first_word(line))
}

fn word_of(cs: &Vec<char>) -> (r: String)
    ensures
        r@ == first_word(cs@),
{
    let (st, e) = first_word_bounds(cs);
    proof {
        lemma_first_word_unique(cs@, st as int, e as int);
    }
    let mut w: Vec<char> = Vec::new();
    let mut k: usize = st;
    while k < e
        invariant
            st <= k <= e <= cs.len(),
            w@ == cs@.subrange(st as int, k as int),
        decreases e - k,
    {
        w.push(cs[k]);
        assert(cs@.subrange(st as int, k + 1) =~= cs@.subrange(st as int, k as int).push(cs@[k as int]));
        k = k + 1;
    }
    string_from_chars(w.as_slice())
}

/// Tells whether an output line names a known output; other lines are
/// always fine.
pub fn check_output_line(line: &str) -> (r: Result<(), ParseError>)
    ensures
        r is Ok <==> output_line_ok(line@),
        r is Err ==> r == Err::<(), ParseError>(ParseError::UnknownOutputName),
{
    let cs = chars_of(line);
    let pat = chars_of("connected");
    if !contains_chars(&cs, &pat) {
        return Ok(());
    }
    let name = word_of(&cs);
    if name.as_str().is_empty() || !is_known_output_name(name.as_str()) {
        return Err(ParseError::UnknownOutputName);
    }
    Ok(())
}

/// Reads one line of the listing: an output line gives the output it
/// describes; any other line gives none.
pub fn parse_output_line(line: &str) -> (r: Option<Output>)
    requires
        output_line_ok(line@),
    ensures
        r is Some <==> is_output_line(line@),
        r matches Some(o) ==> describes(line@, o),
{
    let cs = chars_of(line);
    let pat = chars_of("connected");
    if !contains_chars(&cs, &pat) {
        return None;
    }
    let name = word_of(&cs);
    let neg = chars_of("disconnected");
    let connected = !contains_chars(&cs, &neg);
    let location = Location::from_output_name(name.as_str());
    Some(Output { name, connected, enabled: false, modes: Vec::new(), location })
}

/// What an output line says, as name, connection, state and modes.
pub open spec fn line_entry(line: Seq<char>) -> Entry {
    (first_word(line), !contains_seq(line, "disconnected"@), false, Seq::empty())
}

/// The outputs described by the output lines among `lines`, in order.
pub open spec fn outputs_of_lines(lines: Seq<Seq<char>>) -> Seq<Entry> {
    lines.fold_left(
        Seq::<Entry>::empty(),
        |acc: Seq<Entry>, l: Seq<char>|
            if is_output_line(l) {
                acc.push(line_entry(l))
            } else {
                acc
            },
    )
}

proof fn lemma_outputs_of_lines_push(lines: Seq<Seq<char>>, l: Seq<char>)
    ensures
        outputs_of_lines(lines.push(l)) == if is_output_line(l) {
            outputs_of_lines(lines).push(line_entry(l))
        } else {
            outputs_of_lines(lines)
        },
{
    assert(lines.push(l).drop_last() =~= lines);
}

fn read_line(line: &Vec<char>, outputs: &mut Vec<Output>) -> (r: Result<(), ParseError>)
    requires
        forall|k: int| 0 <= k < old(outputs)@.len() ==> located(#[trigger] old(outputs)@[k]),
    ensures
        r is Ok ==> output_line_ok(line@) && final(outputs)@.map_values(|o: Output| entry_of(o)) == (
        if is_output_line(line@) {
            old(outputs)@.map_values(|o: Output| entry_of(o)).push(line_entry(line@))
        } else {
            old(outputs)@.map_values(|o: Output| entry_of(o))
        }) && forall|k: int| 0 <= k < final(outputs)@.len() ==> located(#[trigger] final(outputs)@[k]),
        r is Err ==> !output_line_ok(line@),
{
    let text = string_from_chars(line.as_slice());
    match check_output_line(text.as_str()) {
        Err(e) => {
            return Err(e);
        },
        Ok(()) => {},
    }
    let ghost before = outputs@;
    match parse_output_line(text.as_str()) {
        Some(o) => {
            assert(entry_of(o) == line_entry(line@)) by {
                assert(o.modes@ =~= Seq::<Mode>::empty());
            }
            outputs.push(o);
            assert(outputs@.map_values(|o: Output| entry_of(o)) =~= before.map_values(
                |o: Output| entry_of(o),
            ).push(line_entry(line@)));
        },
        None => {},
    }
    Ok(())
}

/// Reads the outputs from an `xrandr` listing: one per output line, in
/// order, as that line describes it. An output line without a known output
/// name is an error.
pub fn parse_output(xrandr_output: &str) -> (r: Result<Screen, ParseError>)
    ensures
        r is Ok <==> forall|k: int|
            0 <= k < lines_of(xrandr_output@).len() ==> output_line_ok(
                #[trigger] lines_of(xrandr_output@)[k],
            ),
        r matches Ok(screen) ==> screen.outputs@.map_values(|o: Output| entry_of(o))
            == outputs_of_lines(lines_of(xrandr_output@)) && forall|k: int|
            0 <= k < screen.outputs@.len() ==> located(#[trigger] screen.outputs@[k]),
{
    let cs = chars_of(xrandr_output);
    let ghost s = cs@;
    let ghost mut done: Seq<Seq<char>> = Seq::empty();
    let mut outputs: Vec<Output> = Vec::new();
    let mut line: Vec<char> = Vec::new();
    let mut start: usize = 0;
    let mut i: usize = 0;
    while i < cs.len()
        invariant
            s == cs@,
            s == xrandr_output@,
            start <= i <= cs.len(),
            line@ == s.subrange(start as int, i as int),
            lines_of(s) == done + split_lines(s, start as int, i as int),
            outputs@.map_values(|o: Output| entry_of(o)) == outputs_of_lines(done),
            forall|k: int| 0 <= k < outputs@.len() ==> located(#[trigger] outputs@[k]),
            forall|k: int| 0 <= k < done.len() ==> output_line_ok(#[trigger] done[k]),
        decreases cs.len() - i,
    {
        if cs[i] == '\n' {
            if line.len() > 0 && line[line.len() - 1] == '\r' {
                line.pop();
            }
            let ghost l = line@;
            assert(split_lines(s, start as int, i as int) == seq![l] + split_lines(s, i + 1, i + 1));
            assert(lines_of(s)[done.len() as int] == l);
            proof {
                lemma_outputs_of_lines_push(done, l);
            }
            match read_line(&line, &mut outputs) {
                Ok(()) => {},
                Err(e) => {
                    return Err(e);
                },
            }
            proof {
                assert(done + split_lines(s, start as int, i as int) =~= done.push(l) + split_lines(
                    s,
                    i + 1,
                    i + 1,
                ));
                done = done.push(l);
            }
            line = Vec::new();
            start = i + 1;
        } else {
            line.push(cs[i]);
            assert(s.subrange(start as int, i + 1) =~= s.subrange(start as int, i as int).push(
                s[i as int],
            ));
        }
        i = i + 1;
    }
    assert(split_lines(s, start as int, i as int) == seq![line@]);
    assert(lines_of(s) == done.push(line@)) by {
        assert(done + seq![line@] =~= done.push(line@));
    }
    assert(lines_of(s)[done.len() as int] == line@);
    proof {
        lemma_outputs_of_lines_push(done, line@);
    }
    match read_line(&line, &mut outputs) {
        Ok(()) => {},
        Err(e) => {
            return Err(e);
        },
    }
    assert forall|k: int| 0 <= k < lines_of(s).len() implies output_line_ok(
        #[trigger] lines_of(s)[k],
    ) by {
        if k < done.len() {
            assert(lines_of(s)[k] == done[k]);
        }
    }
    Ok(Screen { outputs })
}

} // verus!
