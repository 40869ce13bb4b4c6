//! Reading outputs, their state and their modes from the full listing that
//! the `xrandr` tool prints. Whitespace and digits are ASCII.
//!
//! An output line is `NAME STATUS[ primary][ WxH+X+Y] ...`, where STATUS is
//! `connected` or `disconnected`; the geometry, when present, means that the
//! output is on. A mode line is `  WxH` followed by one or more refresh
//! rates `  RR.rr` each followed by two marker characters (`*` for the
//! current mode, `+` for the preferred one, or spaces), up to the end of the
//! line. Other lines are ignored.

use vstd::prelude::*;
use crate::screen::{is_known_name, location_of, Location, Mode, Output, Resolution, Screen};
use crate::text::{chars_of, is_ascii_ws, string_from_chars};
use crate::xrandr::ParseError;

verus! {

pub open spec fn is_digit(c: char) -> bool {
    '0' <= c <= '9'
}

/// The end of the run of digits that starts at `i`.
pub open spec fn digits_end(s: Seq<char>, i: int) -> int
    decreases s.len() - i,
{
    if 0 <= i < s.len() && is_digit(s[i]) {
        digits_end(s, i + 1)
    } else {
        i
    }
}

/// The end of the run of whitespace that starts at `i`.
pub open spec fn spaces_end(s: Seq<char>, i: int) -> int
    decreases s.len() - i,
{
    if 0 <= i < s.len() && is_ascii_ws(s[i]) {
        spaces_end(s, i + 1)
    } else {
        i
    }
}

/// The end of the run of non-whitespace that starts at `i`.
pub open spec fn word_end(s: Seq<char>, i: int) -> int
    decreases s.len() - i,
{
    if 0 <= i < s.len() && !is_ascii_ws(s[i]) {
        word_end(s, i + 1)
    } else {
        i
    }
}

/// The number written by the digits `s[i..j]`.
pub open spec fn number(s: Seq<char>, i: int, j: int) -> int
    decreases j - i,
{
    if j <= i {
        0
    } else {
        number(s, i, j - 1) * 10 + (s[j - 1] as int - '0' as int)
    }
}

/// `p` occurs in `s` at position `i`.
pub open spec fn at(s: Seq<char>, i: int, p: Seq<char>) -> bool {
    0 <= i && i + p.len() <= s.len() && s.subrange(i, i + p.len()) == p
}

/// Whitespace at position `i`.
pub open spec fn space_at(s: Seq<char>, i: int) -> bool {
    0 <= i < s.len() && is_ascii_ws(s[i])
}

/// After a ` primary` marker at `p`, the position that follows it.
pub open spec fn primary_end(s: Seq<char>, p: int) -> Option<int> {
    if space_at(s, p) && at(s, p + 1, "primary"@) {
        Some(p + 8)
    } else {
        None
    }
}

/// After a ` WxH+X+Y` geometry at `p`, the position that follows it.
pub open spec fn geometry_end(s: Seq<char>, p: int) -> Option<int> {
    let a = p + 1;
    let b = digits_end(s, a);
    let c = digits_end(s, b + 1);
    let d = digits_end(s, c + 1);
    let e = digits_end(s, d + 1);
    if space_at(s, p) && b > a && at(s, b, "x"@) && c > b + 1 && at(s, c, "+"@) && d > c + 1 && at(
        s,
        d,
        "+"@,
    ) && e > d + 1 {
        Some(e)
    } else {
        None
    }
}

/// Whether the output is on, when the rest of an output line starts at `p`
/// (after the status word): the first way the line can continue, trying a
/// ` primary` marker before none and a geometry before none, decides.
pub open spec fn rest_of_output_line(s: Seq<char>, p: int) -> Option<bool> {
    let with_geometry = |q: int|
        match geometry_end(s, q) {
            Some(g) => space_at(s, g),
            None => false,
        };
    match primary_end(s, p) {
        Some(pp) if with_geometry(pp) => Some(true),
        Some(pp) if space_at(s, pp) => Some(false),
        _ => if with_geometry(p) {
            Some(true)
        } else if space_at(s, p) {
            Some(false)
        } else {
            None
        },
    }
}

/// What an output line says: its name, whether it is connected, and
/// whether it is on; none for a line that is not an output line.
pub open spec fn output_line(s: Seq<char>) -> Option<(Seq<char>, bool, bool)> {
    let n = word_end(s, 0);
    if n == 0 || !space_at(s, n) {
        None
    } else if at(s, n + 1, "connected"@) && rest_of_output_line(s, n + 10) is Some {
        Some((s.subrange(0, n), true, rest_of_output_line(s, n + 10)->0))
    } else if at(s, n + 1, "disconnected"@) && rest_of_output_line(s, n + 13) is Some {
        Some((s.subrange(0, n), false, rest_of_output_line(s, n + 13)->0))
    } else {
        None
    }
}

/// The refresh rates, in millihertz, of the rate list that starts at `i`
/// and runs to the end of the line.
pub open spec fn rates(s: Seq<char>, i: int) -> Option<Seq<int>>
    decreases s.len() - i,
{
    let j = spaces_end(s, i);
    let k = digits_end(s, j);
    let e = k + 5;
    if i < 0 || j <= i || k <= j || !(e <= s.len()) || s[k] != '.' || !is_digit(s[k + 1])
        || !is_digit(s[k + 2]) || !(s[k + 3] == ' ' || s[k + 3] == '*') || !(s[k + 4] == ' ' || s[k
        + 4] == '+') {
        None
    } else {
        let rate = number(s, j, k) * 1000 + number(s, k + 1, k + 3) * 10;
        if e == s.len() {
            Some(seq![rate])
        } else {
            match rates(s, e) {
                Some(r) => Some(seq![rate] + r),
                None => None,
            }
        }
    }
}

/// What a mode line says: width, height and refresh rates; none for a line
/// that is not a mode line.
pub open spec fn mode_line(s: Seq<char>) -> Option<(int, int, Seq<int>)> {
    let a = spaces_end(s, 0);
    let b = digits_end(s, a);
    let c = digits_end(s, b + 1);
    if a == 0 || b == a || !at(s, b, "x"@) || c == b + 1 {
        None
    } else {
        match rates(s, c) {
            Some(r) => Some((number(s, a, b), number(s, b + 1, c), r)),
            None => None,
        }
    }
}

/// The numbers of a mode line fit in 32 bits.
pub open spec fn mode_line_fits(s: Seq<char>) -> bool {
    mode_line(s) matches Some((w, h, r)) ==> w <= u32::MAX && h <= u32::MAX && forall|k: int|
        0 <= k < r.len() ==> #[trigger] r[k] <= u32::MAX
}

/// An output line names a known output.
pub open spec fn output_line_known(s: Seq<char>) -> bool {
    output_line(s) matches Some((name, _, _)) ==> is_known_name(name)
}

/// The modes that a mode line lists, one per refresh rate.
pub open spec fn modes_of_line(s: Seq<char>) -> Seq<Mode> {
    match mode_line(s) {
        Some((w, h, r)) => r.map_values(
            |rate: int|
                Mode {
                    resolution: Resolution { width: w as u32, height: h as u32 },
                    refresh_rate: rate as u32,
                },
        ),
        None => Seq::empty(),
    }
}

fn is_space(c: char) -> (r: bool)
    ensures
        r == is_ascii_ws(c),
{
    c == ' ' || c == '\t' || c == '\n' || c == '\x0C' || c == '\r'
}

fn digits_end_at(s: &Vec<char>, i: usize) -> (r: usize)
    requires
        i <= s.len(),
    ensures
        r == digits_end(s@, i as int),
        i <= r <= s.len(),
        forall|k: int| i <= k < r ==> is_digit(#[trigger] s@[k]),
{
    let mut j = i;
    while j < s.len() && '0' <= s[j] && s[j] <= '9'
        invariant
            i <= j <= s.len(),
            digits_end(s@, j as int) == digits_end(s@, i as int),
            forall|k: int| i <= k < j ==> is_digit(#[trigger] s@[k]),
        decreases s.len() - j,
    {
        j = j + 1;
    }
    j
}

fn spaces_end_at(s: &Vec<char>, i: usize) -> (r: usize)
    requires
        i <= s.len(),
    ensures
        r == spaces_end(s@, i as int),
        i <= r <= s.len(),
{
    let mut j = i;
    while j < s.len() && is_space(s[j])
        invariant
            i <= j <= s.len(),
            spaces_end(s@, j as int) == spaces_end(s@, i as int),
        decreases s.len() - j,
    {
        j = j + 1;
    }
    j
}

fn word_end_at(s: &Vec<char>, i: usize) -> (r: usize)
    requires
        i <= s.len(),
    ensures
        r == word_end(s@, i as int),
        i <= r <= s.len(),
{
    let mut j = i;
    while j < s.len() && !is_space(s[j])
        invariant
            i <= j <= s.len(),
            word_end(s@, j as int) == word_end(s@, i as int),
        decreases s.len() - j,
    {
        j = j + 1;
    }
    j
}

fn space_at_pos(s: &Vec<char>, i: usize) -> (r: bool)
    ensures
        r == space_at(s@, i as int),
{
    i < s.len() && is_space(s[i])
}

fn at_pos(s: &Vec<char>, i: usize, p: &str) -> (r: bool)
    ensures
        r == at(s@, i as int, p@),
{
    let pc = chars_of(p);
    if i > s.len() || pc.len() > s.len() - i {
        return false;
    }
    let mut k: usize = 0;
    while k < pc.len()
        invariant
            i + pc.len() <= s.len(),
            pc@ == p@,
            k <= pc.len(),
            forall|m: int| 0 <= m < k ==> s@[i + m] == pc@[m],
        decreases pc.len() - k,
    {
        if s[i + k] != pc[k] {
            assert(s@.subrange(i as int, i + pc@.len())[k as int] != pc@[k as int]);
            return false;
        }
        k = k + 1;
    }
    assert(s@.subrange(i as int, i + pc@.len()) =~= pc@);
    true
}

proof fn lemma_number_grows(s: Seq<char>, i: int, k: int, j: int)
    requires
        i <= k <= j,
        forall|m: int| i <= m < j ==> is_digit(#[trigger] s[m]),
    ensures
        0 <= number(s, i, k) <= number(s, i, j),
    decreases j - k,
{
    if k < j {
        lemma_number_grows(s, i, k, j - 1);
        assert(is_digit(s[j - 1]));
    } else {
        lemma_number_nonneg(s, i, k);
    }
}

proof fn lemma_number_nonneg(s: Seq<char>, i: int, j: int)
    requires
        forall|m: int| i <= m < j ==> is_digit(#[trigger] s[m]),
    ensures
        number(s, i, j) >= 0,
    decreases j - i,
{
    if j > i {
        lemma_number_nonneg(s, i, j - 1);
        assert(is_digit(s[j - 1]));
    }
}

/// The number written by the digits `s[i..j]`, if it fits in 32 bits.
fn number_at(s: &Vec<char>, i: usize, j: usize) -> (r: Option<u32>)
    requires
        i <= j <= s.len(),
        forall|m: int| i <= m < j ==> is_digit(#[trigger] s@[m]),
    ensures
        r matches Some(v) ==> v == number(s@, i as int, j as int),
        r is None ==> number(s@, i as int, j as int) > u32::MAX,
{
    let mut acc: u64 = 0;
    let mut k: usize = i;
    while k < j
        invariant
            i <= k <= j <= s.len(),
            forall|m: int| i <= m < j ==> is_digit(#[trigger] s@[m]),
            acc == number(s@, i as int, k as int),
            acc <= u32::MAX,
        decreases j - k,
    {
        assert(is_digit(s@[k as int]));
        let d = (s[k] as u32 - '0' as u32) as u64;
        acc = acc * 10 + d;
        if acc > u32::MAX as u64 {
            proof {
                lemma_number_grows(s@, i as int, k + 1, j as int);
            }
            return None;
        }
        k = k + 1;
    }
    Some(acc as u32)
}

/// The refresh rates of the list at `c`: none if the list is malformed;
/// `Err` if a rate does not fit in 32 bits.
fn rates_at(s: &Vec<char>, c: usize) -> (r: Option<Result<Vec<u32>, ()>>)
    requires
        c <= s.len(),
    ensures
        r is None <==> rates(s@, c as int) is None,
        r matches Some(Ok(v)) ==> rates(s@, c as int) matches Some(rs) && rs.len() == v@.len() && forall|k: int|
            0 <= k < rs.len() ==> rs[k] == #[trigger] v@[k] as int,
        r matches Some(Err(_)) ==> rates(s@, c as int) matches Some(rs) && exists|k: int|
            0 <= k < rs.len() && #[trigger] rs[k] > u32::MAX,
{
    let mut vals: Vec<u32> = Vec::new();
    let ghost mut acc: Seq<int> = Seq::empty();
    let mut overflow = false;
    let mut i = c;
    loop
        invariant
            c <= i <= s.len(),
            rates(s@, c as int) == (match rates(s@, i as int) {
                Some(r) => Some(acc + r),
                None => None::<Seq<int>>,
            }),
            overflow == exists|k: int| 0 <= k < acc.len() && #[trigger] acc[k] > u32::MAX,
            !overflow ==> vals@.len() == acc.len() && forall|k: int|
                0 <= k < acc.len() ==> acc[k] == #[trigger] vals@[k] as int,
        decreases s.len() - i,
    {
        let j = spaces_end_at(s, i);
        let k = digits_end_at(s, j);
        if j <= i || k <= j || s.len() < 5 || k > s.len() - 5 || s[k] != '.' || !('0' <= s[k + 1] && s[k + 1] <= '9')
            || !('0' <= s[k + 2] && s[k + 2] <= '9') || !(s[k + 3] == ' ' || s[k + 3] == '*')
            || !(s[k + 4] == ' ' || s[k + 4] == '+') {
            return None;
        }
        let e = k + 5;
        let ghost rate = number(s@, j as int, k as int) * 1000 + number(s@, k + 1, k + 3) * 10;
        proof {
            lemma_number_nonneg(s@, j as int, k as int);
        }
        let whole = number_at(s, j, k);
        let frac = (s[k + 1] as u32 - '0' as u32) * 10 + (s[k + 2] as u32 - '0' as u32);
        assert(frac == number(s@, k + 1, k + 3)) by {
            assert(number(s@, k + 1, k + 1) == 0);
            assert(number(s@, k + 1, k + 2) == s@[k + 1] as int - '0' as int);
            assert(number(s@, k + 1, k + 3) == number(s@, k + 1, k + 2) * 10 + (s@[k + 2] as int - '0' as int));
        }
        let ghost old_acc = acc;
        proof {
            acc = acc.push(rate);
        }
        match whole {
            Some(w) if (w as u64) * 1000 + (frac as u64) * 10 <= u32::MAX as u64 => {
                if !overflow {
                    vals.push(((w as u64) * 1000 + (frac as u64) * 10) as u32);
                }
            },
            _ => {
                overflow = true;
                assert(acc[acc.len() - 1] > u32::MAX);
            },
        }
        proof {
            if overflow {
                if exists|m: int| 0 <= m < old_acc.len() && #[trigger] old_acc[m] > u32::MAX {
                    let m = choose|m: int| 0 <= m < old_acc.len() && #[trigger] old_acc[m] > u32::MAX;
                    assert(acc[m] == old_acc[m]);
                }
            } else {
                assert forall|m: int| 0 <= m < acc.len() implies !(#[trigger] acc[m] > u32::MAX) by {
                    if m < old_acc.len() {
                        assert(acc[m] == old_acc[m]);
                        assert(old_acc[m] == vals@[m] as int);
                    }
                }
            }
            assert(seq![rate] + Seq::<int>::empty() =~= seq![rate]);
        }
        assert(overflow == exists|m: int| 0 <= m < acc.len() && #[trigger] acc[m] > u32::MAX);
        if e == s.len() {
            assert(rates(s@, i as int) == Some(seq![rate]));
            assert(old_acc + seq![rate] =~= acc);
            assert(rates(s@, c as int) == Some(acc));
            if overflow {
                proof {
                    let m = choose|m: int| 0 <= m < acc.len() && #[trigger] acc[m] > u32::MAX;
                    let rs = rates(s@, c as int)->0;
                    assert(rs == acc);
                    assert(rs[m] > u32::MAX);
                }
                return Some(Err(()));
            }
            return Some(Ok(vals));
        }
        assert(rates(s@, i as int) == (match rates(s@, e as int) {
            Some(r) => Some(seq![rate] + r),
            None => None::<Seq<int>>,
        }));
        proof {
            match rates(s@, e as int) {
                Some(r) => {
                    assert(old_acc + (seq![rate] + r) =~= acc + r);
                },
                None => {},
            }
        }
        i = e;
    }
}

fn geometry_end_at(s: &Vec<char>, q: usize) -> (r: Option<usize>)
    requires
        q <= s.len(),
    ensures
        r matches Some(g) ==> geometry_end(s@, q as int) == Some(g as int) && g <= s.len(),
        r is None ==> geometry_end(s@, q as int) is None,
{
    proof {
        reveal_strlit("x");
        reveal_strlit("+");
    }
    if !space_at_pos(s, q) {
        return None;
    }
    let a = q + 1;
    let b = digits_end_at(s, a);
    if !(b > a && at_pos(s, b, "x")) {
        return None;
    }
    let c = digits_end_at(s, b + 1);
    if !(c > b + 1 && at_pos(s, c, "+")) {
        return None;
    }
    let d = digits_end_at(s, c + 1);
    if !(d > c + 1 && at_pos(s, d, "+")) {
        return None;
    }
    let e = digits_end_at(s, d + 1);
    if !(e > d + 1) {
        return None;
    }
    Some(e)
}

fn with_geometry_at(s: &Vec<char>, q: usize) -> (r: bool)
    requires
        q <= s.len(),
    ensures
        r == (match geometry_end(s@, q as int) {
            Some(g) => space_at(s@, g),
            None => false,
        }),
{
    match geometry_end_at(s, q) {
        Some(g) => space_at_pos(s, g),
        None => false,
    }
}

fn rest_at(s: &Vec<char>, p: usize) -> (r: Option<bool>)
    requires
        p <= s.len(),
    ensures
        r == rest_of_output_line(s@, p as int),
{
    proof {
        reveal_strlit("primary");
    }
    let primary = if space_at_pos(s, p) && at_pos(s, p + 1, "primary") {
        Some(p + 8)
    } else {
        None
    };
    assert(primary matches Some(pp) ==> primary_end(s@, p as int) == Some(pp as int));
    assert(primary is None ==> primary_end(s@, p as int) is None);
    match primary {
        Some(pp) => {
            if with_geometry_at(s, pp) {
                return Some(true);
            }
            if space_at_pos(s, pp) {
                return Some(false);
            }
        },
        None => {},
    }
    if with_geometry_at(s, p) {
        Some(true)
    } else if space_at_pos(s, p) {
        Some(false)
    } else {
        None
    }
}

/// The end of the name and the two flags of an output line.
fn read_output_line(s: &Vec<char>) -> (r: Option<(usize, bool, bool)>)
    ensures
        r is None <==> output_line(s@) is None,
        r matches Some((n, connected, enabled)) ==> n <= s.len() && output_line(s@) == Some(
            (s@.subrange(0, n as int), connected, enabled),
        ),
{
    proof {
        reveal_strlit("connected");
        reveal_strlit("disconnected");
    }
    let n = word_end_at(s, 0);
    if n == 0 || !space_at_pos(s, n) {
        return None;
    }
    if at_pos(s, n + 1, "connected") {
        if let Some(enabled) = rest_at(s, n + 10) {
            return Some((n, true, enabled));
        }
    }
    if at_pos(s, n + 1, "disconnected") {
        if let Some(enabled) = rest_at(s, n + 13) {
            return Some((n, false, enabled));
        }
    }
    None
}

/// Size and refresh rates of a mode line; `Err` if a number does not fit
/// in 32 bits.
fn read_mode_line(s: &Vec<char>) -> (r: Option<Result<(u32, u32, Vec<u32>), ()>>)
    ensures
        r is None <==> mode_line(s@) is None,
        r matches Some(Err(_)) ==> !mode_line_fits(s@),
        !(r matches Some(Err(_))) ==> mode_line_fits(s@),
        r matches Some(Ok((w, h, v))) ==> mode_line(s@) matches Some((w2, h2, rs)) && w == w2
            && h == h2 && rs.len() == v@.len() && forall|k: int|
            0 <= k < rs.len() ==> rs[k] == #[trigger] v@[k] as int,
{
    proof {
        reveal_strlit("x");
    }
    let a = spaces_end_at(s, 0);
    let b = digits_end_at(s, a);
    if a == 0 || b == a || !at_pos(s, b, "x") {
        return None;
    }
    let c = digits_end_at(s, b + 1);
    if c == b + 1 {
        return None;
    }
    match rates_at(s, c) {
        None => None,
        Some(Err(())) => {
            proof {
                let rs = rates(s@, c as int)->0;
                let k = choose|k: int| 0 <= k < rs.len() && #[trigger] rs[k] > u32::MAX;
                let (_, _, found) = mode_line(s@)->0;
                assert(found[k] > u32::MAX);
            }
            Some(Err(()))
        },
        Some(Ok(v)) => {
            match (number_at(s, a, b), number_at(s, b + 1, c)) {
                (Some(w), Some(h)) => {
                    proof {
                        let (w2, h2, rs) = mode_line(s@)->0;
                        assert forall|k: int| 0 <= k < rs.len() implies #[trigger] rs[k] <= u32::MAX by {
                            assert(rs[k] == v@[k] as int);
                        }
                    }
                    Some(Ok((w, h, v)))
                },
                _ => Some(Err(())),
            }
        },
    }
}

/// Reads lines of an `xrandr` listing.
pub struct Parser {}

/// What an output line says, as name, connection, state and modes.
pub type Entry = (Seq<char>, bool, bool, Seq<Mode>);

/// What an output says, in the same form.
pub open spec fn entry_of(o: Output) -> Entry {
    (o.name@, o.connected, o.enabled, o.modes@)
}

/// The state of reading a listing: the outputs finished, and the output
/// whose mode lines are being read.
pub open spec fn listing_step(st: (Seq<Entry>, Option<Entry>), line: Seq<char>) -> (Seq<Entry>, Option<Entry>) {
    match output_line(line) {
        Some((name, connected, enabled)) => (
            match st.1 {
                Some(cur) => st.0.push(cur),
                None => st.0,
            },
            Some((name, connected, enabled, Seq::empty())),
        ),
        None => match st.1 {
            Some(cur) => (st.0, Some((cur.0, cur.1, cur.2, cur.3 + modes_of_line(line)))),
            None => st,
        },
    }
}

/// The lines of `s[start..]`, scanning from `i`: split at line feeds, a
/// carriage return before a line feed dropped.
pub open spec fn split_lines(s: Seq<char>, start: int, i: int) -> Seq<Seq<char>>
    decreases s.len() - i,
{
    if i >= s.len() || i < start || start < 0 {
        seq![s.subrange(start, s.len() as int)]
    } else if s[i] == '\n' {
        let l = s.subrange(start, i);
        seq![if l.len() > 0 && l.last() == '\r' { l.drop_last() } else { l }] + split_lines(s, i + 1, i + 1)
    } else {
        split_lines(s, start, i + 1)
    }
}

/// The lines of a text.
pub open spec fn lines_of(s: Seq<char>) -> Seq<Seq<char>> {
    split_lines(s, 0, 0)
}

/// The state after reading `lines`.
pub open spec fn listing_fold(lines: Seq<Seq<char>>) -> (Seq<Entry>, Option<Entry>) {
    lines.fold_left(
        (Seq::<Entry>::empty(), None::<Entry>),
        |st: (Seq<Entry>, Option<Entry>), l: Seq<char>| listing_step(st, l),
    )
}

proof fn lemma_listing_fold_push(lines: Seq<Seq<char>>, l: Seq<char>)
    ensures
        listing_fold(lines.push(l)) == listing_step(listing_fold(lines), l),
{
    assert(lines.push(l).drop_last() =~= lines);
}

/// The outputs that a listing describes, each with the modes of the mode
/// lines that follow it.
pub open spec fn listing(s: Seq<char>) -> Seq<Entry> {
    let st = listing_fold(lines_of(s));
    match st.1 {
        Some(cur) => st.0.push(cur),
        None => st.0,
    }
}

/// Every line of the listing that matters can be read: output lines name
/// known outputs and mode lines hold numbers that fit in 32 bits.
pub open spec fn listing_readable(s: Seq<char>) -> bool {
    forall|k: int|
        0 <= k < lines_of(s).len() ==> output_line_known(#[trigger] lines_of(s)[k]) && mode_line_fits(
            lines_of(s)[k],
        )
}

/// The reading state held by a list of outputs and the current output.
pub open spec fn state_of(outputs: Seq<Output>, current: Option<Output>) -> (Seq<Entry>, Option<Entry>) {
    (
        outputs.map_values(|o: Output| entry_of(o)),
        match current {
            Some(o) => Some(entry_of(o)),
            None => None,
        },
    )
}

/// Each output is located by its name.
pub open spec fn located(o: Output) -> bool {
    o.location == location_of(o.name@)
}

impl Parser {
    pub fn new() -> (r: Parser) {
        Parser {}
    }

    fn output_from_chars(&self, cs: &Vec<char>) -> (r: Option<Output>)
        requires
            output_line_known(cs@),
        ensures
            r is Some <==> output_line(cs@) is Some,
            r matches Some(o) ==> output_line(cs@) == Some((o.name@, o.connected, o.enabled))
                && o.modes@.len() == 0 && located(o),
    {
        match read_output_line(cs) {
            None => None,
            Some((n, connected, enabled)) => {
                let mut w: Vec<char> = Vec::new();
                let mut k: usize = 0;
                while k < n
                    invariant
                        k <= n <= cs.len(),
                        w@ == cs@.subrange(0, k as int),
                    decreases n - k,
                {
                    w.push(cs[k]);
                    assert(cs@.subrange(0, k + 1) =~= cs@.subrange(0, k as int).push(cs@[k as int]));
                    k = k + 1;
                }
                let name = string_from_chars(w.as_slice());
                let location = Location::from_output_name(name.as_str());
                Some(Output { name, connected, enabled, modes: Vec::new(), location })
            },
        }
    }

    /// Reads an output line: the output it describes, with no modes yet;
    /// none for any other line.
    pub fn parse_output_line(&self, line: &str) -> (r: Option<Output>)
        requires
            output_line_known(line@),
        ensures
            r is Some <==> output_line(line@) is Some,
            r matches Some(o) ==> output_line(line@) == Some((o.name@, o.connected, o.enabled))
                && o.modes@.len() == 0 && located(o),
    {
        let cs = chars_of(line);
        self.output_from_chars(&cs)
    }

    fn modes_from_chars(&self, cs: &Vec<char>, modes: &mut Vec<Mode>)
        requires
            mode_line_fits(cs@),
        ensures
            final(modes)@ == old(modes)@ + modes_of_line(cs@),
    {
        match read_mode_line(cs) {
            None => {
                assert(old(modes)@ + modes_of_line(cs@) =~= old(modes)@);
            },
            Some(Err(())) => {},
            Some(Ok((w, h, v))) => {
                let ghost start = modes@;
                let ghost all = modes_of_line(cs@);
                let mut k: usize = 0;
                while k < v.len()
                    invariant
                        k <= v.len(),
                        all.len() == v@.len(),
                        forall|j: int|
                            0 <= j < v@.len() ==> #[trigger] all[j] == (Mode {
                                resolution: Resolution { width: w, height: h },
                                refresh_rate: v@[j],
                            }),
                        modes@ == start + all.subrange(0, k as int),
                    decreases v.len() - k,
                {
                    modes.push(Mode { resolution: Resolution { width: w, height: h }, refresh_rate: v[k] });
                    assert(all.subrange(0, k + 1) =~= all.subrange(0, k as int).push(all[k as int]));
                    k = k + 1;
                }
                assert(all.subrange(0, v@.len() as int) =~= all);
            },
        }
    }

    /// Reads a mode line: appends one mode per refresh rate that it lists;
    /// any other line adds nothing.
    pub fn parse_mode_line(&self, line: &str, modes: &mut Vec<Mode>)
        requires
            mode_line_fits(line@),
        ensures
            final(modes)@ == old(modes)@ + modes_of_line(line@),
    {
        let cs = chars_of(line);
        self.modes_from_chars(&cs, modes);
    }

    fn read_line(&self, line: &Vec<char>, outputs: &mut Vec<Output>, current: Option<Output>) -> (r: Result<Option<Output>, ParseError>)
        requires
            forall|k: int| 0 <= k < old(outputs)@.len() ==> located(#[trigger] old(outputs)@[k]),
            current matches Some(c) ==> located(c),
        ensures
            r matches Ok(next) ==> state_of(final(outputs)@, next) == listing_step(
                state_of(old(outputs)@, current),
                line@,
            ) && (next matches Some(c) ==> located(c)) && forall|k: int|
                0 <= k < final(outputs)@.len() ==> located(#[trigger] final(outputs)@[k]),
            r is Err ==> !(output_line_known(line@) && mode_line_fits(line@)),
    {
        let ghost before = outputs@;
        if let Some((n, _, _)) = read_output_line(line) {
            let mut w: Vec<char> = Vec::new();
            let mut k: usize = 0;
            while k < n
                invariant
                    k <= n <= line.len(),
                    w@ == line@.subrange(0, k as int),
                decreases n - k,
            {
                w.push(line[k]);
                assert(line@.subrange(0, k + 1) =~= line@.subrange(0, k as int).push(line@[k as int]));
                k = k + 1;
            }
            let name = string_from_chars(w.as_slice());
            if !crate::screen::is_known_output_name(name.as_str()) {
                return Err(ParseError::UnknownOutputName);
            }
            let o = match self.output_from_chars(line) {
                Some(o) => o,
                None => {
                    return Err(ParseError::UnknownOutputName);
                },
            };
            match current {
                Some(c) => {
                    outputs.push(c);
                },
                None => {},
            }
            assert(outputs@.map_values(|o: Output| entry_of(o)) =~= listing_step(
                state_of(before, current),
                line@,
            ).0);
            Ok(Some(o))
        } else {
            match current {
                Some(mut c) => {
                    match read_mode_line(line) {
                        Some(Err(())) => {
                            return Err(ParseError::NumberTooLarge);
                        },
                        _ => {},
                    }
                    self.modes_from_chars(line, &mut c.modes);
                    Ok(Some(c))
                },
                None => Ok(None),
            }
        }
    }

    /// Reads a whole listing: each output line starts an output, and the
    /// mode lines after it give its modes. An output line with an unknown
    /// output name, or a mode line of an output with a number too large,
    /// is an error.
    pub fn parse(&self, xrandr_output: &str) -> (r: Result<Screen, ParseError>)
        ensures
            r matches Ok(screen) ==> screen.outputs@.map_values(|o: Output| entry_of(o)) == listing(
                xrandr_output@,
            ) && forall|k: int| 0 <= k < screen.outputs@.len() ==> located(#[trigger] screen.outputs@[k]),
            listing_readable(xrandr_output@) ==> r is Ok,
    {
        let cs = chars_of(xrandr_output);
        let ghost s = cs@;
        let ghost mut done: Seq<Seq<char>> = Seq::empty();
        let mut outputs: Vec<Output> = Vec::new();
        let mut current: Option<Output> = None;
        let mut line: Vec<char> = Vec::new();
        let mut start: usize = 0;
        let mut i: usize = 0;
        while i < cs.len()
            invariant
                s == cs@,
                s == xrandr_output@,
                start <= i <= cs.len(),
                line@ == s.subrange(start as int, i as int),
                lines_of(s) == done + split_lines(s, start as int, i as int),
                state_of(outputs@, current) == listing_fold(done),
                forall|k: int| 0 <= k < outputs@.len() ==> located(#[trigger] outputs@[k]),
                current matches Some(c) ==> located(c),
                listing_readable(s) ==> forall|k: int|
                    0 <= k < done.len() ==> output_line_known(#[trigger] done[k]) && mode_line_fits(done[k]),
            decreases cs.len() - i,
        {
            if cs[i] == '\n' {
                if line.len() > 0 && line[line.len() - 1] == '\r' {
                    line.pop();
                }
                let ghost l = line@;
                assert(l == (if s.subrange(start as int, i as int).len() > 0 && s.subrange(start as int, i as int).last() == '\r' {
                    s.subrange(start as int, i as int).drop_last()
                } else {
                    s.subrange(start as int, i as int)
                }));
                assert(split_lines(s, start as int, i as int) == seq![l] + split_lines(s, i + 1, i + 1));
                assert(lines_of(s)[done.len() as int] == l);
                proof {
                    lemma_listing_fold_push(done, l);
                }
                current = match self.read_line(&line, &mut outputs, current) {
                    Ok(next) => next,
                    Err(e) => {
                        return Err(e);
                    },
                };
                proof {
                    assert(done + split_lines(s, start as int, i as int) =~= done.push(l) + split_lines(s, i + 1, i + 1));
                    done = done.push(l);
                }
                line = Vec::new();
                start = i + 1;
            } else {
                line.push(cs[i]);
                assert(s.subrange(start as int, i + 1) =~= s.subrange(start as int, i as int).push(s[i as int]));
            }
            i = i + 1;
        }
        assert(split_lines(s, start as int, i as int) == seq![line@]);
        assert(lines_of(s) == done.push(line@)) by {
            assert(done + seq![line@] =~= done.push(line@));
        }
        assert(lines_of(s)[done.len() as int] == line@);
        proof {
            lemma_listing_fold_push(done, line@);
        }
        current = match self.read_line(&line, &mut outputs, current) {
            Ok(next) => next,
            Err(e) => {
                return Err(e);
            },
        };
        let ghost finished = outputs@;
        match current {
            Some(c) => {
                outputs.push(c);
            },
            None => {},
        }
        assert(outputs@.map_values(|o: Output| entry_of(o)) =~= listing(s));
        Ok(Screen { outputs })
    }
}

/// Reads the outputs and their modes from an `xrandr` listing.
pub fn parse(xrandr_output: &str) -> (r: Result<Screen, ParseError>)
    ensures
        r matches Ok(screen) ==> screen.outputs@.map_values(|o: Output| entry_of(o)) == listing(
            xrandr_output@,
        ) && forall|k: int| 0 <= k < screen.outputs@.len() ==> located(#[trigger] screen.outputs@[k]),
        listing_readable(xrandr_output@) ==> r is Ok,
{
    Parser::new().parse(xrandr_output)
}

} // verus!
