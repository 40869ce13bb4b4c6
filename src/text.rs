//! Small verified helpers on character sequences.

use vstd::prelude::*;

verus! {

/// `p` is a prefix of `s`.
pub open spec fn has_prefix(s: Seq<char>, p: Seq<char>) -> bool {
    p.len() <= s.len() && s.subrange(0, p.len() as int) == p
}

/// `p` occurs in `s` at position `i`.
pub open spec fn occurs_at(s: Seq<char>, p: Seq<char>, i: int) -> bool {
    0 <= i && i + p.len() <= s.len() && s.subrange(i, i + p.len()) == p
}

/// `p` occurs somewhere in `s`.
pub open spec fn contains_seq(s: Seq<char>, p: Seq<char>) -> bool {
    exists|i: int| occurs_at(s, p, i)
}

/// The characters of a string slice, in order.
pub fn chars_of(s: &str) -> (r: Vec<char>)
    ensures
        r@ == s@,
{
    let mut r: Vec<char> = Vec::new();
    for c in it: s.chars()
        invariant
            r@ == it.seq().subrange(0, it.index() as int),
    {
        r.push(c);
    }
    proof {
        assert(r@ =~= s@);
    }
    r
}

/// ASCII whitespace: space, tab, line feed, form feed, carriage return.
pub open spec fn is_ascii_ws(c: char) -> bool {
    c == ' ' || c == '\t' || c == '\n' || c == '\x0C' || c == '\r'
}

/// `s[st..e]` is the first whitespace-separated word of `s` (empty when
/// `s` holds only whitespace).
pub open spec fn is_first_word(s: Seq<char>, st: int, e: int) -> bool {
    &&& 0 <= st <= e <= s.len()
    &&& forall|k: int| 0 <= k < st ==> is_ascii_ws(#[trigger] s[k])
    &&& (st == s.len() || !is_ascii_ws(s[st]))
    &&& forall|k: int| st <= k < e ==> !is_ascii_ws(#[trigger] s[k])
    &&& (e == s.len() || is_ascii_ws(s[e]))
}

/// The first word of `s`.
pub open spec fn first_word(s: Seq<char>) -> Seq<char> {
    let (st, e) = choose|st: int, e: int| is_first_word(s, st, e);
    s.subrange(st, e)
}

pub proof fn lemma_first_word_unique(s: Seq<char>, st: int, e: int)
    requires
        is_first_word(s, st, e),
    ensures
        first_word(s) == s.subrange(st, e),
{
    let (st2, e2) = choose|st2: int, e2: int| is_first_word(s, st2, e2);
    assert(is_first_word(s, st2, e2));
    if st2 < st {
        assert(is_ascii_ws(s[st2]));
    }
    if st < st2 {
        assert(is_ascii_ws(s[st]));
    }
    if e2 < e {
        assert(!is_ascii_ws(s[e2]));
    }
    if e < e2 {
        assert(!is_ascii_ws(s[e]));
    }
}

fn is_ws(c: char) -> (r: bool)
    ensures
        r == is_ascii_ws(c),
{
    c == ' ' || c == '\t' || c == '\n' || c == '\x0C' || c == '\r'
}

/// The bounds of the first word of `s`.
pub fn first_word_bounds(s: &Vec<char>) -> (r: (usize, usize))
    ensures
        is_first_word(s@, r.0 as int, r.1 as int),
{
    let mut st: usize = 0;
    while st < s.len() && is_ws(s[st])
        invariant
            st <= s.len(),
            forall|k: int| 0 <= k < st ==> is_ascii_ws(#[trigger] s@[k]),
        decreases s.len() - st,
    {
        st = st + 1;
    }
    let mut e: usize = st;
    while e < s.len() && !is_ws(s[e])
        invariant
            st <= e <= s.len(),
            forall|k: int| st <= k < e ==> !is_ascii_ws(#[trigger] s@[k]),
        decreases s.len() - e,
    {
        e = e + 1;
    }
    (st, e)
}

/// Whether `p` occurs in `s`.
pub fn contains_chars(s: &Vec<char>, p: &Vec<char>) -> (r: bool)
    ensures
        r == contains_seq(s@, p@),
{
    if p.len() > s.len() {
        assert forall|i: int| !occurs_at(s@, p@, i) by {}
        return false;
    }
    let mut i: usize = 0;
    while i <= s.len() - p.len()
        invariant
            p.len() <= s.len(),
            i <= s.len() - p.len() + 1,
            forall|k: int| 0 <= k < i ==> !occurs_at(s@, p@, k),
        decreases s.len() - i,
    {
        let mut j: usize = 0;
        let mut same = true;
        while j < p.len()
            invariant
                i + p.len() <= s.len(),
                j <= p.len(),
                same == forall|k: int| 0 <= k < j ==> s@[i + k] == p@[k],
            decreases p.len() - j,
        {
            if s[i + j] != p[j] {
                same = false;
            }
            j = j + 1;
        }
        if same {
            assert(s@.subrange(i as int, i + p@.len()) =~= p@);
            assert(occurs_at(s@, p@, i as int));
            return true;
        }
        assert(!occurs_at(s@, p@, i as int)) by {
            if occurs_at(s@, p@, i as int) {
                assert forall|k: int| 0 <= k < p.len() implies s@[i + k] == p@[k] by {
                    assert(s@.subrange(i as int, i + p@.len())[k] == p@[k]);
                }
            }
        }
        i = i + 1;
    }
    assert forall|k: int| !occurs_at(s@, p@, k) by {
        if occurs_at(s@, p@, k) {
            assert(k < i);
        }
    }
    false
}

/// Relies on `String`'s `FromIterator<&char>`: the string of the given
/// characters, in order.
#[verifier::external_body]
pub(crate) fn string_from_chars(cs: &[char]) -> (r: String)
    ensures
        r@ == cs@,
{
    String::from_iter(cs.iter())
}

} // verus!
