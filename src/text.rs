//! Character-level helpers: text as `Vec<char>` and `String` building.
use vstd::prelude::*;

verus! {

/// Scans the characters of a string slice into a vector.
pub fn chars_of(s: &str) -> (r: Vec<char>)
    ensures
        r@ == s@,
{
    let mut r: Vec<char> = Vec::new();
    for c in it: s.chars()
        invariant
            r@ == it.history(),
    {
        r.push(c);
    }
    r
}

/// Relies on std's `String::push`: appends one character.
#[verifier::external_body]
pub(crate) fn push_char(s: &mut String, c: char)
    ensures
        final(s)@ == old(s)@.push(c),
{
    s.push(c)
}

/// Appends every character of `cs` to `s`.
pub fn push_chars(s: &mut String, cs: &Vec<char>)
    ensures
        final(s)@ == old(s)@ + cs@,
{
    let mut k: usize = 0;
    while k < cs.len()
        invariant
            k <= cs@.len(),
            s@ == old(s)@ + cs@.subrange(0, k as int),
        decreases cs.len() - k,
    {
        push_char(s, cs[k]);
        k += 1;
        assert(cs@.subrange(0, k as int) == cs@.subrange(0, k - 1).push(cs@[k - 1]));
    }
    assert(cs@.subrange(0, cs@.len() as int) == cs@);
}

/// Builds a string holding exactly the characters of `cs`.
pub fn string_of(cs: &Vec<char>) -> (r: String)
    ensures
        r@ == cs@,
{
    let mut r = String::new();
    push_chars(&mut r, cs);
    r
}

} // verus!
