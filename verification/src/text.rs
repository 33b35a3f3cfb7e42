//! Small tools on text that the readers of literals and tokens share.

use vstd::prelude::*;

verus! {

/// The characters of `s`, one by one.
pub(crate) fn chars_of(s: &str) -> (v: Vec<char>)
    ensures
        v@ == s@,
{
    let mut v: Vec<char> = Vec::new();
    for c in it: s.chars()
        invariant
            it.seq() == s@,
            v@ == it.seq().take(it.index() as int),
    {
        v.push(c);
    }
    v
}

/// Whether `prefix` stands in `chars` at position `at`.
pub(crate) fn matches_at(chars: &Vec<char>, at: usize, prefix: &[char]) -> (b: bool)
    requires
        at <= chars.len(),
    ensures
        b == prefix@.is_prefix_of(chars@.skip(at as int)),
{
    if prefix.len() > chars.len() - at {
        return false;
    }
    let mut i: usize = 0;
    while i < prefix.len()
        invariant
            at <= chars.len(),
            prefix.len() <= chars.len() - at,
            i <= prefix.len(),
            forall|j: int| 0 <= j < i ==> prefix@[j] == chars@[at + j],
        decreases prefix.len() - i,
    {
        if prefix[i] != chars[at + i] {
            assert(chars@.skip(at as int)[i as int] == chars@[at + i]);
            return false;
        }
        i += 1;
    }
    assert(prefix@ =~= chars@.skip(at as int).subrange(0, prefix@.len() as int));
    true
}

/// Whether two texts are the same, character by character.
pub(crate) fn same_text(a: &str, b: &str) -> (same: bool)
    ensures
        same == (a@ == b@),
{
    let left = chars_of(a);
    let right = chars_of(b);
    if left.len() != right.len() {
        return false;
    }
    assert(right@.skip(0) =~= right@);
    let same = matches_at(&right, 0, left.as_slice());
    assert(same == (left@ =~= right@));
    same
}

/// Whether `text` ends with `suffix`.
pub(crate) fn ends_with(text: &str, suffix: &str) -> (b: bool)
    ensures
        b == (suffix@.len() <= text@.len() && text@.skip(text@.len() - suffix@.len()) == suffix@),
{
    let chars = chars_of(text);
    let tail = chars_of(suffix);
    if tail.len() > chars.len() {
        return false;
    }
    let at: usize = chars.len() - tail.len();
    let b = matches_at(&chars, at, tail.as_slice());
    assert(b == (text@.skip(at as int) =~= suffix@));
    b
}

} // verus!
