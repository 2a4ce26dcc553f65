//! Character sequences: reading a string's characters and testing its ends.

use vstd::prelude::*;

verus! {

broadcast use vstd::string::group_string_axioms;

/// `s` begins with `p`.
pub open spec fn has_prefix(s: Seq<char>, p: Seq<char>) -> bool {
    p.len() <= s.len() && s.take(p.len() as int) == p
}

/// `s` ends with `p`.
pub open spec fn has_suffix(s: Seq<char>, p: Seq<char>) -> bool {
    p.len() <= s.len() && s.skip(s.len() - p.len()) == p
}

/// The characters of `s`, in order.
pub fn chars_of(s: &str) -> (r: Vec<char>)
    ensures
        r@ == s@,
{
    let mut r: Vec<char> = Vec::new();
    for c in it: s.chars()
        invariant
            r@ == it.seq().take(it.index() as int),
    {
        r.push(c);
    }
    assert(r@ =~= s@);
    r
}

/// Whether `p` occurs in `s` at character `at`.
fn same_at(s: &Vec<char>, p: &Vec<char>, at: usize) -> (r: bool)
    requires
        at + p@.len() <= s@.len(),
    ensures
        r == (s@.subrange(at as int, at + p@.len()) == p@),
{
    let n = s.len();
    let mut j: usize = 0;
    while j < p.len()
        invariant
            n == s@.len(),
            j <= p@.len(),
            at + p@.len() <= s@.len(),
            forall|k: int| 0 <= k < j ==> s@[at + k] == p@[k],
        decreases p@.len() - j,
    {
        if s[at + j] != p[j] {
            assert(s@.subrange(at as int, at + p@.len())[j as int] != p@[j as int]);
            return false;
        }
        j += 1;
    }
    assert(s@.subrange(at as int, at + p@.len()) =~= p@);
    true
}

/// Whether `s` begins with `p`.
pub fn starts_with(s: &Vec<char>, p: &str) -> (r: bool)
    ensures
        r == has_prefix(s@, p@),
{
    let pc = chars_of(p);
    if pc.len() > s.len() {
        return false;
    }
    let r = same_at(s, &pc, 0);
    assert(s@.subrange(0, pc@.len() as int) =~= s@.take(pc@.len() as int));
    r
}

/// Whether `s` ends with `p`.
pub fn ends_with(s: &Vec<char>, p: &str) -> (r: bool)
    ensures
        r == has_suffix(s@, p@),
{
    let pc = chars_of(p);
    if pc.len() > s.len() {
        return false;
    }
    let at = s.len() - pc.len();
    let r = same_at(s, &pc, at);
    assert(s@.subrange(at as int, s@.len() as int) =~= s@.skip(at as int));
    r
}

} // verus!
