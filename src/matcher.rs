//! The literal matcher: occurrences of a pattern inside one token.

use vstd::prelude::*;
use vstd::string::StringSliceAdditionalSpecFns;
use vstd::utf8::{encode_utf8, is_char_boundary};

verus! {

/// An ASCII letter: the only characters that break a whole-word match.
pub open spec fn is_word_byte(b: u8) -> bool {
    (65 <= b && b <= 90) || (97 <= b && b <= 122)
}

/// The span `[begin, end)` of `t` has no letter right before or right after it.
/// A multi-byte character never ends or starts with an ASCII byte, so on
/// character boundaries this is the same test on the neighbouring characters.
pub open spec fn word_bounded(t: Seq<u8>, begin: int, end: int) -> bool {
    &&& !(0 < begin && is_word_byte(t[begin - 1]))
    &&& !(end < t.len() && is_word_byte(t[end]))
}

/// Whether `p` occurs in `t` at byte `i`.
pub open spec fn occurs_at(t: Seq<u8>, p: Seq<u8>, i: int) -> bool {
    0 <= i && i + p.len() <= t.len() && t.subrange(i, i + p.len()) == p
}

/// Start offsets of the non-overlapping occurrences of `p` in `t` from byte
/// `from` on, taken left to right, each search resuming after the previous
/// occurrence. With `whole_word`, an occurrence that is not on word boundaries
/// is left out of the result, though its span is still skipped.
pub open spec fn scan(t: Seq<u8>, p: Seq<u8>, from: int, whole_word: bool) -> Seq<int>
    decreases t.len() - from,
{
    if p.len() == 0 || from < 0 || from + p.len() > t.len() {
        seq![]
    } else if occurs_at(t, p, from) {
        let rest = scan(t, p, from + p.len(), whole_word);
        if !whole_word || word_bounded(t, from, from + p.len()) {
            seq![from] + rest
        } else {
            rest
        }
    } else {
        scan(t, p, from + 1, whole_word)
    }
}

/// The offsets reported for token `t` and pattern `p`, both already in the case
/// in which they are compared. A whole-word identifier is atomic: it matches
/// only when it equals the pattern, at offset 0.
pub open spec fn folded_matches(t: Seq<u8>, p: Seq<u8>, is_id: bool, whole_word: bool) -> Seq<int> {
    if is_id && whole_word {
        if t == p {
            seq![0]
        } else {
            seq![]
        }
    } else {
        scan(t, p, 0, whole_word)
    }
}

/// The offsets of a result vector, as integers.
pub open spec fn offsets(v: Seq<usize>) -> Seq<int> {
    v.map_values(|i: usize| i as int)
}

/// What a token's case folding gives; the characters alone decide it.
pub uninterp spec fn lower_of(s: Seq<char>) -> Seq<char>;

/// A pattern that is already folded: the lowercase form of some text.
pub open spec fn is_folded(p: Seq<char>) -> bool {
    exists|q: Seq<char>| p == lower_of(q)
}

/// The bytes in which a token is searched under the given case policy.
pub open spec fn compared_bytes(token: Seq<char>, case_sensitive: bool) -> Seq<u8> {
    if case_sensitive {
        encode_utf8(token)
    } else {
        encode_utf8(lower_of(token))
    }
}

/// Relies on str::to_lowercase: the lowercase form of the text, which depends
/// on its characters alone.
#[verifier::external_body]
pub(crate) fn to_lowercase(s: &str) -> (r: String)
    ensures
        r@ == lower_of(s@),
{
    s.to_lowercase()
}

/// Where the search for the `i`-th offset of `r` began: `from` for the first,
/// the end of the previous occurrence for the others.
pub open spec fn gap_start(r: Seq<int>, plen: int, from: int, i: int) -> int {
    if i == 0 {
        from
    } else {
        r[i - 1] + plen
    }
}

/// Where the search resumed after the last offset of `r`.
pub open spec fn scan_end(r: Seq<int>, plen: int, from: int) -> int {
    if r.len() == 0 {
        from
    } else {
        r.last() + plen
    }
}

/// The leftmost-first, non-overlapping occurrences of `p` in `t` from `from` on.
pub open spec fn is_greedy_occurrences(t: Seq<u8>, p: Seq<u8>, from: int, r: Seq<int>) -> bool {
    &&& forall|i: int| 0 <= i < r.len() ==> from <= #[trigger] r[i] && occurs_at(t, p, r[i])
    &&& forall|i: int| 0 < i < r.len() ==> r[i - 1] + p.len() <= #[trigger] r[i]
    &&& forall|i: int, j: int|
        0 <= i < r.len() && gap_start(r, p.len() as int, from, i) <= j < #[trigger] r[i]
            ==> !#[trigger] occurs_at(t, p, j)
    &&& forall|j: int| scan_end(r, p.len() as int, from) <= j ==> !#[trigger] occurs_at(t, p, j)
}

proof fn lemma_scan_greedy(t: Seq<u8>, p: Seq<u8>, from: int)
    requires
        p.len() > 0,
        0 <= from,
    ensures
        is_greedy_occurrences(t, p, from, scan(t, p, from, false)),
    decreases t.len() - from,
{
    let r = scan(t, p, from, false);
    if from + p.len() > t.len() {
        assert(r.len() == 0);
    } else if occurs_at(t, p, from) {
        let next = from + p.len();
        let rest = scan(t, p, next, false);
        lemma_scan_greedy(t, p, next);
        assert(r == seq![from] + rest);
        assert forall|i: int| 0 < i < r.len() implies r[i] == rest[i - 1] by {}
        assert forall|i: int, j: int|
            0 <= i < r.len() && gap_start(r, p.len() as int, from, i) <= j < #[trigger] r[i]
                implies !#[trigger] occurs_at(t, p, j) by {
            if i > 0 {
                assert(gap_start(r, p.len() as int, from, i) == gap_start(
                    rest,
                    p.len() as int,
                    next,
                    i - 1,
                ));
                assert(r[i] == rest[i - 1]);
            }
        }
        if rest.len() > 0 {
            assert(r.last() == rest.last());
        }
    } else {
        lemma_scan_greedy(t, p, from + 1);
    }
}

/// Without the whole-word rule, the offsets are exactly the occurrences of the
/// pattern found left to right without overlap: each is an occurrence, each
/// starts at or after the end of the one before, and no occurrence starts
/// before the first, between the end of one and the start of the next, or
/// after the end of the last.
pub proof fn lemma_leftmost_occurrences(t: Seq<u8>, p: Seq<u8>, is_id: bool)
    requires
        p.len() > 0,
    ensures
        is_greedy_occurrences(t, p, 0, folded_matches(t, p, is_id, false)),
{
    lemma_scan_greedy(t, p, 0);
}

/// A whole-word identifier matches only as a whole: at offset 0 when it equals
/// the pattern, nowhere otherwise.
pub proof fn lemma_whole_identifier(t: Seq<u8>, p: Seq<u8>)
    ensures
        folded_matches(t, p, true, true) == (if t == p {
            seq![0int]
        } else {
            Seq::<int>::empty()
        }),
{
}

proof fn lemma_scan_occurs(t: Seq<u8>, p: Seq<u8>, from: int, whole_word: bool)
    ensures
        forall|i: int| 0 <= i < scan(t, p, from, whole_word).len() ==> occurs_at(
            t,
            p,
            #[trigger] scan(t, p, from, whole_word)[i],
        ),
    decreases t.len() - from,
{
    let r = scan(t, p, from, whole_word);
    if p.len() == 0 || from < 0 || from + p.len() > t.len() {
    } else if occurs_at(t, p, from) {
        let rest = scan(t, p, from + p.len(), whole_word);
        lemma_scan_occurs(t, p, from + p.len(), whole_word);
        if !whole_word || word_bounded(t, from, from + p.len()) {
            assert(r == seq![from] + rest);
            assert forall|i: int| 0 <= i < r.len() implies occurs_at(t, p, #[trigger] r[i]) by {
                if i > 0 {
                    assert(r[i] == rest[i - 1]);
                }
            }
        } else {
            assert(r == rest);
        }
    } else {
        lemma_scan_occurs(t, p, from + 1, whole_word);
        assert(r == scan(t, p, from + 1, whole_word));
    }
}

/// Every offset reported is an occurrence of the pattern in the token.
pub proof fn lemma_matches_occur(t: Seq<u8>, p: Seq<u8>, is_id: bool, whole_word: bool)
    ensures
        forall|i: int| 0 <= i < folded_matches(t, p, is_id, whole_word).len() ==> occurs_at(
            t,
            p,
            #[trigger] folded_matches(t, p, is_id, whole_word)[i],
        ),
{
    if is_id && whole_word {
        assert(t.subrange(0, t.len() as int) =~= t);
    } else {
        lemma_scan_occurs(t, p, 0, whole_word);
    }
}

fn is_ascii_letter(b: u8) -> (r: bool)
    ensures
        r == is_word_byte(b),
{
    (65 <= b && b <= 90) || (97 <= b && b <= 122)
}

fn bounded_at(t: &[u8], begin: usize, end: usize) -> (r: bool)
    requires
        begin <= t@.len(),
        end <= t@.len(),
    ensures
        r == word_bounded(t@, begin as int, end as int),
{
    if begin > 0 && is_ascii_letter(t[begin - 1]) {
        return false;
    }
    if end < t.len() && is_ascii_letter(t[end]) {
        return false;
    }
    true
}

fn occurs_at_exec(t: &[u8], p: &[u8], i: usize) -> (r: bool)
    requires
        i + p@.len() <= t@.len(),
    ensures
        r == occurs_at(t@, p@, i as int),
{
    let n = t.len();
    let mut j: usize = 0;
    while j < p.len()
        invariant
            n == t@.len(),
            j <= p@.len(),
            i + p@.len() <= t@.len(),
            forall|k: int| 0 <= k < j ==> t@[i + k] == p@[k],
        decreases p@.len() - j,
    {
        if t[i + j] != p[j] {
            assert(t@.subrange(i as int, i + p@.len())[j as int] != p@[j as int]);
            return false;
        }
        j += 1;
    }
    assert(t@.subrange(i as int, i + p@.len()) =~= p@);
    true
}

/// Whether the span `[match_begin, match_end)` of `text` stands on word
/// boundaries: the text's start or a non-letter before it, the text's end or a
/// non-letter after it.
pub fn check_word_bounds(text: &str, match_begin: usize, match_end: usize) -> (r: bool)
    requires
        match_begin <= text.spec_bytes().len(),
        match_end <= text.spec_bytes().len(),
        is_char_boundary(text.spec_bytes(), match_begin as int),
        is_char_boundary(text.spec_bytes(), match_end as int),
    ensures
        r == word_bounded(text.spec_bytes(), match_begin as int, match_end as int),
{
    bounded_at(text.as_bytes(), match_begin, match_end)
}

/// Byte offsets at which `pattern` matches in `token`, where both are already
/// in the case in which they are compared.
pub fn match_folded(token: &str, pattern: &str, is_id: bool, whole_word: bool) -> (r: Vec<usize>)
    requires
        pattern.spec_bytes().len() > 0,
    ensures
        offsets(r@) == folded_matches(token.spec_bytes(), pattern.spec_bytes(), is_id, whole_word),
{
    let t = token.as_bytes();
    let p = pattern.as_bytes();
    let mut out: Vec<usize> = Vec::new();
    if is_id && whole_word {
        if t.len() == p.len() && occurs_at_exec(t, p, 0) {
            assert(t@ =~= p@);
            out.push(0);
            assert(offsets(out@) =~= seq![0int]);
        } else {
            assert(t@ != p@) by {
                if t@ == p@ {
                    assert(t@.subrange(0, p@.len() as int) =~= t@);
                }
            }
            assert(offsets(out@) =~= Seq::<int>::empty());
        }
        return out;
    }
    if p.len() > t.len() {
        assert(offsets(out@) =~= Seq::<int>::empty());
        return out;
    }
    let n = t.len();
    let last = n - p.len();
    let mut i: usize = 0;
    assert(offsets(out@) + scan(t@, p@, 0, whole_word) =~= scan(t@, p@, 0, whole_word));
    while i <= last
        invariant
            p@.len() > 0,
            n == t@.len(),
            last + p@.len() == n,
            i <= t@.len(),
            offsets(out@) + scan(t@, p@, i as int, whole_word) == scan(t@, p@, 0, whole_word),
        decreases t@.len() - i,
    {
        let ghost before = out@;
        let ghost rest = scan(t@, p@, i as int, whole_word);
        if occurs_at_exec(t, p, i) {
            let next = i + p.len();
            if !whole_word || bounded_at(t, i, next) {
                out.push(i);
                assert(offsets(out@) =~= offsets(before).push(i as int));
                assert(rest =~= seq![i as int] + scan(t@, p@, next as int, whole_word));
                assert(offsets(out@) + scan(t@, p@, next as int, whole_word) =~= offsets(before)
                    + rest);
            }
            i = next;
        } else {
            i = i + 1;
        }
    }
    assert(scan(t@, p@, i as int, whole_word) =~= Seq::<int>::empty());
    assert(offsets(out@) =~= offsets(out@) + scan(t@, p@, i as int, whole_word));
    out
}

/// Byte offsets, ascending, at which `pattern` matches in `token`. When the
/// match is not case-sensitive the token is case-folded first, and the pattern
/// is expected to be folded already; the offsets are then those of the folded
/// token.
pub fn match_token(
    token: &str,
    pattern: &str,
    is_id: bool,
    whole_word: bool,
    case_sensitive: bool,
) -> (r: Vec<usize>)
    requires
        pattern.spec_bytes().len() > 0,
        !case_sensitive ==> is_folded(pattern@),
    ensures
        offsets(r@) == folded_matches(
            compared_bytes(token@, case_sensitive),
            pattern.spec_bytes(),
            is_id,
            whole_word,
        ),
{
    if case_sensitive {
        match_folded(token, pattern, is_id, whole_word)
    } else {
        let lowered = to_lowercase(token);
        match_folded(lowered.as_str(), pattern, is_id, whole_word)
    }
}

} // verus!
