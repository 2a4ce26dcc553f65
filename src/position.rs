//! Positions inside a token: from a byte offset to a line and a column.

use vstd::prelude::*;

use crate::text::chars_of;

verus! {

/// Bytes in the UTF-8 encoding of `c`.
pub open spec fn char_width(c: char) -> nat {
    let v = c as u32;
    if v < 0x80 {
        1
    } else if v < 0x800 {
        2
    } else if v < 0x10000 {
        3
    } else {
        4
    }
}

/// Bytes in the UTF-8 encoding of `s`.
pub open spec fn text_width(s: Seq<char>) -> nat
    decreases s.len(),
{
    if s.len() == 0 {
        0
    } else {
        text_width(s.drop_last()) + char_width(s.last())
    }
}

/// Character `i` of `t` ends a line: a `\n`, or a `\r` that no `\n` follows
/// (the line break of a `\r\n` pair is counted at its `\n`).
pub open spec fn is_line_break(t: Seq<char>, i: int) -> bool {
    t[i] == '\n' || (t[i] == '\r' && !(i + 1 < t.len() && t[i + 1] == '\n'))
}

/// Line breaks among the first `k` characters of `t`.
pub open spec fn breaks_before(t: Seq<char>, k: int) -> nat
    decreases k,
{
    if k <= 0 {
        0
    } else {
        breaks_before(t, k - 1) + if is_line_break(t, k - 1) {
            1nat
        } else {
            0nat
        }
    }
}

/// Index of the first character of the line that character `k` of `t` is on.
pub open spec fn line_start(t: Seq<char>, k: int) -> int
    decreases k,
{
    if k <= 0 {
        0
    } else if is_line_break(t, k - 1) {
        k
    } else {
        line_start(t, k - 1)
    }
}

/// Position `k` falls between the two characters of a `\r\n` pair.
pub open spec fn splits_crlf(t: Seq<char>, k: int) -> bool {
    0 < k < t.len() && t[k - 1] == '\r' && t[k] == '\n'
}

/// Position `k` is one at which the walk over `t` can stop.
pub open spec fn is_stop(t: Seq<char>, k: int) -> bool {
    0 <= k <= t.len() && !splits_crlf(t, k)
}

/// `offset` is the byte offset of a stopping position of `t`: it lies on a
/// character boundary, not past the end, and not inside a `\r\n` pair.
pub open spec fn is_step_offset(t: Seq<char>, offset: int) -> bool {
    exists|k: int| is_stop(t, k) && text_width(t.take(k)) == offset
}

/// Where character `k` of a token lies: the lines crossed from the token's
/// first line, the column in characters (counted from `col0` on the first
/// line, from 0 on any other), and the byte offset of that column in its line
/// (counted from the token's start on the first line).
pub open spec fn token_pos(t: Seq<char>, col0: int, k: int) -> (int, int, int) {
    let lines = breaks_before(t, k);
    let start = line_start(t, k);
    (
        lines as int,
        if lines == 0 {
            col0 + k
        } else {
            k - start
        },
        text_width(t.subrange(start, k)) as int,
    )
}

/// Occurrences of `c` in `s`.
pub open spec fn count_char(s: Seq<char>, c: char) -> nat
    decreases s.len(),
{
    if s.len() == 0 {
        0
    } else {
        count_char(s.drop_last(), c) + if s.last() == c {
            1nat
        } else {
            0nat
        }
    }
}

/// Occurrences of the pair `\r\n` in `s`.
pub open spec fn count_crlf(s: Seq<char>) -> nat
    decreases s.len(),
{
    if s.len() < 2 {
        0
    } else {
        count_crlf(s.drop_last()) + if s[s.len() - 2] == '\r' && s.last() == '\n' {
            1nat
        } else {
            0nat
        }
    }
}

proof fn lemma_breaks_counted(t: Seq<char>, k: int)
    requires
        0 <= k <= t.len(),
    ensures
        breaks_before(t, k) + count_crlf(t.take(k)) + (if splits_crlf(t, k) {
            1int
        } else {
            0int
        }) == count_char(t.take(k), '\n') + count_char(t.take(k), '\r'),
    decreases k,
{
    if k > 0 {
        lemma_breaks_counted(t, k - 1);
        let s = t.take(k);
        assert(s.drop_last() =~= t.take(k - 1));
        assert(s.last() == t[k - 1]);
        if k >= 2 {
            assert(s[s.len() - 2] == t[k - 2]);
        }
    } else {
        assert(t.take(0) =~= Seq::<char>::empty());
    }
}

/// The number of lines the walk crosses up to a stopping position `k` is the
/// number of `\n` in the first `k` characters plus the number of `\r` there
/// that do not begin a `\r\n` pair.
pub proof fn lemma_line_breaks(t: Seq<char>, k: int)
    requires
        is_stop(t, k),
    ensures
        breaks_before(t, k) == count_char(t.take(k), '\n') + (count_char(t.take(k), '\r')
            - count_crlf(t.take(k))),
{
    lemma_breaks_counted(t, k);
}

/// At offset 0 the walk stops at once: no line crossed, the token's own start
/// column, byte 0.
pub proof fn lemma_offset_zero(t: Seq<char>, col0: int)
    ensures
        is_step_offset(t, 0),
        token_pos(t, col0, 0) == (0int, col0, 0int),
{
    assert(t.take(0) =~= Seq::<char>::empty());
    assert(t.subrange(0, 0) =~= Seq::<char>::empty());
    assert(is_stop(t, 0) && text_width(t.take(0)) == 0);
}

proof fn lemma_width_step(t: Seq<char>, a: int, k: int)
    requires
        0 <= a <= k < t.len(),
    ensures
        text_width(t.subrange(a, k + 1)) == text_width(t.subrange(a, k)) + char_width(t[k]),
{
    assert(t.subrange(a, k + 1).drop_last() =~= t.subrange(a, k));
}

proof fn lemma_line_start_bounds(t: Seq<char>, k: int)
    requires
        0 <= k,
    ensures
        0 <= line_start(t, k) <= k,
    decreases k,
{
    if k > 0 {
        lemma_line_start_bounds(t, k - 1);
    }
}

proof fn lemma_width_grows(t: Seq<char>, a: int, b: int)
    requires
        0 <= a < b <= t.len(),
    ensures
        text_width(t.take(a)) < text_width(t.take(b)),
    decreases b - a,
{
    assert(t.take(b) =~= t.subrange(0, b));
    assert(t.take(b - 1) =~= t.subrange(0, b - 1));
    lemma_width_step(t, 0, b - 1);
    if a < b - 1 {
        lemma_width_grows(t, a, b - 1);
    }
}

/// Bytes in the UTF-8 encoding of `c`.
fn width_of(c: char) -> (r: usize)
    ensures
        r == char_width(c),
{
    let v = c as u32;
    if v < 0x80 {
        1
    } else if v < 0x800 {
        2
    } else if v < 0x10000 {
        3
    } else {
        4
    }
}

/// The position of byte `byte_idx` of `token`, whose first character stands at
/// column `column0`: `Some((lines crossed, column, byte offset in the line))`,
/// or `None` where the offset is not one at which the walk stops (inside a
/// character, between `\r` and `\n`, or past the end).
pub fn try_token_line_col(token: &str, column0: usize, byte_idx: usize) -> (r: Option<(usize, usize, usize)>)
    requires
        column0 + byte_idx <= usize::MAX,
    ensures
        r is Some <==> is_step_offset(token@, byte_idx as int),
        byte_idx == 0 ==> r == Some((0usize, column0, 0usize)),
        forall|k: int|
            is_stop(token@, k) && text_width(#[trigger] token@.take(k)) == byte_idx ==> {
                let (l, c, b) = r->0;
                (l as int, c as int, b as int) == token_pos(token@, column0 as int, k)
            },
{
    proof {
        lemma_offset_zero(token@, column0 as int);
    }
    let chars = chars_of(token);
    let ghost t = token@;
    let n = chars.len();
    let mut i: usize = 0;
    let mut consumed: usize = 0;
    let mut line: usize = 0;
    let mut col: usize = column0;
    let mut col_byte: usize = 0;
    assert(t.take(0) =~= Seq::<char>::empty());
    assert(t.subrange(0, 0) =~= Seq::<char>::empty());
    while consumed < byte_idx
        invariant
            t == token@,
            chars@ == t,
            n == t.len(),
            column0 + byte_idx <= usize::MAX,
            i <= n,
            i <= consumed,
            line <= i,
            col <= column0 + i,
            consumed <= byte_idx,
            consumed == text_width(t.take(i as int)),
            is_stop(t, i as int),
            line == breaks_before(t, i as int),
            col as int == token_pos(t, column0 as int, i as int).1,
            col_byte == text_width(t.subrange(line_start(t, i as int), i as int)),
            col_byte <= consumed,
        decreases n - i,
    {
        if i == n {
            assert(!is_step_offset(t, byte_idx as int)) by {
                assert forall|k: int| is_stop(t, k) implies text_width(t.take(k)) != byte_idx by {
                    if k < n {
                        lemma_width_grows(t, k, n as int);
                    }
                }
            }
            return None;
        }
        let c = chars[i];
        let w = width_of(c);
        proof {
            assert(t.take(i as int) =~= t.subrange(0, i as int));
            assert(t.take(i + 1) =~= t.subrange(0, i + 1));
            lemma_width_step(t, 0, i as int);
        }
        if w > byte_idx - consumed {
            assert(!is_step_offset(t, byte_idx as int)) by {
                assert forall|k: int| is_stop(t, k) implies text_width(t.take(k)) != byte_idx by {
                    if k < i {
                        lemma_width_grows(t, k, i as int);
                    } else if k > i + 1 {
                        lemma_width_grows(t, i + 1, k);
                    }
                }
            }
            return None;
        }
        let ghost at = i as int;
        proof {
            lemma_line_start_bounds(t, at);
            lemma_width_step(t, line_start(t, at), at);
        }
        consumed = consumed + w;
        i = i + 1;
        if c == '\r' && i < n && chars[i] == '\n' {
            if consumed == byte_idx {
                assert(!is_step_offset(t, byte_idx as int)) by {
                    assert forall|k: int| is_stop(t, k) implies text_width(t.take(k)) != byte_idx by {
                        if k < i {
                            lemma_width_grows(t, k, i as int);
                        } else if k > i {
                            lemma_width_grows(t, i as int, k);
                        }
                    }
                }
                return None;
            }
            proof {
                assert(t.take(i as int) =~= t.subrange(0, i as int));
                assert(t.take(i + 1) =~= t.subrange(0, i + 1));
                lemma_width_step(t, 0, i as int);
                assert(breaks_before(t, at + 1) == breaks_before(t, at));
                assert(breaks_before(t, at + 2) == breaks_before(t, at + 1) + 1);
                assert(line_start(t, at + 2) == at + 2);
            }
            consumed = consumed + 1;
            i = i + 1;
            line = line + 1;
            col = 0;
            col_byte = 0;
            assert(t.subrange(i as int, i as int) =~= Seq::<char>::empty());
        } else if c == '\r' || c == '\n' {
            line = line + 1;
            col = 0;
            col_byte = 0;
            assert(t.subrange(i as int, i as int) =~= Seq::<char>::empty());
        } else {
            col = col + 1;
            col_byte = col_byte + w;
        }
    }
    proof {
        assert forall|k: int| is_stop(t, k) && text_width(#[trigger] t.take(k)) == byte_idx implies k
            == i by {
            if k < i {
                lemma_width_grows(t, k, i as int);
            } else if k > i {
                lemma_width_grows(t, i as int, k);
            }
        }
    }
    Some((line, col, col_byte))
}

/// The position of byte `byte_idx` of `token`, whose first character stands at
/// column `column0`: the lines crossed from the token's first line, the column
/// in characters, and the byte offset of that column within its line.
pub fn get_token_line_col(token: &str, column0: usize, byte_idx: usize) -> (r: (usize, usize, usize))
    requires
        column0 + byte_idx <= usize::MAX,
        is_step_offset(token@, byte_idx as int),
    ensures
        forall|k: int|
            is_stop(token@, k) && text_width(#[trigger] token@.take(k)) == byte_idx ==> (
            r.0 as int,
            r.1 as int,
            r.2 as int,
        ) == token_pos(token@, column0 as int, k),
        byte_idx == 0 ==> r == (0usize, column0, 0usize),
{
    match try_token_line_col(token, column0, byte_idx) {
        Some(pos) => pos,
        None => (0, column0, 0),
    }
}

} // verus!
