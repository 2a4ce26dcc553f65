//! The lines of a text: where each begins and ends, and which line a byte
//! lies on.

use vstd::prelude::*;

verus! {

/// Byte `i` of `src` ends a line: a `\n`, or a `\r` that no `\n` follows (the
/// line break of a `\r\n` pair is at its `\n`).
pub open spec fn breaks_at(src: Seq<u8>, i: int) -> bool {
    src[i] == 10 || (src[i] == 13 && !(i + 1 < src.len() && src[i + 1] == 10))
}

/// Index of the first line break of `src` at or after `from`, or the length
/// of `src` when there is none.
pub open spec fn next_break(src: Seq<u8>, from: int) -> int
    decreases src.len() - from,
{
    if from < 0 || from >= src.len() {
        src.len() as int
    } else if breaks_at(src, from) {
        from
    } else {
        next_break(src, from + 1)
    }
}

/// Where line `n` of `src` starts (it exists when this is before the end).
pub open spec fn line_begin(src: Seq<u8>, n: nat) -> int
    decreases n,
{
    if n == 0 {
        0
    } else {
        next_break(src, line_begin(src, (n - 1) as nat)) + 1
    }
}

/// The byte range of line `n` of `src`, without its line ending (`\n`,
/// `\r\n` or a lone `\r`); none when the text has fewer lines.
pub open spec fn line_range(src: Seq<u8>, n: nat) -> Option<(int, int)> {
    let start = line_begin(src, n);
    if start >= src.len() {
        None
    } else {
        let nl = next_break(src, start);
        let end = if nl < src.len() && src[nl] == 10 && nl > start && src[nl - 1] == 13 {
            nl - 1
        } else {
            nl
        };
        Some((start, end))
    }
}

pub proof fn lemma_next_break_bounds(src: Seq<u8>, from: int)
    requires
        0 <= from,
    ensures
        from <= next_break(src, from) || from > src.len(),
        next_break(src, from) <= src.len(),
        next_break(src, from) < src.len() ==> breaks_at(src, next_break(src, from)),
    decreases src.len() - from,
{
    if from < src.len() && !breaks_at(src, from) {
        lemma_next_break_bounds(src, from + 1);
    }
}

pub proof fn lemma_lines_end(src: Seq<u8>, n: nat, m: nat)
    requires
        n <= m,
        line_begin(src, n) >= src.len(),
    ensures
        line_begin(src, m) >= src.len(),
    decreases m - n,
{
    if n < m {
        lemma_lines_end(src, n, (m - 1) as nat);
        lemma_line_begin_nonneg(src, (m - 1) as nat);
        lemma_next_break_bounds(src, line_begin(src, (m - 1) as nat));
    }
}

pub proof fn lemma_line_begin_nonneg(src: Seq<u8>, n: nat)
    ensures
        0 <= line_begin(src, n),
    decreases n,
{
    if n > 0 {
        lemma_line_begin_nonneg(src, (n - 1) as nat);
        lemma_next_break_bounds(src, line_begin(src, (n - 1) as nat));
    }
}

/// The byte ranges of the lines of `src`, in order.
pub fn line_table(src: &[u8]) -> (r: Vec<(usize, usize)>)
    ensures
        forall|n: int| 0 <= n < r@.len() ==> line_range(src@, n as nat) == Some(
            ((#[trigger] r@[n]).0 as int, r@[n].1 as int),
        ),
        forall|n: nat| n >= r@.len() ==> line_range(src@, n) is None,
{
    let mut r: Vec<(usize, usize)> = Vec::new();
    let mut start: usize = 0;
    while start < src.len()
        invariant
            start <= src@.len(),
            start < src@.len() ==> start as int == line_begin(src@, r@.len() as nat),
            start == src@.len() ==> line_begin(src@, r@.len() as nat) >= src@.len(),
            forall|n: int| 0 <= n < r@.len() ==> line_range(src@, n as nat) == Some(
                ((#[trigger] r@[n]).0 as int, r@[n].1 as int),
            ),
        decreases src@.len() - start,
    {
        let mut i: usize = start;
        while i < src.len() && src[i] != 10 && !(src[i] == 13 && !(i + 1 < src.len() && src[i
            + 1] == 10))
            invariant
                start <= i <= src@.len(),
                next_break(src@, start as int) == next_break(src@, i as int),
            decreases src@.len() - i,
        {
            i += 1;
        }
        let end = if i < src.len() && src[i] == 10 && i > start && src[i - 1] == 13 {
            i - 1
        } else {
            i
        };
        r.push((start, end));
        start = if i < src.len() {
            i + 1
        } else {
            i
        };
        proof {
            lemma_line_begin_nonneg(src@, r@.len() as nat);
        }
    }
    proof {
        assert forall|n: nat| n >= r@.len() implies line_range(src@, n) is None by {
            lemma_lines_end(src@, r@.len() as nat, n);
        }
    }
    r
}

/// Line `n` begins at or before byte `p`, and the next line begins after it.
pub open spec fn on_line(src: Seq<u8>, p: int, n: nat) -> bool {
    line_begin(src, n) <= p < line_begin(src, n + 1)
}

proof fn lemma_line_begin_grows(src: Seq<u8>, a: nat, b: nat)
    requires
        a < b,
        line_begin(src, (b - 1) as nat) < src.len(),
    ensures
        line_begin(src, a) < line_begin(src, b),
    decreases b - a,
{
    lemma_line_begin_nonneg(src, (b - 1) as nat);
    lemma_next_break_bounds(src, line_begin(src, (b - 1) as nat));
    if a < b - 1 {
        if line_begin(src, (b - 2) as nat) >= src.len() {
            lemma_lines_end(src, (b - 2) as nat, (b - 1) as nat);
        }
        lemma_line_begin_grows(src, a, (b - 1) as nat);
    }
}

/// A byte of the text lies on one line only.
pub proof fn lemma_one_line(src: Seq<u8>, p: int, a: nat, b: nat)
    requires
        p < src.len(),
        on_line(src, p, a),
        on_line(src, p, b),
    ensures
        a == b,
{
    if a + 1 < b {
        if line_begin(src, (b - 1) as nat) >= src.len() {
            lemma_lines_end(src, (b - 1) as nat, b);
        }
        lemma_line_begin_grows(src, a + 1, b);
    } else if b + 1 < a {
        if line_begin(src, (a - 1) as nat) >= src.len() {
            lemma_lines_end(src, (a - 1) as nat, a);
        }
        lemma_line_begin_grows(src, b + 1, a);
    }
}

/// The line that byte `p` of a text with line table `lines` lies on.
pub fn locate_line(src: &[u8], lines: &Vec<(usize, usize)>, p: usize) -> (r: usize)
    requires
        p < src@.len(),
        forall|n: int| 0 <= n < lines@.len() ==> line_range(src@, n as nat) == Some(
            ((#[trigger] lines@[n]).0 as int, lines@[n].1 as int),
        ),
        forall|n: nat| n >= lines@.len() ==> line_range(src@, n) is None,
    ensures
        r < lines@.len(),
        on_line(src@, p as int, r as nat),
{
    assert(line_range(src@, 0) is Some);
    let mut lo: usize = 0;
    let mut hi: usize = lines.len();
    while hi - lo > 1
        invariant
            lo < hi <= lines@.len(),
            line_begin(src@, lo as nat) <= p,
            hi == lines@.len() || line_begin(src@, hi as nat) > p,
            forall|n: int| 0 <= n < lines@.len() ==> line_range(src@, n as nat) == Some(
                ((#[trigger] lines@[n]).0 as int, lines@[n].1 as int),
            ),
            forall|n: nat| n >= lines@.len() ==> line_range(src@, n) is None,
        decreases hi - lo,
    {
        let mid = lo + (hi - lo) / 2;
        assert(line_range(src@, mid as nat) == Some(
            (lines@[mid as int].0 as int, lines@[mid as int].1 as int),
        ));
        if lines[mid].0 <= p {
            lo = mid;
        } else {
            hi = mid;
        }
    }
    if lo + 1 == lines.len() {
        assert(line_range(src@, (lo + 1) as nat) is None);
    }
    lo
}

} // verus!
