//! The report: match records rendered as the lines a user reads, grouped
//! under a file header or each prefixed with the file path, with optional
//! escape sequences around the highlighted parts.

use vstd::prelude::*;
use vstd::string::StringSliceAdditionalSpecFns;
use vstd::utf8::{encode_utf8, valid_utf8};

use crate::classify::{KindNames, NodeKinds};
use crate::query::{
    file_query_records, record_views, run_query, CaptureFilter, CaptureSpan, CompiledQuery,
    QueryRecord,
};
use crate::search::{file_records, file_skipped, file_unplaced, pattern_ok, search_file, LiteralPattern, MatchRecord};
use crate::lines::{
    lemma_line_begin_nonneg, lemma_next_break_bounds, line_begin, line_range, line_table,
};
use crate::tree::{span_text, ParsedFile};

verus! {

/// The escape sequences written around the file path, the line number and the
/// highlighted text: all empty for plain output.
pub struct Palette {
    pub path_on: String,
    pub path_off: String,
    pub line_on: String,
    pub line_off: String,
    pub match_on: String,
    pub match_off: String,
}

impl Palette {
    /// No escape sequences at all.
    pub fn plain() -> (r: Palette)
        ensures
            r.path_on@.len() == 0 && r.path_off@.len() == 0,
            r.line_on@.len() == 0 && r.line_off@.len() == 0,
            r.match_on@.len() == 0 && r.match_off@.len() == 0,
    {
        Palette {
            path_on: String::new(),
            path_off: String::new(),
            line_on: String::new(),
            line_off: String::new(),
            match_on: String::new(),
            match_off: String::new(),
        }
    }
}

/// How records are laid out.
#[derive(Clone, Copy, Debug, PartialEq, Eq, Structural)]
pub struct ReportOptions {
    /// Print the file path once, as a header above its matches, rather than
    /// before each match.
    pub group: bool,
    /// Print the column after the line number.
    pub column: bool,
}

/// The bytes of a string.
pub open spec fn bytes_of(s: String) -> Seq<u8> {
    encode_utf8(s@)
}

/// The decimal digits of `n`.
pub open spec fn decimal(n: nat) -> Seq<u8>
    decreases n,
{
    if n < 10 {
        seq![(48 + n) as u8]
    } else {
        decimal(n / 10).push((48 + n % 10) as u8)
    }
}

fn put(out: &mut Vec<u8>, bytes: &[u8])
    ensures
        final(out)@ == old(out)@ + bytes@,
{
    let mut i: usize = 0;
    while i < bytes.len()
        invariant
            i <= bytes@.len(),
            out@ == old(out)@ + bytes@.take(i as int),
        decreases bytes@.len() - i,
    {
        out.push(bytes[i]);
        assert(bytes@.take(i + 1) =~= bytes@.take(i as int).push(bytes@[i as int]));
        i += 1;
    }
    assert(bytes@.take(bytes@.len() as int) =~= bytes@);
}

fn put_str(out: &mut Vec<u8>, s: &String)
    ensures
        final(out)@ == old(out)@ + bytes_of(*s),
{
    put(out, s.as_str().as_bytes());
}

fn put_decimal(out: &mut Vec<u8>, n: u128)
    ensures
        final(out)@ == old(out)@ + decimal(n as nat),
    decreases n,
{
    if n >= 10 {
        put_decimal(out, n / 10);
    }
    out.push(48 + (n % 10) as u8);
    proof {
        if n >= 10 {
            assert(decimal(n as nat) == decimal((n / 10) as nat).push((48 + n % 10) as u8));
        }
    }
    assert(final(out)@ =~= old(out)@ + decimal(n as nat));
}

/// The path printed before a match when matches are not grouped.
pub open spec fn path_prefix(path: Seq<u8>, pal: &Palette, opts: ReportOptions) -> Seq<u8> {
    if opts.group {
        seq![]
    } else {
        bytes_of(pal.path_on) + path + bytes_of(pal.path_off) + seq![58u8]
    }
}

/// The header above a file's matches: a blank line first unless it is the
/// first file reported.
pub open spec fn file_header(path: Seq<u8>, pal: &Palette, first: bool) -> Seq<u8> {
    (if first {
        Seq::<u8>::empty()
    } else {
        seq![10u8]
    }) + bytes_of(pal.path_on) + path + bytes_of(pal.path_off) + seq![10u8]
}

/// The line number, from 1, and its separator.
pub open spec fn line_label(row: nat, pal: &Palette) -> Seq<u8> {
    bytes_of(pal.line_on) + decimal(row + 1) + bytes_of(pal.line_off) + seq![58u8]
}

/// The line number, from 1, then the column, from 1, when columns are shown.
pub open spec fn position_label(rec: MatchRecord, pal: &Palette, opts: ReportOptions) -> Seq<u8> {
    line_label(rec.line as nat, pal) + if opts.column {
        decimal((rec.column + 1) as nat) + seq![58u8]
    } else {
        Seq::<u8>::empty()
    }
}

/// Line `l` with bytes `[cb, end)` highlighted.
pub open spec fn highlighted_line(l: Seq<u8>, cb: int, end: int, pal: &Palette) -> Seq<u8> {
    l.take(cb) + bytes_of(pal.match_on) + l.subrange(cb, end) + bytes_of(pal.match_off) + l.skip(end)
}

/// The printed line of one match record: the line's text with the match
/// highlighted; nothing when the line or the match span is not in the text.
pub open spec fn match_line(
    path: Seq<u8>,
    src: Seq<u8>,
    rec: MatchRecord,
    pal: &Palette,
    opts: ReportOptions,
) -> Seq<u8> {
    match line_range(src, rec.line as nat) {
        None => seq![],
        Some((s, e)) => {
            let l = src.subrange(s, e);
            let cb = rec.column_byte as int;
            let end = cb + rec.length;
            if end > l.len() {
                seq![]
            } else {
                path_prefix(path, pal, opts) + position_label(rec, pal, opts) + highlighted_line(
                    l,
                    cb,
                    end,
                    pal,
                ) + seq![10u8]
            }
        },
    }
}

/// The printed lines of the first `n` records.
pub open spec fn match_lines(
    path: Seq<u8>,
    src: Seq<u8>,
    recs: Seq<MatchRecord>,
    n: int,
    pal: &Palette,
    opts: ReportOptions,
) -> Seq<u8>
    decreases n,
{
    if n <= 0 {
        seq![]
    } else {
        match_lines(path, src, recs, n - 1, pal, opts) + match_line(path, src, recs[n - 1], pal, opts)
    }
}

/// The report of one file's pattern matches.
pub open spec fn match_report(
    path: Seq<u8>,
    src: Seq<u8>,
    recs: Seq<MatchRecord>,
    pal: &Palette,
    opts: ReportOptions,
    first: bool,
) -> Seq<u8> {
    headed(path, pal, opts, first, match_lines(path, src, recs, recs.len() as int, pal, opts))
}

/// The lines of one file's report, with the file header above them when
/// matches are grouped and there is a line to print.
pub open spec fn headed(path: Seq<u8>, pal: &Palette, opts: ReportOptions, first: bool, body: Seq<u8>) -> Seq<u8> {
    (if opts.group && body.len() > 0 {
        file_header(path, pal, first)
    } else {
        Seq::<u8>::empty()
    }) + body
}

fn with_header(path: &[u8], pal: &Palette, opts: ReportOptions, first: bool, body: Vec<u8>) -> (r: Vec<u8>)
    ensures
        r@ == headed(path@, pal, opts, first, body@),
{
    let mut out: Vec<u8> = Vec::new();
    if opts.group && body.len() > 0 {
        put_header(&mut out, path, pal, first);
    }
    put(&mut out, body.as_slice());
    assert(out@ =~= headed(path@, pal, opts, first, body@));
    out
}

fn put_prefix(out: &mut Vec<u8>, path: &[u8], pal: &Palette, opts: ReportOptions)
    ensures
        final(out)@ == old(out)@ + path_prefix(path@, pal, opts),
{
    if !opts.group {
        put_str(out, &pal.path_on);
        put(out, path);
        put_str(out, &pal.path_off);
        out.push(58);
    }
    assert(final(out)@ =~= old(out)@ + path_prefix(path@, pal, opts));
}

fn put_header(out: &mut Vec<u8>, path: &[u8], pal: &Palette, first: bool)
    ensures
        final(out)@ == old(out)@ + file_header(path@, pal, first),
{
    if !first {
        out.push(10);
    }
    put_str(out, &pal.path_on);
    put(out, path);
    put_str(out, &pal.path_off);
    out.push(10);
    assert(final(out)@ =~= old(out)@ + file_header(path@, pal, first));
}

fn put_label(out: &mut Vec<u8>, row: usize, pal: &Palette)
    ensures
        final(out)@ == old(out)@ + line_label(row as nat, pal),
{
    put_str(out, &pal.line_on);
    put_decimal(out, row as u128 + 1);
    put_str(out, &pal.line_off);
    out.push(58);
    assert(final(out)@ =~= old(out)@ + line_label(row as nat, pal));
}

fn put_match_line(
    out: &mut Vec<u8>,
    path: &[u8],
    src: &[u8],
    lines: &Vec<(usize, usize)>,
    rec: MatchRecord,
    pal: &Palette,
    opts: ReportOptions,
)
    requires
        forall|n: int| 0 <= n < lines@.len() ==> line_range(src@, n as nat) == Some(
            ((#[trigger] lines@[n]).0 as int, lines@[n].1 as int),
        ),
        forall|n: nat| n >= lines@.len() ==> line_range(src@, n) is None,
    ensures
        final(out)@ == old(out)@ + match_line(path@, src@, rec, pal, opts),
{
    if rec.line >= lines.len() {
        assert(old(out)@ =~= old(out)@ + match_line(path@, src@, rec, pal, opts));
        return;
    }
    let (s, e) = lines[rec.line];
    proof {
        lemma_line_begin_nonneg(src@, rec.line as nat);
        lemma_next_break_bounds(src@, line_begin(src@, rec.line as nat));
    }
    let l = vstd::slice::slice_subrange(src, s, e);
    let cb = rec.column_byte;
    if cb > l.len() || rec.length > l.len() - cb {
        assert(old(out)@ =~= old(out)@ + match_line(path@, src@, rec, pal, opts));
        return;
    }
    let end = cb + rec.length;
    put_prefix(out, path, pal, opts);
    let ghost after_prefix = out@;
    put_position(out, rec, pal, opts);
    let ghost after_label = out@;
    put_highlighted(out, l, cb, end, pal);
    let ghost after_text = out@;
    out.push(10);
    assert(after_prefix =~= old(out)@ + path_prefix(path@, pal, opts));
    assert(final(out)@ =~= old(out)@ + match_line(path@, src@, rec, pal, opts));
}

fn put_position(out: &mut Vec<u8>, rec: MatchRecord, pal: &Palette, opts: ReportOptions)
    ensures
        final(out)@ == old(out)@ + position_label(rec, pal, opts),
{
    put_label(out, rec.line, pal);
    if opts.column {
        put_decimal(out, rec.column as u128 + 1);
        out.push(58);
    }
    assert(final(out)@ =~= old(out)@ + position_label(rec, pal, opts));
}

fn put_highlighted(out: &mut Vec<u8>, l: &[u8], cb: usize, end: usize, pal: &Palette)
    requires
        cb <= end <= l@.len(),
    ensures
        final(out)@ == old(out)@ + highlighted_line(l@, cb as int, end as int, pal),
{
    put(out, vstd::slice::slice_subrange(l, 0, cb));
    put_str(out, &pal.match_on);
    put(out, vstd::slice::slice_subrange(l, cb, end));
    put_str(out, &pal.match_off);
    put(out, vstd::slice::slice_subrange(l, end, l.len()));
    assert(l@.subrange(0, cb as int) =~= l@.take(cb as int));
    assert(l@.subrange(end as int, l@.len() as int) =~= l@.skip(end as int));
    assert(final(out)@ =~= old(out)@ + highlighted_line(l@, cb as int, end as int, pal));
}

/// The report of one file's pattern matches: the header when matches are
/// grouped and there are any, then one line per record whose line and span
/// are in the text, the match highlighted.
pub fn render_matches(
    path: &str,
    source: &str,
    records: &Vec<MatchRecord>,
    pal: &Palette,
    opts: ReportOptions,
    first: bool,
) -> (r: Vec<u8>)
    ensures
        r@ == match_report(path.spec_bytes(), source.spec_bytes(), records@, pal, opts, first),
{
    let p = path.as_bytes();
    let src = source.as_bytes();
    let lines = line_table(src);
    let mut out: Vec<u8> = Vec::new();
    let ghost head = out@;
    let mut i: usize = 0;
    assert(head =~= head + match_lines(p@, src@, records@, 0, pal, opts));
    while i < records.len()
        invariant
            i <= records@.len(),
            forall|n: int| 0 <= n < lines@.len() ==> line_range(src@, n as nat) == Some(
                ((#[trigger] lines@[n]).0 as int, lines@[n].1 as int),
            ),
            forall|n: nat| n >= lines@.len() ==> line_range(src@, n) is None,
            out@ == head + match_lines(p@, src@, records@, i as int, pal, opts),
        decreases records@.len() - i,
    {
        put_match_line(&mut out, p, src, &lines, records[i], pal, opts);
        assert(out@ =~= head + match_lines(p@, src@, records@, i + 1, pal, opts));
        i += 1;
    }
    assert(out@ =~= match_lines(p@, src@, records@, records@.len() as int, pal, opts));
    with_header(p, pal, opts, first, out)
}

/// `n` spaces.
pub open spec fn spaces(n: nat) -> Seq<u8> {
    Seq::new(n, |i: int| 32u8)
}

/// Bytes `[from, to)` of `t`, each line break followed by `indent` spaces so
/// that the following lines stand under the first.
pub open spec fn indented(t: Seq<u8>, from: int, to: int, indent: nat) -> Seq<u8>
    decreases to - from,
{
    if to <= from {
        seq![]
    } else {
        indented(t, from, to - 1, indent) + seq![t[to - 1]] + if t[to - 1] == 10 {
            spaces(indent)
        } else {
            Seq::<u8>::empty()
        }
    }
}

/// `x`, brought into `[lo, hi]`.
pub open spec fn clamp(x: int, lo: int, hi: int) -> int {
    if x < lo {
        lo
    } else if x > hi {
        hi
    } else {
        x
    }
}

/// The text `t`, which starts at byte `base` of the file, from `pos` on, with
/// the ranges `hs` (file offsets, in order) highlighted; a range that starts
/// before the end of the previous one is cut to begin there.
pub open spec fn marked(t: Seq<u8>, hs: Seq<(usize, usize)>, base: int, pos: int, indent: nat, pal: &Palette) -> Seq<u8>
    decreases hs.len(),
{
    if hs.len() == 0 {
        indented(t, pos, t.len() as int, indent)
    } else {
        let s = clamp(hs[0].0 - base, pos, t.len() as int);
        let e = clamp(hs[0].1 - base, s, t.len() as int);
        indented(t, pos, s, indent) + bytes_of(pal.match_on) + indented(t, s, e, indent) + bytes_of(
            pal.match_off,
        ) + marked(t, hs.drop_first(), base, e, indent, pal)
    }
}

/// The printed lines of one query match: the line number of its node, then the
/// node's text with the other captures highlighted; nothing when the node's
/// range is not in the text.
pub open spec fn node_lines(
    path: Seq<u8>,
    src: Seq<u8>,
    node: CaptureSpan,
    hs: Seq<(usize, usize)>,
    pal: &Palette,
    opts: ReportOptions,
) -> Seq<u8> {
    if !node_decodes(src, node) {
        seq![]
    } else {
        let t = src.subrange(node.start_byte as int, node.end_byte as int);
        let indent = decimal((node.start_row + 1) as nat).len() + 1;
        path_prefix(path, pal, opts) + line_label(node.start_row as nat, pal) + marked(
            t,
            hs,
            node.start_byte as int,
            0,
            indent,
            pal,
        ) + seq![10u8]
    }
}

/// The node's range lies in the text and holds valid UTF-8.
pub open spec fn node_decodes(src: Seq<u8>, node: CaptureSpan) -> bool {
    node.start_byte <= node.end_byte <= src.len() && valid_utf8(
        src.subrange(node.start_byte as int, node.end_byte as int),
    )
}

/// The ranges of the first `n` records' nodes that are not text, skipped.
pub open spec fn query_skipped(src: Seq<u8>, recs: Seq<(CaptureSpan, Seq<(usize, usize)>)>, n: int) -> Seq<
    (usize, usize),
>
    decreases n,
{
    if n <= 0 {
        seq![]
    } else {
        query_skipped(src, recs, n - 1) + if node_decodes(src, recs[n - 1].0) {
            Seq::<(usize, usize)>::empty()
        } else {
            seq![(recs[n - 1].0.start_byte, recs[n - 1].0.end_byte)]
        }
    }
}

/// The printed lines of the first `n` query records.
pub open spec fn query_lines(
    path: Seq<u8>,
    src: Seq<u8>,
    recs: Seq<(CaptureSpan, Seq<(usize, usize)>)>,
    n: int,
    pal: &Palette,
    opts: ReportOptions,
) -> Seq<u8>
    decreases n,
{
    if n <= 0 {
        seq![]
    } else {
        query_lines(path, src, recs, n - 1, pal, opts) + node_lines(
            path,
            src,
            recs[n - 1].0,
            recs[n - 1].1,
            pal,
            opts,
        )
    }
}

/// The report of one file's query matches.
pub open spec fn query_report(
    path: Seq<u8>,
    src: Seq<u8>,
    recs: Seq<(CaptureSpan, Seq<(usize, usize)>)>,
    pal: &Palette,
    opts: ReportOptions,
    first: bool,
) -> Seq<u8> {
    headed(path, pal, opts, first, query_lines(path, src, recs, recs.len() as int, pal, opts))
}

fn put_indented(out: &mut Vec<u8>, t: &[u8], from: usize, to: usize, indent: usize)
    requires
        from <= to <= t@.len(),
    ensures
        final(out)@ == old(out)@ + indented(t@, from as int, to as int, indent as nat),
{
    let mut i: usize = from;
    while i < to
        invariant
            from <= i <= to <= t@.len(),
            out@ == old(out)@ + indented(t@, from as int, i as int, indent as nat),
        decreases to - i,
    {
        let ghost before = out@;
        out.push(t[i]);
        if t[i] == 10 {
            let mut k: usize = 0;
            while k < indent
                invariant
                    k <= indent,
                    out@ == before.push(t@[i as int]) + spaces(k as nat),
                decreases indent - k,
            {
                out.push(32);
                assert(out@ =~= before.push(t@[i as int]) + spaces((k + 1) as nat));
                k += 1;
            }
        } else {
            assert(out@ =~= before.push(t@[i as int]) + Seq::<u8>::empty());
        }
        assert(out@ =~= old(out)@ + indented(t@, from as int, i + 1, indent as nat));
        i += 1;
    }
}

#[verifier::rlimit(30)]
fn put_marked(out: &mut Vec<u8>, t: &[u8], hs: &Vec<(usize, usize)>, base: usize, indent: usize, pal: &Palette)
    ensures
        final(out)@ == old(out)@ + marked(t@, hs@, base as int, 0, indent as nat, pal),
{
    let len = t.len();
    let mut pos: usize = 0;
    let mut k: usize = 0;
    assert(hs@.skip(0) =~= hs@);
    assert(old(out)@ =~= old(out)@ + Seq::<u8>::empty());
    while k < hs.len()
        invariant
            k <= hs@.len(),
            len == t@.len(),
            pos <= len,
            old(out)@ + marked(t@, hs@, base as int, 0, indent as nat, pal) == out@ + marked(
                t@,
                hs@.skip(k as int),
                base as int,
                pos as int,
                indent as nat,
                pal,
            ),
        decreases hs@.len() - k,
    {
        let (hs0, he0) = hs[k];
        let s = if hs0 < base || hs0 - base < pos {
            pos
        } else if hs0 - base > len {
            len
        } else {
            hs0 - base
        };
        let e = if he0 < base || he0 - base < s {
            s
        } else if he0 - base > len {
            len
        } else {
            he0 - base
        };
        let ghost rest = hs@.skip(k as int);
        let ghost step = indented(t@, pos as int, s as int, indent as nat) + bytes_of(pal.match_on)
            + indented(t@, s as int, e as int, indent as nat) + bytes_of(pal.match_off);
        proof {
            assert(rest[0] == hs@[k as int]);
            assert(rest.drop_first() =~= hs@.skip(k + 1));
            assert(s as int == clamp(hs0 - base, pos as int, len as int));
            assert(e as int == clamp(he0 - base, s as int, len as int));
            assert(marked(t@, rest, base as int, pos as int, indent as nat, pal) == step + marked(
                t@,
                hs@.skip(k + 1),
                base as int,
                e as int,
                indent as nat,
                pal,
            ));
        }
        let ghost before = out@;
        put_indented(out, t, pos, s, indent);
        put_str(out, &pal.match_on);
        put_indented(out, t, s, e, indent);
        put_str(out, &pal.match_off);
        proof {
            assert(out@ =~= before + step);
            let m = marked(t@, hs@.skip(k + 1), base as int, e as int, indent as nat, pal);
            assert(before + (step + m) =~= (before + step) + m);
        }
        pos = e;
        k += 1;
    }
    put_indented(out, t, pos, len, indent);
}

fn put_node_lines(
    out: &mut Vec<u8>,
    path: &[u8],
    src: &[u8],
    node: CaptureSpan,
    hs: &Vec<(usize, usize)>,
    pal: &Palette,
    opts: ReportOptions,
) -> (r: bool)
    ensures
        final(out)@ == old(out)@ + node_lines(path@, src@, node, hs@, pal, opts),
        r == node_decodes(src@, node),
{
    if span_text(src, node.start_byte, node.end_byte).is_none() {
        assert(old(out)@ =~= old(out)@ + node_lines(path@, src@, node, hs@, pal, opts));
        return false;
    }
    let t = vstd::slice::slice_subrange(src, node.start_byte, node.end_byte);
    let mut digits: Vec<u8> = Vec::new();
    put_decimal(&mut digits, node.start_row as u128 + 1);
    assert(digits@ =~= decimal((node.start_row + 1) as nat));
    proof {
        lemma_decimal_short(node.start_row as nat + 1);
    }
    let indent = digits.len() + 1;
    put_prefix(out, path, pal, opts);
    let ghost a = out@;
    put_label(out, node.start_row, pal);
    let ghost b = out@;
    put_marked(out, t, hs, node.start_byte, indent, pal);
    out.push(10);
    assert(final(out)@ =~= old(out)@ + node_lines(path@, src@, node, hs@, pal, opts));
    true
}

proof fn lemma_decimal_short(n: nat)
    ensures
        decimal(n).len() <= n / 10 + 1,
    decreases n,
{
    if n >= 10 {
        lemma_decimal_short(n / 10);
        assert(n / 10 / 10 + 1 <= n / 10) by (nonlinear_arith)
            requires
                n >= 10,
        ;
    }
}

/// A file's report: the bytes to print; the byte ranges of searched nodes
/// that were skipped because they are not text; and the occurrences that could
/// not be placed in their node's text (a node's start byte and an offset in
/// its searched text).
pub struct FileReport {
    pub output: Vec<u8>,
    pub undecodable: Vec<(usize, usize)>,
    pub unplaced: Vec<(usize, usize)>,
}

/// The report of one file's query matches: for each record whose node is
/// text, its line number and its text with the other captures highlighted,
/// under the file header when matches are grouped and a line is printed; and
/// the ranges of the records' nodes that are not text.
pub fn render_query_matches(
    path: &str,
    source: &str,
    records: &Vec<QueryRecord>,
    pal: &Palette,
    opts: ReportOptions,
    first: bool,
) -> (r: FileReport)
    ensures
        r.output@ == query_report(path.spec_bytes(), source.spec_bytes(), record_views(records@), pal, opts, first),
        r.undecodable@ == query_skipped(source.spec_bytes(), record_views(records@), records@.len() as int),
        r.unplaced@.len() == 0,
{
    let p = path.as_bytes();
    let src = source.as_bytes();
    let ghost recs = record_views(records@);
    let mut out: Vec<u8> = Vec::new();
    let mut undecodable: Vec<(usize, usize)> = Vec::new();
    let mut i: usize = 0;
    assert(out@ =~= query_lines(p@, src@, recs, 0, pal, opts));
    while i < records.len()
        invariant
            i <= records@.len(),
            recs == record_views(records@),
            out@ == query_lines(p@, src@, recs, i as int, pal, opts),
            undecodable@ == query_skipped(src@, recs, i as int),
        decreases records@.len() - i,
    {
        let node = records[i].node;
        let ok = put_node_lines(&mut out, p, src, node, &records[i].highlights, pal, opts);
        if !ok {
            undecodable.push((node.start_byte, node.end_byte));
        }
        assert(out@ =~= query_lines(p@, src@, recs, i + 1, pal, opts));
        assert(undecodable@ =~= query_skipped(src@, recs, i + 1));
        i += 1;
    }
    FileReport { output: with_header(p, pal, opts, first, out), undecodable, unplaced: Vec::new() }
}

/// Searches a parsed file for `pattern` and renders the report of what it
/// finds: its nodes in walk order, and the ranges of searched nodes that are
/// not text.
pub fn report_pattern_file(
    file: &ParsedFile,
    path: &str,
    pattern: &LiteralPattern,
    kinds: NodeKinds,
    names: &KindNames,
    pal: &Palette,
    opts: ReportOptions,
    first: bool,
) -> (r: FileReport)
    requires
        pattern_ok(pattern),
    ensures
        r.output@ == match_report(
            path.spec_bytes(),
            encode_utf8(file.text()),
            file_records(file, pattern, kinds, names),
            pal,
            opts,
            first,
        ),
        r.undecodable@ == file_skipped(file, kinds, names),
        r.unplaced@ == file_unplaced(file, pattern, kinds, names),
{
    let found = search_file(file, pattern, kinds, names);
    let output = render_matches(path, file.source(), &found.records, pal, opts, first);
    FileReport { output, undecodable: found.undecodable, unplaced: found.unplaced }
}

/// Runs `query` over a parsed file with `filters` and renders the report of
/// the reported groups, with the ranges of their nodes that are not text.
pub fn report_query_file(
    file: &ParsedFile,
    path: &str,
    query: &CompiledQuery,
    filters: &Vec<CaptureFilter>,
    pal: &Palette,
    opts: ReportOptions,
    first: bool,
) -> (r: FileReport)
    ensures
        ({
            let recs = file_query_records(query, file, filters@);
            &&& r.output@ == query_report(path.spec_bytes(), encode_utf8(file.text()), recs, pal, opts, first)
            &&& r.undecodable@ == query_skipped(encode_utf8(file.text()), recs, recs.len() as int)
            &&& r.unplaced@.len() == 0
        }),
{
    let recs = run_query(query, file, filters);
    render_query_matches(path, file.source(), &recs, pal, opts, first)
}

} // verus!
