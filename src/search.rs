//! Pattern-mode search over a whole file: every node in walk order, each
//! searched one matched against the pattern, each occurrence turned into a
//! record with its line and column.

use vstd::prelude::*;
use vstd::string::StringSliceAdditionalSpecFns;
use vstd::utf8::{decode_utf8, encode_utf8, valid_utf8};

use crate::classify::{
    class_of, classify, is_searched, searched, Classification, KindNames, NodeKinds,
};
use crate::lines::{lemma_line_begin_nonneg, lemma_one_line, line_begin, line_range, line_table, locate_line, on_line};
use crate::matcher::{
    compared_bytes, folded_matches, is_folded, lemma_matches_occur, lower_of, match_token, occurs_at,
    offsets, to_lowercase,
};
use crate::position::{is_step_offset, is_stop, text_width, token_pos, try_token_line_col};
use crate::tree::{span_bytes, span_text, visit, walk_order, ParsedFile, SyntaxNode};

verus! {

/// How letter case is treated.
#[derive(Clone, Copy, Debug, PartialEq, Eq, Structural)]
pub enum Casing {
    /// Case-sensitive only when the pattern holds an uppercase character.
    Smart,
    Sensitive,
    Insensitive,
}

/// Whether a character is uppercase; the character alone decides it.
pub uninterp spec fn upper_char(c: char) -> bool;

/// Relies on char::is_uppercase, which depends on the character alone.
#[verifier::external_body]
fn is_uppercase(c: char) -> (r: bool)
    ensures
        r == upper_char(c),
{
    c.is_uppercase()
}

/// `s` holds an uppercase character.
pub open spec fn has_upper(s: Seq<char>) -> bool {
    exists|i: int| 0 <= i < s.len() && upper_char(#[trigger] s[i])
}

/// A literal pattern ready for matching: its text in the case in which it is
/// compared, whether the comparison is case-sensitive, and whether only whole
/// words count.
pub struct LiteralPattern {
    pub text: String,
    pub case_sensitive: bool,
    pub whole_word: bool,
}

impl LiteralPattern {
    /// Prepares `pattern` under `casing`, folding it to lowercase once, here,
    /// whenever the comparison is not case-sensitive: always when insensitive,
    /// and when smart unless the pattern holds an uppercase character.
    pub fn new(pattern: &str, casing: Casing, whole_word: bool) -> (r: LiteralPattern)
        ensures
            pattern_ok(&r) <==> encode_utf8(r.text@).len() > 0,
            r.text@ == prepared(pattern@, casing),
            r.whole_word == whole_word,
            casing == Casing::Sensitive ==> r.case_sensitive && r.text@ == pattern@,
            casing == Casing::Insensitive ==> !r.case_sensitive && r.text@ == lower_of(pattern@),
            casing == Casing::Smart ==> r.case_sensitive == has_upper(pattern@),
            casing == Casing::Smart && has_upper(pattern@) ==> r.text@ == pattern@,
            casing == Casing::Smart && !has_upper(pattern@) ==> r.text@ == lower_of(pattern@),
            !r.case_sensitive ==> is_folded(r.text@),
    {
        match casing {
            Casing::Sensitive => LiteralPattern { text: pattern.to_owned(), case_sensitive: true, whole_word },
            Casing::Insensitive => LiteralPattern {
                text: to_lowercase(pattern),
                case_sensitive: false,
                whole_word,
            },
            Casing::Smart => {
                let chars = crate::text::chars_of(pattern);
                let mut upper = false;
                let mut i: usize = 0;
                while i < chars.len()
                    invariant
                        chars@ == pattern@,
                        i <= chars@.len(),
                        upper == exists|j: int| 0 <= j < i && upper_char(#[trigger] chars@[j]),
                    decreases chars@.len() - i,
                {
                    if is_uppercase(chars[i]) {
                        upper = true;
                    }
                    i += 1;
                }
                if upper {
                    LiteralPattern { text: pattern.to_owned(), case_sensitive: true, whole_word }
                } else {
                    LiteralPattern { text: to_lowercase(pattern), case_sensitive: false, whole_word }
                }
            },
        }
    }
}

/// A pattern that the search accepts: not empty, and folded when the
/// comparison is not case-sensitive.
pub open spec fn pattern_ok(p: &LiteralPattern) -> bool {
    encode_utf8(p.text@).len() > 0 && (!p.case_sensitive ==> is_folded(p.text@))
}

/// One occurrence found by a pattern search: the line (from 0), the column in
/// characters, the byte offset of that column within its line, and the byte
/// length of the occurrence.
#[derive(Clone, Copy, Debug, PartialEq, Eq, Structural)]
pub struct MatchRecord {
    pub line: usize,
    pub column: usize,
    pub column_byte: usize,
    pub length: usize,
}

/// The record for the occurrence at byte `off` of the text `t` of `node`, in a
/// source `src`, for a pattern of `length` bytes. Its line and the byte offset
/// within that line are those of source byte `node.start_byte + off`; its
/// column, in characters, is counted through the token from the node's start
/// column. None when the offset is not a position of the text, lies past the
/// source, or the column does not fit.
pub open spec fn record_at(node: &SyntaxNode, src: Seq<u8>, t: Seq<char>, off: int, length: usize) -> Option<MatchRecord> {
    if !is_step_offset(t, off) || node.start_column + off > usize::MAX || node.start_byte + off
        >= src.len() {
        None
    } else {
        let k = choose|k: int| is_stop(t, k) && text_width(t.take(k)) == off;
        let (l, c, b) = token_pos(t, node.start_column as int, k);
        let p = node.start_byte + off;
        let n = choose|n: nat| on_line(src, p, n);
        if !on_line(src, p, n) || n > usize::MAX {
            None
        } else {
            Some(
                MatchRecord {
                    line: n as usize,
                    column: c as usize,
                    column_byte: (p - line_begin(src, n)) as usize,
                    length,
                },
            )
        }
    }
}

/// The records for the occurrences at offsets `offs` of the text `t`.
pub open spec fn records_at(node: &SyntaxNode, src: Seq<u8>, t: Seq<char>, offs: Seq<int>, length: usize) -> Seq<MatchRecord>
    decreases offs.len(),
{
    if offs.len() == 0 {
        seq![]
    } else {
        let rest = records_at(node, src, t, offs.drop_last(), length);
        match record_at(node, src, t, offs.last(), length) {
            Some(r) => rest.push(r),
            None => rest,
        }
    }
}

/// The occurrences among offsets `offs` of the text `t` that give no record:
/// the node's start byte and the occurrence's offset in the searched text.
pub open spec fn unplaced_at(node: &SyntaxNode, src: Seq<u8>, t: Seq<char>, offs: Seq<int>, length: usize) -> Seq<(usize, usize)>
    decreases offs.len(),
{
    if offs.len() == 0 {
        seq![]
    } else {
        let rest = unplaced_at(node, src, t, offs.drop_last(), length);
        match record_at(node, src, t, offs.last(), length) {
            Some(r) => rest,
            None => rest.push((node.start_byte, offs.last() as usize)),
        }
    }
}

/// The occurrences in one node that give no record: their offset in the
/// searched (possibly case-folded) text is no position of the node's own
/// text, as when folding changed a character's length.
pub open spec fn node_unplaced(
    node: &SyntaxNode,
    source: Seq<u8>,
    pattern: &LiteralPattern,
    kinds: NodeKinds,
    names: &KindNames,
) -> Seq<(usize, usize)> {
    let c = class_of(names, node.kind@, node.child_count as nat, kinds.identifier);
    let bytes = span_bytes(source, node.start_byte as int, node.end_byte as int);
    if !is_searched(c, kinds) || !(node.start_byte <= node.end_byte <= source.len()
        && valid_utf8(bytes)) {
        seq![]
    } else {
        let t = decode_utf8(bytes);
        let offs = folded_matches(
            compared_bytes(t, pattern.case_sensitive),
            encode_utf8(pattern.text@),
            c == Classification::Identifier,
            pattern.whole_word,
        );
        unplaced_at(node, source, t, offs, encode_utf8(pattern.text@).len() as usize)
    }
}

/// The records that one node gives: none unless it is searched and its text
/// decodes; otherwise one for each occurrence of the pattern in its text.
pub open spec fn node_records(
    node: &SyntaxNode,
    source: Seq<u8>,
    pattern: &LiteralPattern,
    kinds: NodeKinds,
    names: &KindNames,
) -> Seq<MatchRecord> {
    let c = class_of(names, node.kind@, node.child_count as nat, kinds.identifier);
    let bytes = span_bytes(source, node.start_byte as int, node.end_byte as int);
    if !is_searched(c, kinds) || !(node.start_byte <= node.end_byte <= source.len()
        && valid_utf8(bytes)) {
        seq![]
    } else {
        let t = decode_utf8(bytes);
        let offs = folded_matches(
            compared_bytes(t, pattern.case_sensitive),
            encode_utf8(pattern.text@),
            c == Classification::Identifier,
            pattern.whole_word,
        );
        records_at(node, source, t, offs, encode_utf8(pattern.text@).len() as usize)
    }
}

/// A node that is searched but whose byte range is not text of the source:
/// its range, to be reported as skipped.
pub open spec fn node_skipped(node: &SyntaxNode, source: Seq<u8>, kinds: NodeKinds, names: &KindNames) -> Seq<(usize, usize)> {
    let c = class_of(names, node.kind@, node.child_count as nat, kinds.identifier);
    let bytes = span_bytes(source, node.start_byte as int, node.end_byte as int);
    if is_searched(c, kinds) && !(node.start_byte <= node.end_byte <= source.len() && valid_utf8(bytes)) {
        seq![(node.start_byte, node.end_byte)]
    } else {
        seq![]
    }
}

/// The records of the first `n` nodes of `order` (indices into `nodes`; one
/// out of range stands for no node).
pub open spec fn ordered_records(
    nodes: Seq<SyntaxNode>,
    order: Seq<int>,
    n: int,
    source: Seq<u8>,
    pattern: &LiteralPattern,
    kinds: NodeKinds,
    names: &KindNames,
) -> Seq<MatchRecord>
    decreases n,
{
    if n <= 0 {
        seq![]
    } else {
        ordered_records(nodes, order, n - 1, source, pattern, kinds, names) + if 0 <= order[n - 1]
            < nodes.len() {
            node_records(&nodes[order[n - 1]], source, pattern, kinds, names)
        } else {
            Seq::<MatchRecord>::empty()
        }
    }
}

/// The skipped ranges among the first `n` nodes of `order`.
pub open spec fn ordered_skipped(
    nodes: Seq<SyntaxNode>,
    order: Seq<int>,
    n: int,
    source: Seq<u8>,
    kinds: NodeKinds,
    names: &KindNames,
) -> Seq<(usize, usize)>
    decreases n,
{
    if n <= 0 {
        seq![]
    } else {
        ordered_skipped(nodes, order, n - 1, source, kinds, names) + if 0 <= order[n - 1]
            < nodes.len() {
            node_skipped(&nodes[order[n - 1]], source, kinds, names)
        } else {
            Seq::<(usize, usize)>::empty()
        }
    }
}

/// The occurrences that give no record among the first `n` nodes of `order`.
pub open spec fn ordered_unplaced(
    nodes: Seq<SyntaxNode>,
    order: Seq<int>,
    n: int,
    source: Seq<u8>,
    pattern: &LiteralPattern,
    kinds: NodeKinds,
    names: &KindNames,
) -> Seq<(usize, usize)>
    decreases n,
{
    if n <= 0 {
        seq![]
    } else {
        ordered_unplaced(nodes, order, n - 1, source, pattern, kinds, names) + if 0 <= order[n - 1]
            < nodes.len() {
            node_unplaced(&nodes[order[n - 1]], source, pattern, kinds, names)
        } else {
            Seq::<(usize, usize)>::empty()
        }
    }
}

/// What a pattern search finds: the records; the byte ranges of searched
/// nodes that were skipped because they are not text; and the occurrences,
/// as a node's start byte and an offset in its searched text, that could not
/// be placed in the node's own text.
pub struct SearchOutcome {
    pub records: Vec<MatchRecord>,
    pub undecodable: Vec<(usize, usize)>,
    pub unplaced: Vec<(usize, usize)>,
}

fn search_node(
    node: &SyntaxNode,
    source: &[u8],
    lines: &Vec<(usize, usize)>,
    pattern: &LiteralPattern,
    kinds: NodeKinds,
    names: &KindNames,
    out: &mut Vec<MatchRecord>,
    skipped: &mut Vec<(usize, usize)>,
    unplaced: &mut Vec<(usize, usize)>,
)
    requires
        pattern_ok(pattern),
        forall|n: int| 0 <= n < lines@.len() ==> line_range(source@, n as nat) == Some(
            ((#[trigger] lines@[n]).0 as int, lines@[n].1 as int),
        ),
        forall|n: nat| n >= lines@.len() ==> line_range(source@, n) is None,
    ensures
        final(out)@ == old(out)@ + node_records(node, source@, pattern, kinds, names),
        final(skipped)@ == old(skipped)@ + node_skipped(node, source@, kinds, names),
        final(unplaced)@ == old(unplaced)@ + node_unplaced(node, source@, pattern, kinds, names),
{
    let c = classify(names, &node.kind, node.child_count, kinds.identifier);
    if !searched(c, kinds) {
        assert(old(unplaced)@ + Seq::<(usize, usize)>::empty() =~= old(unplaced)@);
        assert(old(out)@ + Seq::<MatchRecord>::empty() =~= old(out)@);
        assert(old(skipped)@ + Seq::<(usize, usize)>::empty() =~= old(skipped)@);
        return;
    }
    let text = match span_text(source, node.start_byte, node.end_byte) {
        None => {
            assert(old(unplaced)@ + Seq::<(usize, usize)>::empty() =~= old(unplaced)@);
            assert(old(out)@ + Seq::<MatchRecord>::empty() =~= old(out)@);
            skipped.push((node.start_byte, node.end_byte));
            assert(final(skipped)@ =~= old(skipped)@ + node_skipped(node, source@, kinds, names));
            return;
        },
        Some(text) => text,
    };
    assert(old(skipped)@ + Seq::<(usize, usize)>::empty() =~= old(skipped)@);
    let ghost t = text@;
    let offs = match_token(
        text.as_str(),
        pattern.text.as_str(),
        c == Classification::Identifier,
        pattern.whole_word,
        pattern.case_sensitive,
    );
    let length = pattern.text.as_str().len();
    let ghost base = out@;
    let ghost ubase = unplaced@;
    let ghost all = offsets(offs@);
    let mut i: usize = 0;
    assert(all.take(0) =~= Seq::<int>::empty());
    while i < offs.len()
        invariant
            i <= offs@.len(),
            all == offsets(offs@),
            t == text@,
            length == encode_utf8(pattern.text@).len() as usize,
            out@ == base + records_at(node, source@, t, all.take(i as int), length),
            unplaced@ == ubase + unplaced_at(node, source@, t, all.take(i as int), length),
            forall|n: int| 0 <= n < lines@.len() ==> line_range(source@, n as nat) == Some(
                ((#[trigger] lines@[n]).0 as int, lines@[n].1 as int),
            ),
            forall|n: nat| n >= lines@.len() ==> line_range(source@, n) is None,
        decreases offs@.len() - i,
    {
        let off = offs[i];
        assert(all.take(i + 1).drop_last() =~= all.take(i as int));
        assert(all.take(i + 1).last() == off as int);
        let mut placed = false;
        if node.start_column <= usize::MAX - off && node.start_byte < source.len() && off
            < source.len() - node.start_byte {
            match try_token_line_col(text.as_str(), node.start_column, off) {
                Some(pos) => {
                    let (_, col, _) = pos;
                    let ghost k = choose|k: int| is_stop(t, k) && text_width(t.take(k)) == off;
                    assert(is_stop(t, k) && text_width(t.take(k)) == off);
                    let p = node.start_byte + off;
                    let n = locate_line(source, lines, p);
                    proof {
                        let m = choose|m: nat| on_line(source@, p as int, m);
                        lemma_one_line(source@, p as int, n as nat, m);
                        assert(line_range(source@, n as nat) == Some(
                            (lines@[n as int].0 as int, lines@[n as int].1 as int),
                        ));
                    }
                    out.push(
                        MatchRecord { line: n, column: col, column_byte: p - lines[n].0, length },
                    );
                    placed = true;
                },
                None => {},
            }
        }
        if !placed {
            unplaced.push((node.start_byte, off));
        }
        i += 1;
    }
    assert(all.take(offs@.len() as int) =~= all);
}

/// A pattern search over the nodes of a file whose text is `source`, taken
/// in the order of `order` (an index out of range is passed over): each
/// searched node's occurrences in ascending order, and the ranges of searched
/// nodes that are not text.
pub fn search_literal(
    nodes: &Vec<SyntaxNode>,
    order: &Vec<usize>,
    source: &str,
    pattern: &LiteralPattern,
    kinds: NodeKinds,
    names: &KindNames,
) -> (r: SearchOutcome)
    requires
        pattern_ok(pattern),
    ensures
        ({
            let ord = order@.map_values(|i: usize| i as int);
            &&& r.records@ == ordered_records(nodes@, ord, ord.len() as int, source.spec_bytes(), pattern, kinds, names)
            &&& r.undecodable@ == ordered_skipped(nodes@, ord, ord.len() as int, source.spec_bytes(), kinds, names)
            &&& r.unplaced@ == ordered_unplaced(nodes@, ord, ord.len() as int, source.spec_bytes(), pattern, kinds, names)
        }),
{
    let ghost ord = order@.map_values(|i: usize| i as int);
    let bytes = source.as_bytes();
    let lines = line_table(bytes);
    let mut records: Vec<MatchRecord> = Vec::new();
    let mut undecodable: Vec<(usize, usize)> = Vec::new();
    let mut unplaced: Vec<(usize, usize)> = Vec::new();
    let mut k: usize = 0;
    while k < order.len()
        invariant
            k <= order@.len(),
            ord == order@.map_values(|i: usize| i as int),
            bytes@ == source.spec_bytes(),
            pattern_ok(pattern),
            forall|n: int| 0 <= n < lines@.len() ==> line_range(bytes@, n as nat) == Some(
                ((#[trigger] lines@[n]).0 as int, lines@[n].1 as int),
            ),
            forall|n: nat| n >= lines@.len() ==> line_range(bytes@, n) is None,
            records@ == ordered_records(nodes@, ord, k as int, bytes@, pattern, kinds, names),
            undecodable@ == ordered_skipped(nodes@, ord, k as int, bytes@, kinds, names),
            unplaced@ == ordered_unplaced(nodes@, ord, k as int, bytes@, pattern, kinds, names),
        decreases order@.len() - k,
    {
        let i = order[k];
        if i < nodes.len() {
            search_node(&nodes[i], bytes, &lines, pattern, kinds, names, &mut records, &mut undecodable, &mut unplaced);
        } else {
            assert(records@ =~= records@ + Seq::<MatchRecord>::empty());
            assert(undecodable@ =~= undecodable@ + Seq::<(usize, usize)>::empty());
            assert(unplaced@ =~= unplaced@ + Seq::<(usize, usize)>::empty());
        }
        k += 1;
    }
    SearchOutcome { records, undecodable, unplaced }
}

/// The records of a file's nodes in walk order.
pub open spec fn file_records(file: &ParsedFile, pattern: &LiteralPattern, kinds: NodeKinds, names: &KindNames) -> Seq<MatchRecord> {
    let ord = visit(file.kid_seq(), 0);
    ordered_records(file.node_seq(), ord, ord.len() as int, encode_utf8(file.text()), pattern, kinds, names)
}

/// The occurrences of a file's nodes, in walk order, that give no record.
pub open spec fn file_unplaced(file: &ParsedFile, pattern: &LiteralPattern, kinds: NodeKinds, names: &KindNames) -> Seq<(usize, usize)> {
    let ord = visit(file.kid_seq(), 0);
    ordered_unplaced(file.node_seq(), ord, ord.len() as int, encode_utf8(file.text()), pattern, kinds, names)
}

/// Record `r` of a search in `src` spans, from the start of its line plus its
/// byte column and as long as the pattern, exactly the bytes `p`.
pub open spec fn holds_pattern(src: Seq<u8>, r: MatchRecord, p: Seq<u8>) -> bool {
    let at = line_begin(src, r.line as nat) + r.column_byte;
    &&& r.length == p.len()
    &&& at + r.length <= src.len()
    &&& src.subrange(at, at + r.length) == p
}

proof fn lemma_records_at_hold(
    node: &SyntaxNode,
    src: Seq<u8>,
    t: Seq<char>,
    offs: Seq<int>,
    pat: Seq<u8>,
)
    requires
        src.len() <= usize::MAX,
        node.start_byte <= node.end_byte <= src.len(),
        encode_utf8(t) == src.subrange(node.start_byte as int, node.end_byte as int),
        forall|i: int| 0 <= i < offs.len() ==> occurs_at(encode_utf8(t), pat, #[trigger] offs[i]),
    ensures
        forall|i: int| 0 <= i < records_at(node, src, t, offs, pat.len() as usize).len() ==> holds_pattern(
            src,
            #[trigger] records_at(node, src, t, offs, pat.len() as usize)[i],
            pat,
        ),
    decreases offs.len(),
{
    if offs.len() > 0 {
        let prev = records_at(node, src, t, offs.drop_last(), pat.len() as usize);
        let all = records_at(node, src, t, offs, pat.len() as usize);
        lemma_records_at_hold(node, src, t, offs.drop_last(), pat);
        assert forall|i: int| 0 <= i < offs.drop_last().len() implies occurs_at(
            encode_utf8(t),
            pat,
            #[trigger] offs.drop_last()[i],
        ) by {
            assert(offs.drop_last()[i] == offs[i]);
        }
        let off = offs.last();
        assert(occurs_at(encode_utf8(t), pat, offs[offs.len() - 1]));
        match record_at(node, src, t, off, pat.len() as usize) {
            Some(r) => {
                let b = encode_utf8(t);
                let at = node.start_byte + off;
                let n = choose|n: nat| on_line(src, at, n);
                lemma_line_begin_nonneg(src, n);
                assert(r.line as nat == n);
                assert(line_begin(src, r.line as nat) + r.column_byte == at);
                assert(src.subrange(at, at + pat.len()) =~= b.subrange(off, off + pat.len()));
                assert(holds_pattern(src, r, pat));
                assert(all == prev.push(r));
                assert forall|i: int| 0 <= i < all.len() implies holds_pattern(src, #[trigger] all[i], pat) by {
                    if i < prev.len() {
                        assert(all[i] == prev[i]);
                    }
                }
            },
            None => {
                assert(all == prev);
            },
        }
    }
}

/// In a case-sensitive search, each record's span in the source (from the
/// start of its line plus its byte column, as long as the pattern) holds
/// exactly the pattern's bytes: what is highlighted is the occurrence.
pub proof fn lemma_records_hold_pattern(
    nodes: Seq<SyntaxNode>,
    order: Seq<int>,
    n: int,
    src: Seq<u8>,
    pattern: &LiteralPattern,
    kinds: NodeKinds,
    names: &KindNames,
)
    requires
        pattern.case_sensitive,
        src.len() <= usize::MAX,
    ensures
        forall|i: int|
            0 <= i < ordered_records(nodes, order, n, src, pattern, kinds, names).len() ==> holds_pattern(
                src,
                #[trigger] ordered_records(nodes, order, n, src, pattern, kinds, names)[i],
                encode_utf8(pattern.text@),
            ),
    decreases n,
{
    if n > 0 {
        lemma_records_hold_pattern(nodes, order, n - 1, src, pattern, kinds, names);
        let prev = ordered_records(nodes, order, n - 1, src, pattern, kinds, names);
        let all = ordered_records(nodes, order, n, src, pattern, kinds, names);
        if 0 <= order[n - 1] < nodes.len() {
            let node = &nodes[order[n - 1]];
            let c = class_of(names, node.kind@, node.child_count as nat, kinds.identifier);
            let bytes = span_bytes(src, node.start_byte as int, node.end_byte as int);
            let pat = encode_utf8(pattern.text@);
            let here = node_records(node, src, pattern, kinds, names);
            if is_searched(c, kinds) && node.start_byte <= node.end_byte <= src.len() && valid_utf8(
                bytes,
            ) {
                let t = decode_utf8(bytes);
                vstd::utf8::decode_utf8_encode_utf8(bytes);
                let offs = folded_matches(encode_utf8(t), pat, c == Classification::Identifier, pattern.whole_word);
                lemma_matches_occur(encode_utf8(t), pat, c == Classification::Identifier, pattern.whole_word);
                lemma_records_at_hold(node, src, t, offs, pat);
            }
            assert(all == prev + here);
            assert forall|i: int| 0 <= i < all.len() implies holds_pattern(src, #[trigger] all[i], pat) by {
                if i >= prev.len() {
                    assert(all[i] == here[i - prev.len()]);
                } else {
                    assert(all[i] == prev[i]);
                }
            }
        } else {
            assert(all =~= prev);
        }
    }
}

/// The skipped ranges of a file's nodes in walk order.
pub open spec fn file_skipped(file: &ParsedFile, kinds: NodeKinds, names: &KindNames) -> Seq<(usize, usize)> {
    let ord = visit(file.kid_seq(), 0);
    ordered_skipped(file.node_seq(), ord, ord.len() as int, encode_utf8(file.text()), kinds, names)
}

/// Searches a parsed file for `pattern`, its nodes in walk order.
pub fn search_file(file: &ParsedFile, pattern: &LiteralPattern, kinds: NodeKinds, names: &KindNames) -> (r: SearchOutcome)
    requires
        pattern_ok(pattern),
    ensures
        r.records@ == file_records(file, pattern, kinds, names),
        r.undecodable@ == file_skipped(file, kinds, names),
        r.unplaced@ == file_unplaced(file, pattern, kinds, names),
{
    let order = walk_order(file.kids());
    search_literal(file.nodes(), &order, file.source(), pattern, kinds, names)
}

/// Searches a parsed file for `text` under `casing`: none when the pattern is
/// empty once prepared, which the search does not take.
pub fn find_in_file(
    file: &ParsedFile,
    text: &str,
    casing: Casing,
    whole_word: bool,
    kinds: NodeKinds,
    names: &KindNames,
) -> (r: Option<SearchOutcome>)
    ensures
        r is None <==> encode_utf8(prepared(text@, casing)).len() == 0,
        r matches Some(o) ==> exists|p: LiteralPattern|
            p.text@ == prepared(text@, casing) && p.whole_word == whole_word && p.case_sensitive
                == sensitive_under(text@, casing) && o.records@ == file_records(file, &p, kinds, names)
                && o.undecodable@ == file_skipped(file, kinds, names) && o.unplaced@ == file_unplaced(
                file,
                &p,
                kinds,
                names,
            ),
{
    let pattern = LiteralPattern::new(text, casing, whole_word);
    if pattern.text.as_str().as_bytes().len() == 0 {
        return None;
    }
    let found = search_file(file, &pattern, kinds, names);
    assert(pattern.case_sensitive == sensitive_under(text@, casing));
    Some(found)
}

/// Whether a pattern is compared case-sensitively under `casing`.
pub open spec fn sensitive_under(text: Seq<char>, casing: Casing) -> bool {
    casing == Casing::Sensitive || (casing == Casing::Smart && has_upper(text))
}

/// The text of a pattern once prepared under `casing`.
pub open spec fn prepared(text: Seq<char>, casing: Casing) -> Seq<char> {
    match casing {
        Casing::Sensitive => text,
        Casing::Insensitive => lower_of(text),
        Casing::Smart => if has_upper(text) {
            text
        } else {
            lower_of(text)
        },
    }
}

} // verus!
