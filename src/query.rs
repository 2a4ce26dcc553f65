//! The structural query engine: a compiled query run over a tree, its capture
//! groups filtered by expected capture values, and each reported group's
//! highlighted ranges put in order.

use vstd::prelude::*;
use vstd::relations::{sorted_by, total_ordering};
use vstd::seq_lib::{lemma_sorted_unique, to_multiset_build, to_multiset_insert};
use vstd::slice::slice_subrange;
use vstd::string::StringSliceAdditionalSpecFns;
use vstd::string::StringExecFns;
use vstd::utf8::encode_utf8;

use crate::tree::ParsedFile;

verus! {

#[verifier::external_type_specification]
#[verifier::external_body]
pub struct ExQuery(tree_sitter::Query);

#[verifier::external_type_specification]
#[verifier::external_body]
pub struct ExQueryError(tree_sitter::QueryError);

/// One captured node of a match: the index of its capture name in the query,
/// its byte range, and the row and column at which it starts.
#[derive(Clone, Copy, Debug, PartialEq, Eq, Structural)]
pub struct CaptureSpan {
    pub index: usize,
    pub start_byte: usize,
    pub end_byte: usize,
    pub start_row: usize,
    pub start_column: usize,
}

/// An expected value for the captures of one name.
pub struct CaptureFilter {
    pub name: String,
    pub value: String,
}

/// A query that compiled and has at least one capture.
pub struct CompiledQuery {
    /// The compiled query.
    query: tree_sitter::Query,
    /// The query's capture names, by capture index.
    capture_names: Vec<String>,
}

impl CompiledQuery {
    /// The compiled query.
    pub closed spec fn compiled(&self) -> tree_sitter::Query {
        self.query
    }

    /// The capture names, by capture index.
    pub closed spec fn name_strings(&self) -> Seq<String> {
        self.capture_names@
    }

    /// The capture names as characters, by capture index.
    pub open spec fn names(&self) -> Seq<Seq<char>> {
        self.name_strings().map_values(|s: String| s@)
    }

    /// The capture names, by capture index.
    pub fn capture_names(&self) -> (r: &Vec<String>)
        ensures
            r@ == self.name_strings(),
    {
        &self.capture_names
    }
}

/// Why a query cannot be run.
#[derive(Debug)]
pub enum QueryCompileError {
    /// The query text is not a valid query for the grammar.
    Syntax(tree_sitter::QueryError),
    /// The query captures nothing, so no match could say what it found.
    NoCaptures,
}

/// A reported match: the node of its first capture, shown whole, and the byte
/// ranges of its other captures, highlighted within it.
pub struct QueryRecord {
    pub node: CaptureSpan,
    pub highlights: Vec<(usize, usize)>,
}

/// A filter written `name=value`: split at the first `=`; none without one.
pub fn parse_capture(s: &str) -> (r: Option<CaptureFilter>)
    ensures
        r is None <==> !s@.contains('='),
        r matches Some(f) ==> exists|i: int|
            0 <= i < s@.len() && s@[i] == '=' && (forall|j: int| 0 <= j < i ==> s@[j] != '=')
                && f.name@ == s@.take(i) && f.value@ == s@.skip(i + 1),
{
    let chars = crate::text::chars_of(s);
    let mut i: usize = 0;
    while i < chars.len()
        invariant
            chars@ == s@,
            i <= chars@.len(),
            forall|j: int| 0 <= j < i ==> s@[j] != '=',
        decreases chars@.len() - i,
    {
        if chars[i] == '=' {
            let name = s.substring_char(0, i).to_owned();
            let value = s.substring_char(i + 1, chars.len()).to_owned();
            assert(s@.subrange(0, i as int) =~= s@.take(i as int));
            assert(s@.subrange(i + 1, s@.len() as int) =~= s@.skip(i + 1));
            assert(s@.contains('='));
            return Some(CaptureFilter { name, value });
        }
        i += 1;
    }
    None
}

/// What tree-sitter makes of a query text for a grammar: the query's capture
/// names, by capture index, or none when it does not compile. The grammar and
/// the text alone decide it.
pub uninterp spec fn compiled_capture_names(language: tree_sitter::Language, text: Seq<char>) -> Option<
    Seq<Seq<char>>,
>;

/// The capture groups of the matches of `query` in `tree`, parsed from
/// `source`, in the order tree-sitter finds them; the arguments alone decide
/// them.
pub uninterp spec fn capture_groups_of(query: tree_sitter::Query, tree: tree_sitter::Tree, source: Seq<u8>) -> Seq<
    Seq<CaptureSpan>,
>;

/// Relies on tree_sitter::Query::new, which compiles the text for the
/// language or says why it cannot, and on Query::capture_names. To name an
/// unknown node type, field or capture in its error, Query::new reads from the
/// name up to the next character that cannot belong to a name, and slices out
/// of range when there is none: a text that ends in a line break always has
/// one.
#[verifier::external_body]
fn new_query(language: tree_sitter::Language, text: &str) -> (r: Result<(tree_sitter::Query, Vec<String>), tree_sitter::QueryError>)
    requires
        text@.len() > 0,
        text@.last() == '\n',
    ensures
        r is Ok <==> compiled_capture_names(language, text@) is Some,
        r matches Ok(q) ==> q.1@.map_values(|s: String| s@) == compiled_capture_names(language, text@)->0,
{
    let query = tree_sitter::Query::new(language, text)?;
    let names = query.capture_names().to_vec();
    Ok((query, names))
}

/// Relies on tree_sitter::QueryCursor::matches: each match of the query in the
/// file's tree, with its captures. The text it hands to the query's predicates
/// is the file's own, from which the tree was parsed, so every node's range
/// lies in it.
#[verifier::external_body]
fn run_matches(query: &tree_sitter::Query, file: &ParsedFile) -> (r: Vec<Vec<CaptureSpan>>)
    ensures
        group_views(r@) == capture_groups_of(*query, file.syntax(), encode_utf8(file.text())),
{
    let mut cursor = tree_sitter::QueryCursor::new();
    cursor.matches(query, file.tree.root_node(), file.source.as_bytes()).map(|m| {
        m.captures.iter().map(|c| {
            let start = c.node.start_position();
            CaptureSpan {
                index: c.index as usize,
                start_byte: c.node.start_byte(),
                end_byte: c.node.end_byte(),
                start_row: start.row,
                start_column: start.column,
            }
        }).collect()
    }).collect()
}

/// Accepts a compiled query when it has at least one capture.
fn with_captures(query: tree_sitter::Query, capture_names: Vec<String>) -> (r: Result<CompiledQuery, QueryCompileError>)
    ensures
        capture_names@.len() == 0 <==> r matches Err(QueryCompileError::NoCaptures),
        r matches Ok(q) ==> q.capture_names@ == capture_names@,
        r is Ok || r matches Err(QueryCompileError::NoCaptures),
{
    if capture_names.len() == 0 {
        Err(QueryCompileError::NoCaptures)
    } else {
        Ok(CompiledQuery { query, capture_names })
    }
}

impl CompiledQuery {
    /// Compiles `source` as a query over `language`, followed by a line
    /// break: a text that does not compile is a syntax error, and a query
    /// without captures is refused.
    pub fn compile(language: tree_sitter::Language, source: &str) -> (r: Result<CompiledQuery, QueryCompileError>)
        ensures
            match compiled_capture_names(language, source@.push('\n')) {
                None => r matches Err(QueryCompileError::Syntax(_)),
                Some(names) => if names.len() == 0 {
                    r matches Err(QueryCompileError::NoCaptures)
                } else {
                    r matches Ok(q) && q.names() == names
                },
            },
    {
        let text = source.to_owned().concat("\n");
        proof {
            reveal_strlit("\n");
            assert(text@ =~= source@.push('\n'));
        }
        match new_query(language, text.as_str()) {
            Err(e) => Err(QueryCompileError::Syntax(e)),
            Ok(compiled) => {
                let (query, names) = compiled;
                with_captures(query, names)
            },
        }
    }

    /// The capture groups of every match of the query in `file`, in the order
    /// tree-sitter finds them.
    pub fn run(&self, file: &ParsedFile) -> (r: Vec<Vec<CaptureSpan>>)
        ensures
            group_views(r@) == capture_groups_of(self.compiled(), file.syntax(), encode_utf8(file.text())),
    {
        run_matches(&self.query, file)
    }
}

/// The value expected of captures named `name`: that of the first filter for
/// the name, if any.
pub open spec fn filter_value(filters: Seq<CaptureFilter>, name: Seq<char>) -> Option<Seq<char>>
    decreases filters.len(),
{
    if filters.len() == 0 {
        None
    } else if filters[0].name@ == name {
        Some(filters[0].value@)
    } else {
        filter_value(filters.drop_first(), name)
    }
}

/// A capture counts for its group when no filter applies to its name, or when
/// its text is exactly the expected value.
pub open spec fn capture_reportable(
    names: Seq<String>,
    filters: Seq<CaptureFilter>,
    source: Seq<u8>,
    c: CaptureSpan,
) -> bool {
    if c.index >= names.len() {
        true
    } else {
        match filter_value(filters, names[c.index as int]@) {
            None => true,
            Some(v) => c.start_byte <= c.end_byte <= source.len() && source.subrange(
                c.start_byte as int,
                c.end_byte as int,
            ) == encode_utf8(v),
        }
    }
}

/// A group is reported when it has a capture and at least one of its captures
/// counts.
pub open spec fn group_reported(
    names: Seq<String>,
    filters: Seq<CaptureFilter>,
    source: Seq<u8>,
    g: Seq<CaptureSpan>,
) -> bool {
    exists|i: int| 0 <= i < g.len() && capture_reportable(names, filters, source, #[trigger] g[i])
}

/// The reported groups among `gs`, in order.
pub open spec fn reported_groups(
    gs: Seq<Seq<CaptureSpan>>,
    names: Seq<String>,
    filters: Seq<CaptureFilter>,
    source: Seq<u8>,
) -> Seq<Seq<CaptureSpan>>
    decreases gs.len(),
{
    if gs.len() == 0 {
        seq![]
    } else {
        let rest = reported_groups(gs.drop_last(), names, filters, source);
        if group_reported(names, filters, source, gs.last()) {
            rest.push(gs.last())
        } else {
            rest
        }
    }
}

/// The test that decides whether a group is reported.
pub open spec fn passes(names: Seq<String>, filters: Seq<CaptureFilter>, source: Seq<u8>) -> spec_fn(
    Seq<CaptureSpan>,
) -> bool {
    |g: Seq<CaptureSpan>| group_reported(names, filters, source, g)
}

/// The groups are reported in the order the provider gives them, none moved
/// or repeated: exactly those that pass the filters, as a filter of the
/// sequence keeps them.
pub proof fn lemma_reported_in_order(
    gs: Seq<Seq<CaptureSpan>>,
    names: Seq<String>,
    filters: Seq<CaptureFilter>,
    source: Seq<u8>,
)
    ensures
        reported_groups(gs, names, filters, source) == gs.filter(passes(names, filters, source)),
    decreases gs.len(),
{
    reveal(Seq::filter);
    if gs.len() > 0 {
        lemma_reported_in_order(gs.drop_last(), names, filters, source);
        assert(passes(names, filters, source)(gs.last()) == group_reported(
            names,
            filters,
            source,
            gs.last(),
        ));
    }
}

/// Byte ranges in ascending order of start, then of end.
pub open spec fn span_order() -> spec_fn((usize, usize), (usize, usize)) -> bool {
    |a: (usize, usize), b: (usize, usize)| a.0 < b.0 || (a.0 == b.0 && a.1 <= b.1)
}

/// The ranges highlighted for a group: those of all captures but the first.
pub open spec fn highlight_spans(g: Seq<CaptureSpan>) -> Seq<(usize, usize)> {
    g.skip(1).map_values(|c: CaptureSpan| (c.start_byte, c.end_byte))
}

proof fn lemma_span_order_total()
    ensures
        total_ordering(span_order()),
{
}

/// `v`, sorted by start and then end, equal ranges kept together.
pub fn sort_spans(v: &Vec<(usize, usize)>) -> (r: Vec<(usize, usize)>)
    ensures
        r@ == v@.sort_by(span_order()),
{
    let ghost leq = span_order();
    let mut r: Vec<(usize, usize)> = Vec::new();
    let mut i: usize = 0;
    assert(v@.take(0) =~= Seq::<(usize, usize)>::empty());
    while i < v.len()
        invariant
            i <= v@.len(),
            leq == span_order(),
            sorted_by(r@, leq),
            r@.to_multiset() == v@.take(i as int).to_multiset(),
        decreases v@.len() - i,
    {
        let x = v[i];
        let mut pos: usize = 0;
        while pos < r.len() && !(x.0 < r[pos].0 || (x.0 == r[pos].0 && x.1 < r[pos].1))
            invariant
                pos <= r@.len(),
                leq == span_order(),
                forall|j: int| 0 <= j < pos ==> leq(#[trigger] r@[j], x),
            decreases r@.len() - pos,
        {
            pos += 1;
        }
        let ghost before = r@;
        assert(pos == before.len() || leq(x, before[pos as int]));
        r.insert(pos, x);
        proof {
            assert forall|a: int, b: int| 0 <= a < b < r@.len() implies #[trigger] leq(r@[a], r@[b]) by {
                if b < pos {
                    assert(r@[a] == before[a] && r@[b] == before[b]);
                    assert(leq(before[a], before[b]));
                } else if b == pos {
                    assert(r@[a] == before[a] && r@[b] == x);
                    assert(leq(before[a], x));
                } else {
                    assert(r@[b] == before[b - 1]);
                    assert(leq(x, before[pos as int]));
                    if b - 1 > pos {
                        assert(leq(before[pos as int], before[b - 1]));
                    }
                    assert(leq(x, before[b - 1]));
                    if a < pos {
                        assert(r@[a] == before[a]);
                        assert(leq(before[a], x));
                    } else if a == pos {
                        assert(r@[a] == x);
                    } else {
                        assert(r@[a] == before[a - 1]);
                        assert(leq(before[a - 1], before[b - 1]));
                    }
                }
            }
            to_multiset_insert(before, pos as int, x);
            assert(v@.take(i + 1) =~= v@.take(i as int).push(x));
            to_multiset_build(v@.take(i as int), x);
        }
        i += 1;
    }
    proof {
        lemma_span_order_total();
        assert(v@.take(v@.len() as int) =~= v@);
        v@.lemma_sort_by_ensures(leq);
        lemma_sorted_unique(r@, v@.sort_by(leq), leq);
    }
    r
}

/// The groups of `groups`, each as a sequence.
pub open spec fn group_views(groups: Seq<Vec<CaptureSpan>>) -> Seq<Seq<CaptureSpan>> {
    groups.map_values(|g: Vec<CaptureSpan>| g@)
}

/// Index of the first filter for `name`, if any.
fn find_filter(filters: &Vec<CaptureFilter>, name: &String) -> (r: Option<usize>)
    ensures
        match r {
            Some(i) => i < filters@.len() && filter_value(filters@, name@) == Some(filters@[i as int].value@),
            None => filter_value(filters@, name@) is None,
        },
{
    let mut i: usize = 0;
    assert(filters@.skip(0) =~= filters@);
    while i < filters.len()
        invariant
            i <= filters@.len(),
            filter_value(filters@, name@) == filter_value(filters@.skip(i as int), name@),
        decreases filters@.len() - i,
    {
        assert(filters@.skip(i as int)[0] == filters@[i as int]);
        if filters[i].name == *name {
            return Some(i);
        }
        assert(filters@.skip(i as int).drop_first() =~= filters@.skip(i + 1));
        i += 1;
    }
    None
}

fn same_bytes(a: &[u8], b: &[u8]) -> (r: bool)
    ensures
        r == (a@ == b@),
{
    if a.len() != b.len() {
        return false;
    }
    let mut i: usize = 0;
    while i < a.len()
        invariant
            i <= a@.len(),
            a@.len() == b@.len(),
            forall|j: int| 0 <= j < i ==> a@[j] == b@[j],
        decreases a@.len() - i,
    {
        if a[i] != b[i] {
            return false;
        }
        i += 1;
    }
    assert(a@ =~= b@);
    true
}

/// Whether capture `c` counts for its group.
pub fn capture_counts(names: &Vec<String>, filters: &Vec<CaptureFilter>, source: &[u8], c: CaptureSpan) -> (r: bool)
    ensures
        r == capture_reportable(names@, filters@, source@, c),
{
    if c.index >= names.len() {
        return true;
    }
    match find_filter(filters, &names[c.index]) {
        None => true,
        Some(i) => {
            if c.start_byte > c.end_byte || c.end_byte > source.len() {
                return false;
            }
            same_bytes(slice_subrange(source, c.start_byte, c.end_byte), filters[i].value.as_str().as_bytes())
        },
    }
}

/// The records of the reported groups among `groups`, in order: for each, its
/// first capture and the ranges of its other captures, sorted.
pub fn select_groups(
    groups: &Vec<Vec<CaptureSpan>>,
    names: &Vec<String>,
    filters: &Vec<CaptureFilter>,
    source: &[u8],
) -> (r: Vec<QueryRecord>)
    ensures
        ({
            let sel = reported_groups(group_views(groups@), names@, filters@, source@);
            &&& r@.len() == sel.len()
            &&& forall|i: int|
                0 <= i < sel.len() ==> (#[trigger] r@[i]).node == sel[i][0]
                    && r@[i].highlights@ == highlight_spans(sel[i]).sort_by(span_order())
            &&& record_views(r@) == query_records(sel)
        }),
{
    let ghost gs = group_views(groups@);
    let mut out: Vec<QueryRecord> = Vec::new();
    let mut k: usize = 0;
    while k < groups.len()
        invariant
            k <= groups@.len(),
            gs == group_views(groups@),
            ({
                let sel = reported_groups(gs.take(k as int), names@, filters@, source@);
                &&& out@.len() == sel.len()
                &&& forall|i: int|
                    0 <= i < sel.len() ==> (#[trigger] out@[i]).node == sel[i][0]
                        && out@[i].highlights@ == highlight_spans(sel[i]).sort_by(span_order())
            }),
        decreases groups@.len() - k,
    {
        let g = &groups[k];
        assert(gs.take(k + 1).drop_last() =~= gs.take(k as int));
        assert(gs.take(k + 1).last() == g@);
        let mut reported = false;
        let mut j: usize = 0;
        while j < g.len()
            invariant
                j <= g@.len(),
                reported == exists|m: int| 0 <= m < j && capture_reportable(names@, filters@, source@, #[trigger] g@[m]),
            decreases g@.len() - j,
        {
            if capture_counts(names, filters, source, g[j]) {
                reported = true;
            }
            j += 1;
        }
        if reported {
            let mut spans: Vec<(usize, usize)> = Vec::new();
            let mut m: usize = 1;
            while m < g.len()
                invariant
                    1 <= m <= g@.len(),
                    spans@ == highlight_spans(g@.take(m as int)),
                decreases g@.len() - m,
            {
                assert(g@.take(m + 1).skip(1) =~= g@.take(m as int).skip(1).push(g@[m as int]));
                spans.push((g[m].start_byte, g[m].end_byte));
                assert(spans@ =~= highlight_spans(g@.take(m + 1)));
                m += 1;
            }
            assert(g@.take(g@.len() as int) =~= g@);
            let highlights = sort_spans(&spans);
            out.push(QueryRecord { node: g[0], highlights });
        }
        k += 1;
    }
    assert(gs.take(groups@.len() as int) =~= gs);
    assert(record_views(out@) =~= query_records(reported_groups(gs, names@, filters@, source@)));
    out
}

/// A record as plain values: the shown node and the highlighted ranges.
pub open spec fn record_views(rs: Seq<QueryRecord>) -> Seq<(CaptureSpan, Seq<(usize, usize)>)> {
    rs.map_values(|r: QueryRecord| (r.node, r.highlights@))
}

/// The records of reported groups: each group's first capture, and the
/// ranges of its other captures, sorted.
pub open spec fn query_records(sel: Seq<Seq<CaptureSpan>>) -> Seq<(CaptureSpan, Seq<(usize, usize)>)> {
    sel.map_values(|g: Seq<CaptureSpan>| (g[0], highlight_spans(g).sort_by(span_order())))
}

/// The records of the groups of `query` in `file` that pass the filters.
pub open spec fn file_query_records(query: &CompiledQuery, file: &ParsedFile, filters: Seq<CaptureFilter>) -> Seq<
    (CaptureSpan, Seq<(usize, usize)>),
> {
    let src = encode_utf8(file.text());
    query_records(
        reported_groups(
            capture_groups_of(query.compiled(), file.syntax(), src),
            query.name_strings(),
            filters,
            src,
        ),
    )
}

/// Runs `query` over `file` and reports the groups that pass `filters`: each
/// with its first capture and the other captures' ranges sorted by start, then
/// end.
pub fn run_query(query: &CompiledQuery, file: &ParsedFile, filters: &Vec<CaptureFilter>) -> (r: Vec<QueryRecord>)
    ensures
        record_views(r@) == file_query_records(query, file, filters@),
        forall|i: int|
            0 <= i < r@.len() ==> sorted_by((#[trigger] r@[i]).highlights@, span_order()),
{
    let groups = query.run(file);
    let r = select_groups(&groups, &query.capture_names, filters, file.source().as_bytes());
    proof {
        lemma_span_order_total();
        let sel = reported_groups(group_views(groups@), query.capture_names@, filters@, encode_utf8(file.text()));
        assert forall|i: int| 0 <= i < r@.len() implies sorted_by((#[trigger] r@[i]).highlights@, span_order()) by {
            highlight_spans(sel[i]).lemma_sort_by_ensures(span_order());
        }
    }
    r
}

} // verus!
