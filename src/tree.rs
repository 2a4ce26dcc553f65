//! The parsed file as plain values: its nodes in the order the search visits
//! them, read once from the tree provider.

use vstd::prelude::*;
use vstd::slice::slice_subrange;
use vstd::utf8::{decode_utf8, valid_utf8};

verus! {

#[verifier::external_type_specification]
#[verifier::external_body]
pub struct ExTree(tree_sitter::Tree);

#[verifier::external_type_specification]
#[verifier::external_body]
pub struct ExNode<'a>(tree_sitter::Node<'a>);

#[verifier::external_type_specification]
#[verifier::external_body]
pub struct ExLanguage(tree_sitter::Language);

#[verifier::external_type_specification]
#[verifier::external_body]
pub struct ExParser(tree_sitter::Parser);

#[verifier::external_type_specification]
#[verifier::external_body]
pub struct ExLanguageError(tree_sitter::LanguageError);

/// Relies on tree_sitter::Parser::new.
#[verifier::external_body]
fn new_parser() -> tree_sitter::Parser {
    tree_sitter::Parser::new()
}

/// Relies on tree_sitter::Parser::set_language, which refuses a grammar built
/// for another version of the library.
#[verifier::external_body]
fn set_language(parser: &mut tree_sitter::Parser, language: tree_sitter::Language) -> Result<(), tree_sitter::LanguageError> {
    parser.set_language(language)
}

/// A parser for one grammar, used for one file after another; each parse
/// starts afresh from the file's whole text.
pub struct Session {
    parser: tree_sitter::Parser,
}

/// Relies on tree_sitter::Parser::parse, which gives no tree only when the
/// parser has no language, a timeout set with `set_timeout_micros` expired, or
/// a cancellation flag was raised. A session's parser always has its language
/// (`Session::new`, the only way to make a session, sets it), and no timeout
/// or flag is ever set on it.
#[verifier::external_body]
fn parse_in(session: &mut Session, source: &str) -> (r: Option<tree_sitter::Tree>)
    ensures
        r is Some,
{
    session.parser.parse(source, None)
}

impl Session {
    /// A session for `language`, or the reason the grammar cannot be used.
    pub fn new(language: tree_sitter::Language) -> Result<Session, tree_sitter::LanguageError> {
        let mut parser = new_parser();
        match set_language(&mut parser, language) {
            Ok(()) => Ok(Session { parser }),
            Err(e) => Err(e),
        }
    }

    /// The parse of `source`: its tree, and the tree's nodes read into plain
    /// values. Parsing always gives a tree; text that is not valid code gives
    /// one with error nodes.
    pub fn parse(&mut self, source: &str) -> (r: Option<ParsedFile>)
        ensures
            r is Some,
            r matches Some(f) ==> f.text() == source@ && f.node_seq().len() >= 1
                && f.node_seq().len() == f.kid_seq().len() && kids_well_formed(f.kid_seq())
                && one_parent_each(f.kid_seq()) && forall|i: int|
                0 <= i < f.kid_seq().len() ==> (#[trigger] f.kid_seq()[i]).1 == f.node_seq()[i].child_count,
    {
        match parse_in(self, source) {
            None => None,
            Some(tree) => {
                let (nodes, kids) = read_tree(&tree);
                Some(ParsedFile { tree, source: source.to_owned(), nodes, kids })
            },
        }
    }
}

/// One node of a syntax tree: its kind, its byte range `[start_byte,
/// end_byte)` in the source, the row and column at which it starts, and how
/// many children it has.
pub struct SyntaxNode {
    pub kind: String,
    pub start_byte: usize,
    pub end_byte: usize,
    pub start_row: usize,
    pub start_column: usize,
    pub child_count: usize,
}

/// A parsed file: its text, its tree, and the tree's nodes as plain values.
/// Node 0 is the root; `kids[i]` is `(first, count)`: the children of node
/// `i` are the nodes `first .. first + count`, in order.
pub struct ParsedFile {
    pub(crate) tree: tree_sitter::Tree,
    pub(crate) source: String,
    pub(crate) nodes: Vec<SyntaxNode>,
    pub(crate) kids: Vec<(usize, usize)>,
}

impl ParsedFile {
    /// The text that was parsed.
    pub closed spec fn text(&self) -> Seq<char> {
        self.source@
    }

    /// The tree of the text.
    pub closed spec fn syntax(&self) -> tree_sitter::Tree {
        self.tree
    }

    /// The nodes of the tree.
    pub closed spec fn node_seq(&self) -> Seq<SyntaxNode> {
        self.nodes@
    }

    /// Where the children of each node are.
    pub closed spec fn kid_seq(&self) -> Seq<(usize, usize)> {
        self.kids@
    }

    /// The text that was parsed.
    pub fn source(&self) -> (r: &str)
        ensures
            r@ == self.text(),
    {
        self.source.as_str()
    }

    /// The nodes of the tree.
    pub fn nodes(&self) -> (r: &Vec<SyntaxNode>)
        ensures
            r@ == self.node_seq(),
    {
        &self.nodes
    }

    /// Where the children of each node are.
    pub fn kids(&self) -> (r: &Vec<(usize, usize)>)
        ensures
            r@ == self.kid_seq(),
    {
        &self.kids
    }
}

/// The children of node `i`, when it has any, come after it and within the
/// tree.
pub open spec fn kids_fit(kids: Seq<(usize, usize)>, i: int) -> bool {
    kids[i].1 > 0 ==> i < kids[i].0 && kids[i].0 + kids[i].1 <= kids.len()
}

/// Every node's children come after it and within the tree.
pub open spec fn kids_well_formed(kids: Seq<(usize, usize)>) -> bool {
    forall|i: int| 0 <= i < kids.len() ==> #[trigger] kids_fit(kids, i)
}

/// Node `i` and its descendants in the order of the walk: the node first,
/// then the subtrees of its children from the last child to the first.
pub open spec fn visit(kids: Seq<(usize, usize)>, i: int) -> Seq<int>
    decreases kids.len() - i + 1, 0int,
{
    if i < 0 || i >= kids.len() {
        seq![]
    } else {
        let f = kids[i].0 as int;
        let k = kids[i].1 as int;
        if k > 0 && i < f && f + k <= kids.len() {
            seq![i] + visit_kids(kids, f, k)
        } else {
            seq![i]
        }
    }
}

/// The subtrees of nodes `f + k - 1` down to `f`, in that order.
pub open spec fn visit_kids(kids: Seq<(usize, usize)>, f: int, k: int) -> Seq<int>
    decreases kids.len() - f + 1, k + 1,
{
    if k <= 0 || f < 0 || f + k > kids.len() {
        seq![]
    } else {
        visit(kids, f + k - 1) + visit_kids(kids, f, k - 1)
    }
}

/// What remains to walk while `stack` waits, its top first.
pub open spec fn pending(kids: Seq<(usize, usize)>, stack: Seq<usize>) -> Seq<int>
    decreases stack.len(),
{
    if stack.len() == 0 {
        seq![]
    } else {
        visit(kids, stack.last() as int) + pending(kids, stack.drop_last())
    }
}

proof fn lemma_kids_member(kids: Seq<(usize, usize)>, f: int, k: int, y: int)
    requires
        visit_kids(kids, f, k).contains(y),
    ensures
        exists|c: int| f <= c < f + k && 0 <= c < kids.len() && #[trigger] visit(kids, c).contains(y),
    decreases k,
{
    if k <= 0 || f < 0 || f + k > kids.len() {
    } else {
        let a = visit(kids, f + k - 1);
        let b = visit_kids(kids, f, k - 1);
        assert(visit_kids(kids, f, k) == a + b);
        let i = choose|i: int| 0 <= i < (a + b).len() && (a + b)[i] == y;
        if i < a.len() {
            assert(a[i] == y);
            assert(a.contains(y));
        } else {
            assert(b[i - a.len()] == y);
            assert(b.contains(y));
            lemma_kids_member(kids, f, k - 1, y);
        }
    }
}

proof fn lemma_kids_has(kids: Seq<(usize, usize)>, f: int, k: int, c: int, y: int)
    requires
        0 <= f,
        f <= c < f + k,
        f + k <= kids.len(),
        visit(kids, c).contains(y),
    ensures
        visit_kids(kids, f, k).contains(y),
    decreases k,
{
    let a = visit(kids, f + k - 1);
    let b = visit_kids(kids, f, k - 1);
    assert(visit_kids(kids, f, k) == a + b);
    if c == f + k - 1 {
        let i = choose|i: int| 0 <= i < a.len() && a[i] == y;
        assert((a + b)[i] == y);
    } else {
        lemma_kids_has(kids, f, k - 1, c, y);
        let i = choose|i: int| 0 <= i < b.len() && b[i] == y;
        assert((a + b)[a.len() + i] == y);
    }
}

proof fn lemma_visit_within(kids: Seq<(usize, usize)>, a: int, b: int, y: int)
    requires
        0 <= a < kids.len(),
        visit(kids, a).contains(b),
        visit(kids, b).contains(y),
    ensures
        visit(kids, a).contains(y),
    decreases kids.len() - a,
{
    if b != a {
        let f = kids[a].0 as int;
        let k = kids[a].1 as int;
        let v = visit(kids, a);
        if k > 0 && a < f && f + k <= kids.len() {
            let rest = visit_kids(kids, f, k);
            assert(v == seq![a] + rest);
            let i = choose|i: int| 0 <= i < v.len() && v[i] == b;
            assert(i > 0);
            assert(rest[i - 1] == b);
            assert(rest.contains(b));
            lemma_kids_member(kids, f, k, b);
            let c = choose|c: int| f <= c < f + k && 0 <= c < kids.len() && #[trigger] visit(kids, c).contains(b);
            lemma_visit_within(kids, c, b, y);
            lemma_kids_has(kids, f, k, c, y);
            let m = choose|m: int| 0 <= m < rest.len() && rest[m] == y;
            assert(v[m + 1] == y);
        } else {
            assert(v == seq![a]);
            assert(v[0] == b);
        }
    }
}

/// The walk reaches every node: each one appears in the walk from the root.
pub proof fn lemma_walk_covers(kids: Seq<(usize, usize)>, j: int)
    requires
        kids_well_formed(kids),
        one_parent_each(kids),
        0 <= j < kids.len(),
    ensures
        visit(kids, 0).contains(j),
    decreases j,
{
    assert(visit(kids, j)[0] == j);
    assert(visit(kids, j).contains(j));
    if j == 0 {
    } else {
        assert(has_parent(kids, j));
        let p = choose|p: int| 0 <= p < kids.len() && #[trigger] is_child(kids, p, j);
        assert(kids_fit(kids, p));
        lemma_walk_covers(kids, p);
        let f = kids[p].0 as int;
        let k = kids[p].1 as int;
        lemma_kids_has(kids, f, k, j, j);
        let rest = visit_kids(kids, f, k);
        let v = visit(kids, p);
        assert(v == seq![p] + rest);
        let m = choose|m: int| 0 <= m < rest.len() && rest[m] == j;
        assert(v[m + 1] == j);
        assert(v.contains(j));
        lemma_visit_within(kids, 0, p, j);
    }
}

proof fn lemma_visit_range(kids: Seq<(usize, usize)>, i: int)
    requires
        0 <= i < kids.len(),
    ensures
        forall|m: int| 0 <= m < visit(kids, i).len() ==> i <= #[trigger] visit(kids, i)[m] < kids.len(),
    decreases kids.len() - i + 1, 0int,
{
    let f = kids[i].0 as int;
    let k = kids[i].1 as int;
    if k > 0 && i < f && f + k <= kids.len() {
        lemma_kids_range(kids, f, k);
        let rest = visit_kids(kids, f, k);
        assert(visit(kids, i) == seq![i] + rest);
        assert forall|m: int| 0 <= m < visit(kids, i).len() implies i <= #[trigger] visit(kids, i)[m] < kids.len() by {
            if m > 0 {
                assert(visit(kids, i)[m] == rest[m - 1]);
            }
        }
    }
}

proof fn lemma_kids_range(kids: Seq<(usize, usize)>, f: int, k: int)
    requires
        0 <= f,
    ensures
        forall|m: int| 0 <= m < visit_kids(kids, f, k).len() ==> f <= #[trigger] visit_kids(kids, f, k)[m] < kids.len(),
    decreases kids.len() - f + 1, k + 1,
{
    if !(k <= 0 || f < 0 || f + k > kids.len()) {
        lemma_visit_range(kids, f + k - 1);
        lemma_kids_range(kids, f, k - 1);
        let a = visit(kids, f + k - 1);
        let b = visit_kids(kids, f, k - 1);
        assert(visit_kids(kids, f, k) == a + b);
        assert forall|m: int| 0 <= m < (a + b).len() implies f <= #[trigger] (a + b)[m] < kids.len() by {
            if m < a.len() {
                assert((a + b)[m] == a[m]);
            } else {
                assert((a + b)[m] == b[m - a.len()]);
            }
        }
    }
}

proof fn lemma_parent_inside(kids: Seq<(usize, usize)>, c: int, y: int, p: int)
    requires
        one_parent_each(kids),
        0 <= c < kids.len(),
        0 <= p < kids.len(),
        visit(kids, c).contains(y),
        y != c,
        is_child(kids, p, y),
    ensures
        visit(kids, c).contains(p),
    decreases kids.len() - c,
{
    let f = kids[c].0 as int;
    let k = kids[c].1 as int;
    let v = visit(kids, c);
    if k > 0 && c < f && f + k <= kids.len() {
        let rest = visit_kids(kids, f, k);
        assert(v == seq![c] + rest);
        let i = choose|i: int| 0 <= i < v.len() && v[i] == y;
        assert(rest[i - 1] == y);
        assert(rest.contains(y));
        lemma_kids_member(kids, f, k, y);
        let d = choose|d: int| f <= d < f + k && 0 <= d < kids.len() && #[trigger] visit(kids, d).contains(y);
        if y == d {
            assert(is_child(kids, c, y));
            assert(v[0] == c);
        } else {
            lemma_parent_inside(kids, d, y, p);
            lemma_kids_has(kids, f, k, d, p);
            let m = choose|m: int| 0 <= m < rest.len() && rest[m] == p;
            assert(v[m + 1] == p);
        }
    } else {
        assert(v == seq![c]);
        let i = choose|i: int| 0 <= i < v.len() && v[i] == y;
    }
}

proof fn lemma_siblings_apart(kids: Seq<(usize, usize)>, i: int, c1: int, c2: int, y: int)
    requires
        kids_well_formed(kids),
        one_parent_each(kids),
        0 <= i < kids.len(),
        0 <= c1 < kids.len(),
        0 <= c2 < kids.len(),
        is_child(kids, i, c1),
        is_child(kids, i, c2),
        c1 != c2,
    ensures
        !(visit(kids, c1).contains(y) && visit(kids, c2).contains(y)),
    decreases y,
{
    if visit(kids, c1).contains(y) && visit(kids, c2).contains(y) {
        assert(kids_fit(kids, i));
        lemma_visit_range(kids, c1);
        lemma_visit_range(kids, c2);
        if y == c1 {
            lemma_parent_inside(kids, c2, y, i);
            let m = choose|m: int| 0 <= m < visit(kids, c2).len() && visit(kids, c2)[m] == i;
        } else if y == c2 {
            lemma_parent_inside(kids, c1, y, i);
            let m = choose|m: int| 0 <= m < visit(kids, c1).len() && visit(kids, c1)[m] == i;
        } else {
            let m1 = choose|m: int| 0 <= m < visit(kids, c1).len() && visit(kids, c1)[m] == y;
            assert(c1 <= y < kids.len());
            assert(has_parent(kids, y));
            let p = choose|p: int| 0 <= p < kids.len() && #[trigger] is_child(kids, p, y);
            assert(kids_fit(kids, p));
            lemma_parent_inside(kids, c1, y, p);
            lemma_parent_inside(kids, c2, y, p);
            lemma_siblings_apart(kids, i, c1, c2, p);
        }
    }
}

proof fn lemma_visit_unique(kids: Seq<(usize, usize)>, i: int)
    requires
        kids_well_formed(kids),
        one_parent_each(kids),
        0 <= i < kids.len(),
    ensures
        visit(kids, i).no_duplicates(),
    decreases kids.len() - i + 1, 0int,
{
    let f = kids[i].0 as int;
    let k = kids[i].1 as int;
    if k > 0 && i < f && f + k <= kids.len() {
        lemma_kids_unique(kids, i, f, k);
        lemma_kids_range(kids, f, k);
        let rest = visit_kids(kids, f, k);
        let v = seq![i] + rest;
        assert(visit(kids, i) == v);
        assert forall|a: int, b: int| 0 <= a < v.len() && 0 <= b < v.len() && a != b implies v[a] != v[b] by {
            if a > 0 && b > 0 {
                assert(v[a] == rest[a - 1] && v[b] == rest[b - 1]);
            } else if a == 0 {
                assert(v[b] == rest[b - 1]);
            } else {
                assert(v[a] == rest[a - 1]);
            }
        }
    } else {
        assert(visit(kids, i) == seq![i]);
    }
}

proof fn lemma_kids_unique(kids: Seq<(usize, usize)>, i: int, f: int, k: int)
    requires
        kids_well_formed(kids),
        one_parent_each(kids),
        0 <= i < kids.len(),
        kids[i].0 == f,
        0 <= k <= kids[i].1,
        i < f,
        f + kids[i].1 <= kids.len(),
    ensures
        visit_kids(kids, f, k).no_duplicates(),
    decreases kids.len() - f + 1, k + 1,
{
    if k > 0 {
        lemma_visit_unique(kids, f + k - 1);
        lemma_kids_unique(kids, i, f, k - 1);
        let a = visit(kids, f + k - 1);
        let b = visit_kids(kids, f, k - 1);
        let v = a + b;
        assert(visit_kids(kids, f, k) == v);
        assert forall|x: int, z: int| 0 <= x < v.len() && 0 <= z < v.len() && x != z implies v[x] != v[z] by {
            if x < a.len() && z < a.len() {
            } else if x >= a.len() && z >= a.len() {
                assert(v[x] == b[x - a.len()] && v[z] == b[z - a.len()]);
            } else {
                let (ia, ib) = if x < a.len() {
                    (x, z - a.len())
                } else {
                    (z, x - a.len())
                };
                if a[ia] == b[ib] {
                    let y = a[ia];
                    assert(b.contains(y));
                    lemma_kids_member(kids, f, k - 1, y);
                    let c = choose|c: int| f <= c < f + k - 1 && 0 <= c < kids.len() && #[trigger] visit(kids, c).contains(y);
                    assert(a.contains(y));
                    lemma_siblings_apart(kids, i, f + k - 1, c, y);
                }
            }
        }
    }
}

/// The walk visits every node exactly once: each node of the tree appears in
/// it, only nodes of the tree do, and none twice.
pub proof fn lemma_walk_once(kids: Seq<(usize, usize)>)
    requires
        kids_well_formed(kids),
        one_parent_each(kids),
        kids.len() >= 1,
    ensures
        visit(kids, 0).no_duplicates(),
        forall|j: int| 0 <= j < kids.len() ==> visit(kids, 0).contains(j),
        forall|m: int| 0 <= m < visit(kids, 0).len() ==> 0 <= #[trigger] visit(kids, 0)[m] < kids.len(),
{
    lemma_visit_unique(kids, 0);
    lemma_visit_range(kids, 0);
    assert forall|j: int| 0 <= j < kids.len() implies visit(kids, 0).contains(j) by {
        lemma_walk_covers(kids, j);
    }
}

/// The nodes of a tree in the order of the walk.
pub open spec fn walk_nodes(nodes: Seq<SyntaxNode>, kids: Seq<(usize, usize)>) -> Seq<SyntaxNode> {
    visit(kids, 0).map_values(|i: int| nodes[i])
}

/// The indices of the nodes in walk order: a node is taken off a stack and
/// visited, and its children are pushed in order, so that every node comes
/// before its descendants and the children of a node are walked from the last
/// to the first.
pub fn walk_order(kids: &Vec<(usize, usize)>) -> (r: Vec<usize>)
    ensures
        r@.map_values(|i: usize| i as int) == visit(kids@, 0),
{
    let mut out: Vec<usize> = Vec::new();
    let mut stack: Vec<usize> = Vec::new();
    if kids.len() > 0 {
        stack.push(0);
        assert(stack@.drop_last() =~= Seq::<usize>::empty());
        assert(pending(kids@, stack@) =~= visit(kids@, 0) + pending(kids@, Seq::<usize>::empty()));
    }
    assert(out@.map_values(|i: usize| i as int) + pending(kids@, stack@) =~= visit(kids@, 0));
    while stack.len() > 0
        invariant
            out@.map_values(|i: usize| i as int) + pending(kids@, stack@) == visit(kids@, 0),
            forall|j: int| 0 <= j < stack@.len() ==> #[trigger] stack@[j] < kids@.len(),
        decreases pending(kids@, stack@).len(),
    {
        let ghost before = out@.map_values(|x: usize| x as int);
        let ghost whole = stack@;
        let i = stack.pop().unwrap();
        let ghost rest = pending(kids@, stack@);
        assert(whole.drop_last() == stack@ && whole.last() == i);
        out.push(i);
        assert(out@.map_values(|x: usize| x as int) =~= before.push(i as int));
        let (f, k) = kids[i];
        let n = kids.len();
        if k > 0 && i < f && f <= n && k <= n - f {
            let mut j: usize = 0;
            assert(pending(kids@, stack@) =~= visit_kids(kids@, f as int, 0) + rest);
            while j < k
                invariant
                    j <= k,
                    0 < k,
                    i < f,
                    f + k <= n,
                    n == kids@.len(),
                    pending(kids@, stack@) == visit_kids(kids@, f as int, j as int) + rest,
                    forall|m: int| 0 <= m < stack@.len() ==> #[trigger] stack@[m] < kids@.len(),
                decreases k - j,
            {
                let ghost prev = stack@;
                stack.push(f + j);
                assert(stack@.drop_last() == prev);
                assert(visit_kids(kids@, f as int, j + 1) == visit(kids@, f + j) + visit_kids(
                    kids@,
                    f as int,
                    j as int,
                ));
                assert(pending(kids@, stack@) =~= visit_kids(kids@, f as int, j + 1) + rest);
                j += 1;
            }
            assert(visit(kids@, i as int) == seq![i as int] + visit_kids(kids@, f as int, k as int));
        } else {
            assert(visit(kids@, i as int) == seq![i as int]);
            assert(pending(kids@, stack@) =~= rest);
        }
        assert(pending(kids@, whole) == visit(kids@, i as int) + rest);
        assert(out@.map_values(|x: usize| x as int) + pending(kids@, stack@) =~= before + pending(
            kids@,
            whole,
        ));
    }
    assert(pending(kids@, stack@) =~= Seq::<int>::empty());
    assert(out@.map_values(|x: usize| x as int) =~= visit(kids@, 0));
    out
}

/// Relies on tree_sitter::Tree::root_node.
#[verifier::external_body]
fn root_node<'a>(tree: &'a tree_sitter::Tree) -> tree_sitter::Node<'a> {
    tree.root_node()
}

/// The number of children tree-sitter reports for a node; the node alone
/// decides it.
pub uninterp spec fn child_total(node: tree_sitter::Node) -> usize;

/// Relies on tree_sitter::Node::child: the child at `i`, which is there for
/// every `i` below the node's child count (`ts_node_child` gives a null node
/// only past the last child).
#[verifier::external_body]
fn child_of<'a>(node: &tree_sitter::Node<'a>, i: usize) -> (r: Option<tree_sitter::Node<'a>>)
    ensures
        i < child_total(*node) ==> r is Some,
{
    node.child(i)
}

/// Relies on tree_sitter::Node::child_count.
#[verifier::external_body]
fn child_count_of(node: &tree_sitter::Node) -> (r: usize)
    ensures
        r == child_total(*node),
{
    node.child_count()
}

/// Relies on tree_sitter::Node's kind, byte range and start position, copied
/// into a node of the library.
#[verifier::external_body]
fn describe(node: &tree_sitter::Node, child_count: usize) -> (r: SyntaxNode)
    ensures
        r.child_count == child_count,
{
    let start = node.start_position();
    SyntaxNode {
        kind: node.kind().to_owned(),
        start_byte: node.start_byte(),
        end_byte: node.end_byte(),
        start_row: start.row,
        start_column: start.column,
        child_count,
    }
}

/// Node `j` is among the children of node `i`.
pub open spec fn is_child(kids: Seq<(usize, usize)>, i: int, j: int) -> bool {
    kids[i].0 <= j < kids[i].0 + kids[i].1
}

/// Node `i` is still waiting on the stack `work` to have its children read.
pub open spec fn waiting(work: Seq<(tree_sitter::Node, usize)>, i: int) -> bool {
    exists|j: int| 0 <= j < work.len() && (#[trigger] work[j]).1 == i
}

/// Node `j` is among the children of some node.
pub open spec fn has_parent(kids: Seq<(usize, usize)>, j: int) -> bool {
    exists|i: int| 0 <= i < kids.len() && #[trigger] is_child(kids, i, j)
}

/// Every node but the root is the child of exactly one node, and the root of
/// none.
pub open spec fn one_parent_each(kids: Seq<(usize, usize)>) -> bool {
    &&& forall|j: int| 1 <= j < kids.len() ==> #[trigger] has_parent(kids, j)
    &&& forall|i1: int, i2: int, j: int|
        0 <= i1 < kids.len() && 0 <= i2 < kids.len() && #[trigger] is_child(kids, i1, j) && #[trigger] is_child(kids, i2, j)
            ==> i1 == i2
    &&& forall|i: int| 0 <= i < kids.len() ==> !#[trigger] is_child(kids, i, 0)
}

/// The nodes of `tree` as plain values, the root first, and where each node's
/// children are: `(first, count)`, the children being the nodes `first ..
/// first + count` in the tree's order. Every node's count is its child count,
/// and every node but the root is the child of exactly one node.
pub fn read_tree(tree: &tree_sitter::Tree) -> (r: (Vec<SyntaxNode>, Vec<(usize, usize)>))
    ensures
        r.0@.len() == r.1@.len(),
        r.0@.len() >= 1,
        kids_well_formed(r.1@),
        one_parent_each(r.1@),
        forall|i: int| 0 <= i < r.1@.len() ==> (#[trigger] r.1@[i]).1 == r.0@[i].child_count,
{
    let root = root_node(tree);
    let mut nodes: Vec<SyntaxNode> = Vec::new();
    let mut kids: Vec<(usize, usize)> = Vec::new();
    let count = child_count_of(&root);
    nodes.push(describe(&root, count));
    kids.push((0, 0));
    let mut work: Vec<(tree_sitter::Node, usize)> = Vec::new();
    work.push((root, 0));
    assert(work@[0].1 == 0);
    let mut budget: usize = usize::MAX;
    while budget > 0 && work.len() > 0
        invariant
            nodes@.len() == kids@.len(),
            nodes@.len() >= 1,
            kids_well_formed(kids@),
            one_parent_each(kids@),
            (usize::MAX - budget) + work@.len() == nodes@.len(),
            forall|j: int| 0 <= j < work@.len() ==> (#[trigger] work@[j]).1 < kids@.len(),
            forall|j: int| 0 <= j < work@.len() ==> kids@[(#[trigger] work@[j]).1 as int].1 == 0,
            forall|j: int| 0 <= j < work@.len() ==> nodes@[(#[trigger] work@[j]).1 as int].child_count
                == child_total(work@[j].0),
            forall|a: int, b: int| 0 <= a < b < work@.len() ==> (#[trigger] work@[a]).1 != (#[trigger] work@[b]).1,
            forall|i: int|
                0 <= i < kids@.len() ==> waiting(work@, i) || (#[trigger] kids@[i]).1 == nodes@[i].child_count,
        decreases budget,
    {
        let ghost before = work@;
        let ghost nodes0 = nodes@;
        let ghost kids0 = kids@;
        budget = budget - 1;
        let item = work.pop().unwrap();
        let (node, idx) = item;
        assert(work@ == before.drop_last() && item == before.last());
        assert forall|j: int| 0 <= j < work@.len() implies (#[trigger] work@[j]).1 != idx by {
            assert(work@[j] == before[j]);
        }
        assert(nodes@[idx as int].child_count == child_total(before[before.len() - 1].0));
        let count = child_count_of(&node);
        let first = nodes.len();
        let mut i: usize = 0;
        while i < count
            invariant
                nodes@.len() == kids@.len(),
                first + i == nodes@.len(),
                i <= count,
                count == child_total(node),
                idx < first,
                first == kids0.len(),
                first == nodes0.len(),
                forall|m: int| 0 <= m < first ==> kids@[m] == kids0[m],
                forall|m: int| 0 <= m < first ==> nodes@[m] == nodes0[m],
                forall|m: int| first <= m < kids@.len() ==> kids@[m] == (0usize, 0usize),
                forall|m: int| first <= m < nodes@.len() ==> #[trigger] waiting(work@, m),
                forall|j: int| 0 <= j < before.len() - 1 ==> work@[j] == before[j],
                work@.len() >= before.len() - 1,
                kids_well_formed(kids@),
                forall|j: int| 0 <= j < work@.len() ==> (#[trigger] work@[j]).1 < kids@.len(),
                forall|j: int| 0 <= j < work@.len() ==> kids@[(#[trigger] work@[j]).1 as int].1 == 0
                    || (#[trigger] work@[j]).1 == idx,
                forall|j: int| 0 <= j < work@.len() ==> nodes@[(#[trigger] work@[j]).1 as int].child_count
                    == child_total(work@[j].0),
                nodes@[idx as int].child_count == count,
                forall|a: int, b: int| 0 <= a < b < work@.len() ==> (#[trigger] work@[a]).1 != (#[trigger] work@[b]).1,
                forall|j: int| 0 <= j < work@.len() ==> (#[trigger] work@[j]).1 != idx,
                (usize::MAX - budget) + work@.len() == nodes@.len(),
            decreases count - i,
        {
            let child = child_of(&node, i).unwrap();
            let at = nodes.len();
            let c = child_count_of(&child);
            nodes.push(describe(&child, c));
            let ghost prev = kids@;
            kids.push((0, 0));
            assert forall|m: int| 0 <= m < kids@.len() implies #[trigger] kids_fit(kids@, m) by {
                if m < prev.len() {
                    assert(kids_fit(prev, m));
                }
            }
            let ghost wprev = work@;
            work.push((child, at));
            assert forall|j: int| 0 <= j < work@.len() implies (#[trigger] work@[j]).1 < kids@.len() by {
                if j < wprev.len() {
                    assert(work@[j] == wprev[j]);
                }
            }
            assert forall|m: int| first <= m < nodes@.len() implies #[trigger] waiting(work@, m) by {
                if m < at {
                    assert(waiting(wprev, m));
                    let j = choose|j: int| 0 <= j < wprev.len() && (#[trigger] wprev[j]).1 == m;
                    assert(work@[j] == wprev[j]);
                } else {
                    assert(work@[wprev.len() as int].1 == m);
                }
            }
            assert forall|a: int, b: int| 0 <= a < b < work@.len() implies (#[trigger] work@[a]).1 != (#[trigger] work@[b]).1 by {
                if b < wprev.len() {
                    assert(work@[a] == wprev[a] && work@[b] == wprev[b]);
                } else {
                    assert(work@[a] == wprev[a]);
                }
            }
            assert forall|j: int| 0 <= j < work@.len() implies kids@[(#[trigger] work@[j]).1 as int].1 == 0
                || (#[trigger] work@[j]).1 == idx by {
                if j < wprev.len() {
                    assert(work@[j] == wprev[j]);
                }
            }
            assert forall|j: int| 0 <= j < work@.len() implies nodes@[(#[trigger] work@[j]).1 as int].child_count
                == child_total(work@[j].0) by {
                if j < wprev.len() {
                    assert(work@[j] == wprev[j]);
                }
            }
            i += 1;
        }
        let total = nodes.len() - first;
        let ghost kids1 = kids@;
        kids.set(idx, (first, total));
        assert forall|m: int| 0 <= m < kids@.len() implies #[trigger] kids_fit(kids@, m) by {
            if m != idx {
                assert(kids_fit(kids1, m));
            }
        }
        proof {
            assert(kids0[idx as int].1 == 0);
            assert forall|m: int, j: int| 0 <= m < kids@.len() && is_child(kids@, m, j) && m != idx implies j
                < first by {
                if m < first {
                    assert(kids@[m] == kids0[m]);
                    assert(kids_fit(kids0, m));
                } else {
                    assert(kids@[m] == (0usize, 0usize));
                }
            }
            assert forall|j: int| 1 <= j < kids@.len() implies #[trigger] has_parent(kids@, j) by {
                if j >= first {
                    assert(is_child(kids@, idx as int, j));
                } else {
                    assert(has_parent(kids0, j));
                    let m = choose|m: int| 0 <= m < kids0.len() && #[trigger] is_child(kids0, m, j);
                    assert(m != idx);
                    assert(kids@[m] == kids0[m]);
                    assert(is_child(kids@, m, j));
                }
            }
            assert forall|i1: int, i2: int, j: int|
                0 <= i1 < kids@.len() && 0 <= i2 < kids@.len() && #[trigger] is_child(kids@, i1, j)
                    && #[trigger] is_child(kids@, i2, j) implies i1 == i2 by {
                if i1 != idx && i2 != idx {
                    assert(i1 < first && i2 < first);
                    assert(kids@[i1] == kids0[i1] && kids@[i2] == kids0[i2]);
                    assert(is_child(kids0, i1, j) && is_child(kids0, i2, j));
                } else if i1 == idx && i2 != idx {
                    assert(j >= first);
                } else if i2 == idx && i1 != idx {
                    assert(j >= first);
                }
            }
            assert forall|m: int| 0 <= m < kids@.len() implies !#[trigger] is_child(kids@, m, 0) by {
                assert(kids_fit(kids@, m));
            }
            assert forall|j: int| 0 <= j < work@.len() implies kids@[(#[trigger] work@[j]).1 as int].1 == 0 by {
                assert(work@[j].1 != idx);
            }
            assert forall|m: int|
                0 <= m < kids@.len() implies waiting(work@, m) || (#[trigger] kids@[m]).1 == nodes@[m].child_count by {
                if m == idx {
                    assert(kids@[m].1 == total);
                    assert(total == count);
                    assert(nodes@[m] == nodes0[m]);
                    assert(waiting(before, m) || kids0[m].1 == nodes0[m].child_count);
                } else if m < first {
                    assert(kids@[m] == kids0[m]);
                    assert(nodes@[m] == nodes0[m]);
                    assert(waiting(before, m) || kids0[m].1 == nodes0[m].child_count);
                    if waiting(before, m) {
                        let j0 = choose|j: int| 0 <= j < before.len() && (#[trigger] before[j]).1 == m;
                        assert(j0 != before.len() - 1);
                        assert(work@[j0] == before[j0]);
                    }
                }
            }
        }
    }
    let n = nodes.len();
    assert(work@.len() == 0);
    (nodes, kids)
}

/// Relies on std::str::from_utf8: it accepts exactly the valid UTF-8 byte
/// sequences, and the text it gives back is what they encode.
#[verifier::external_body]
fn decode(bytes: &[u8]) -> (r: Option<String>)
    ensures
        r is Some <==> valid_utf8(bytes@),
        r matches Some(s) ==> s@ == decode_utf8(bytes@),
{
    std::str::from_utf8(bytes).ok().map(|s| s.to_owned())
}

/// The source bytes that a byte range covers, when the range lies in them.
pub open spec fn span_bytes(source: Seq<u8>, start: int, end: int) -> Seq<u8> {
    source.subrange(start, end)
}

/// The text of bytes `[start, end)` of `source`: `None` when the range does
/// not lie in the source or its bytes are not valid UTF-8.
pub fn span_text(source: &[u8], start: usize, end: usize) -> (r: Option<String>)
    ensures
        r is Some <==> (start <= end <= source@.len() && valid_utf8(
            span_bytes(source@, start as int, end as int),
        )),
        r matches Some(s) ==> s@ == decode_utf8(span_bytes(source@, start as int, end as int)),
{
    if start > end || end > source.len() {
        return None;
    }
    decode(slice_subrange(source, start, end))
}

} // verus!
