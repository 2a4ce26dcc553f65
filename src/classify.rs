//! The node classifier: which category of searchable text a node is.

use vstd::prelude::*;

use crate::text::chars_of;

verus! {

/// The grammar's kind names for the categories that the classifier knows.
pub struct KindNames {
    /// Kinds of comment nodes.
    pub comments: Vec<String>,
    /// Kind of string literal nodes.
    pub string_literal: String,
}

/// The categories of node that a search looks into.
#[derive(Clone, Copy, Debug, PartialEq, Eq, Structural)]
pub struct NodeKinds {
    /// Leaf tokens: identifiers and keywords.
    pub identifier: bool,
    /// String literals.
    pub string: bool,
    /// Comments.
    pub comment: bool,
}

/// The category of a node.
#[derive(Clone, Copy, Debug, PartialEq, Eq, Structural)]
pub enum Classification {
    Comment,
    StringLiteral,
    Identifier,
    Other,
}

/// `kind` is one of the grammar's comment kinds.
pub open spec fn is_comment_kind(names: &KindNames, kind: Seq<char>) -> bool {
    exists|i: int| 0 <= i < names.comments@.len() && (#[trigger] names.comments@[i])@ == kind
}

/// The category of a node of kind `kind` with `child_count` children, when
/// identifier search is `identifiers`.
pub open spec fn class_of(names: &KindNames, kind: Seq<char>, child_count: nat, identifiers: bool) -> Classification {
    if is_comment_kind(names, kind) {
        Classification::Comment
    } else if child_count == 0 && identifiers {
        Classification::Identifier
    } else if kind == names.string_literal@ {
        Classification::StringLiteral
    } else {
        Classification::Other
    }
}

/// Whether nodes of category `c` are searched.
pub open spec fn is_searched(c: Classification, kinds: NodeKinds) -> bool {
    match c {
        Classification::Comment => kinds.comment,
        Classification::StringLiteral => kinds.string,
        Classification::Identifier => true,
        Classification::Other => false,
    }
}

impl KindNames {
    /// The kind names of the Rust grammar.
    pub fn rust() -> (r: KindNames)
        ensures
            r.comments@.len() == 2,
            r.comments@[0]@ == "block_comment"@,
            r.comments@[1]@ == "line_comment"@,
            r.string_literal@ == "string_literal"@,
    {
        let mut comments: Vec<String> = Vec::new();
        comments.push("block_comment".to_owned());
        comments.push("line_comment".to_owned());
        KindNames { comments, string_literal: "string_literal".to_owned() }
    }

    /// The kind names of the OCaml grammar.
    pub fn ocaml() -> (r: KindNames)
        ensures
            r.comments@.len() == 1,
            r.comments@[0]@ == "comment"@,
            r.string_literal@ == "string"@,
    {
        let mut comments: Vec<String> = Vec::new();
        comments.push("comment".to_owned());
        KindNames { comments, string_literal: "string".to_owned() }
    }

    /// Whether `kind` is one of the comment kinds.
    pub fn is_comment(&self, kind: &String) -> (r: bool)
        ensures
            r == is_comment_kind(self, kind@),
    {
        let mut i: usize = 0;
        while i < self.comments.len()
            invariant
                i <= self.comments@.len(),
                forall|j: int| 0 <= j < i ==> (#[trigger] self.comments@[j])@ != kind@,
            decreases self.comments@.len() - i,
        {
            if self.comments[i] == *kind {
                return true;
            }
            i += 1;
        }
        false
    }
}

/// The category of a node of kind `kind` with `child_count` children: a
/// comment by its kind name; an identifier when it is any other leaf and
/// identifier search is on; a string literal by its kind name; otherwise none
/// that is searched.
pub fn classify(names: &KindNames, kind: &String, child_count: usize, identifiers: bool) -> (r: Classification)
    ensures
        r == class_of(names, kind@, child_count as nat, identifiers),
{
    if names.is_comment(kind) {
        Classification::Comment
    } else if child_count == 0 && identifiers {
        Classification::Identifier
    } else if *kind == names.string_literal {
        Classification::StringLiteral
    } else {
        Classification::Other
    }
}

/// Whether nodes of category `c` are searched when the caller asks for `kinds`.
pub fn searched(c: Classification, kinds: NodeKinds) -> (r: bool)
    ensures
        r == is_searched(c, kinds),
{
    match c {
        Classification::Comment => kinds.comment,
        Classification::StringLiteral => kinds.string,
        Classification::Identifier => true,
        Classification::Other => false,
    }
}

/// Index of the first comma of `s` at or after `from`, or the length of `s`.
pub open spec fn next_comma(s: Seq<char>, from: int) -> int
    decreases s.len() - from,
{
    if from < 0 || from >= s.len() {
        s.len() as int
    } else if s[from] == ',' {
        from
    } else {
        next_comma(s, from + 1)
    }
}

/// The pieces of `s` between commas, from `from` on: one more than there are
/// commas, each possibly empty.
pub open spec fn comma_pieces(s: Seq<char>, from: int) -> Seq<Seq<char>>
    decreases s.len() - from,
{
    let c = next_comma(s, from);
    if from < 0 || from > s.len() || c < from || c >= s.len() {
        seq![s.subrange(from, s.len() as int)]
    } else {
        seq![s.subrange(from, c)] + comma_pieces(s, c + 1)
    }
}

/// The categories that a list of kind names asks for, or the first name that
/// is none of `identifier`, `comment` and `string`.
pub open spec fn kinds_of_list(pieces: Seq<Seq<char>>) -> Result<NodeKinds, Seq<char>>
    decreases pieces.len(),
{
    if pieces.len() == 0 {
        Ok(NodeKinds { identifier: false, string: false, comment: false })
    } else {
        let p = pieces[0];
        if p != "identifier"@ && p != "comment"@ && p != "string"@ {
            Err(p)
        } else {
            match kinds_of_list(pieces.drop_first()) {
                Err(e) => Err(e),
                Ok(k) => Ok(
                    NodeKinds {
                        identifier: k.identifier || p == "identifier"@,
                        string: k.string || p == "string"@,
                        comment: k.comment || p == "comment"@,
                    },
                ),
            }
        }
    }
}

/// Whether a character is white space: it has Unicode's White_Space
/// property, which `char::is_whitespace` tests.
pub open spec fn white_char(c: char) -> bool {
    let v = c as u32;
    (0x09 <= v && v <= 0x0d) || v == 0x20 || v == 0x85 || v == 0xa0 || v == 0x1680 || (0x2000
        <= v && v <= 0x200a) || v == 0x2028 || v == 0x2029 || v == 0x202f || v == 0x205f || v
        == 0x3000
}

/// Whether a character is white space.
pub fn is_white(c: char) -> (r: bool)
    ensures
        r == white_char(c),
{
    let v = c as u32;
    (0x09 <= v && v <= 0x0d) || v == 0x20 || v == 0x85 || v == 0xa0 || v == 0x1680 || (0x2000
        <= v && v <= 0x200a) || v == 0x2028 || v == 0x2029 || v == 0x202f || v == 0x205f || v
        == 0x3000
}

/// `s` without the white space at its start.
pub open spec fn strip_front(s: Seq<char>) -> Seq<char>
    decreases s.len(),
{
    if s.len() > 0 && white_char(s[0]) {
        strip_front(s.drop_first())
    } else {
        s
    }
}

/// `s` without the white space at its end.
pub open spec fn strip_back(s: Seq<char>) -> Seq<char>
    decreases s.len(),
{
    if s.len() > 0 && white_char(s.last()) {
        strip_back(s.drop_last())
    } else {
        s
    }
}

/// `s` without the white space at either end.
pub open spec fn trimmed(s: Seq<char>) -> Seq<char> {
    strip_back(strip_front(s))
}

/// `s` without the white space at either end, as `str::trim` gives it.
pub fn trim(s: &str) -> (r: &str)
    ensures
        r@ == trimmed(s@),
{
    let chars = chars_of(s);
    let n = chars.len();
    let mut i: usize = 0;
    assert(s@.skip(0) =~= s@);
    while i < n && is_white(chars[i])
        invariant
            chars@ == s@,
            n == s@.len(),
            i <= n,
            strip_front(s@) == strip_front(s@.skip(i as int)),
        decreases n - i,
    {
        assert(s@.skip(i as int).drop_first() =~= s@.skip(i + 1));
        i += 1;
    }
    assert(strip_front(s@) == s@.skip(i as int)) by {
        if i < n {
            assert(s@.skip(i as int)[0] == s@[i as int]);
        } else {
            assert(s@.skip(i as int) =~= Seq::<char>::empty());
        }
    }
    let mut j: usize = n;
    assert(s@.subrange(i as int, n as int) =~= s@.skip(i as int));
    while j > i && is_white(chars[j - 1])
        invariant
            chars@ == s@,
            n == s@.len(),
            i <= j <= n,
            trimmed(s@) == strip_back(s@.subrange(i as int, j as int)),
        decreases j - i,
    {
        assert(s@.subrange(i as int, j as int).drop_last() =~= s@.subrange(i as int, j - 1));
        j -= 1;
    }
    assert(trimmed(s@) == s@.subrange(i as int, j as int)) by {
        if j > i {
            assert(s@.subrange(i as int, j as int).last() == s@[j - 1]);
        }
    }
    s.substring_char(i, j)
}

fn piece_is(s: &Vec<char>, from: usize, to: usize, word: &str) -> (r: bool)
    requires
        from <= to <= s@.len(),
    ensures
        r == (s@.subrange(from as int, to as int) == word@),
{
    let w = chars_of(word);
    if to - from != w.len() {
        return false;
    }
    let mut i: usize = 0;
    while i < w.len()
        invariant
            i <= w@.len(),
            w@ == word@,
            from + w@.len() == to <= s@.len(),
            forall|j: int| 0 <= j < i ==> s@[from + j] == w@[j],
        decreases w@.len() - i,
    {
        if s[from + i] != w[i] {
            assert(s@.subrange(from as int, to as int)[i as int] != w@[i as int]);
            return false;
        }
        i += 1;
    }
    assert(s@.subrange(from as int, to as int) =~= w@);
    true
}

/// The categories named by `list`, comma-separated with no white space around
/// the names: `Err` with the first name that is none of `identifier`,
/// `comment` and `string`.
pub fn parse_kind_list(list: &str) -> (r: Result<NodeKinds, String>)
    ensures
        match (r, kinds_of_list(comma_pieces(list@, 0))) {
            (Ok(k), Ok(e)) => k == e,
            (Err(s), Err(e)) => s@ == e,
            _ => false,
        },
{
    let s = chars_of(list);
    let n = s.len();
    let mut kinds = NodeKinds { identifier: false, string: false, comment: false };
    let mut start: usize = 0;
    let ghost all = comma_pieces(s@, 0);
    let mut done = false;
    while !done
        invariant
            n == s@.len(),
            s@ == list@,
            all == comma_pieces(s@, 0),
            start <= n,
            !done ==> ({
                let rest = kinds_of_list(comma_pieces(s@, start as int));
                match kinds_of_list(all) {
                    Err(e) => rest == Err::<NodeKinds, Seq<char>>(e),
                    Ok(full) => rest matches Ok(k) && full == (NodeKinds {
                        identifier: kinds.identifier || k.identifier,
                        string: kinds.string || k.string,
                        comment: kinds.comment || k.comment,
                    }),
                }
            }),
            done ==> kinds_of_list(all) == Ok::<NodeKinds, Seq<char>>(kinds),
        decreases n - start + if done { 0int } else { 1int },
    {
        let mut end: usize = start;
        while end < n && s[end] != ','
            invariant
                start <= end <= n,
                n == s@.len(),
                next_comma(s@, start as int) == next_comma(s@, end as int),
            decreases n - end,
        {
            end += 1;
        }
        let ghost pieces = comma_pieces(s@, start as int);
        let ghost piece = s@.subrange(start as int, end as int);
        assert(pieces[0] == piece);
        let is_id = piece_is(&s, start, end, "identifier");
        let is_comment = piece_is(&s, start, end, "comment");
        let is_string = piece_is(&s, start, end, "string");
        if !is_id && !is_comment && !is_string {
            let bad = list.substring_char(start, end).to_owned();
            return Err(bad);
        }
        kinds = NodeKinds {
            identifier: kinds.identifier || is_id,
            string: kinds.string || is_string,
            comment: kinds.comment || is_comment,
        };
        if end < n {
            assert(pieces.drop_first() == comma_pieces(s@, end + 1));
            start = end + 1;
        } else {
            assert(pieces.drop_first() =~= Seq::<Seq<char>>::empty());
            assert(kinds_of_list(pieces.drop_first()) == Ok::<NodeKinds, Seq<char>>(
                NodeKinds { identifier: false, string: false, comment: false },
            ));
            done = true;
        }
    }
    Ok(kinds)
}

/// The categories named by `list` once white space at its ends is trimmed:
/// names separated by commas, each one of `identifier`, `comment` and
/// `string`; `Err` with the first name that is none of them.
pub fn parse_kinds(list: &str) -> (r: Result<NodeKinds, String>)
    ensures
        match (r, kinds_of_list(comma_pieces(trimmed(list@), 0))) {
            (Ok(k), Ok(e)) => k == e,
            (Err(s), Err(e)) => s@ == e,
            _ => false,
        },
{
    parse_kind_list(trim(list))
}

} // verus!
