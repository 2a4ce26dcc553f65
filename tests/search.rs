use sg::classify::{KindNames, NodeKinds};
use sg::search::{search_literal, Casing, LiteralPattern, MatchRecord};
use sg::report::{render_matches, Palette, ReportOptions};
use sg::tree::Session;
use sg::tree::SyntaxNode;

fn node(kind: &str, start: usize, end: usize, row: usize, col: usize, children: usize) -> SyntaxNode {
    SyntaxNode {
        kind: kind.to_string(),
        start_byte: start,
        end_byte: end,
        start_row: row,
        start_column: col,
        child_count: children,
    }
}

#[test]
fn pattern_casing() {
    let p = LiteralPattern::new("Foo", Casing::Smart, false);
    assert!(p.case_sensitive);
    assert_eq!(p.text, "Foo");
    let p = LiteralPattern::new("foo", Casing::Smart, true);
    assert!(!p.case_sensitive);
    assert_eq!(p.text, "foo");
    assert!(p.whole_word);
    let p = LiteralPattern::new("straße", Casing::Smart, false);
    assert!(!p.case_sensitive);
    let p = LiteralPattern::new("FoO", Casing::Insensitive, false);
    assert!(!p.case_sensitive);
    assert_eq!(p.text, "foo");
    let p = LiteralPattern::new("foo", Casing::Sensitive, false);
    assert!(p.case_sensitive);
}

#[test]
fn records_follow_node_order_and_positions() {
    let source = "ab\n/* x\n  foo */ foo\n";
    let nodes = vec![
        node("source_file", 0, source.len(), 0, 0, 2),
        node("identifier", 17, 20, 2, 9, 0),
        node("block_comment", 3, 16, 1, 0, 0),
    ];
    let kinds = NodeKinds { identifier: true, string: false, comment: true };
    let pattern = LiteralPattern::new("foo", Casing::Smart, false);
    let found = search_literal(&nodes, &vec![0, 1, 2], source, &pattern, kinds, &KindNames::rust());
    assert_eq!(
        found.records,
        vec![
            MatchRecord { line: 2, column: 9, column_byte: 9, length: 3 },
            MatchRecord { line: 2, column: 2, column_byte: 2, length: 3 },
        ]
    );
}

#[test]
fn unsearched_kinds_and_bad_ranges_give_nothing() {
    let source = "foo";
    let nodes = vec![node("block_comment", 0, 3, 0, 0, 0), node("identifier", 2, 9, 0, 0, 0)];
    let kinds = NodeKinds { identifier: true, string: false, comment: false };
    let pattern = LiteralPattern::new("foo", Casing::Smart, false);
    let found = search_literal(&nodes, &vec![0, 1, 5], source, &pattern, kinds, &KindNames::rust());
    assert_eq!(found.records, Vec::new());
    // The identifier's range runs past the text: skipped, and reported.
    assert_eq!(found.undecodable, vec![(2, 9)]);
}

#[test]
fn insensitive_search_finds_every_case() {
    let source = "Foo FOO";
    let nodes = vec![node("string_literal", 0, 7, 4, 1, 2)];
    let kinds = NodeKinds { identifier: false, string: true, comment: false };
    let pattern = LiteralPattern::new("fOo", Casing::Insensitive, false);
    let found = search_literal(&nodes, &vec![0], source, &pattern, kinds, &KindNames::rust());
    assert_eq!(
        found.records,
        vec![
            MatchRecord { line: 0, column: 1, column_byte: 0, length: 3 },
            MatchRecord { line: 0, column: 5, column_byte: 4, length: 3 },
        ]
    );
}

#[test]
fn undecodable_nodes_are_reported() {
    let source = "aé";
    // Byte 2 is inside the two-byte character.
    let nodes = vec![node("identifier", 0, 2, 0, 0, 0)];
    let kinds = NodeKinds { identifier: true, string: false, comment: false };
    let pattern = LiteralPattern::new("a", Casing::Smart, false);
    let found = search_literal(&nodes, &vec![0], source, &pattern, kinds, &KindNames::rust());
    assert_eq!(found.records, Vec::new());
    assert_eq!(found.undecodable, vec![(0, 2)]);
}

#[test]
fn file_walk_visits_children_last_to_first() {
    let mut session = Session::new(tree_sitter_rust::language()).unwrap();
    let file = session.parse("fn a() {}\nfn b() {}\n").unwrap();
    let order = sg::tree::walk_order(file.kids());
    assert_eq!(order.len(), file.nodes().len());
    assert_eq!(order[0], 0);
    let kinds: Vec<&str> = order.iter().map(|&i| file.nodes()[i].kind.as_str()).collect();
    // The second function comes first.
    assert_eq!(kinds[1], "function_item");
    assert_eq!(file.nodes()[order[1]].start_byte, 10);
    let found = sg::search::find_in_file(
        &file,
        "A",
        Casing::Insensitive,
        true,
        NodeKinds { identifier: true, string: false, comment: false },
        &KindNames::rust(),
    )
    .unwrap();
    assert_eq!(found.records, vec![MatchRecord { line: 0, column: 3, column_byte: 3, length: 1 }]);
    assert!(sg::search::find_in_file(
        &file,
        "",
        Casing::Smart,
        false,
        NodeKinds { identifier: true, string: false, comment: false },
        &KindNames::rust(),
    )
    .is_none());
}

#[test]
fn crlf_files_highlight_the_occurrence() {
    let source = "fn a() {}\r\n// x\r\nfn test() {}\r\n";
    let mut session = Session::new(tree_sitter_rust::language()).unwrap();
    let file = session.parse(source).unwrap();
    let pattern = LiteralPattern::new("test", Casing::Sensitive, false);
    let kinds = NodeKinds { identifier: true, string: false, comment: false };
    let found = sg::search::search_file(&file, &pattern, kinds, &KindNames::rust());
    assert_eq!(found.records, vec![MatchRecord { line: 2, column: 3, column_byte: 3, length: 4 }]);
    let mut pal = Palette::plain();
    pal.match_on = "<".to_string();
    pal.match_off = ">".to_string();
    let out = render_matches(
        "c.rs",
        source,
        &found.records,
        &pal,
        ReportOptions { group: false, column: true },
        true,
    );
    assert_eq!(String::from_utf8(out).unwrap(), "c.rs:3:4:fn <test>() {}\n");
}

#[test]
fn occurrences_folding_cannot_place_are_reported() {
    // "İ" (two bytes) folds to "i̇" (three bytes): the folded offset of "x"
    // is past the end of the two-byte token text that holds no "x" there.
    let source = "İx";
    let nodes = vec![node("identifier", 0, 3, 0, 0, 0)];
    let kinds = NodeKinds { identifier: true, string: false, comment: false };
    let pattern = LiteralPattern::new("x", Casing::Insensitive, false);
    let found = search_literal(&nodes, &vec![0], source, &pattern, kinds, &KindNames::rust());
    assert_eq!(found.records, Vec::new());
    assert_eq!(found.unplaced, vec![(0, 3)]);
}

#[test]
fn lone_carriage_return_in_a_token_starts_a_line() {
    let source = "/* a\rfoo */";
    let nodes = vec![node("block_comment", 0, 11, 0, 0, 0)];
    let kinds = NodeKinds { identifier: false, string: false, comment: true };
    let pattern = LiteralPattern::new("foo", Casing::Sensitive, false);
    let found = search_literal(&nodes, &vec![0], source, &pattern, kinds, &KindNames::rust());
    assert_eq!(found.records, vec![MatchRecord { line: 1, column: 0, column_byte: 0, length: 3 }]);
}
