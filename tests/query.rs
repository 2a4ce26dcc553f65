use sg::query::{
    capture_counts, select_groups, sort_spans, CaptureFilter, CaptureSpan,
    CompiledQuery, QueryCompileError,
};
use sg::report::{render_query_matches, report_query_file, Palette, ReportOptions};
use sg::tree::Session;

fn span(index: usize, start: usize, end: usize) -> CaptureSpan {
    CaptureSpan { index, start_byte: start, end_byte: end, start_row: 0, start_column: start }
}

#[test]
fn nested_functions_give_one_group_each() {
    let source = "fn outer() {\n    fn inner() {}\n}\n";
    let language = tree_sitter_rust::language();
    let query = CompiledQuery::compile(language, "(function_item name: (identifier) @id)").unwrap();
    let mut session = Session::new(language).unwrap();
    let file = session.parse(source).unwrap();
    let groups = query.run(&file);
    assert_eq!(groups.len(), 2);
    assert_eq!(groups[0].len(), 1);
    assert_eq!(groups[1].len(), 1);
    assert_eq!(&source[groups[0][0].start_byte..groups[0][0].end_byte], "outer");
    assert_eq!(&source[groups[1][0].start_byte..groups[1][0].end_byte], "inner");
    assert!(groups[0][0].start_byte < groups[1][0].start_byte);
    let records = sg::query::run_query(&query, &file, &Vec::new());
    assert_eq!(records.len(), 2);
    assert_eq!(records[0].node, groups[0][0]);
    assert!(records[0].highlights.is_empty());
}

#[test]
fn same_query_same_order() {
    let source = "fn a(x: u8) {}\nfn b() { fn c() {} }\n";
    let language = tree_sitter_rust::language();
    let query =
        CompiledQuery::compile(language, "(function_item name: (identifier) @f body: (block) @b)")
            .unwrap();
    let mut session = Session::new(language).unwrap();
    let file = session.parse(source).unwrap();
    assert_eq!(query.run(&file), query.run(&file));
}

#[test]
fn query_errors() {
    let language = tree_sitter_rust::language();
    assert!(matches!(
        CompiledQuery::compile(language, "(function_item"),
        Err(QueryCompileError::Syntax(_))
    ));
    assert!(matches!(
        CompiledQuery::compile(language, "(function_item)"),
        Err(QueryCompileError::NoCaptures)
    ));
    // An unknown node name at the very end of the text.
    assert!(matches!(CompiledQuery::compile(language, "(zzz"), Err(QueryCompileError::Syntax(_))));
    assert!(matches!(CompiledQuery::compile(language, "(zzz) @x"), Err(QueryCompileError::Syntax(_))));
}

#[test]
fn capture_names_are_kept() {
    let language = tree_sitter_rust::language();
    let q = CompiledQuery::compile(language, "(identifier) @i").unwrap();
    assert_eq!(q.capture_names(), &vec!["i".to_string()]);
}

#[test]
fn filters_compare_capture_text() {
    let source = b"let abc = def;";
    let names = vec!["name".to_string(), "value".to_string()];
    let filters = vec![CaptureFilter { name: "name".to_string(), value: "abc".to_string() }];
    assert!(capture_counts(&names, &filters, source, span(0, 4, 7)));
    assert!(!capture_counts(&names, &filters, source, span(0, 10, 13)));
    // No filter for this name.
    assert!(capture_counts(&names, &filters, source, span(1, 10, 13)));
    // A range outside the text never equals a value.
    assert!(!capture_counts(&names, &filters, source, span(0, 12, 20)));
}

#[test]
fn groups_pass_when_one_capture_counts() {
    let source = b"let abc = def;";
    let names = vec!["name".to_string(), "value".to_string()];
    let filters = vec![
        CaptureFilter { name: "name".to_string(), value: "zzz".to_string() },
        CaptureFilter { name: "value".to_string(), value: "def".to_string() },
    ];
    let groups = vec![
        vec![span(0, 0, 14), span(1, 10, 13), span(0, 4, 7)],
        vec![span(0, 4, 7)],
        vec![],
    ];
    let recs = select_groups(&groups, &names, &filters, source);
    assert_eq!(recs.len(), 1);
    assert_eq!(recs[0].node, span(0, 0, 14));
    assert_eq!(recs[0].highlights, vec![(4, 7), (10, 13)]);
}

#[test]
fn highlights_sort_by_start_then_end() {
    let v = vec![(5, 9), (1, 4), (5, 6), (1, 2), (5, 6)];
    assert_eq!(sort_spans(&v), vec![(1, 2), (1, 4), (5, 6), (5, 6), (5, 9)]);
    assert_eq!(sort_spans(&Vec::new()), Vec::new());
}

#[test]
fn query_report_highlights_captures() {
    let source = "fn outer() {\n    fn inner() {}\n}\n";
    let language = tree_sitter_rust::language();
    let query =
        CompiledQuery::compile(language, "(function_item name: (identifier) @n) @f").unwrap();
    let mut session = Session::new(language).unwrap();
    let pal = Palette {
        path_on: String::new(),
        path_off: String::new(),
        line_on: String::new(),
        line_off: String::new(),
        match_on: "[".to_string(),
        match_off: "]".to_string(),
    };
    let file = session.parse(source).unwrap();
    let report = report_query_file(
        &file,
        "a.rs",
        &query,
        &Vec::new(),
        &pal,
        ReportOptions { group: false, column: false },
        true,
    );
    assert!(report.undecodable.is_empty());
    let out = String::from_utf8(report.output).unwrap();
    assert_eq!(
        out,
        "a.rs:1:fn [outer]() {\n      fn inner() {}\n  }\na.rs:2:fn [inner]() {}\n"
    );
}

#[test]
fn capture_filters_split_at_the_first_equals() {
    let f = sg::query::parse_capture("name=a=b").unwrap();
    assert_eq!(f.name, "name");
    assert_eq!(f.value, "a=b");
    let f = sg::query::parse_capture("=").unwrap();
    assert_eq!(f.name, "");
    assert_eq!(f.value, "");
    assert!(sg::query::parse_capture("name").is_none());
}

#[test]
fn undecodable_query_nodes_are_skipped() {
    let recs = vec![
        sg::query::QueryRecord { node: span(0, 0, 2), highlights: Vec::new() },
        sg::query::QueryRecord { node: span(0, 4, 6), highlights: vec![(5, 6)] },
    ];
    let mut pal = Palette::plain();
    pal.match_on = "[".to_string();
    pal.match_off = "]".to_string();
    let r = render_query_matches(
        "q.rs",
        "aé xy",
        &recs,
        &pal,
        ReportOptions { group: true, column: false },
        true,
    );
    // The first node ends inside "é": skipped.
    assert_eq!(r.undecodable, vec![(0, 2)]);
    assert_eq!(String::from_utf8(r.output).unwrap(), "q.rs\n1:x[y]\n");
    let none = render_query_matches(
        "q.rs",
        "aé",
        &vec![sg::query::QueryRecord { node: span(0, 0, 2), highlights: Vec::new() }],
        &pal,
        ReportOptions { group: true, column: false },
        true,
    );
    assert!(none.output.is_empty());
}
