use sg::lines::line_table;
use sg::report::{render_matches, Palette, ReportOptions};
use sg::search::MatchRecord;

#[test]
fn lines_of_a_text() {
    assert_eq!(line_table(b""), Vec::new());
    assert_eq!(line_table(b"ab\ncd"), vec![(0, 2), (3, 5)]);
    assert_eq!(line_table(b"ab\r\n\ncd\n"), vec![(0, 2), (4, 4), (5, 7)]);
}

#[test]
fn ungrouped_lines_carry_the_path() {
    let recs = vec![
        MatchRecord { line: 1, column: 2, column_byte: 2, length: 2 },
        MatchRecord { line: 7, column: 0, column_byte: 0, length: 1 },
        MatchRecord { line: 0, column: 0, column_byte: 0, length: 1 },
    ];
    let out = render_matches(
        "f.rs",
        "x\r\nabcd\r\n",
        &recs,
        &Palette::plain(),
        ReportOptions { group: false, column: true },
        true,
    );
    assert_eq!(String::from_utf8(out).unwrap(), "f.rs:2:3:abcd\nf.rs:1:1:x\n");
}

#[test]
fn grouped_header_after_the_first_file() {
    let recs = vec![MatchRecord { line: 10, column: 1, column_byte: 1, length: 1 }];
    let source = "\n\n\n\n\n\n\n\n\n\nxyz\n";
    let out = render_matches(
        "g.rs",
        source,
        &recs,
        &Palette::plain(),
        ReportOptions { group: true, column: false },
        false,
    );
    assert_eq!(String::from_utf8(out).unwrap(), "\ng.rs\n11:xyz\n");
    let none = render_matches(
        "g.rs",
        source,
        &Vec::new(),
        &Palette::plain(),
        ReportOptions { group: true, column: false },
        false,
    );
    assert!(none.is_empty());
}

#[test]
fn lone_carriage_returns_end_lines() {
    assert_eq!(line_table(b"a\rb\r\nc\r"), vec![(0, 1), (2, 3), (5, 6)]);
    assert_eq!(line_table(b"\r\r"), vec![(0, 0), (1, 1)]);
}
