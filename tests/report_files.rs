use sg::classify::{KindNames, NodeKinds};
use sg::report::{report_pattern_file, Palette, ReportOptions};
use sg::search::{Casing, LiteralPattern};
use sg::tree::Session;

const SIMPLE_RS: &str = "fn test() {\n    let s = \"testtest\";\n    let s = \"test\";\n}\n";

fn run_file(
    language: tree_sitter::Language,
    names: &KindNames,
    path: &str,
    source: &str,
    pattern: &str,
    kinds: NodeKinds,
    whole_word: bool,
    pal: &Palette,
    opts: ReportOptions,
) -> String {
    let mut session = Session::new(language).unwrap();
    let file = session.parse(source).unwrap();
    let pattern = LiteralPattern::new(pattern, Casing::Smart, whole_word);
    let report = report_pattern_file(&file, path, &pattern, kinds, names, pal, opts, true);
    assert!(report.undecodable.is_empty());
    String::from_utf8(report.output).unwrap()
}

fn all_kinds() -> NodeKinds {
    NodeKinds { identifier: true, string: true, comment: true }
}

fn ansi_palette() -> Palette {
    let path = ansi_term::Colour::Green.bold();
    let line = ansi_term::Colour::Yellow.bold();
    let hit = ansi_term::Colour::Black.on(ansi_term::Colour::Yellow);
    Palette {
        path_on: path.prefix().to_string(),
        path_off: path.suffix().to_string(),
        line_on: line.prefix().to_string(),
        line_off: line.suffix().to_string(),
        match_on: hit.prefix().to_string(),
        match_off: hit.suffix().to_string(),
    }
}

#[test]
fn simple() {
    // All occurrences of 'test'
    let str = run_file(
        tree_sitter_rust::language(),
        &KindNames::rust(),
        "test_files/simple/simple.rs",
        SIMPLE_RS,
        "test",
        all_kinds(),
        false,
        &Palette::plain(),
        ReportOptions { group: true, column: false },
    );

    assert_eq!(
        str,
        "test_files/simple/simple.rs\n\
         3:    let s = \"test\";\n\
         2:    let s = \"testtest\";\n\
         2:    let s = \"testtest\";\n\
         1:fn test() {\n"
    );
}

#[test]
fn simple_word() {
    // All occurrences of 'test', only whole words
    let str = run_file(
        tree_sitter_rust::language(),
        &KindNames::rust(),
        "test_files/simple/simple.rs",
        SIMPLE_RS,
        "test",
        all_kinds(),
        true,
        &Palette::plain(),
        ReportOptions { group: true, column: false },
    );

    assert_eq!(
        str,
        "test_files/simple/simple.rs\n\
         3:    let s = \"test\";\n\
         1:fn test() {\n"
    );
}

#[test]
fn simple_word_id() {
    // All occurrences of 'test', only identifiers
    let str = run_file(
        tree_sitter_rust::language(),
        &KindNames::rust(),
        "test_files/simple/simple.rs",
        SIMPLE_RS,
        "test",
        NodeKinds { identifier: true, string: false, comment: false },
        true,
        &Palette::plain(),
        ReportOptions { group: true, column: false },
    );

    assert_eq!(
        str,
        "test_files/simple/simple.rs\n\
         1:fn test() {\n"
    );
}

#[test]
fn issue_5_1() {
    let source = "let greeting =\n  \"multi\n   line\"\n1\n";
    let str = run_file(
        tree_sitter_ocaml::language_ocaml(),
        &KindNames::ocaml(),
        "test_files/issue_5_1.ml",
        source,
        "1",
        NodeKinds { identifier: true, string: false, comment: false },
        false,
        &Palette::plain(),
        ReportOptions { group: true, column: false },
    );

    assert_eq!(
        str,
        "test_files/issue_5_1.ml\n\
         4:1\n"
    );
}

#[test]
fn issue_5_2() {
    let source = "(* How many checkpoints\n   are kept *)\nlet checkpoint_max_count = ref 15\n";
    let str = run_file(
        tree_sitter_ocaml::language_ocaml(),
        &KindNames::ocaml(),
        "test_files/issue_5_2.ml",
        source,
        "1",
        NodeKinds { identifier: true, string: false, comment: false },
        false,
        &ansi_palette(),
        ReportOptions { group: true, column: true },
    );

    assert_eq!(
        str,
        "\u{1b}[1;32mtest_files/issue_5_2.ml\u{1b}[0m\n\
         \u{1b}[1;33m3\u{1b}[0m:32:let checkpoint_max_count = ref \u{1b}[43;30m1\u{1b}[0m5\n"
    );
}
