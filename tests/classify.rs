use sg::classify::{
    classify, parse_kind_list, parse_kinds, searched, Classification, KindNames, NodeKinds,
};

#[test]
fn categories_of_rust_nodes() {
    let names = KindNames::rust();
    assert_eq!(classify(&names, &"line_comment".to_string(), 0, true), Classification::Comment);
    assert_eq!(classify(&names, &"block_comment".to_string(), 0, false), Classification::Comment);
    assert_eq!(
        classify(&names, &"string_literal".to_string(), 2, true),
        Classification::StringLiteral
    );
    assert_eq!(classify(&names, &"identifier".to_string(), 0, true), Classification::Identifier);
    assert_eq!(classify(&names, &"identifier".to_string(), 0, false), Classification::Other);
    assert_eq!(classify(&names, &"function_item".to_string(), 4, true), Classification::Other);
}

#[test]
fn categories_of_ocaml_nodes() {
    let names = KindNames::ocaml();
    assert_eq!(classify(&names, &"comment".to_string(), 0, true), Classification::Comment);
    assert_eq!(classify(&names, &"string".to_string(), 1, true), Classification::StringLiteral);
    assert_eq!(classify(&names, &"line_comment".to_string(), 0, true), Classification::Identifier);
}

#[test]
fn which_categories_are_searched() {
    let kinds = NodeKinds { identifier: false, string: true, comment: false };
    assert!(!searched(Classification::Comment, kinds));
    assert!(searched(Classification::StringLiteral, kinds));
    assert!(searched(Classification::Identifier, kinds));
    assert!(!searched(Classification::Other, kinds));
}

#[test]
fn kind_lists() {
    assert_eq!(
        parse_kinds(" string,identifier,comment\n").unwrap(),
        NodeKinds { identifier: true, string: true, comment: true }
    );
    assert_eq!(
        parse_kinds("identifier").unwrap(),
        NodeKinds { identifier: true, string: false, comment: false }
    );
    assert_eq!(
        parse_kind_list("comment,comment").unwrap(),
        NodeKinds { identifier: false, string: false, comment: true }
    );
    assert_eq!(parse_kinds("string,strings,bogus").unwrap_err(), "strings");
    assert_eq!(parse_kind_list("identifier,").unwrap_err(), "");
    assert_eq!(parse_kind_list(" identifier").unwrap_err(), " identifier");
}

#[test]
fn leaf_string_literal_is_an_identifier_when_identifiers_are_searched() {
    let names = KindNames::rust();
    assert_eq!(
        classify(&names, &"string_literal".to_string(), 0, true),
        Classification::Identifier
    );
    assert_eq!(
        classify(&names, &"string_literal".to_string(), 0, false),
        Classification::StringLiteral
    );
}

#[test]
fn trimming_both_ends() {
    assert_eq!(sg::classify::trim("  a b \n"), "a b");
    assert_eq!(sg::classify::trim("\u{3000}x\t"), "x");
    assert_eq!(sg::classify::trim(" \n "), "");
    assert_eq!(sg::classify::trim("xy"), "xy");
}

#[test]
fn white_space_is_unicode_white_space() {
    for v in 0u32..0x110000 {
        if let Some(c) = char::from_u32(v) {
            assert_eq!(sg::classify::is_white(c), c.is_whitespace(), "U+{:04X}", v);
        }
    }
}
