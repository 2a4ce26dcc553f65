use sg::position::{get_token_line_col, try_token_line_col};

#[test]
fn offset_zero_is_the_token_start() {
    assert_eq!(get_token_line_col("abc", 7, 0), (0, 7, 0));
    assert_eq!(get_token_line_col("", 3, 0), (0, 3, 0));
    assert_eq!(get_token_line_col("\nx", 5, 0), (0, 5, 0));
}

#[test]
fn first_line_counts_from_the_start_column() {
    assert_eq!(get_token_line_col("abcdef", 4, 3), (0, 7, 3));
}

#[test]
fn later_lines_count_from_zero() {
    assert_eq!(get_token_line_col("ab\ncd", 4, 3), (1, 0, 0));
    assert_eq!(get_token_line_col("ab\ncd", 4, 4), (1, 1, 1));
    assert_eq!(get_token_line_col("a\n\nb", 0, 3), (2, 0, 0));
}

#[test]
fn line_endings() {
    // A \r\n pair is one line break.
    assert_eq!(get_token_line_col("a\r\nb", 9, 3), (1, 0, 0));
    // A lone \r is a line break of its own.
    assert_eq!(get_token_line_col("a\rb", 9, 2), (1, 0, 0));
    assert_eq!(get_token_line_col("a\r\rb", 9, 3), (2, 0, 0));
    assert_eq!(get_token_line_col("\r\n\nx", 0, 4), (2, 1, 1));
}

#[test]
fn columns_are_characters_and_byte_columns_bytes() {
    assert_eq!(get_token_line_col("éa", 0, 2), (0, 1, 2));
    assert_eq!(get_token_line_col("x\néab", 2, 5), (1, 2, 3));
}

#[test]
fn offsets_that_are_not_positions() {
    // Inside a multi-byte character.
    assert_eq!(try_token_line_col("éa", 0, 1), None);
    // Between \r and \n.
    assert_eq!(try_token_line_col("a\r\nb", 0, 2), None);
    // Past the end.
    assert_eq!(try_token_line_col("ab", 0, 3), None);
    assert_eq!(try_token_line_col("ab", 0, 2), Some((0, 2, 2)));
}
