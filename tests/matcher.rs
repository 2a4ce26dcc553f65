use sg::matcher::{check_word_bounds, match_folded, match_token};

fn assert_word_bounds() {
    assert!(check_word_bounds("test", 0, 4));
    assert!(!check_word_bounds("test", 0, 3));
    assert!(!check_word_bounds("test", 1, 4));
    assert!(!check_word_bounds("test", 1, 3));
    assert!(!check_word_bounds("test", 1, 2));
    assert!(!check_word_bounds("test", 2, 3));
    assert!(!check_word_bounds("test", 2, 2));

    assert!(check_word_bounds("a b c", 2, 3));
    assert!(!check_word_bounds("a b c", 2, 4));
    assert!(check_word_bounds("a b c", 2, 5));
}

fn assert_match_token() {
    assert_eq!(match_token("test", "test", false, false, false), vec![0]);
    assert_eq!(match_token("test", "test", true, false, false), vec![0]);
    assert_eq!(match_token("test", "Test", true, true, true), Vec::<usize>::new());
    assert_eq!(match_token("Test", "Test", true, true, true), vec![0]);

    // Whole word
    assert_eq!(match_token("just testing", "test", false, false, false), vec![5]);
    assert_eq!(match_token("just testing", "test", false, true, false), Vec::<usize>::new());

    // Multiple occurrences in single token
    assert_eq!(match_token("tey te tey", "te", false, false, false), vec![0, 4, 7]);
    assert_eq!(match_token("tey te tey", "te", false, true, false), vec![4]);
    assert_eq!(match_token("tey Te tey", "Te", false, false, true), vec![4]);
}

#[test]
fn main_test_word_bounds() {
    assert_word_bounds();
}

#[test]
fn main_test_match_token() {
    assert_match_token();
}

#[test]
fn word_test_word_bounds() {
    assert_word_bounds();
}

#[test]
fn word_test_match_token() {
    assert_match_token();
}

#[test]
fn repeated_pattern_gives_each_copy() {
    assert_eq!(match_token("testtest", "test", false, false, true), vec![0, 4]);
}

#[test]
fn whole_word_rejects_word_prefix() {
    assert_eq!(match_token("just testing", "test", false, true, true), Vec::<usize>::new());
}

#[test]
fn case_mismatch_is_not_a_match() {
    assert_eq!(match_token("tey Te tey", "Te", false, false, true), vec![4]);
    assert_eq!(match_token("tey Te tey", "Te", false, true, true), vec![4]);
}

#[test]
fn occurrences_do_not_overlap() {
    assert_eq!(match_token("aaaa", "aa", false, false, true), vec![0, 2]);
    assert_eq!(match_token("aaa", "aa", false, false, true), vec![0]);
}

#[test]
fn whole_word_skips_a_dropped_span() {
    // The first "ab" is inside a word; the search resumes after it.
    assert_eq!(match_token("xab ab", "ab", false, true, true), vec![4]);
}

#[test]
fn whole_word_identifier_is_atomic() {
    assert_eq!(match_token("test", "test", true, true, true), vec![0]);
    assert_eq!(match_token("test_x", "test", true, true, true), Vec::<usize>::new());
    // Not an identifier: a non-letter neighbour is a boundary.
    assert_eq!(match_token("test_x", "test", false, true, true), vec![0]);
}

#[test]
fn insensitive_match_folds_the_token() {
    assert_eq!(match_token("TEST Test", "test", false, false, false), vec![0, 5]);
    assert_eq!(match_token("TEST", "test", true, true, false), vec![0]);
    assert_eq!(match_token("TEST", "test", true, true, true), Vec::<usize>::new());
}

#[test]
fn offsets_are_bytes() {
    assert_eq!(match_token("é test", "test", false, false, true), vec![3]);
    // A multi-byte letter is no ASCII letter: it does not break a word here.
    assert_eq!(match_token("étest", "test", false, true, true), vec![2]);
}

#[test]
fn folded_match_takes_text_as_given() {
    assert_eq!(match_folded("TEST test", "test", false, false), vec![5]);
    assert_eq!(match_folded("", "a", false, false), Vec::<usize>::new());
    assert_eq!(match_folded("a", "ab", false, false), Vec::<usize>::new());
}

#[test]
fn word_bounds_at_the_edges() {
    assert!(check_word_bounds("", 0, 0));
    assert!(check_word_bounds("1ab2", 1, 3));
    assert!(!check_word_bounds("xab", 1, 3));
}
