use accomplishment_tracker::levenshtein_distance::{
    levenshtein_dist_word, levenshtein_dist_word_array, levenshtein_dist_word_recursive,
    levenshtein_dist_word_simd,
};

#[test]
fn test_levenshtein_recursive() {
    assert!(levenshtein_dist_word_recursive("", "") == 0);
    assert!(levenshtein_dist_word_recursive("ab", "ab") == 0, "{}", levenshtein_dist_word_recursive("ab", "ab"));
    assert!(levenshtein_dist_word_recursive("cat", "cats") == 1,);
    assert!(levenshtein_dist_word_recursive("123", "abc") == 3);
    assert!(levenshtein_dist_word_recursive("qwyg", "dev!") == 4);
}

#[test]
fn test_levenshtein_array() {
    assert!(levenshtein_dist_word_array("", "") == 0);
    assert!(levenshtein_dist_word_array("ab", "ab") == 0, "{}", levenshtein_dist_word_array("ab", "ab"));
    assert!(levenshtein_dist_word_array("cat", "cats") == 1);
    assert!(levenshtein_dist_word_array("123", "abc") == 3);
    assert!(levenshtein_dist_word_array("qwyg", "dev!") == 4);
    assert!(levenshtein_dist_word_array("I", "qwrpz") == 5, "{}=/= {}", levenshtein_dist_word_array("qwrpz", "I"), 5);
}

#[test]
fn distance_is_symmetric_on_examples() {
    assert_eq!(levenshtein_dist_word_array("qwrpz", "I"), 5);
    assert_eq!(levenshtein_dist_word_array("kitten", "sitting"), 3);
    assert_eq!(levenshtein_dist_word_array("sitting", "kitten"), 3);
    assert_eq!(levenshtein_dist_word_recursive("sitting", "kitten"), 3);
}

#[test]
fn distance_of_empty_word_is_length() {
    assert_eq!(levenshtein_dist_word_array("", "abcd"), 4);
    assert_eq!(levenshtein_dist_word_array("abc", ""), 3);
    assert_eq!(levenshtein_dist_word("flaw", "lawn"), 2);
}

#[test]
fn table_counts_characters_recursion_counts_bytes() {
    // "é" takes two bytes in UTF-8: the table counts one edit, the recursive
    // variant counts the two bytes left once the other word is exhausted.
    assert_eq!(levenshtein_dist_word_array("", "é"), 1);
    assert_eq!(levenshtein_dist_word_recursive("", "é"), 2);
    assert_eq!(levenshtein_dist_word_array("café", "cafe"), 1);
    assert_eq!(levenshtein_dist_word_simd("café", "cafe"), 1);
}
