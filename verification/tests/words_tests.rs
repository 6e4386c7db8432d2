use markov::words::{is_quote_name, split_words, str_eq};

#[test]
fn split_words_splits_on_runs_of_whitespace() {
    assert_eq!(split_words("a b c"), vec!["a", "b", "c"]);
    assert_eq!(split_words("  a\t\tb \n c  "), vec!["a", "b", "c"]);
}

#[test]
fn split_words_of_blank_input_is_empty() {
    assert!(split_words("").is_empty());
    assert!(split_words(" \t\r\n").is_empty());
}

#[test]
fn split_words_keeps_punctuation_inside_words() {
    assert_eq!(split_words("don't stop, now!"), vec!["don't", "stop,", "now!"]);
}

#[test]
fn str_eq_compares_by_characters() {
    assert!(str_eq("abc", "abc"));
    assert!(!str_eq("abc", "abd"));
    assert!(!str_eq("abc", "ab"));
    assert!(str_eq("", ""));
}

#[test]
fn quote_name_is_exactly_two_quotation_marks() {
    assert!(is_quote_name("\"\""));
    assert!(!is_quote_name(""));
    assert!(!is_quote_name("\""));
    assert!(!is_quote_name("\"\"\""));
    assert!(!is_quote_name("ab"));
}
