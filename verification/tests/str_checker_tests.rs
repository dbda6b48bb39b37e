use url_tokenizer::str_checker::{is_alphanumeric, is_number, is_word};

#[test]
fn number_atoms() {
    assert!(is_number("123"));
    assert!(is_number("0"));
    assert!(!is_number(""));
    assert!(!is_number("12a"));
    assert!(!is_number("1.2"));
}

#[test]
fn word_atoms() {
    assert!(is_word("abc"));
    assert!(is_word("XYZ"));
    assert!(!is_word(""));
    assert!(!is_word("ab1"));
    assert!(!is_word("a b"));
}

#[test]
fn alphanumeric_atoms() {
    assert!(is_alphanumeric("a1"));
    assert!(is_alphanumeric("abc"));
    assert!(is_alphanumeric("123"));
    assert!(!is_alphanumeric(""));
    assert!(!is_alphanumeric("a-1"));
}
