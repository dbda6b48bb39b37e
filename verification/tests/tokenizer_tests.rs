use url_tokenizer::tokenizer::{
    is_valid_protocol, split_suffix, split_suffix_with, tokenize, TokensResult,
};

#[test]
fn full_url_with_directory_and_filename() {
    let result = TokensResult::new("https://mcm.edu.ph/test_directory/test_page.php");
    assert!(result.is_valid_url);
    assert_eq!(result.protocol, Some("https"));
    assert_eq!(result.host, Some("mcm.edu.ph"));
    assert_eq!(result.directories, vec!["test_directory"]);
    assert_eq!(result.filename, Some("test_page.php"));
    assert_eq!(result.suffix, Some(""));
}

#[test]
fn url_with_exactly_three_segments() {
    let result = TokensResult::new("ftp://example.com");
    assert!(result.is_valid_url);
    assert_eq!(result.protocol, Some("ftp"));
    assert_eq!(result.host, Some("example.com"));
    assert!(result.directories.is_empty());
    assert_eq!(result.filename, None);
    assert_eq!(result.suffix, Some(""));
}

#[test]
fn plain_text_is_not_a_url() {
    let result = TokensResult::new("not a url");
    assert!(!result.is_valid_url);
    assert_eq!(result.protocol, None);
    assert_eq!(result.host, None);
    assert!(result.directories.is_empty());
    assert_eq!(result.filename, None);
    assert_eq!(result.suffix, None);
    assert_eq!(result.words, vec!["not", "a", "url"]);
    assert_eq!(result.punctuations, vec![" ", " "]);
    assert!(result.numbers.is_empty());
    assert!(result.alphanumeric.is_empty());
}

#[test]
fn empty_input_yields_one_empty_segment() {
    let result = TokensResult::new("");
    assert_eq!(result.tokens, vec![""]);
    assert!(!result.is_valid_url);
    assert!(result.granular_tokens.is_empty());
    assert!(result.words.is_empty());
    assert!(result.numbers.is_empty());
    assert!(result.alphanumeric.is_empty());
    assert!(result.punctuations.is_empty());
    assert!(result.directories.is_empty());
}

#[test]
fn query_marker_splits_filename_and_suffix() {
    let result = TokensResult::new("http://a.com/x?y=1");
    assert!(result.is_valid_url);
    assert_eq!(result.protocol, Some("http"));
    assert_eq!(result.host, Some("a.com"));
    assert!(result.directories.is_empty());
    assert_eq!(result.filename, Some("x"));
    assert_eq!(result.suffix, Some("y=1"));
}

#[test]
fn host_segment_carries_the_suffix_with_three_segments() {
    let result = TokensResult::new("https://example.com#top");
    assert!(result.is_valid_url);
    assert_eq!(result.host, Some("example.com"));
    assert_eq!(result.filename, None);
    assert_eq!(result.suffix, Some("top"));
}

#[test]
fn several_directories_in_order() {
    let result = TokensResult::new("https://h/d1/d2/f.php?q#z");
    assert!(result.is_valid_url);
    assert_eq!(result.directories, vec!["d1", "d2"]);
    assert_eq!(result.filename, Some("f.php"));
    assert_eq!(result.suffix, Some("q#z"));
}

#[test]
fn segment_count_is_slash_count_plus_one() {
    assert_eq!(tokenize("a/b//c"), vec!["a", "b", "", "c"]);
    assert_eq!(tokenize(""), vec![""]);
    assert_eq!(tokenize("/"), vec!["", ""]);
    assert_eq!(tokenize("abc"), vec!["abc"]);
    assert_eq!(tokenize("a/b").len(), 2);
}

#[test]
fn protocol_check_is_empty_safe() {
    assert!(!is_valid_protocol(""));
}

#[test]
fn protocol_check_examples() {
    assert!(is_valid_protocol("https:"));
    assert!(is_valid_protocol("ftp:"));
    assert!(is_valid_protocol(":"));
    assert!(!is_valid_protocol("https"));
    assert!(!is_valid_protocol("ht5p:"));
    assert!(!is_valid_protocol("https:/"));
}

#[test]
fn suffix_split_examples() {
    assert_eq!(split_suffix("x?y=1"), ("x", "y=1"));
    assert_eq!(split_suffix("abc"), ("abc", ""));
    assert_eq!(split_suffix("a#b?c"), ("a", "b?c"));
    assert_eq!(split_suffix(""), ("", ""));
    assert_eq!(split_suffix("file.name_v1-2"), ("file.name_v1-2", ""));
}

#[test]
fn suffix_split_with_a_custom_trigger_set() {
    assert_eq!(split_suffix_with("a-b?c", &['-']), ("a", "b?c"));
    assert_eq!(split_suffix_with("a-b?c", &['?', '#']), ("a-b", "c"));
    assert_eq!(split_suffix_with("abc", &[]), ("abc", ""));
}

#[test]
fn concatenating_atoms_restores_each_segment() {
    for input in [
        "https://mcm.edu.ph/test_directory/test_page.php",
        "not a url",
        "a..b--c//d",
        "x1y2z3",
        "?#?#",
    ] {
        let result = TokensResult::new(input);
        let mut by_segment: Vec<String> = Vec::new();
        let mut rest: &[&str] = &result.granular_tokens;
        for token in &result.tokens {
            let mut rebuilt = String::new();
            while !rest.is_empty() && rebuilt.len() < token.len() {
                rebuilt.push_str(rest[0]);
                rest = &rest[1..];
            }
            by_segment.push(rebuilt);
        }
        assert!(rest.is_empty());
        let expected: Vec<String> = result.tokens.iter().map(|t| t.to_string()).collect();
        assert_eq!(by_segment, expected);
    }
}

#[test]
fn every_atom_lands_in_exactly_one_bucket() {
    let result = TokensResult::new("a1/22/b?x=3");
    assert_eq!(result.numbers, vec!["22", "3"]);
    assert_eq!(result.words, vec!["b", "x"]);
    assert_eq!(result.alphanumeric, vec!["a1"]);
    assert_eq!(result.punctuations, vec!["?", "="]);
    for token in &result.granular_tokens {
        let hits = [
            &result.numbers,
            &result.words,
            &result.alphanumeric,
            &result.punctuations,
        ]
        .iter()
        .filter(|bucket| bucket.contains(token))
        .count();
        assert_eq!(hits, 1);
    }
}

#[test]
fn granular_rendering_is_stable() {
    let result = TokensResult::new("ab.1");
    assert_eq!(result.granular_tokens, vec!["ab", ".", "1"]);
    assert_eq!(
        result.granular(),
        "[\r\n    ab => 'a', 'b'\r\n    . => '.'\r\n    1 => '1'\r\n]\r\n"
    );
}

#[test]
fn granular_rendering_of_nothing() {
    let result = TokensResult::new("");
    assert_eq!(result.granular(), "[]\r\n");
}
