use suggestions_processor::url_utils::{
    host_without_www, is_root, leading_boundary_starts_with, naked_string, tokenize, UrlParts,
};

fn url(s: &str) -> UrlParts {
    UrlParts::parse(s).unwrap()
}

// tokenize tests
#[test]
fn test_tokenize_splits_by_whitespace() {
    assert_eq!(tokenize("testing query tokens"), vec!["testing", "query", "tokens"]);
}

#[test]
fn test_tokenize_handles_tabs_and_newlines() {
    assert_eq!(tokenize("testing\tquery\ttokens"), vec!["testing", "query", "tokens"]);
    assert_eq!(tokenize("testing\nquery\ntokens"), vec!["testing", "query", "tokens"]);
}

#[test]
fn test_tokenize_empty_and_whitespace_only() {
    assert_eq!(tokenize(""), Vec::<&str>::new());
    assert_eq!(tokenize("  \t\n\t\t \t \t  \n\n\n "), Vec::<&str>::new());
}

// leading_boundary_starts_with tests
#[test]
fn test_leading_boundary_exact_start() {
    assert!(leading_boundary_starts_with("cats and dogs", "cats"));
}

#[test]
fn test_leading_boundary_with_quotes() {
    assert!(leading_boundary_starts_with("\"cats and dogs\"", "cats"));
    assert!(leading_boundary_starts_with("\"cats and dogs\"", "\"cats"));
    assert!(leading_boundary_starts_with("\"cats and dogs\"", "\""));
}

#[test]
fn test_leading_boundary_unicode_quotes() {
    assert!(leading_boundary_starts_with("«Рукописи не горят»: первый", "Рукописи"));
    assert!(leading_boundary_starts_with("«Рукописи не горят»: первый", "«"));
}

#[test]
fn test_leading_boundary_no_match() {
    assert!(!leading_boundary_starts_with("cats and dogs", "dogs"));
}

// naked_string tests
#[test]
fn test_naked_string_strips_scheme_and_www() {
    let u = url("https://www.example.com/path");
    assert_eq!(naked_string(&u), "example.com/path");
}

#[test]
fn test_naked_string_strips_trailing_slash() {
    let u = url("https://www.example.com/");
    assert_eq!(naked_string(&u), "example.com");
}

#[test]
fn test_naked_string_no_www() {
    let u = url("https://example.com/path");
    assert_eq!(naked_string(&u), "example.com/path");
}

#[test]
fn test_naked_string_preserves_query_and_fragment() {
    let u = url("https://example.com/path?q=1#frag");
    assert_eq!(naked_string(&u), "example.com/path?q=1#frag");
}

// is_root tests
#[test]
fn test_is_root_true_for_root_url() {
    assert!(is_root(&url("https://example.com")));
    assert!(is_root(&url("https://example.com/")));
}

#[test]
fn test_is_root_false_for_path() {
    assert!(!is_root(&url("https://example.com/path")));
}

#[test]
fn test_is_root_false_for_query() {
    assert!(!is_root(&url("https://example.com?q=1")));
}

#[test]
fn test_is_root_false_for_fragment() {
    assert!(!is_root(&url("https://example.com#frag")));
}

// host_without_www tests
#[test]
fn test_host_without_www() {
    let u = url("https://www.example.com");
    assert_eq!(host_without_www(&u), "example.com");
}

#[test]
fn test_host_without_www_no_www() {
    let u = url("https://example.com");
    assert_eq!(host_without_www(&u), "example.com");
}
