use rure::convert_to_host_syntax;
use rure::expand;
use rure::max_backreference;
use rure::rure_max_submatch_internal;
use rure::validate;
use rure::RewriteError;

fn caps(texts: &[&str]) -> Vec<String> {
    texts.iter().map(|t| t.to_string()).collect()
}

#[test]
fn max_backreference_picks_highest_digit() {
    assert_eq!(max_backreference("a\\1b\\9c"), 9);
}

#[test]
fn max_backreference_without_reference_is_zero() {
    assert_eq!(max_backreference(""), 0);
    assert_eq!(max_backreference("a1b2"), 0);
    assert_eq!(max_backreference("\\x\\"), 0);
}

#[test]
fn max_backreference_counts_digit_after_escaped_backslash() {
    // Only adjacency matters to this scan: the second backslash of an
    // escaped pair still starts a `\N` token.
    assert_eq!(max_backreference("\\\\1"), 1);
}

#[test]
fn rure_max_submatch_internal_matches_max_backreference() {
    assert_eq!(rure_max_submatch_internal("a\\1b\\9c"), 9);
    assert_eq!(rure_max_submatch_internal("no references"), 0);
}

#[test]
fn validate_accepts_references_within_count() {
    assert!(validate("\\1\\2", 2));
}

#[test]
fn validate_rejects_reference_beyond_count() {
    assert!(!validate("\\3", 2));
}

#[test]
fn validate_rejects_trailing_escape() {
    assert!(!validate("\\", 0));
}

#[test]
fn validate_rejects_bad_escape_char() {
    assert!(!validate("a\\xb", 9));
}

#[test]
fn validate_accepts_escaped_backslash_and_fewer_references() {
    assert!(validate("a\\\\b\\1", 5));
    assert!(validate("plain text", 0));
}

#[test]
fn validate_with_negative_count_rejects_even_plain_text() {
    // With no reference at all the tracked maximum stays -1, which still
    // exceeds a capture count below it.
    assert!(validate("abc", -1));
    assert!(!validate("abc", -2));
}

#[test]
fn convert_rewrites_digit_pairs() {
    assert_eq!(convert_to_host_syntax("\\1 and \\2"), "${1} and ${2}");
}

#[test]
fn convert_drops_escaped_backslash() {
    // The conversion drops `\\` entirely; the digit after it is an
    // ordinary literal.
    assert_eq!(convert_to_host_syntax("\\\\1"), "1");
    assert_eq!(convert_to_host_syntax("a\\\\b"), "ab");
}

#[test]
fn convert_drops_trailing_and_invalid_escapes() {
    assert_eq!(convert_to_host_syntax("a\\"), "a");
    assert_eq!(convert_to_host_syntax("\\xy"), "y");
    assert_eq!(convert_to_host_syntax(""), "");
}

#[test]
fn expand_substitutes_captures() {
    let r = expand("\\1-\\2", &caps(&["whole", "X", "Y"]));
    assert_eq!(r, Ok("X-Y".to_string()));
}

#[test]
fn expand_fails_on_out_of_range_reference() {
    let r = expand("\\5", &caps(&["a"]));
    assert_eq!(r, Err(RewriteError::BackreferenceOutOfRange));
}

#[test]
fn expand_keeps_escaped_backslash() {
    // The deliberate asymmetry with the conversion: expansion keeps a
    // literal backslash for `\\`.
    let r = expand("a\\\\b", &caps(&["w"]));
    assert_eq!(r, Ok("a\\b".to_string()));
}

#[test]
fn expand_fails_on_trailing_escape() {
    let r = expand("ab\\", &caps(&[]));
    assert_eq!(r, Err(RewriteError::TrailingEscape));
}

#[test]
fn expand_fails_on_invalid_escape_char() {
    let r = expand("\\x", &caps(&["a"]));
    assert_eq!(r, Err(RewriteError::InvalidEscapeChar));
}

#[test]
fn expand_whole_match_and_empty_capture() {
    assert_eq!(expand("\\0", &caps(&["whole"])), Ok("whole".to_string()));
    assert_eq!(expand("a\\1b", &caps(&["w", ""])), Ok("ab".to_string()));
}

#[test]
fn expand_without_backslash_returns_template_unchanged() {
    assert_eq!(expand("hello", &caps(&["a", "b"])), Ok("hello".to_string()));
    assert_eq!(expand("", &caps(&[])), Ok(String::new()));
    assert_eq!(expand("${1}", &caps(&[])), Ok("${1}".to_string()));
}
