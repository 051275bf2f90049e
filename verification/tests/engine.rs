use miniregex::compile;
use miniregex::compile::CompileError;
use miniregex::is_match;

fn chars(s: &str) -> Vec<char> {
    s.chars().collect()
}

fn search(pattern: &str, subject: &str) -> bool {
    let expression = compile(&chars(pattern)).unwrap();
    is_match(&expression, &chars(subject))
}

fn compile_err(pattern: &str) -> Option<CompileError> {
    compile(&chars(pattern)).err()
}

#[test]
fn literal_pattern_is_substring_search() {
    assert!(search("bc", "abcd"));
    assert!(search("abcd", "abcd"));
    assert!(!search("xz", "abcd"));
    assert!(!search("abcde", "abcd"));
}

#[test]
fn empty_pattern_matches_everything() {
    assert!(search("", ""));
    assert!(search("", "x"));
}

#[test]
fn anchored_both_ends_means_exact_equality() {
    assert!(search("^abc$", "abc"));
    assert!(!search("^abc$", "ab"));
    assert!(!search("^abc$", "abcd"));
    assert!(!search("^abc$", "xabc"));
}

#[test]
fn start_anchor_pins_offset_zero() {
    assert!(search("^ab", "abc"));
    assert!(!search("^ab", "cab"));
}

#[test]
fn end_anchor_requires_consuming_to_the_end() {
    assert!(search("ab$", "ab"));
    assert!(search("ab$", "cab"));
    assert!(!search("ab$", "abc"));
}

#[test]
fn plus_consumes_a_run() {
    assert!(search("a+", "aaab"));
    assert!(!search("a+", "b"));
}

#[test]
fn plus_is_greedy_without_backtracking() {
    assert!(search("a+b", "aab"));
    assert!(!search("a+ab", "aab"));
}

#[test]
fn optional_takes_both_spellings() {
    assert!(search("colou?r", "color"));
    assert!(search("colou?r", "colour"));
    assert!(!search("colou?r", "colouur"));
}

#[test]
fn backreference_repeats_the_captured_text() {
    assert!(search("([abc]+)-\\1", "cab-cab"));
    assert!(!search("^([abc]+)-\\1$", "cab-abc"));
    assert!(!search("([abc]+)-\\1", "ab-xy"));
}

#[test]
fn backreference_sees_the_greedy_capture() {
    assert!(search("^(a+)-\\1$", "aa-aa"));
    assert!(!search("^(a+)-\\1$", "aa-a"));
}

#[test]
fn nested_group_backreference() {
    assert!(search("((a)b)\\1", "aba"));
}

#[test]
fn alternation_tries_both_sides() {
    assert!(search("(cat|dog)", "I have a dog"));
    assert!(search("(cat|dog)", "I have a cat"));
    assert!(!search("(cat|dog)", "I have a fish"));
}

#[test]
fn group_with_quantifier() {
    assert!(search("(ab)+", "abab"));
    assert!(!search("(ab)+", "ba"));
}

#[test]
fn empty_group_never_matches() {
    assert!(!search("()", "x"));
}

#[test]
fn digit_class_accepts_digits_only() {
    assert!(search("\\d", "5"));
    assert!(!search("\\d", "x"));
}

#[test]
fn word_class_is_letters_and_underscore() {
    assert!(search("\\w", "_"));
    assert!(search("\\w", "q"));
    assert!(!search("\\w", "9"));
}

#[test]
fn wildcard_needs_one_character() {
    assert!(search("a.c", "abc"));
    assert!(search("a.c", "axc"));
    assert!(!search("a.c", "ac"));
}

#[test]
fn digit_run_matches_any_string_with_a_digit() {
    assert!(search("\\d+", "abc123"));
    assert!(search("\\d+", "7"));
    assert!(!search("\\d+", "abc"));
    assert!(!search("\\d+", ""));
}

#[test]
fn negated_class_excludes_its_literal_characters() {
    assert!(search("[^0-9]+", "abc"));
    assert!(search("[^0-9]+", "a1"));
    assert!(!search("[^0-9]+", "009"));
    assert!(search("[^0-9]+", "5"));
    assert!(!search("[^0-9]+", "-"));
}

#[test]
fn positive_class_is_membership() {
    assert!(search("[abc]", "zbz"));
    assert!(!search("[abc]", "xyz"));
}

#[test]
fn unclosed_group_is_rejected() {
    assert_eq!(compile_err("(abc"), Some(CompileError::UnclosedGroup));
}

#[test]
fn stray_close_is_rejected() {
    assert_eq!(compile_err(")"), Some(CompileError::StrayGroupClose));
}

#[test]
fn dangling_quantifier_is_rejected() {
    assert_eq!(compile_err("+"), Some(CompileError::DanglingQuantifier));
    assert_eq!(compile_err("?ab"), Some(CompileError::DanglingQuantifier));
}

#[test]
fn double_alternation_is_rejected() {
    assert_eq!(compile_err("(a|b|c)"), Some(CompileError::DoubleAlternation));
    assert_eq!(compile_err("a|b"), Some(CompileError::DoubleAlternation));
}

#[test]
fn unterminated_class_is_rejected() {
    assert_eq!(compile_err("[abc"), Some(CompileError::MalformedPattern));
    assert_eq!(compile_err("[^ab"), Some(CompileError::MalformedPattern));
}

#[test]
fn backreference_must_follow_a_closed_group() {
    assert_eq!(compile_err("\\1"), Some(CompileError::InvalidBackreference));
    assert_eq!(compile_err("(a)\\2"), Some(CompileError::InvalidBackreference));
    assert!(compile(&chars("(a)\\1")).is_ok());
}

#[test]
fn backreference_zero_compiles_but_never_matches() {
    assert!(compile(&chars("\\0")).is_ok());
    assert!(!search("\\0", "anything"));
}

#[test]
fn huge_backreference_number_falls_back_to_literals() {
    assert!(compile(&chars("\\99999999999999999999999")).is_ok());
}

#[test]
fn backslash_before_other_characters_is_a_literal_backslash() {
    assert!(search("\\x", "a\\xb"));
    assert!(!search("\\x", "axb"));
}

#[test]
fn compiling_twice_gives_agreeing_matchers() {
    let pattern = chars("(cat|dog)+");
    let first = compile(&pattern).unwrap();
    let second = compile(&pattern).unwrap();
    for subject in ["catdog", "I have a dog", "fish", "", "cat"] {
        let s = chars(subject);
        assert_eq!(is_match(&first, &s), is_match(&second, &s));
    }
}

#[test]
fn expression_reports_its_anchors() {
    let anchored = compile(&chars("^a$")).unwrap();
    assert!(anchored.from_start_of_string());
    assert!(anchored.till_end_of_string());
    let free = compile(&chars("a")).unwrap();
    assert!(!free.from_start_of_string());
    assert!(!free.till_end_of_string());
}
