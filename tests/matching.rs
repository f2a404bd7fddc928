use tiny_regex::{compile, is_match, match_pattern, Pattern, SyntaxError};

fn check(pattern: &str, input: &str) -> bool {
    let tree = compile(pattern).expect("pattern should compile");
    is_match(&tree, input)
}

#[test]
fn literal_matches_itself() {
    assert!(check("a", "a"));
}

#[test]
fn literal_rejects_other_char() {
    assert!(!check("a", "b"));
}

#[test]
fn digit_found_at_later_offset() {
    assert!(check("\\d", "abc123"));
}

#[test]
fn start_anchor_allows_only_offset_zero() {
    assert!(!check("^\\d", "abc123"));
    assert!(check("^abc", "abc123"));
}

#[test]
fn one_or_more_takes_long_run() {
    let input = format!("ca{}ts", "a".repeat(50));
    assert!(check("ca+ts", &input));
}

#[test]
fn one_or_more_needs_one() {
    assert!(!check("ca+ts", "cts"));
}

#[test]
fn negated_class_accepts_outsider() {
    assert!(check("[^xyz]", "a"));
}

#[test]
fn negated_class_rejects_member() {
    assert!(!check("[^xyz]", "x"));
}

#[test]
fn positive_class() {
    assert!(check("[abc]", "xxbxx"));
    assert!(!check("[abc]", "xyz"));
}

#[test]
fn alternation_in_group() {
    assert!(check("(cat|dog)", "I have a dog"));
    assert!(!check("(cat|dog)", "I have a cow"));
}

#[test]
fn backreference_same_word() {
    assert!(check("(\\w+) and \\1", "cat and cat"));
}

#[test]
fn backreference_different_word() {
    assert!(!check("(\\w+) and \\1", "cat and dog"));
}

#[test]
fn backreference_to_inner_group() {
    assert!(check("((a)b)\\2", "aba"));
    assert!(!check("((a)b)\\2", "abb"));
}

#[test]
fn two_backreferences() {
    let pattern = "(\\w\\w\\w\\w \\d\\d\\d) is doing \\1 times (again) and \\2";
    assert!(check(pattern, "grep 101 is doing grep 101 times again and again"));
    assert!(!check(pattern, "grep 101 is doing grep 102 times again and again"));
}

#[test]
fn empty_pattern_matches_everything() {
    assert!(check("", ""));
    assert!(check("", "anything"));
    assert_eq!(compile(""), Ok(Pattern::Sequence(Vec::new())));
}

#[test]
fn empty_input_needs_zero_width() {
    assert!(check("a*", ""));
    assert!(check("a?", ""));
    assert!(!check("a", ""));
    assert!(!check("xa*", ""));
    assert!(check("^$", ""));
    assert!(!check("^$", "a"));
}

#[test]
fn zero_width_repetition_terminates() {
    assert!(check("(a*)+", ""));
    assert!(check("(a*)*b", "aab"));
    assert!(!check("(a*)*b", "aac"));
}

#[test]
fn end_anchor() {
    assert!(check("dog$", "hotdog"));
    assert!(!check("dog$", "dogs"));
}

#[test]
fn optional_char() {
    assert!(check("colou?r", "color"));
    assert!(check("colou?r", "colour"));
    assert!(!check("colou?r", "colouur"));
}

#[test]
fn star_repetition() {
    assert!(check("ab*c", "ac"));
    assert!(check("ab*c", "abbbc"));
    assert!(!check("ab*c", "abbd"));
}

#[test]
fn wildcard() {
    assert!(check("d.g", "dog"));
    assert!(!check("d.g", "dg"));
}

#[test]
fn word_class() {
    assert!(check("\\w", "_"));
    assert!(!check("\\w", "$!?"));
}

#[test]
fn escaped_chars_are_literal() {
    assert!(check("a\\.b", "a.b"));
    assert!(!check("a\\.b", "axb"));
    assert!(check("\\\\", "back\\slash"));
}

#[test]
fn bar_outside_group_is_literal() {
    assert!(check("a|b", "a|b"));
    assert!(!check("a|b", "a"));
}

#[test]
fn dollar_mid_pattern_is_literal() {
    assert!(check("a$b", "a$b"));
}

#[test]
fn bracket_first_in_class_is_member() {
    assert!(check("[]a]", "]"));
}

#[test]
fn matching_is_repeatable() {
    let tree = compile("(\\w+) and \\1").unwrap();
    let first = is_match(&tree, "cat and cat");
    let second = is_match(&tree, "cat and cat");
    assert_eq!(first, second);
}

#[test]
fn compiling_twice_gives_equal_trees() {
    assert_eq!(compile("(cat|dog)+ [^a-c]\\1$"), compile("(cat|dog)+ [^a-c]\\1$"));
}

#[test]
fn compiled_shapes() {
    assert_eq!(compile("a"), Ok(Pattern::Literal('a')));
    assert_eq!(
        compile("ab+"),
        Ok(Pattern::Sequence(vec![
            Pattern::Literal('a'),
            Pattern::Repeated { min: 1, max: None, inner: Box::new(Pattern::Literal('b')) },
        ]))
    );
    assert_eq!(
        compile("^x?$"),
        Ok(Pattern::Sequence(vec![
            Pattern::StartAnchor,
            Pattern::Repeated { min: 0, max: Some(1), inner: Box::new(Pattern::Literal('x')) },
            Pattern::EndAnchor,
        ]))
    );
    assert_eq!(
        compile("(a|b)"),
        Ok(Pattern::CaptureGroup {
            index: 1,
            inner: Box::new(Pattern::Alternation(vec![Pattern::Literal('a'), Pattern::Literal('b')])),
        })
    );
    assert_eq!(
        compile("[^xy]"),
        Ok(Pattern::CharacterClass { members: vec!['x', 'y'], negated: true })
    );
    assert_eq!(
        compile("(a)(b)\\2"),
        Ok(Pattern::Sequence(vec![
            Pattern::CaptureGroup { index: 1, inner: Box::new(Pattern::Literal('a')) },
            Pattern::CaptureGroup { index: 2, inner: Box::new(Pattern::Literal('b')) },
            Pattern::Backreference(2),
        ]))
    );
}

#[test]
fn error_unterminated_escape() {
    assert_eq!(compile("ab\\"), Err(SyntaxError::UnterminatedEscape));
}

#[test]
fn error_unterminated_class() {
    assert_eq!(compile("[abc"), Err(SyntaxError::UnterminatedClass));
    assert_eq!(compile("[]"), Err(SyntaxError::UnterminatedClass));
}

#[test]
fn error_unterminated_group() {
    assert_eq!(compile("(abc"), Err(SyntaxError::UnterminatedGroup));
    assert_eq!(compile("x("), Err(SyntaxError::UnterminatedGroup));
}

#[test]
fn error_unbalanced_parens() {
    assert_eq!(compile("abc)"), Err(SyntaxError::UnbalancedParens));
}

#[test]
fn error_dangling_quantifier() {
    assert_eq!(compile("*a"), Err(SyntaxError::DanglingQuantifier));
    assert_eq!(compile("(a|+b)"), Err(SyntaxError::DanglingQuantifier));
    assert_eq!(compile("^+"), Err(SyntaxError::DanglingQuantifier));
}

#[test]
fn error_invalid_backreference() {
    assert_eq!(compile("(a)\\2"), Err(SyntaxError::InvalidBackreference));
    assert_eq!(compile("\\0"), Err(SyntaxError::InvalidBackreference));
}

#[test]
fn match_pattern_compiles_then_matches() {
    assert!(match_pattern("I have a dog", "(cat|dog)"));
    assert!(!match_pattern("I have a cow", "(cat|dog)"));
    assert!(!match_pattern("anything", "(unclosed"));
}
