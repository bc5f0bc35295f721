use grep_lite::pattern::{match_all_patterns, match_pattern, parse_pattern, PatternError};

fn assert_match_pattern(input_line: &str, pattern_text: &str, expected: bool) -> Result<(), PatternError> {
    let compiled = parse_pattern(pattern_text)?;
    let is_match = match_pattern(input_line, &compiled.tokens)?;
    assert_eq!(is_match, expected);
    Ok(())
}

fn assert_match_all_patterns(
    input_line: &str,
    pattern_text: &str,
    expect_match: bool,
    expected_idx: &[(usize, usize)],
) -> Result<(), PatternError> {
    let compiled = parse_pattern(pattern_text)?;
    let pattern_matches = match_all_patterns(input_line, &compiled.tokens)?;
    assert_eq!(pattern_matches.has_match, expect_match);
    assert_eq!(pattern_matches.ranges, expected_idx);
    Ok(())
}

#[test]
fn start_anchor_matches_start_of_line() -> Result<(), PatternError> {
    assert_match_pattern("abcdef", "^abc", true)
}

#[test]
fn end_anchor_matches_end_of_line() -> Result<(), PatternError> {
    assert_match_pattern("123abc", "abc$", true)
}

#[test]
fn end_anchor_can_match_empty_position_at_end_of_line() -> Result<(), PatternError> {
    assert_match_pattern("abc", "$", true)
}

#[test]
fn end_anchor_can_match_empty_line() -> Result<(), PatternError> {
    assert_match_pattern("", "$", true)
}

#[test]
fn start_anchor_with_star_quantifier() -> Result<(), PatternError> {
    assert_match_pattern("abc\n", "^*", true)
}

#[test]
fn start_anchor_with_plus_quantifier() -> Result<(), PatternError> {
    assert_match_pattern("abc", "^+", true)
}

#[test]
fn start_anchor_with_optional_quantifier() -> Result<(), PatternError> {
    assert_match_pattern("abc", "()*", true)
}

#[test]
fn quantifier_with_range() -> Result<(), PatternError> {
    assert_match_pattern("cabbageee_soup", "cabbage{2,4}_soup", true)
}

#[test]
fn match_all_patterns_returns_non_overlapping_matches() -> Result<(), PatternError> {
    assert_match_all_patterns("banana", "a", true, &[(1, 2), (3, 4), (5, 6)])
}

#[test]
fn match_all_patterns_skips_empty_matches_for_star_quantifier() -> Result<(), PatternError> {
    assert_match_all_patterns("abc", "a*", true, &[(0, 1)])
}

#[test]
fn match_all_patterns_skips_empty_matches_for_optional_quantifier() -> Result<(), PatternError> {
    assert_match_all_patterns("abc", "a?", true, &[(0, 1)])
}
