use grep_lite::pattern::PatternError;
use grep_lite::pattern_text::{match_all_patterns, match_pattern};

#[test]
fn tries_positions_before_the_end_only() {
    assert_eq!(match_pattern("abc", "$"), Ok(false));
    assert_eq!(match_pattern("abc", "c$"), Ok(true));
    assert_eq!(match_pattern("", "$"), Ok(false));
    assert_eq!(match_pattern("", ""), Ok(false));
    assert_eq!(match_pattern("abc", "b"), Ok(true));
    assert_eq!(match_pattern("abc", "d"), Ok(false));
}

#[test]
fn reports_pattern_errors() {
    assert_eq!(match_pattern("abc", "["), Err(PatternError::UnmatchedBracket));
    assert_eq!(match_all_patterns("abc", "a{"), Err(PatternError::UnmatchedBrace));
    assert_eq!(match_pattern("abc", "a\\1"), Err(PatternError::InvalidBackreference(1)));
}

#[test]
fn collects_non_overlapping_matches() {
    assert_eq!(match_all_patterns("banana", "an"), Ok(vec![(1, 3), (3, 5)]));
    assert_eq!(match_all_patterns("abc", "a*"), Ok(vec![(0, 1)]));
    assert_eq!(match_all_patterns("abc", "x"), Ok(vec![]));
    assert_eq!(match_all_patterns("abc", "\\2"), Err(PatternError::InvalidBackreference(2)));
}
