use grep_lite::pattern::{match_all_patterns, match_pattern, parse_pattern, PatternError, PatternToken};

fn finds(input_line: &str, pattern_text: &str) -> Result<bool, PatternError> {
    let compiled = parse_pattern(pattern_text)?;
    match_pattern(input_line, &compiled.tokens)
}

fn all(input_line: &str, pattern_text: &str) -> Result<(bool, Vec<(usize, usize)>), PatternError> {
    let compiled = parse_pattern(pattern_text)?;
    let m = match_all_patterns(input_line, &compiled.tokens)?;
    Ok((m.has_match, m.ranges))
}

#[test]
fn single_character_classes() {
    assert_eq!(finds("ab12", "\\d"), Ok(true));
    assert_eq!(finds("abc", "\\d"), Ok(false));
    assert_eq!(finds("!!_", "\\w"), Ok(true));
    assert_eq!(finds("!!", "\\w"), Ok(false));
    assert_eq!(finds("cat", "c.t"), Ok(true));
    assert_eq!(finds("ct", "c.t"), Ok(false));
}

#[test]
fn character_groups() {
    assert_eq!(finds("xyzb", "[abc]"), Ok(true));
    assert_eq!(finds("xyz", "[abc]"), Ok(false));
    assert_eq!(finds("abc", "[^abc]"), Ok(false));
    assert_eq!(finds("abcd", "[^abc]"), Ok(true));
}

#[test]
fn anchors_pin_the_match() {
    assert_eq!(finds("abc", "^abc$"), Ok(true));
    assert_eq!(finds("abcd", "^abc$"), Ok(false));
    assert_eq!(finds("xabc", "^abc"), Ok(false));
}

#[test]
fn exact_repetition() {
    assert_eq!(finds("a", "^a{2}$"), Ok(false));
    assert_eq!(finds("aa", "^a{2}$"), Ok(true));
    assert_eq!(finds("aaa", "^a{2}$"), Ok(false));
}

#[test]
fn repetition_gives_back_for_the_rest() {
    assert_eq!(finds("aaab", "^a*ab$"), Ok(true));
    assert_eq!(all("aaab", "a*ab"), Ok((true, vec![(0, 4)])));
}

#[test]
fn alternation_tries_each_alternative() {
    assert_eq!(finds("dog", "(cat|dog)"), Ok(true));
    assert_eq!(finds("cow", "(cat|dog)"), Ok(false));
    assert_eq!(all("abc", "(a|ab)c"), Ok((true, vec![(0, 3)])));
    assert_eq!(all("cat dog", "(cat|dog)"), Ok((true, vec![(0, 3), (4, 7)])));
}

#[test]
fn backreference_repeats_the_captured_text() {
    assert_eq!(finds("aa", "(a|b)\\1"), Ok(true));
    assert_eq!(finds("ab", "(a|b)\\1"), Ok(false));
    assert_eq!(finds("xbb", "(a|b)\\1"), Ok(true));
    assert_eq!(finds("3 red squares and 3 red circles", "(\\d+) (\\w+) squares and \\1 \\2 circles"), Ok(true));
    assert_eq!(finds("3 red squares and 4 red circles", "(\\d+) (\\w+) squares and \\1 \\2 circles"), Ok(false));
}

#[test]
fn backreference_to_a_missing_group_is_an_error() {
    assert_eq!(finds("a", "\\2"), Err(PatternError::InvalidBackreference(2)));
    assert_eq!(finds("", "\\1"), Err(PatternError::InvalidBackreference(1)));
    assert_eq!(all("abc", "\\1"), Err(PatternError::InvalidBackreference(1)));
    assert_eq!(finds("b", "a\\1"), Ok(false));
}

#[test]
fn all_matches_reports_runs() {
    assert_eq!(all("caaab", "a+"), Ok((true, vec![(1, 4)])));
    assert_eq!(all("abc", "x"), Ok((false, vec![])));
    assert_eq!(all("banana", "an"), Ok((true, vec![(1, 3), (3, 5)])));
}

#[test]
fn empty_match_counts_as_a_match_but_not_a_range() {
    assert_eq!(all("abc", "$"), Ok((true, vec![])));
    assert_eq!(all("", "x*"), Ok((true, vec![])));
}

#[test]
fn has_match_agrees_with_match_pattern() {
    let cases = [
        ("abc", "$"),
        ("abc", "x"),
        ("banana", "an"),
        ("", "^"),
        ("aab", "^a+b$"),
        ("ab", "(a|b)\\1"),
        ("abc", "[^abc]"),
    ];
    for (line, pattern_text) in cases {
        let (has_match, _) = all(line, pattern_text).unwrap();
        assert_eq!(finds(line, pattern_text), Ok(has_match), "{line:?} {pattern_text:?}");
    }
}

#[test]
fn tokens_built_by_hand_match_too() {
    let tokens = vec![
        PatternToken::Literal('a'),
        PatternToken::Quantifier {
            min: 1,
            max: 2,
            inner: Box::new(PatternToken::CharacterGroup(vec!['b', 'c'])),
        },
    ];
    assert_eq!(match_pattern("xacb", &tokens), Ok(true));
    assert_eq!(match_pattern("xa", &tokens), Ok(false));
    let m = match_all_patterns("abcbc", &tokens).unwrap();
    assert!(m.has_match);
    assert_eq!(m.ranges, vec![(0, 3)]);
}

#[test]
fn bytes_of_multibyte_characters_are_matched_one_by_one() {
    assert_eq!(finds("é", "^..$"), Ok(true));
    assert_eq!(finds("é", "^.$"), Ok(false));
    assert_eq!(finds("café", "café"), Ok(true));
}

#[test]
fn single_byte_tokens_need_adjacent_bytes() {
    assert_eq!(finds("a1b2", "\\d\\d"), Ok(false));
    assert_eq!(finds("a12", "\\d\\d"), Ok(true));
    assert_eq!(finds("x_9", "\\w\\w\\d"), Ok(true));
    assert_eq!(finds("ab", "[ab][^a]"), Ok(true));
    assert_eq!(finds("aa", "[ab][^a]"), Ok(false));
}

#[test]
fn plain_text_matches_where_it_occurs() {
    assert_eq!(finds("grep lite", "p l"), Ok(true));
    assert_eq!(finds("grep lite", "pl"), Ok(false));
    assert_eq!(finds("abc", ""), Ok(true));
    assert_eq!(finds("", ""), Ok(true));
}

#[test]
fn optional_repetition_matches_every_line() {
    assert_eq!(finds("xyz", "q*"), Ok(true));
    assert_eq!(finds("", "q?"), Ok(true));
    assert_eq!(finds("", "(ab)*"), Ok(true));
}

#[test]
fn anchors_alone_match_every_line() {
    assert_eq!(finds("", "^"), Ok(true));
    assert_eq!(finds("xyz", "^"), Ok(true));
    assert_eq!(finds("xyz", "$"), Ok(true));
}

#[test]
fn anchored_plain_patterns() {
    assert_eq!(finds("abc", "^ab"), Ok(true));
    assert_eq!(finds("xab", "^ab"), Ok(false));
    assert_eq!(finds("xab", "ab$"), Ok(true));
    assert_eq!(finds("abx", "ab$"), Ok(false));
    assert_eq!(finds("ab", "^ab$"), Ok(true));
    assert_eq!(finds("abc", "^ab$"), Ok(false));
    assert_eq!(finds("", "^$"), Ok(true));
    assert_eq!(finds("a", "^$"), Ok(false));
}

#[test]
fn plain_pattern_ranges_are_its_occurrences() {
    assert_eq!(all("aaaa", "aa"), Ok((true, vec![(0, 2), (2, 4)])));
    assert_eq!(all("aaa", "aa"), Ok((true, vec![(0, 2)])));
    assert_eq!(all("abc", ""), Ok((true, vec![])));
    assert_eq!(all("", ""), Ok((true, vec![])));
}

#[test]
fn failed_first_alternative_keeps_its_capture() {
    assert_eq!(finds("abca", "(a|ab)c\\1"), Ok(true));
}

#[test]
fn cloned_token_is_equal() {
    let compiled = parse_pattern("(a|[bc]+)x{2,3}").unwrap();
    for token in &compiled.tokens {
        assert_eq!(token.clone(), *token);
    }
}
