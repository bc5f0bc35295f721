use grep_lite::pattern::{parse_pattern, PatternError, PatternToken};

fn tokens(pattern_text: &str) -> Vec<PatternToken> {
    parse_pattern(pattern_text).unwrap().tokens
}

fn error(pattern_text: &str) -> PatternError {
    match parse_pattern(pattern_text) {
        Ok(_) => panic!("pattern {pattern_text:?} should not parse"),
        Err(e) => e,
    }
}

fn repeat(min: usize, max: usize, inner: PatternToken) -> PatternToken {
    PatternToken::Quantifier { min, max, inner: Box::new(inner) }
}

#[test]
fn parses_literals_and_wildcard() {
    assert_eq!(
        tokens("a.b"),
        vec![PatternToken::Literal('a'), PatternToken::Wildcard, PatternToken::Literal('b')]
    );
}

#[test]
fn parses_empty_pattern_to_no_tokens() {
    assert_eq!(tokens(""), vec![]);
}

#[test]
fn parses_class_escapes() {
    assert_eq!(tokens("\\d\\w"), vec![PatternToken::Digit, PatternToken::WordChar]);
}

#[test]
fn parses_character_groups() {
    assert_eq!(tokens("[abc]"), vec![PatternToken::CharacterGroup(vec!['a', 'b', 'c'])]);
    assert_eq!(tokens("[^xy]"), vec![PatternToken::NegatedCharacterGroup(vec!['x', 'y'])]);
    assert_eq!(tokens("[]"), vec![PatternToken::CharacterGroup(vec![])]);
    assert_eq!(tokens("[é]"), vec![PatternToken::CharacterGroup(vec!['é'])]);
}

#[test]
fn anchors_only_at_the_ends() {
    assert_eq!(
        tokens("^a$"),
        vec![PatternToken::StartAnchor, PatternToken::Literal('a'), PatternToken::EndAnchor]
    );
    assert_eq!(tokens("a^"), vec![PatternToken::Literal('a'), PatternToken::Literal('^')]);
    assert_eq!(tokens("$a"), vec![PatternToken::Literal('$'), PatternToken::Literal('a')]);
}

#[test]
fn parses_single_character_quantifiers() {
    let a = || PatternToken::Literal('a');
    assert_eq!(tokens("a+"), vec![repeat(1, usize::MAX, a())]);
    assert_eq!(tokens("a*"), vec![repeat(0, usize::MAX, a())]);
    assert_eq!(tokens("a?"), vec![repeat(0, 1, a())]);
    assert_eq!(tokens("ba+"), vec![PatternToken::Literal('b'), repeat(1, usize::MAX, a())]);
}

#[test]
fn parses_range_quantifiers() {
    let a = || PatternToken::Literal('a');
    assert_eq!(tokens("a{3}"), vec![repeat(3, 3, a())]);
    assert_eq!(tokens("a{2,}"), vec![repeat(2, usize::MAX, a())]);
    assert_eq!(tokens("a{2,4}"), vec![repeat(2, 4, a())]);
    assert_eq!(tokens("a{+2}"), vec![repeat(2, 2, a())]);
    assert_eq!(tokens("a{0,0}"), vec![repeat(0, 0, a())]);
}

#[test]
fn quantifiers_stack() {
    assert_eq!(
        tokens("a+?"),
        vec![repeat(0, 1, repeat(1, usize::MAX, PatternToken::Literal('a')))]
    );
}

#[test]
fn parses_alternations() {
    assert_eq!(
        tokens("(a|bc)"),
        vec![PatternToken::Alternation(vec![
            vec![PatternToken::Literal('a')],
            vec![PatternToken::Literal('b'), PatternToken::Literal('c')],
        ])]
    );
    assert_eq!(tokens("()"), vec![PatternToken::Alternation(vec![vec![]])]);
    assert_eq!(
        tokens("((a)|b)"),
        vec![PatternToken::Alternation(vec![
            vec![PatternToken::Alternation(vec![vec![PatternToken::Literal('a')]])],
            vec![PatternToken::Literal('b')],
        ])]
    );
}

#[test]
fn anchors_inside_an_alternative_are_anchors() {
    assert_eq!(
        tokens("(^a|b$)"),
        vec![PatternToken::Alternation(vec![
            vec![PatternToken::StartAnchor, PatternToken::Literal('a')],
            vec![PatternToken::Literal('b'), PatternToken::EndAnchor],
        ])]
    );
}

#[test]
fn parses_backreferences() {
    assert_eq!(tokens("\\1"), vec![PatternToken::Backreference(1)]);
    assert_eq!(tokens("\\12a"), vec![PatternToken::Backreference(12), PatternToken::Literal('a')]);
}

#[test]
fn reports_trailing_backslash() {
    assert_eq!(error("ab\\"), PatternError::TrailingBackslash);
}

#[test]
fn reports_unknown_escape() {
    assert_eq!(error("\\x"), PatternError::UnknownEscape('x'));
    assert_eq!(error("\\0"), PatternError::UnknownEscape('0'));
}

#[test]
fn reports_backreference_number_too_large() {
    assert_eq!(
        error("\\99999999999999999999999"),
        PatternError::InvalidNumber { start: 1, end: 24 }
    );
}

#[test]
fn reports_unmatched_bracket() {
    assert_eq!(error("[ab"), PatternError::UnmatchedBracket);
}

#[test]
fn reports_quantifier_without_token() {
    assert_eq!(error("*a"), PatternError::QuantifierWithoutToken);
    assert_eq!(error("{2}"), PatternError::QuantifierWithoutToken);
    assert_eq!(error("(+)"), PatternError::QuantifierWithoutToken);
}

#[test]
fn reports_unmatched_brace() {
    assert_eq!(error("a{2"), PatternError::UnmatchedBrace);
}

#[test]
fn reports_invalid_quantifier() {
    assert_eq!(error("a{x}"), PatternError::InvalidQuantifier { start: 2, end: 3 });
    assert_eq!(error("a{,3}"), PatternError::InvalidQuantifier { start: 2, end: 4 });
    assert_eq!(error("a{1,2,3}"), PatternError::InvalidQuantifier { start: 2, end: 7 });
    assert_eq!(error("a{}"), PatternError::InvalidQuantifier { start: 2, end: 2 });
}

#[test]
fn reports_quantifier_min_above_max() {
    assert_eq!(error("a{3,2}"), PatternError::QuantifierMinAboveMax { start: 2, end: 5 });
}

#[test]
fn reports_unmatched_paren() {
    assert_eq!(error("(ab"), PatternError::UnmatchedParen);
    assert_eq!(error("((a)"), PatternError::UnmatchedParen);
}

#[test]
fn compiled_pattern_parse_agrees_with_parse_pattern() {
    let compiled = grep_lite::pattern::CompiledPattern::parse("a+b").unwrap();
    assert_eq!(compiled.tokens, tokens("a+b"));
}
