use vstd::prelude::*;
use vstd::string::StringSliceAdditionalSpecFns;
use crate::pattern::error::PatternError;
use crate::pattern::matcher::{
    match_at, match_all_patterns as match_all_tokens, match_tokens_at, scan_matches, search_from, tokens_view,
    tokens_wf, PatternToken,
};
use crate::pattern::parser::{parse_pattern, pattern_spec};

verus! {

broadcast use vstd::string::group_string_axioms;

/// Tries the start positions from `start` up to, but not including, the end of
/// the input, stopping at the first match or the first invalid backreference.
pub open spec fn search_before_end(input: Seq<u8>, toks: Seq<PatternToken>, start: int) -> Result<
    bool,
    usize,
>
    decreases input.len() - start,
{
    if start >= input.len() {
        Ok(false)
    } else {
        match match_at(input, start, toks, Seq::empty()) {
            Err(n) => Err(n),
            Ok((matched, _, _)) => if matched {
                Ok(true)
            } else {
                search_before_end(input, toks, start + 1)
            },
        }
    }
}

/// The two searches differ only at the end of the input: where the search before
/// the end finds no match, searching every position comes down to trying the end.
pub proof fn lemma_search_before_end_and_search_from(input: Seq<u8>, toks: Seq<PatternToken>, start: int)
    requires
        0 <= start <= input.len(),
    ensures
        search_from(input, toks, start) == match search_before_end(input, toks, start) {
            Ok(false) => search_from(input, toks, input.len() as int),
            other => other,
        },
    decreases input.len() - start,
{
    if start < input.len() {
        lemma_search_before_end_and_search_from(input, toks, start + 1);
    }
}

/// Parses `pattern` and tells whether it matches `input_line` at some byte
/// position before the end of the line (so never on an empty line). Matching at
/// a position is that of `pattern::match_pattern`: in particular, a
/// backreference `\n` names the `n`-th alternation entered.
#[verifier::loop_isolation(false)]
pub fn match_pattern(input_line: &str, pattern: &str) -> (result: Result<bool, PatternError>)
    ensures
        match pattern_spec(pattern.spec_bytes()) {
            Err(e) => result == Err::<bool, PatternError>(e),
            Ok(ts) => exists|toks: Seq<PatternToken>|
                #[trigger] tokens_view(toks) == ts && tokens_wf(toks) && result == match search_before_end(
                    input_line.spec_bytes(),
                    toks,
                    0,
                ) {
                    Ok(b) => Ok::<bool, PatternError>(b),
                    Err(n) => Err::<bool, PatternError>(PatternError::InvalidBackreference(n)),
                },
        },
{
    let compiled = match parse_pattern(pattern) {
        Ok(c) => c,
        Err(e) => {
            return Err(e);
        },
    };
    let input = input_line.as_bytes();
    let tokens = compiled.tokens.as_slice();
    let ghost toks = tokens@;
    let mut start: usize = 0;
    while start < input.len()
        invariant
            search_before_end(input@, toks, start as int) == search_before_end(input@, toks, 0),
            start <= input@.len(),
            toks == tokens@,
            tokens_wf(toks),
        decreases input@.len() - start,
    {
        let (is_match, _) = match match_tokens_at(input, start, tokens) {
            Ok(r) => r,
            Err(e) => {
                return Err(e);
            },
        };
        if is_match {
            return Ok(true);
        }
        start += 1;
    }
    Ok(false)
}

/// Parses `pattern` and returns its non-empty, non-overlapping matches in
/// `input_line`, from left to right, as byte ranges, as
/// `pattern::match_all_patterns` finds them.
pub fn match_all_patterns(input_line: &str, pattern: &str) -> (result: Result<Vec<(usize, usize)>, PatternError>)
    requires
        input_line.spec_bytes().len() < usize::MAX,
    ensures
        match pattern_spec(pattern.spec_bytes()) {
            Err(e) => result == Err::<Vec<(usize, usize)>, PatternError>(e),
            Ok(ts) => exists|toks: Seq<PatternToken>|
                #[trigger] tokens_view(toks) == ts && tokens_wf(toks) && match scan_matches(
                    input_line.spec_bytes(),
                    toks,
                    0,
                    false,
                ) {
                    Ok((_, ranges)) => result matches Ok(v) && v@ == ranges,
                    Err(n) => result == Err::<Vec<(usize, usize)>, PatternError>(
                        PatternError::InvalidBackreference(n),
                    ),
                },
        },
{
    let compiled = match parse_pattern(pattern) {
        Ok(c) => c,
        Err(e) => {
            return Err(e);
        },
    };
    match match_all_tokens(input_line, compiled.tokens.as_slice()) {
        Ok(m) => Ok(m.ranges),
        Err(e) => Err(e),
    }
}

} // verus!
