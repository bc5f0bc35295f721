use vstd::prelude::*;
use vstd::string::StringSliceAdditionalSpecFns;
use vstd::utf8::*;
use crate::pattern::error::PatternError;
use crate::pattern::matcher::{
    lemma_empty_scan, lemma_literals_accept, lemma_literals_scan, lemma_search_by_positions,
    lemma_single_bytes_match_at, lemma_single_bytes_then, is_single_byte_token, match_at, lemma_literals_search, literals_of, occurrences_from, occurs_at,
    scan_matches, search_from,
    is_ascii_digit, is_digit_byte, token_view, token_wf, tokens_view, tokens_wf, alts_view, alts_wf, PatternToken, Tok,
    lemma_tokens_view_index, lemma_tokens_wf_iff, lemma_alts_wf_iff, CompiledPattern,
};

verus! {

broadcast use vstd::string::group_string_axioms;

/// The byte `\\`.
pub const BACKSLASH: u8 = 92;

/// The byte `.`.
pub const DOT: u8 = 46;

/// The byte `[`.
pub const OPEN_BRACKET: u8 = 91;

/// The byte `]`.
pub const CLOSE_BRACKET: u8 = 93;

/// The byte `^`.
pub const CARET: u8 = 94;

/// The byte `$`.
pub const DOLLAR: u8 = 36;

/// The byte `+`.
pub const PLUS: u8 = 43;

/// The byte `*`.
pub const STAR: u8 = 42;

/// The byte `?`.
pub const QUESTION: u8 = 63;

/// The byte `{`.
pub const OPEN_BRACE: u8 = 123;

/// The byte `}`.
pub const CLOSE_BRACE: u8 = 125;

/// The byte `(`.
pub const OPEN_PAREN: u8 = 40;

/// The byte `)`.
pub const CLOSE_PAREN: u8 = 41;

/// The byte `|`.
pub const PIPE: u8 = 124;

/// The byte `,`.
pub const COMMA: u8 = 44;

/// The byte `d`.
pub const LOWER_D: u8 = 100;

/// The byte `w`.
pub const LOWER_W: u8 = 119;

/// The byte `1`.
pub const DIGIT_ONE: u8 = 49;

/// The byte `9`.
pub const DIGIT_NINE: u8 = 57;

/// In valid UTF-8, the position of an ASCII byte and the position right after it
/// are character boundaries.
pub(crate) proof fn lemma_ascii_boundaries(bytes: Seq<u8>, j: int)
    requires
        valid_utf8(bytes),
        0 <= j < bytes.len(),
        bytes[j] < 0x80,
    ensures
        is_char_boundary(bytes, j),
        is_char_boundary(bytes, j + 1),
    decreases bytes.len(),
{
    let k = length_of_first_scalar(bytes);
    let tail = pop_first_scalar(bytes);
    assert(valid_first_scalar(bytes));
    assert(valid_utf8(tail));
    if j == 0 {
        assert(k == 1);
        reveal_with_fuel(is_char_boundary, 2);
        assert(is_char_boundary(tail, 0));
    } else {
        assert(j >= k);
        assert(tail[j - k] == bytes[j]);
        lemma_ascii_boundaries(tail, j - k);
    }
}

/// The part of `text` made of its bytes `from..to`, where `from` is a character
/// boundary and `to` is the end of the text or the position of an ASCII byte.
pub(crate) fn sub_text(text: &str, from: usize, to: usize) -> (r: &str)
    requires
        from <= to <= text.spec_bytes().len(),
        is_char_boundary(text.spec_bytes(), from as int),
        to == text.spec_bytes().len() || text.spec_bytes()[to as int] < 0x80,
    ensures
        r.spec_bytes() == text.spec_bytes().subrange(from as int, to as int),
{
    let ghost bytes = text.spec_bytes();
    proof {
        encode_utf8_valid_utf8(text@);
    }
    let (_, tail) = text.split_at(from);
    let ghost tb = tail.spec_bytes();
    proof {
        valid_utf8_split(bytes, from as int);
        assert(tb =~= bytes.subrange(from as int, bytes.len() as int));
        if to < bytes.len() {
            assert(tb[to - from] == bytes[to as int]);
            lemma_ascii_boundaries(tb, to - from);
        } else {
            is_char_boundary_start_end_of_seq(tb);
        }
    }
    let (content, _) = tail.split_at(to - from);
    assert(content.spec_bytes() =~= bytes.subrange(from as int, to as int));
    content
}

/// The characters encoded by the bytes `from..to` of `text`, where `from` is a
/// character boundary and `to` is the end of the text or the position of an
/// ASCII byte.
fn substring_chars(text: &str, from: usize, to: usize) -> (r: Vec<char>)
    requires
        from <= to <= text.spec_bytes().len(),
        is_char_boundary(text.spec_bytes(), from as int),
        to == text.spec_bytes().len() || text.spec_bytes()[to as int] < 0x80,
    ensures
        r@ == decode_utf8(text.spec_bytes().subrange(from as int, to as int)),
{
    let content = sub_text(text, from, to);
    proof {
        encode_utf8_decode_utf8(content@);
    }
    let mut chars: Vec<char> = Vec::new();
    for c in it: content.chars()
        invariant
            chars@ == it.seq().subrange(0, it.index() as int),
    {
        chars.push(c);
    }
    chars
}


/// The first position in `from..hi` holding byte `b`.
pub open spec fn find_byte(p: Seq<u8>, from: int, hi: int, b: u8) -> Option<int>
    decreases hi - from,
{
    if from >= hi {
        None
    } else if p[from] == b {
        Some(from)
    } else {
        find_byte(p, from + 1, hi, b)
    }
}

/// The end of the run of ASCII digits that starts at `from` and stops before `hi`.
pub open spec fn digits_end(p: Seq<u8>, from: int, hi: int) -> int
    decreases hi - from,
{
    if from >= hi || !is_digit_byte(p[from]) {
        from
    } else {
        digits_end(p, from + 1, hi)
    }
}

/// Whether every byte is an ASCII digit.
pub open spec fn all_digits(s: Seq<u8>) -> bool {
    forall|i: int| 0 <= i < s.len() ==> #[trigger] is_digit_byte(s[i])
}

/// The decimal value of a run of ASCII digits.
pub open spec fn digits_value(s: Seq<u8>) -> nat
    decreases s.len(),
{
    if s.len() == 0 {
        0
    } else {
        digits_value(s.drop_last()) * 10 + (s.last() - 48) as nat
    }
}

/// The `usize` that a text denotes, read as Rust's `str::parse::<usize>` reads it:
/// an optional `+`, then one or more decimal digits, with a value that fits.
pub open spec fn parse_usize_text(s: Seq<u8>) -> Option<usize> {
    let digits = if s.len() > 0 && s[0] == PLUS {
        s.subrange(1, s.len() as int)
    } else {
        s
    };
    if digits.len() == 0 || !all_digits(digits) || digits_value(digits) > usize::MAX {
        None
    } else {
        Some(digits_value(digits) as usize)
    }
}

/// Parses the number whose digits start at `start` (before `hi`); returns it and the
/// position after its digits.
pub open spec fn number_spec(p: Seq<u8>, hi: int, start: int) -> Result<(usize, int), PatternError> {
    let end = digits_end(p, start, hi);
    match parse_usize_text(p.subrange(start, end)) {
        None => Err(PatternError::InvalidNumber { start: start as usize, end: end as usize }),
        Some(n) => Ok((n, end)),
    }
}

/// Parses the escape sequence whose `\` is at `start`.
pub open spec fn escape_spec(p: Seq<u8>, hi: int, start: int) -> Result<(Tok, int), PatternError> {
    if start + 1 >= hi {
        Err(PatternError::TrailingBackslash)
    } else {
        let next = p[start + 1];
        if next == LOWER_D {
            Ok((Tok::Digit, start + 2))
        } else if next == LOWER_W {
            Ok((Tok::WordChar, start + 2))
        } else if DIGIT_ONE <= next <= DIGIT_NINE {
            match number_spec(p, hi, start + 1) {
                Err(e) => Err(e),
                Ok((n, end)) => Ok((Tok::Backref(n), end)),
            }
        } else {
            Err(PatternError::UnknownEscape(next as char))
        }
    }
}

/// Parses the character group whose content starts at `start`, after its `[`.
pub open spec fn group_spec(p: Seq<u8>, hi: int, start: int) -> Result<(Tok, int), PatternError> {
    match find_byte(p, start, hi, CLOSE_BRACKET) {
        None => Err(PatternError::UnmatchedBracket),
        Some(end) => if start < end && p[start] == CARET {
            Ok((Tok::NegatedGroup(decode_utf8(p.subrange(start + 1, end))), end + 1))
        } else {
            Ok((Tok::Group(decode_utf8(p.subrange(start, end))), end + 1))
        },
    }
}

/// Parses the repetition range whose content starts at `start`, after its `{`,
/// applying it to `prev`.
pub open spec fn range_spec(p: Seq<u8>, hi: int, start: int, prev: Tok) -> Result<(Tok, int), PatternError> {
    match find_byte(p, start, hi, CLOSE_BRACE) {
        None => Err(PatternError::UnmatchedBrace),
        Some(end) => {
            let invalid = PatternError::InvalidQuantifier { start: start as usize, end: end as usize };
            match find_byte(p, start, end, COMMA) {
                None => match parse_usize_text(p.subrange(start, end)) {
                    None => Err(invalid),
                    Some(n) => Ok((Tok::Repeat(n, n, Box::new(prev)), end + 1)),
                },
                Some(comma) => if find_byte(p, comma + 1, end, COMMA) is Some {
                    Err(invalid)
                } else {
                    match parse_usize_text(p.subrange(start, comma)) {
                        None => Err(invalid),
                        Some(min) => {
                            let max = if comma + 1 == end {
                                Some(usize::MAX)
                            } else {
                                parse_usize_text(p.subrange(comma + 1, end))
                            };
                            match max {
                                None => Err(invalid),
                                Some(max) => if min > max {
                                    Err(
                                        PatternError::QuantifierMinAboveMax {
                                            start: start as usize,
                                            end: end as usize,
                                        },
                                    )
                                } else {
                                    Ok((Tok::Repeat(min, max, Box::new(prev)), end + 1))
                                },
                            }
                        },
                    }
                },
            }
        },
    }
}

/// Parses the quantifier at `i`, applying it to `prev`.
pub open spec fn quantifier_spec(p: Seq<u8>, hi: int, i: int, prev: Tok) -> Result<(Tok, int), PatternError> {
    if p[i] == PLUS {
        Ok((Tok::Repeat(1, usize::MAX, Box::new(prev)), i + 1))
    } else if p[i] == STAR {
        Ok((Tok::Repeat(0, usize::MAX, Box::new(prev)), i + 1))
    } else if p[i] == QUESTION {
        Ok((Tok::Repeat(0, 1, Box::new(prev)), i + 1))
    } else {
        range_spec(p, hi, i + 1, prev)
    }
}

/// A `{` quantifier is the repetition range read from the byte after the `{`;
/// `+`, `*` and `?` stand for the ranges `1..=usize::MAX`, `0..=usize::MAX` and
/// `0..=1`.
pub proof fn lemma_quantifier_forms(p: Seq<u8>, hi: int, i: int, prev: Tok)
    ensures
        p[i] == OPEN_BRACE ==> quantifier_spec(p, hi, i, prev) == range_spec(p, hi, i + 1, prev),
        p[i] == PLUS ==> quantifier_spec(p, hi, i, prev) == Ok::<(Tok, int), PatternError>(
            (Tok::Repeat(1, usize::MAX, Box::new(prev)), i + 1),
        ),
        p[i] == STAR ==> quantifier_spec(p, hi, i, prev) == Ok::<(Tok, int), PatternError>(
            (Tok::Repeat(0, usize::MAX, Box::new(prev)), i + 1),
        ),
        p[i] == QUESTION ==> quantifier_spec(p, hi, i, prev) == Ok::<(Tok, int), PatternError>(
            (Tok::Repeat(0, 1, Box::new(prev)), i + 1),
        ),
{
}

/// Whether byte `c` starts a quantifier.
pub open spec fn is_quantifier_byte(c: u8) -> bool {
    c == PLUS || c == STAR || c == QUESTION || c == OPEN_BRACE
}

/// Parses the bytes `lo..hi` of the pattern from position `i`, after the tokens
/// `acc` parsed so far.
pub open spec fn parse_from(p: Seq<u8>, lo: int, hi: int, i: int, acc: Seq<Tok>) -> Result<Seq<Tok>, PatternError>
    decreases hi - i, 2int, 0int,
{
    if i >= hi || i < lo {
        Ok(acc)
    } else {
        let c = p[i];
        let step = if c == BACKSLASH {
            escape_spec(p, hi, i)
        } else if c == DOT {
            Ok((Tok::Wildcard, i + 1))
        } else if c == OPEN_BRACKET {
            group_spec(p, hi, i + 1)
        } else if c == CARET && i == lo {
            Ok((Tok::Start, i + 1))
        } else if c == DOLLAR && i == hi - 1 {
            Ok((Tok::End, i + 1))
        } else if is_quantifier_byte(c) {
            if acc.len() == 0 {
                Err(PatternError::QuantifierWithoutToken)
            } else {
                quantifier_spec(p, hi, i, acc.last())
            }
        } else if c == OPEN_PAREN {
            alternation_spec(p, hi, i + 1, i + 1, 1, Seq::empty())
        } else {
            Ok((Tok::Literal(c as char), i + 1))
        };
        match step {
            Err(e) => Err(e),
            Ok((t, next)) => {
                if next <= i || next > hi {
                    Ok(acc)
                } else if is_quantifier_byte(c) {
                    parse_from(p, lo, hi, next, acc.drop_last().push(t))
                } else {
                    parse_from(p, lo, hi, next, acc.push(t))
                }
            },
        }
    }
}

/// Scans an alternation whose current alternative starts at `start`, with `end`
/// the position reached and `depth` the number of open parentheses.
pub open spec fn alternation_spec(
    p: Seq<u8>,
    hi: int,
    start: int,
    end: int,
    depth: int,
    alts: Seq<Seq<Tok>>,
) -> Result<(Tok, int), PatternError>
    decreases hi - start, 1int, hi - end,
{
    if end >= hi || end < start {
        if depth != 0 {
            Err(PatternError::UnmatchedParen)
        } else {
            Ok((Tok::Alt(alts), end + 1))
        }
    } else {
        let c = p[end];
        if c == OPEN_PAREN {
            alternation_spec(p, hi, start, end + 1, depth + 1, alts)
        } else if c == PIPE && depth == 1 {
            match parse_from(p, start, end, start, Seq::empty()) {
                Err(e) => Err(e),
                Ok(ts) => alternation_spec(p, hi, end + 1, end + 1, depth, alts.push(ts)),
            }
        } else if c == CLOSE_PAREN {
            if depth - 1 == 0 {
                match parse_from(p, start, end, start, Seq::empty()) {
                    Err(e) => Err(e),
                    Ok(ts) => Ok((Tok::Alt(alts.push(ts)), end + 1)),
                }
            } else {
                alternation_spec(p, hi, start, end + 1, depth - 1, alts)
            }
        } else {
            alternation_spec(p, hi, start, end + 1, depth, alts)
        }
    }
}


/// A prefix of a run of digits has a value no larger than the whole run.
proof fn lemma_digits_value_prefix(s: Seq<u8>, k: int)
    requires
        all_digits(s),
        0 <= k <= s.len(),
    ensures
        digits_value(s.subrange(0, k)) <= digits_value(s),
    decreases s.len(),
{
    if k < s.len() {
        let init = s.drop_last();
        assert(all_digits(init)) by {
            assert forall|i: int| 0 <= i < init.len() implies #[trigger] is_digit_byte(init[i]) by {
                assert(init[i] == s[i]);
                assert(is_digit_byte(s[i]));
            }
        }
        lemma_digits_value_prefix(init, k);
        assert(init.subrange(0, k) =~= s.subrange(0, k));
    } else {
        assert(s.subrange(0, k) =~= s);
    }
}

/// A run of digits that starts with a non-zero digit has a value of at least one.
proof fn lemma_digits_value_positive(s: Seq<u8>)
    requires
        all_digits(s),
        s.len() >= 1,
        s[0] >= DIGIT_ONE,
    ensures
        digits_value(s) >= 1,
{
    lemma_digits_value_prefix(s, 1);
    let first = s.subrange(0, 1);
    assert(first.drop_last() =~= Seq::<u8>::empty());
    assert(digits_value(first.drop_last()) == 0);
    assert(first.last() == s[0]);
    assert(digits_value(first) == (s[0] - 48) as nat);
}

#[verifier::loop_isolation(false)]
/// Reads `bytes[from..to]` as Rust's `str::parse::<usize>` reads a text.
fn parse_usize(bytes: &[u8], from: usize, to: usize) -> (r: Option<usize>)
    requires
        from <= to <= bytes@.len(),
    ensures
        r == parse_usize_text(bytes@.subrange(from as int, to as int)),
{
    let ghost s = bytes@.subrange(from as int, to as int);
    let mut i = from;
    if i < to && bytes[i] == PLUS {
        i += 1;
    }
    let ghost digits = bytes@.subrange(i as int, to as int);
    assert(digits =~= (if s.len() > 0 && s[0] == PLUS {
        s.subrange(1, s.len() as int)
    } else {
        s
    }));
    if i >= to {
        return None;
    }
    let digits_start = i;
    let mut value: usize = 0;
    assert(bytes@.subrange(digits_start as int, i as int) =~= Seq::<u8>::empty());
    while i < to
        invariant
            digits_start <= i <= to <= bytes@.len(),
            digits == bytes@.subrange(digits_start as int, to as int),
            digits.len() > 0,
            value == digits_value(bytes@.subrange(digits_start as int, i as int)),
            all_digits(bytes@.subrange(digits_start as int, i as int)),
        decreases to - i,
    {
        let ghost done = bytes@.subrange(digits_start as int, i as int);
        let ghost next = bytes@.subrange(digits_start as int, i + 1);
        assert(next.drop_last() =~= done);
        assert(next.last() == bytes@[i as int]);
        assert(digits[i - digits_start] == bytes@[i as int]);
        let b = bytes[i];
        if !(48 <= b && b <= 57) {
            assert(!is_digit_byte(digits[i - digits_start]));
            return None;
        }
        assert(all_digits(next)) by {
            assert forall|j: int| 0 <= j < next.len() implies #[trigger] is_digit_byte(next[j]) by {
                if j < done.len() {
                    assert(next[j] == done[j]);
                }
            }
        }
        let prod = value.checked_mul(10);
        let sum = match prod {
            Some(x) => x.checked_add((b - 48) as usize),
            None => None,
        };
        match sum {
            Some(v) => {
                value = v;
            },
            None => {
                proof {
                    if all_digits(digits) {
                        lemma_digits_value_prefix(digits, i + 1 - digits_start);
                        assert(digits.subrange(0, i + 1 - digits_start) =~= next);
                    }
                }
                return None;
            },
        }
        i += 1;
    }
    assert(bytes@.subrange(digits_start as int, i as int) =~= digits);
    Some(value)
}

/// Whether an executable parse step agrees with a specified one: the same error,
/// or a well-formed token whose model is the specified one and the same next position.
pub open spec fn step_agrees(spec: Result<(Tok, int), PatternError>, r: Result<(PatternToken, usize), PatternError>) -> bool {
    match spec {
        Err(e) => r == Err::<(PatternToken, usize), PatternError>(e),
        Ok((t, next)) => r matches Ok((tok, n)) && token_view(tok) == t && n as int == next && token_wf(
            tok,
        ),
    }
}

/// The first position in `from..hi` that holds byte `b`.
pub(crate) fn find_byte_in(bytes: &[u8], from: usize, hi: usize, b: u8) -> (r: Option<usize>)
    requires
        from <= hi <= bytes@.len(),
    ensures
        find_byte(bytes@, from as int, hi as int, b) == match r {
            None => None::<int>,
            Some(j) => Some(j as int),
        },
        r matches Some(j) ==> from <= j < hi && bytes@[j as int] == b,
{
    let mut i = from;
    while i < hi
        invariant
            from <= i <= hi <= bytes@.len(),
            find_byte(bytes@, i as int, hi as int, b) == find_byte(bytes@, from as int, hi as int, b),
        decreases hi - i,
    {
        if bytes[i] == b {
            return Some(i);
        }
        i += 1;
    }
    None
}

/// Parses the number whose digits start at `start`; returns it and the position
/// after its digits.
fn parse_number(bytes: &[u8], hi: usize, start: usize) -> (r: Result<(usize, usize), PatternError>)
    requires
        start <= hi <= bytes@.len(),
    ensures
        match number_spec(bytes@, hi as int, start as int) {
            Err(e) => r == Err::<(usize, usize), PatternError>(e),
            Ok((n, end)) => r matches Ok((n2, e2)) && n2 == n && e2 as int == end && start <= e2 <= hi,
        },
{
    let mut end = start;
    while end < hi && is_ascii_digit(bytes[end])
        invariant
            start <= end <= hi <= bytes@.len(),
            digits_end(bytes@, end as int, hi as int) == digits_end(bytes@, start as int, hi as int),
        decreases hi - end,
    {
        end += 1;
    }
    match parse_usize(bytes, start, end) {
        Some(number) => Ok((number, end)),
        None => Err(PatternError::InvalidNumber { start, end }),
    }
}

/// Parses the escape sequence whose `\` is at `start`.
fn parse_escape_sequence(bytes: &[u8], hi: usize, start: usize) -> (r: Result<(PatternToken, usize), PatternError>)
    requires
        hi <= bytes@.len(),
    ensures
        step_agrees(escape_spec(bytes@, hi as int, start as int), r),
        r matches Ok((_, n)) ==> start < n <= hi,
{
    if start >= hi || hi - start <= 1 {
        return Err(PatternError::TrailingBackslash);
    }
    let next_char = bytes[start + 1];
    if next_char == LOWER_D {
        Ok((PatternToken::Digit, start + 2))
    } else if next_char == LOWER_W {
        Ok((PatternToken::WordChar, start + 2))
    } else if DIGIT_ONE <= next_char && next_char <= DIGIT_NINE {
        let (backref_num, end) = match parse_number(bytes, hi, start + 1) {
            Ok(r) => r,
            Err(e) => {
                return Err(e);
            },
        };
        proof {
            let dend = digits_end(bytes@, start + 1, hi as int);
            let sub = bytes@.subrange(start + 1, dend);
            assert(sub[0] == next_char);
            assert(backref_num >= 1) by {
                lemma_digits_value_positive(sub);
            }
        }
        Ok((PatternToken::Backreference(backref_num), end))
    } else {
        Err(PatternError::UnknownEscape(next_char as char))
    }
}


/// Parses the character group whose content starts at `start`, after its `[`.
fn parse_character_group(text: &str, bytes: &[u8], hi: usize, start: usize) -> (r: Result<(PatternToken, usize), PatternError>)
    requires
        bytes@ == text.spec_bytes(),
        start <= hi <= bytes@.len(),
        is_char_boundary(bytes@, start as int),
    ensures
        step_agrees(group_spec(bytes@, hi as int, start as int), r),
        r matches Ok((_, n)) ==> start < n <= hi,
{
    let end = match find_byte_in(bytes, start, hi, CLOSE_BRACKET) {
        Some(e) => e,
        None => {
            return Err(PatternError::UnmatchedBracket);
        },
    };
    assert(find_byte(bytes@, start as int, hi as int, CLOSE_BRACKET) == Some(end as int));
    if start < end && bytes[start] == CARET {
        proof {
            encode_utf8_valid_utf8(text@);
            lemma_ascii_boundaries(bytes@, start as int);
        }
        let chars = substring_chars(text, start + 1, end);
        let tok = PatternToken::NegatedCharacterGroup(chars);
        assert(token_view(tok) == Tok::NegatedGroup(chars@));
        assert(token_wf(tok));
        return Ok((tok, end + 1));
    }
    let chars = substring_chars(text, start, end);
    let tok = PatternToken::CharacterGroup(chars);
    assert(token_view(tok) == Tok::Group(chars@));
    assert(token_wf(tok));
    Ok((tok, end + 1))
}

/// Removes the token that a quantifier applies to.
fn pop_previous_token(tokens: &mut Vec<PatternToken>) -> (r: Result<PatternToken, PatternError>)
    ensures
        old(tokens)@.len() == 0 ==> r == Err::<PatternToken, PatternError>(
            PatternError::QuantifierWithoutToken,
        ) && final(tokens)@ == old(tokens)@,
        old(tokens)@.len() > 0 ==> r == Ok::<PatternToken, PatternError>(old(tokens)@.last())
            && final(tokens)@ == old(tokens)@.drop_last(),
{
    match tokens.pop() {
        Some(prev_token) => Ok(prev_token),
        None => Err(PatternError::QuantifierWithoutToken),
    }
}

/// Parses the repetition range whose content starts at `start`, after its `{`.
fn parse_range_quantifier(bytes: &[u8], hi: usize, start: usize, prev_token: PatternToken) -> (r: Result<
    (PatternToken, usize),
    PatternError,
>)
    requires
        start <= hi <= bytes@.len(),
        token_wf(prev_token),
    ensures
        step_agrees(range_spec(bytes@, hi as int, start as int, token_view(prev_token)), r),
        r matches Ok((_, n)) ==> start < n <= hi,
{
    let end = match find_byte_in(bytes, start, hi, CLOSE_BRACE) {
        Some(e) => e,
        None => {
            return Err(PatternError::UnmatchedBrace);
        },
    };
    match find_byte_in(bytes, start, end, COMMA) {
        None => {
            let count = match parse_usize(bytes, start, end) {
                Some(n) => n,
                None => {
                    return Err(PatternError::InvalidQuantifier { start, end });
                },
            };
            Ok((PatternToken::Quantifier { min: count, max: count, inner: Box::new(prev_token) }, end + 1))
        },
        Some(comma) => {
            if find_byte_in(bytes, comma + 1, end, COMMA).is_some() {
                return Err(PatternError::InvalidQuantifier { start, end });
            }
            let min = match parse_usize(bytes, start, comma) {
                Some(n) => n,
                None => {
                    return Err(PatternError::InvalidQuantifier { start, end });
                },
            };
            let max = if comma + 1 == end {
                usize::MAX
            } else {
                match parse_usize(bytes, comma + 1, end) {
                    Some(n) => n,
                    None => {
                        return Err(PatternError::InvalidQuantifier { start, end });
                    },
                }
            };
            if min > max {
                return Err(PatternError::QuantifierMinAboveMax { start, end });
            }
            Ok((PatternToken::Quantifier { min, max, inner: Box::new(prev_token) }, end + 1))
        },
    }
}

/// Whether `c` starts a quantifier.
fn is_quantifier(c: u8) -> (r: bool)
    ensures
        r == is_quantifier_byte(c),
{
    c == PLUS || c == STAR || c == QUESTION || c == OPEN_BRACE
}

/// Parses the quantifier at `start`, applying it to `prev_token`.
fn parse_quantifier(bytes: &[u8], hi: usize, start: usize, prev_token: PatternToken) -> (r: Result<
    (PatternToken, usize),
    PatternError,
>)
    requires
        start < hi <= bytes@.len(),
        is_quantifier_byte(bytes@[start as int]),
        token_wf(prev_token),
    ensures
        step_agrees(quantifier_spec(bytes@, hi as int, start as int, token_view(prev_token)), r),
        bytes@[start as int] == OPEN_BRACE ==> step_agrees(
            range_spec(bytes@, hi as int, start + 1, token_view(prev_token)),
            r,
        ),
        r matches Ok((_, n)) ==> start < n <= hi,
{
    proof {
        lemma_quantifier_forms(bytes@, hi as int, start as int, token_view(prev_token));
    }
    let c = bytes[start];
    if c == PLUS {
        Ok((PatternToken::Quantifier { min: 1, max: usize::MAX, inner: Box::new(prev_token) }, start + 1))
    } else if c == STAR {
        Ok((PatternToken::Quantifier { min: 0, max: usize::MAX, inner: Box::new(prev_token) }, start + 1))
    } else if c == QUESTION {
        Ok((PatternToken::Quantifier { min: 0, max: 1, inner: Box::new(prev_token) }, start + 1))
    } else {
        parse_range_quantifier(bytes, hi, start + 1, prev_token)
    }
}


/// The model of tokens with one more token pushed.
proof fn lemma_tokens_view_push(s: Seq<PatternToken>, t: PatternToken)
    ensures
        tokens_view(s.push(t)) == tokens_view(s).push(token_view(t)),
{
    assert(s.push(t).subrange(0, s.len() as int) =~= s);
}

/// Well-formedness of tokens with one more token pushed.
proof fn lemma_tokens_wf_push(s: Seq<PatternToken>, t: PatternToken)
    requires
        tokens_wf(s),
        token_wf(t),
    ensures
        tokens_wf(s.push(t)),
{
    lemma_tokens_wf_iff(s);
    lemma_tokens_wf_iff(s.push(t));
    assert forall|i: int| 0 <= i < s.push(t).len() implies #[trigger] token_wf(s.push(t)[i]) by {
        if i < s.len() {
            assert(s.push(t)[i] == s[i]);
        }
    }
}

/// The model and well-formedness of tokens after their last one is removed.
proof fn lemma_tokens_drop_last(s: Seq<PatternToken>)
    requires
        s.len() > 0,
        tokens_wf(s),
    ensures
        tokens_view(s.drop_last()) == tokens_view(s).drop_last(),
        token_view(s.last()) == tokens_view(s).last(),
        tokens_wf(s.drop_last()),
        token_wf(s.last()),
{
    lemma_tokens_wf_iff(s);
    lemma_tokens_wf_iff(s.drop_last());
    assert(s.subrange(0, s.len() - 1) =~= s.drop_last());
    assert forall|i: int| 0 <= i < s.drop_last().len() implies #[trigger] token_wf(s.drop_last()[i]) by {
        assert(s.drop_last()[i] == s[i]);
    }
    assert(token_wf(s[s.len() - 1]));
}

/// The model and well-formedness of alternatives with one more pushed.
proof fn lemma_alts_push(a: Seq<Vec<PatternToken>>, v: Vec<PatternToken>)
    requires
        alts_wf(a),
        tokens_wf(v@),
    ensures
        alts_view(a.push(v)) == alts_view(a).push(tokens_view(v@)),
        alts_wf(a.push(v)),
{
    assert(a.push(v).subrange(0, a.len() as int) =~= a);
    lemma_alts_wf_iff(a);
    lemma_alts_wf_iff(a.push(v));
    assert forall|k: int| 0 <= k < a.push(v).len() implies #[trigger] tokens_wf(a.push(v)[k]@) by {
        if k < a.len() {
            assert(a.push(v)[k] == a[k]);
        }
    }
}

#[verifier::loop_isolation(false)]
/// Parses an alternation whose first alternative starts at `start`, after its `(`.
fn parse_alternation(text: &str, bytes: &[u8], hi: usize, start: usize) -> (r: Result<(PatternToken, usize), PatternError>)
    requires
        bytes@ == text.spec_bytes(),
        hi <= bytes@.len(),
    ensures
        step_agrees(alternation_spec(bytes@, hi as int, start as int, start as int, 1, Seq::empty()), r),
        r matches Ok((_, n)) ==> start < n <= hi,
    decreases hi - start, 0int,
{
    let ghost p = bytes@;
    let ghost spec0 = alternation_spec(p, hi as int, start as int, start as int, 1, Seq::empty());
    if start > hi {
        return Err(PatternError::UnmatchedParen);
    }
    let mut alt_start = start;
    let mut depth: u128 = 1;
    let mut end = start;
    let mut alternatives: Vec<Vec<PatternToken>> = Vec::new();
    assert(alts_view(alternatives@) =~= Seq::<Seq<Tok>>::empty());
    while end < hi
        invariant
            bytes@ == text.spec_bytes(),
            p == bytes@,
            hi <= bytes@.len(),
            start <= alt_start <= end <= hi,
            1 <= depth <= end - start + 1,
            alternation_spec(p, hi as int, alt_start as int, end as int, depth as int, alts_view(alternatives@))
                == spec0,
            alts_wf(alternatives@),
        decreases hi - end,
    {
        let c = bytes[end];
        if c == OPEN_PAREN {
            depth += 1;
        } else if c == PIPE && depth == 1 {
            let alt = match parse_tokens_in(text, bytes, alt_start, end) {
                Ok(t) => t,
                Err(e) => {
                    return Err(e);
                },
            };
            proof {
                lemma_alts_push(alternatives@, alt);
            }
            alternatives.push(alt);
            alt_start = end + 1;
        } else if c == CLOSE_PAREN {
            depth -= 1;
            if depth == 0 {
                let alt = match parse_tokens_in(text, bytes, alt_start, end) {
                    Ok(t) => t,
                    Err(e) => {
                        return Err(e);
                    },
                };
                proof {
                    lemma_alts_push(alternatives@, alt);
                }
                alternatives.push(alt);
                let tok = PatternToken::Alternation(alternatives);
                assert(token_wf(tok));
                return Ok((tok, end + 1));
            }
        }
        end += 1;
    }
    Err(PatternError::UnmatchedParen)
}

#[verifier::loop_isolation(false)]
/// Parses the bytes `lo..hi` of the pattern into tokens.
fn parse_tokens_in(text: &str, bytes: &[u8], lo: usize, hi: usize) -> (r: Result<Vec<PatternToken>, PatternError>)
    requires
        bytes@ == text.spec_bytes(),
        lo <= hi <= bytes@.len(),
    ensures
        match parse_from(bytes@, lo as int, hi as int, lo as int, Seq::empty()) {
            Err(e) => r == Err::<Vec<PatternToken>, PatternError>(e),
            Ok(ts) => r matches Ok(v) && tokens_view(v@) == ts && tokens_wf(v@),
        },
    decreases hi - lo, 1int,
{
    let ghost p = bytes@;
    let ghost spec0 = parse_from(p, lo as int, hi as int, lo as int, Seq::empty());
    let mut tokens: Vec<PatternToken> = Vec::new();
    assert(tokens_view(tokens@) =~= Seq::<Tok>::empty());
    let mut i = lo;
    while i < hi
        invariant
            bytes@ == text.spec_bytes(),
            p == bytes@,
            lo <= i <= hi <= bytes@.len(),
            parse_from(p, lo as int, hi as int, i as int, tokens_view(tokens@)) == spec0,
            tokens_wf(tokens@),
        decreases hi - i,
    {
        let c = bytes[i];
        let ghost old_tokens = tokens@;
        if c == BACKSLASH {
            let (token, next) = match parse_escape_sequence(bytes, hi, i) {
                Ok(r) => r,
                Err(e) => {
                    return Err(e);
                },
            };
            proof {
                lemma_tokens_view_push(tokens@, token);
                lemma_tokens_wf_push(tokens@, token);
            }
            tokens.push(token);
            i = next;
        } else if c == DOT {
            let token = PatternToken::Wildcard;
            proof {
                lemma_tokens_view_push(tokens@, token);
                lemma_tokens_wf_push(tokens@, token);
            }
            tokens.push(token);
            i += 1;
        } else if c == OPEN_BRACKET {
            proof {
                encode_utf8_valid_utf8(text@);
                lemma_ascii_boundaries(bytes@, i as int);
            }
            let (token, next) = match parse_character_group(text, bytes, hi, i + 1) {
                Ok(r) => r,
                Err(e) => {
                    return Err(e);
                },
            };
            proof {
                lemma_tokens_view_push(tokens@, token);
                lemma_tokens_wf_push(tokens@, token);
            }
            tokens.push(token);
            i = next;
        } else if c == CARET && i == lo {
            let token = PatternToken::StartAnchor;
            proof {
                lemma_tokens_view_push(tokens@, token);
                lemma_tokens_wf_push(tokens@, token);
            }
            tokens.push(token);
            i += 1;
        } else if c == DOLLAR && i == hi - 1 {
            let token = PatternToken::EndAnchor;
            proof {
                lemma_tokens_view_push(tokens@, token);
                lemma_tokens_wf_push(tokens@, token);
            }
            tokens.push(token);
            i += 1;
        } else if is_quantifier(c) {
            let prev_token = match pop_previous_token(&mut tokens) {
                Ok(t) => t,
                Err(e) => {
                    return Err(e);
                },
            };
            proof {
                lemma_tokens_drop_last(old_tokens);
            }
            let (token, next) = match parse_quantifier(bytes, hi, i, prev_token) {
                Ok(r) => r,
                Err(e) => {
                    return Err(e);
                },
            };
            proof {
                lemma_tokens_view_push(tokens@, token);
                lemma_tokens_wf_push(tokens@, token);
            }
            tokens.push(token);
            i = next;
        } else if c == OPEN_PAREN {
            let (token, next) = match parse_alternation(text, bytes, hi, i + 1) {
                Ok(r) => r,
                Err(e) => {
                    return Err(e);
                },
            };
            proof {
                lemma_tokens_view_push(tokens@, token);
                lemma_tokens_wf_push(tokens@, token);
            }
            tokens.push(token);
            i = next;
        } else {
            let token = PatternToken::Literal(c as char);
            proof {
                lemma_tokens_view_push(tokens@, token);
                lemma_tokens_wf_push(tokens@, token);
            }
            tokens.push(token);
            i += 1;
        }
    }
    Ok(tokens)
}

/// The tokens that a whole pattern text parses to, or why it does not parse.
pub open spec fn pattern_spec(text: Seq<u8>) -> Result<Seq<Tok>, PatternError> {
    parse_from(text, 0, text.len() as int, 0, Seq::empty())
}

/// A byte that means itself wherever it stands in a pattern outside a
/// character group or a repetition range.
pub open spec fn is_plain_byte(b: u8) -> bool {
    b != BACKSLASH && b != DOT && b != OPEN_BRACKET && b != CARET && b != DOLLAR
        && !is_quantifier_byte(b) && b != OPEN_PAREN
}

/// The literal tokens for the bytes of `text`.
pub open spec fn plain_tokens(text: Seq<u8>) -> Seq<Tok> {
    Seq::new(text.len(), |k: int| Tok::Literal(text[k] as char))
}

/// Parsing plain bytes `i..j` appends one literal per byte.
proof fn lemma_parse_plain(p: Seq<u8>, lo: int, hi: int, i: int, j: int, acc: Seq<Tok>)
    requires
        0 <= lo <= i <= j <= hi <= p.len(),
        forall|k: int| i <= k < j ==> #[trigger] is_plain_byte(p[k]),
    ensures
        parse_from(p, lo, hi, i, acc) == parse_from(p, lo, hi, j, acc + plain_tokens(p.subrange(i, j))),
    decreases j - i,
{
    if i >= j {
        assert(plain_tokens(p.subrange(i, j)) =~= Seq::<Tok>::empty());
        assert(acc + plain_tokens(p.subrange(i, j)) =~= acc);
    } else {
        assert(is_plain_byte(p[i]));
        lemma_parse_plain(p, lo, hi, i + 1, j, acc.push(Tok::Literal(p[i] as char)));
        assert(acc.push(Tok::Literal(p[i] as char)) + plain_tokens(p.subrange(i + 1, j)) =~= acc
            + plain_tokens(p.subrange(i, j)));
    }
}

/// A pattern made of plain bytes parses to one literal per byte.
pub proof fn lemma_plain_pattern_parses_to_literals(text: Seq<u8>)
    requires
        forall|j: int| 0 <= j < text.len() ==> #[trigger] is_plain_byte(text[j]),
    ensures
        pattern_spec(text) == Ok::<Seq<Tok>, PatternError>(plain_tokens(text)),
{
    lemma_parse_plain(text, 0, text.len() as int, 0, text.len() as int, Seq::empty());
    assert(text.subrange(0, text.len() as int) =~= text);
    assert(Seq::<Tok>::empty() + plain_tokens(text) =~= plain_tokens(text));
}

/// The tokens that a pattern made of plain bytes parses to are the literals of
/// its bytes.
proof fn lemma_plain_pattern_literals(text: Seq<u8>, toks: Seq<PatternToken>)
    requires
        forall|j: int| 0 <= j < text.len() ==> #[trigger] is_plain_byte(text[j]),
        pattern_spec(text) == Ok::<Seq<Tok>, PatternError>(tokens_view(toks)),
    ensures
        literals_of(toks, text),
{
    lemma_plain_pattern_parses_to_literals(text);
    lemma_tokens_view_index(toks);
    assert forall|i: int| 0 <= i < toks.len() implies toks[i] == PatternToken::Literal(
        #[trigger] text[i] as char,
    ) by {
        assert(tokens_view(toks)[i] == plain_tokens(text)[i]);
        assert(token_view(toks[i]) == Tok::Literal(text[i] as char));
    }
}

/// A pattern made of plain bytes matches a line exactly when the line contains
/// the pattern's text: searching with the tokens that parsing gives finds a match
/// if and only if the text occurs somewhere in the input.
pub proof fn lemma_plain_pattern_finds_its_text(text: Seq<u8>, toks: Seq<PatternToken>, input: Seq<u8>)
    requires
        forall|j: int| 0 <= j < text.len() ==> #[trigger] is_plain_byte(text[j]),
        pattern_spec(text) == Ok::<Seq<Tok>, PatternError>(tokens_view(toks)),
    ensures
        search_from(input, toks, 0) == Ok::<bool, usize>(exists|s: int| #[trigger] occurs_at(input, text, s)),
{
    lemma_plain_pattern_literals(text, toks);
    lemma_literals_search(input, toks, text, 0);
    if exists|s: int| #[trigger] occurs_at(input, text, s) {
        let s = choose|s: int| #[trigger] occurs_at(input, text, s);
        assert(0 <= s && occurs_at(input, text, s));
    }
}

/// On a pattern made of plain bytes, the scan behind `match_all_patterns` reports
/// exactly the occurrences of the pattern's text, from left to right without
/// overlap, and a match when there is one; an empty pattern matches, emptily,
/// and reports no range.
pub proof fn lemma_plain_pattern_scan(text: Seq<u8>, toks: Seq<PatternToken>, input: Seq<u8>)
    requires
        forall|j: int| 0 <= j < text.len() ==> #[trigger] is_plain_byte(text[j]),
        pattern_spec(text) == Ok::<Seq<Tok>, PatternError>(tokens_view(toks)),
        input.len() <= usize::MAX,
    ensures
        scan_matches(input, toks, 0, false) == Ok::<(bool, Seq<(usize, usize)>), usize>(
            if text.len() == 0 {
                (true, Seq::empty())
            } else {
                (exists|s: int| #[trigger] occurs_at(input, text, s), occurrences_from(input, text, 0))
            },
        ),
{
    lemma_plain_pattern_literals(text, toks);
    if text.len() == 0 {
        assert(toks =~= Seq::<PatternToken>::empty());
        lemma_empty_scan(input, 0, false);
    } else {
        lemma_literals_scan(input, toks, text, 0, false);
        if exists|s: int| #[trigger] occurs_at(input, text, s) {
            let s = choose|s: int| #[trigger] occurs_at(input, text, s);
            assert(0 <= s && occurs_at(input, text, s));
        }
    }
}

/// `^` followed by plain bytes parses to the start anchor and one literal per byte.
proof fn lemma_parse_start_anchored(q: Seq<u8>)
    requires
        forall|j: int| 0 <= j < q.len() ==> #[trigger] is_plain_byte(q[j]),
    ensures
        pattern_spec(seq![CARET] + q) == Ok::<Seq<Tok>, PatternError>(seq![Tok::Start] + plain_tokens(q)),
{
    let text = seq![CARET] + q;
    let n = text.len() as int;
    assert(text[0] == CARET);
    assert forall|k: int| 1 <= k < n implies #[trigger] is_plain_byte(text[k]) by {
        assert(text[k] == q[k - 1]);
    }
    lemma_parse_plain(text, 0, n, 1, n, seq![Tok::Start]);
    assert(text.subrange(1, n) =~= q);
    assert(parse_from(text, 0, n, 0, Seq::empty()) == parse_from(text, 0, n, 1, seq![Tok::Start]));
}

/// Plain bytes followed by `$` parse to one literal per byte and the end anchor.
proof fn lemma_parse_end_anchored(q: Seq<u8>, with_start: bool)
    requires
        forall|j: int| 0 <= j < q.len() ==> #[trigger] is_plain_byte(q[j]),
    ensures
        with_start ==> pattern_spec(seq![CARET] + q + seq![DOLLAR]) == Ok::<Seq<Tok>, PatternError>(
            (seq![Tok::Start] + plain_tokens(q)).push(Tok::End),
        ),
        !with_start ==> pattern_spec(q + seq![DOLLAR]) == Ok::<Seq<Tok>, PatternError>(
            plain_tokens(q).push(Tok::End),
        ),
{
    let pre: Seq<u8> = if with_start {
        seq![CARET]
    } else {
        Seq::empty()
    };
    let text = pre + q + seq![DOLLAR];
    let n = text.len() as int;
    let b = pre.len() as int;
    let acc: Seq<Tok> = if with_start {
        seq![Tok::Start]
    } else {
        Seq::empty()
    };
    assert forall|k: int| b <= k < n - 1 implies #[trigger] is_plain_byte(text[k]) by {
        assert(text[k] == q[k - b]);
    }
    assert(text[n - 1] == DOLLAR);
    if with_start {
        assert(text[0] == CARET);
        assert(parse_from(text, 0, n, 0, Seq::empty()) == parse_from(text, 0, n, 1, acc));
    }
    lemma_parse_plain(text, 0, n, b, n - 1, acc);
    assert(text.subrange(b, n - 1) =~= q);
    let mid = acc + plain_tokens(q);
    assert(parse_from(text, 0, n, n - 1, mid) == parse_from(text, 0, n, n, mid.push(Tok::End)));
    if with_start {
        assert(text =~= seq![CARET] + q + seq![DOLLAR]);
    } else {
        assert(text =~= q + seq![DOLLAR]);
        assert(mid =~= plain_tokens(q));
    }
}

/// The tokens whose model is `pre`, the literals of `q`, then `post` have the
/// literals of `q` between their first `pre.len()` tokens and their last
/// `post.len()` tokens.
proof fn lemma_literal_core(toks: Seq<PatternToken>, pre: Seq<Tok>, q: Seq<u8>, post: Seq<Tok>)
    requires
        tokens_view(toks) == pre + plain_tokens(q) + post,
    ensures
        toks.len() == pre.len() + q.len() + post.len(),
        literals_of(toks.subrange(pre.len() as int, pre.len() + q.len() as int), q),
        forall|i: int| 0 <= i < pre.len() ==> token_view(#[trigger] toks[i]) == pre[i],
        forall|i: int|
            0 <= i < post.len() ==> token_view(#[trigger] toks[pre.len() + q.len() + i]) == post[i],
{
    lemma_tokens_view_index(toks);
    let all = pre + plain_tokens(q) + post;
    let core = toks.subrange(pre.len() as int, pre.len() + q.len() as int);
    assert forall|i: int| 0 <= i < core.len() implies core[i] == PatternToken::Literal(
        #[trigger] q[i] as char,
    ) by {
        assert(core[i] == toks[pre.len() + i]);
        assert(all[pre.len() + i] == plain_tokens(q)[i]);
        assert(token_view(toks[pre.len() + i]) == Tok::Literal(q[i] as char));
    }
    assert forall|i: int| 0 <= i < pre.len() implies token_view(#[trigger] toks[i]) == pre[i] by {
        assert(all[i] == pre[i]);
    }
    assert forall|i: int| 0 <= i < post.len() implies token_view(#[trigger] toks[pre.len() + q.len() + i])
        == post[i] by {
        assert(all[pre.len() + q.len() + i] == post[i]);
    }
}

/// `$` alone matches exactly at the end of the input.
proof fn lemma_end_anchor_at(input: Seq<u8>, x: int)
    ensures
        match_at(input, x, seq![PatternToken::EndAnchor], Seq::empty()) matches Ok((m, _, _)) && m == (x
            == input.len()),
{
    let toks = seq![PatternToken::EndAnchor];
    let none = Seq::<(usize, usize)>::empty();
    assert(toks.subrange(1, 1) =~= Seq::<PatternToken>::empty());
    assert(toks[0] == PatternToken::EndAnchor);
    if x == input.len() {
        assert(match_at(input, x, toks.subrange(1, 1), none) == Ok::<(bool, int, Seq<(usize, usize)>), usize>(
            (true, x, none),
        ));
    }
}

/// `^` followed by plain bytes matches exactly the lines that start with those
/// bytes.
pub proof fn lemma_start_anchored_plain_pattern(q: Seq<u8>, toks: Seq<PatternToken>, input: Seq<u8>)
    requires
        forall|j: int| 0 <= j < q.len() ==> #[trigger] is_plain_byte(q[j]),
        pattern_spec(seq![CARET] + q) == Ok::<Seq<Tok>, PatternError>(tokens_view(toks)),
    ensures
        search_from(input, toks, 0) == Ok::<bool, usize>(occurs_at(input, q, 0)),
{
    lemma_parse_start_anchored(q);
    assert(seq![Tok::Start] + plain_tokens(q) =~= seq![Tok::Start] + plain_tokens(q) + Seq::<Tok>::empty());
    lemma_literal_core(toks, seq![Tok::Start], q, Seq::empty());
    let core = toks.subrange(1, toks.len() as int);
    assert(toks[0] == PatternToken::StartAnchor) by {
        assert(token_view(toks[0]) == Tok::Start);
    }
    assert forall|i: int| 0 <= i < core.len() implies #[trigger] is_single_byte_token(core[i]) by {
        assert(core[i] == PatternToken::Literal(q[i] as char));
    }
    let found = |s: int| s == 0 && occurs_at(input, q, 0);
    assert forall|s: int| 0 <= s <= input.len() implies (#[trigger] match_at(
        input,
        s,
        toks,
        Seq::empty(),
    ) matches Ok((m, _, _)) && m == found(s)) by {
        if s == 0 {
            lemma_single_bytes_match_at(input, core, 0, Seq::empty());
            lemma_literals_accept(input, core, q, 0);
        }
    }
    lemma_search_by_positions(input, toks, 0, found);
    if occurs_at(input, q, 0) {
        assert(found(0));
    }
}

/// Plain bytes followed by `$` match exactly the lines that end with those bytes.
pub proof fn lemma_end_anchored_plain_pattern(q: Seq<u8>, toks: Seq<PatternToken>, input: Seq<u8>)
    requires
        forall|j: int| 0 <= j < q.len() ==> #[trigger] is_plain_byte(q[j]),
        pattern_spec(q + seq![DOLLAR]) == Ok::<Seq<Tok>, PatternError>(tokens_view(toks)),
    ensures
        search_from(input, toks, 0) == Ok::<bool, usize>(occurs_at(input, q, input.len() - q.len())),
{
    lemma_parse_end_anchored(q, false);
    assert(plain_tokens(q).push(Tok::End) =~= Seq::<Tok>::empty() + plain_tokens(q) + seq![Tok::End]);
    lemma_literal_core(toks, Seq::empty(), q, seq![Tok::End]);
    let core = toks.subrange(0, q.len() as int);
    let end = seq![PatternToken::EndAnchor];
    assert(toks =~= core + end) by {
        assert(token_view(toks[q.len() + 0 as int]) == Tok::End);
        assert(toks[q.len() as int] == PatternToken::EndAnchor);
    }
    assert forall|i: int| 0 <= i < core.len() implies #[trigger] is_single_byte_token(core[i]) by {
        assert(core[i] == PatternToken::Literal(q[i] as char));
    }
    let found = |s: int| occurs_at(input, q, s) && s + q.len() == input.len();
    assert forall|s: int| 0 <= s <= input.len() implies (#[trigger] match_at(
        input,
        s,
        toks,
        Seq::empty(),
    ) matches Ok((m, _, _)) && m == found(s)) by {
        lemma_single_bytes_then(input, core, end, s, Seq::empty());
        lemma_literals_accept(input, core, q, s);
        lemma_end_anchor_at(input, s + q.len());
    }
    lemma_search_by_positions(input, toks, 0, found);
    if occurs_at(input, q, input.len() - q.len()) {
        assert(found(input.len() - q.len()));
    }
}

/// `^`, plain bytes and `$` match exactly the line made of those bytes.
pub proof fn lemma_fully_anchored_plain_pattern(q: Seq<u8>, toks: Seq<PatternToken>, input: Seq<u8>)
    requires
        forall|j: int| 0 <= j < q.len() ==> #[trigger] is_plain_byte(q[j]),
        pattern_spec(seq![CARET] + q + seq![DOLLAR]) == Ok::<Seq<Tok>, PatternError>(tokens_view(toks)),
    ensures
        search_from(input, toks, 0) == Ok::<bool, usize>(input == q),
{
    lemma_parse_end_anchored(q, true);
    assert((seq![Tok::Start] + plain_tokens(q)).push(Tok::End) =~= seq![Tok::Start] + plain_tokens(q)
        + seq![Tok::End]);
    lemma_literal_core(toks, seq![Tok::Start], q, seq![Tok::End]);
    let core = toks.subrange(1, q.len() + 1 as int);
    let end = seq![PatternToken::EndAnchor];
    assert(toks[0] == PatternToken::StartAnchor) by {
        assert(token_view(toks[0]) == Tok::Start);
    }
    assert(toks.subrange(1, toks.len() as int) =~= core + end) by {
        assert(token_view(toks[1 + q.len() + 0 as int]) == Tok::End);
        assert(toks[q.len() + 1 as int] == PatternToken::EndAnchor);
    }
    assert forall|i: int| 0 <= i < core.len() implies #[trigger] is_single_byte_token(core[i]) by {
        assert(core[i] == PatternToken::Literal(q[i] as char));
    }
    let found = |s: int| s == 0 && occurs_at(input, q, 0) && q.len() == input.len();
    assert forall|s: int| 0 <= s <= input.len() implies (#[trigger] match_at(
        input,
        s,
        toks,
        Seq::empty(),
    ) matches Ok((m, _, _)) && m == found(s)) by {
        if s == 0 {
            lemma_single_bytes_then(input, core, end, 0, Seq::empty());
            lemma_literals_accept(input, core, q, 0);
            lemma_end_anchor_at(input, q.len() as int);
        }
    }
    lemma_search_by_positions(input, toks, 0, found);
    if input == q {
        assert(input.subrange(0, q.len() as int) =~= q);
        assert(found(0));
    }
    if found(0) {
        assert(input =~= input.subrange(0, q.len() as int));
    }
}

/// Whether a token begins with the start anchor: the anchor itself, or a
/// repetition of a token that begins with it.
pub open spec fn has_start(t: Tok) -> bool
    decreases t,
{
    match t {
        Tok::Start => true,
        Tok::Repeat(_, _, inner) => has_start(*inner),
        _ => false,
    }
}

/// The shape of a token that parsing gives: a repetition range has its minimum
/// at most its maximum and does not repeat the end anchor; an alternation has
/// at least one alternative, each of them shaped as a parsed list; a
/// backreference names a group from 1 on.
pub open spec fn tok_shaped(t: Tok) -> bool
    decreases t,
{
    match t {
        Tok::Repeat(min, max, inner) => min <= max && *inner != Tok::End && tok_shaped(*inner),
        Tok::Alt(alts) => alts.len() > 0 && forall|k: int| 0 <= k < alts.len() ==> toks_shaped(#[trigger] alts[k]),
        Tok::Backref(n) => n >= 1,
        _ => true,
    }
}

/// The shape of a token list that parsing gives: each token is shaped, only the
/// first token may begin with the start anchor, and the end anchor may stand
/// only last.
pub open spec fn toks_shaped(ts: Seq<Tok>) -> bool
    decreases ts,
{
    forall|i: int|
        0 <= i < ts.len() ==> {
            &&& tok_shaped(#[trigger] ts[i])
            &&& has_start(ts[i]) ==> i == 0
            &&& ts[i] == Tok::End ==> i == ts.len() - 1
        }
}

/// What holds of the tokens parsed so far at position `i`: each is shaped, only
/// the first begins with the start anchor, the end anchor stands only last and
/// only once the whole range is read, and nothing is parsed before `lo`.
pub open spec fn parsed_prefix_shaped(acc: Seq<Tok>, lo: int, hi: int, i: int) -> bool {
    &&& forall|j: int|
        0 <= j < acc.len() ==> {
            &&& tok_shaped(#[trigger] acc[j])
            &&& has_start(acc[j]) ==> j == 0
            &&& acc[j] == Tok::End ==> j == acc.len() - 1 && i >= hi
        }
    &&& i <= lo ==> acc.len() == 0
}

/// The run of digits ends between where it starts and `hi`.
proof fn lemma_digits_end_range(p: Seq<u8>, from: int, hi: int)
    requires
        from <= hi,
    ensures
        from <= digits_end(p, from, hi) <= hi,
    decreases hi - from,
{
    if from < hi && is_digit_byte(p[from]) {
        lemma_digits_end_range(p, from + 1, hi);
    }
}

/// The token an escape sequence gives is shaped and is no anchor.
proof fn lemma_escape_shaped(p: Seq<u8>, hi: int, start: int)
    requires
        0 <= start,
        hi <= p.len(),
    ensures
        escape_spec(p, hi, start) matches Ok((t, _)) ==> tok_shaped(t) && !has_start(t) && t != Tok::End,
{
    if start + 1 < hi {
        let next = p[start + 1];
        if DIGIT_ONE <= next <= DIGIT_NINE {
            let end = digits_end(p, start + 1, hi);
            lemma_digits_end_range(p, start + 1, hi);
            let sub = p.subrange(start + 1, end);
            if let Some(n) = parse_usize_text(sub) {
                assert(sub[0] == next);
                lemma_digits_value_positive(sub);
            }
        }
    }
}

/// A quantifier repeats the token before it, with a minimum at most its maximum.
proof fn lemma_quantifier_shaped(p: Seq<u8>, hi: int, i: int, prev: Tok)
    ensures
        quantifier_spec(p, hi, i, prev) matches Ok((t, _)) ==> t matches Tok::Repeat(min, max, inner) && min
            <= max && *inner == prev,
{
}

/// Every list that parsing gives is shaped.
proof fn lemma_parse_from_shaped(p: Seq<u8>, lo: int, hi: int, i: int, acc: Seq<Tok>)
    requires
        0 <= lo,
        hi <= p.len(),
        parsed_prefix_shaped(acc, lo, hi, i),
    ensures
        parse_from(p, lo, hi, i, acc) matches Ok(ts) ==> toks_shaped(ts),
    decreases hi - i, 2int, 0int,
{
    if i >= hi || i < lo {
    } else {
        let c = p[i];
        let step = if c == BACKSLASH {
            escape_spec(p, hi, i)
        } else if c == DOT {
            Ok((Tok::Wildcard, i + 1))
        } else if c == OPEN_BRACKET {
            group_spec(p, hi, i + 1)
        } else if c == CARET && i == lo {
            Ok((Tok::Start, i + 1))
        } else if c == DOLLAR && i == hi - 1 {
            Ok((Tok::End, i + 1))
        } else if is_quantifier_byte(c) {
            if acc.len() == 0 {
                Err(PatternError::QuantifierWithoutToken)
            } else {
                quantifier_spec(p, hi, i, acc.last())
            }
        } else if c == OPEN_PAREN {
            alternation_spec(p, hi, i + 1, i + 1, 1, Seq::empty())
        } else {
            Ok((Tok::Literal(c as char), i + 1))
        };
        if c == BACKSLASH {
            lemma_escape_shaped(p, hi, i);
        } else if c == OPEN_PAREN && !(c == CARET && i == lo) && !(c == DOLLAR && i == hi - 1) {
            lemma_alternation_shaped(p, hi, i + 1, i + 1, 1, Seq::empty());
        } else if is_quantifier_byte(c) && acc.len() > 0 {
            lemma_quantifier_shaped(p, hi, i, acc.last());
        }
        if let Ok((t, next)) = step {
            if next > i && next <= hi {
                if is_quantifier_byte(c) && !(c == CARET && i == lo) && !(c == DOLLAR && i == hi - 1)
                    && c != BACKSLASH && c != DOT && c != OPEN_BRACKET {
                    let new_acc = acc.drop_last().push(t);
                    assert(acc.last() == acc[acc.len() - 1]);
                    assert(parsed_prefix_shaped(new_acc, lo, hi, next)) by {
                        assert forall|j: int| 0 <= j < new_acc.len() implies {
                            &&& tok_shaped(#[trigger] new_acc[j])
                            &&& has_start(new_acc[j]) ==> j == 0
                            &&& new_acc[j] == Tok::End ==> j == new_acc.len() - 1 && next >= hi
                        } by {
                            if j < new_acc.len() - 1 {
                                assert(new_acc[j] == acc[j]);
                            }
                        }
                    }
                    lemma_parse_from_shaped(p, lo, hi, next, new_acc);
                } else {
                    let new_acc = acc.push(t);
                    assert(parsed_prefix_shaped(new_acc, lo, hi, next)) by {
                        assert forall|j: int| 0 <= j < new_acc.len() implies {
                            &&& tok_shaped(#[trigger] new_acc[j])
                            &&& has_start(new_acc[j]) ==> j == 0
                            &&& new_acc[j] == Tok::End ==> j == new_acc.len() - 1 && next >= hi
                        } by {
                            if j < acc.len() {
                                assert(new_acc[j] == acc[j]);
                            }
                        }
                    }
                    lemma_parse_from_shaped(p, lo, hi, next, new_acc);
                }
            }
        }
    }
}

/// The token an alternation gives is shaped.
proof fn lemma_alternation_shaped(p: Seq<u8>, hi: int, start: int, end: int, depth: int, alts: Seq<Seq<Tok>>)
    requires
        0 <= start,
        hi <= p.len(),
        depth >= 1,
        forall|k: int| 0 <= k < alts.len() ==> toks_shaped(#[trigger] alts[k]),
    ensures
        alternation_spec(p, hi, start, end, depth, alts) matches Ok((t, _)) ==> tok_shaped(t) && !has_start(
            t,
        ) && t != Tok::End,
    decreases hi - start, 1int, hi - end,
{
    if end >= hi || end < start {
    } else {
        let c = p[end];
        if c == OPEN_PAREN {
            lemma_alternation_shaped(p, hi, start, end + 1, depth + 1, alts);
        } else if c == PIPE && depth == 1 {
            lemma_parse_from_shaped(p, start, end, start, Seq::empty());
            if let Ok(ts) = parse_from(p, start, end, start, Seq::empty()) {
                let next = alts.push(ts);
                assert forall|k: int| 0 <= k < next.len() implies toks_shaped(#[trigger] next[k]) by {
                    if k < alts.len() {
                        assert(next[k] == alts[k]);
                    }
                }
                lemma_alternation_shaped(p, hi, end + 1, end + 1, depth, next);
            }
        } else if c == CLOSE_PAREN {
            if depth - 1 == 0 {
                lemma_parse_from_shaped(p, start, end, start, Seq::empty());
                if let Ok(ts) = parse_from(p, start, end, start, Seq::empty()) {
                    let next = alts.push(ts);
                    assert forall|k: int| 0 <= k < next.len() implies toks_shaped(#[trigger] next[k]) by {
                        if k < alts.len() {
                            assert(next[k] == alts[k]);
                        }
                    }
                    assert(tok_shaped(Tok::Alt(next)));
                }
            } else {
                lemma_alternation_shaped(p, hi, start, end + 1, depth - 1, alts);
            }
        } else {
            lemma_alternation_shaped(p, hi, start, end + 1, depth, alts);
        }
    }
}

/// A parsed pattern has the shape parsing gives: repetition ranges with their
/// minimum at most their maximum, alternations with at least one alternative,
/// backreferences from 1 on, the start anchor (perhaps repeated) only first in
/// a list and the end anchor only last, at every depth.
pub proof fn lemma_parsed_pattern_shaped(text: Seq<u8>)
    ensures
        pattern_spec(text) matches Ok(ts) ==> toks_shaped(ts),
{
    lemma_parse_from_shaped(text, 0, text.len() as int, 0, Seq::empty());
}

/// How many more `(` than `)` the first `i` bytes of `s` hold.
pub open spec fn nesting(s: Seq<u8>, i: int) -> int
    decreases i,
{
    if i <= 0 {
        0
    } else {
        nesting(s, i - 1) + (if s[i - 1] == OPEN_PAREN {
            1int
        } else if s[i - 1] == CLOSE_PAREN {
            -1int
        } else {
            0int
        })
    }
}

/// Whether `s` can stand as one alternative of an alternation: its parentheses
/// are balanced, and each `)` and each `|` in it lies inside a group that `s`
/// itself opens.
pub open spec fn stays_one_alternative(s: Seq<u8>) -> bool {
    &&& nesting(s, s.len() as int) == 0
    &&& forall|i: int|
        0 <= i < s.len() ==> (#[trigger] s[i] == CLOSE_PAREN || s[i] == PIPE) ==> nesting(s, i) >= 1
}

/// Scanning an alternation passes over a segment that stays one alternative
/// without ending the alternative or the alternation.
proof fn lemma_alternation_scans_over(
    p: Seq<u8>,
    hi: int,
    start: int,
    e: int,
    d: int,
    alts: Seq<Seq<Tok>>,
    g: Seq<u8>,
    i: int,
)
    requires
        0 <= start <= e,
        e + g.len() <= hi <= p.len(),
        d >= 1,
        p.subrange(e, e + g.len()) == g,
        stays_one_alternative(g),
        0 <= i <= g.len(),
        nesting(g, i) >= 0,
        forall|j: int| 0 <= j <= i ==> #[trigger] nesting(g, j) >= 0,
    ensures
        alternation_spec(p, hi, start, e + i, d + nesting(g, i), alts) == alternation_spec(
            p,
            hi,
            start,
            e + g.len(),
            d,
            alts,
        ),
    decreases g.len() - i,
{
    if i < g.len() {
        let c = p[e + i];
        assert(c == g[i]) by {
            assert(p.subrange(e, e + g.len())[i] == p[e + i]);
        }
        assert(nesting(g, i + 1) == nesting(g, i) + (if g[i] == OPEN_PAREN {
            1int
        } else if g[i] == CLOSE_PAREN {
            -1int
        } else {
            0int
        }));
        if c == CLOSE_PAREN || c == PIPE {
            assert(nesting(g, i) >= 1);
        }
        assert forall|j: int| 0 <= j <= i + 1 implies #[trigger] nesting(g, j) >= 0 by {
            if j == i + 1 {
                if c == CLOSE_PAREN {
                    assert(nesting(g, i) >= 1);
                }
            }
        }
        lemma_alternation_scans_over(p, hi, start, e, d, alts, g, i + 1);
    } else {
        assert(nesting(g, g.len() as int) == 0);
    }
}

/// An alternation of two alternatives: where the bytes `lo..hi` of `p` are
/// `(`, then `g`, then `|`, then `c`, then `)`, and `g` and `c` each stay one
/// alternative (so a `|` inside a group of `g` does not split the outer
/// alternation), parsing those bytes gives one alternation whose alternatives are
/// the parses of the bytes of `g` and of `c`, or the first error among them.
pub proof fn lemma_two_alternatives(p: Seq<u8>, lo: int, hi: int, g: Seq<u8>, c: Seq<u8>)
    requires
        0 <= lo <= hi <= p.len(),
        p.subrange(lo, hi) == seq![OPEN_PAREN] + g + seq![PIPE] + c + seq![CLOSE_PAREN],
        stays_one_alternative(g),
        stays_one_alternative(c),
    ensures
        parse_from(p, lo, hi, lo, Seq::empty()) == match parse_from(p, lo + 1, lo + 1 + g.len(), lo + 1, Seq::empty()) {
            Err(e) => Err(e),
            Ok(first) => match parse_from(
                p,
                lo + 2 + g.len(),
                lo + 2 + g.len() + c.len(),
                lo + 2 + g.len(),
                Seq::empty(),
            ) {
                Err(e) => Err(e),
                Ok(second) => Ok::<Seq<Tok>, PatternError>(seq![Tok::Alt(seq![first, second])]),
            },
        },
{
    let text = seq![OPEN_PAREN] + g + seq![PIPE] + c + seq![CLOSE_PAREN];
    let gs = lo + 1;
    let bar = lo + 1 + g.len();
    let cs = bar + 1;
    let close = cs + c.len();
    assert(text.len() == g.len() + c.len() + 3);
    assert(p.subrange(lo, hi).len() == hi - lo);
    assert(hi == close + 1);
    assert(p[lo] == OPEN_PAREN) by {
        assert(p.subrange(lo, hi)[0] == p[lo]);
        assert(text[0] == OPEN_PAREN);
    }
    assert(p[bar] == PIPE) by {
        assert(p.subrange(lo, hi)[bar - lo] == p[bar]);
        assert(text[bar - lo] == PIPE);
    }
    assert(p[close] == CLOSE_PAREN) by {
        assert(p.subrange(lo, hi)[close - lo] == p[close]);
        assert(text[close - lo] == CLOSE_PAREN);
    }
    assert(p.subrange(gs, gs + g.len()) =~= g) by {
        assert forall|k: int| 0 <= k < g.len() implies p.subrange(gs, gs + g.len())[k] == g[k] by {
            assert(p.subrange(lo, hi)[1 + k] == p[gs + k]);
            assert(text[1 + k] == g[k]);
        }
    }
    assert(p.subrange(cs, cs + c.len()) =~= c) by {
        assert forall|k: int| 0 <= k < c.len() implies p.subrange(cs, cs + c.len())[k] == c[k] by {
            assert(p.subrange(lo, hi)[cs - lo + k] == p[cs + k]);
            assert(text[cs - lo + k] == c[k]);
        }
    }
    assert(nesting(g, 0) == 0);
    assert(nesting(c, 0) == 0);
    let none = Seq::<Seq<Tok>>::empty();
    lemma_alternation_scans_over(p, hi, gs, gs, 1, none, g, 0);
    assert(gs + 0 == gs);
    if let Ok(first) = parse_from(p, gs, bar, gs, Seq::empty()) {
        lemma_alternation_scans_over(p, hi, cs, cs, 1, seq![first], c, 0);
        assert(cs + 0 == cs);
    }
    assert(parse_from(p, lo, hi, lo, Seq::empty()) == match alternation_spec(p, hi, gs, gs, 1, none) {
        Err(e) => Err(e),
        Ok((t, next)) => if next <= lo || next > hi {
            Ok(Seq::<Tok>::empty())
        } else {
            parse_from(p, lo, hi, next, seq![t])
        },
    }) by {
        assert(Seq::<Tok>::empty().push(Tok::Alt(none)) =~= seq![Tok::Alt(none)]);
    }
    if let Ok(first) = parse_from(p, gs, bar, gs, Seq::empty()) {
        if let Ok(second) = parse_from(p, cs, close, cs, Seq::empty()) {
            assert(none.push(first) =~= seq![first]);
            assert(seq![first].push(second) =~= seq![first, second]);
            assert(Seq::<Tok>::empty().push(Tok::Alt(seq![first, second])) =~= seq![Tok::Alt(seq![first, second])]);
        }
    }
}

/// A byte that means itself in a pattern and neither separates nor closes
/// alternatives.
pub open spec fn is_inert_byte(b: u8) -> bool {
    is_plain_byte(b) && b != PIPE && b != CLOSE_PAREN
}

/// Text without parentheses opens no group.
proof fn lemma_nesting_flat(x: Seq<u8>, i: int)
    requires
        forall|k: int| 0 <= k < x.len() ==> #[trigger] is_inert_byte(x[k]),
        0 <= i <= x.len(),
    ensures
        nesting(x, i) == 0,
    decreases i,
{
    if i > 0 {
        assert(is_inert_byte(x[i - 1]));
        lemma_nesting_flat(x, i - 1);
    }
}

/// Inert text stays one alternative.
proof fn lemma_inert_stays_one_alternative(x: Seq<u8>)
    requires
        forall|k: int| 0 <= k < x.len() ==> #[trigger] is_inert_byte(x[k]),
    ensures
        stays_one_alternative(x),
{
    lemma_nesting_flat(x, x.len() as int);
    assert forall|i: int| 0 <= i < x.len() implies !(#[trigger] x[i] == CLOSE_PAREN || x[i] == PIPE) by {
        assert(is_inert_byte(x[i]));
    }
}

/// A group `(a|b)` of inert texts stays one alternative: inside it the nesting
/// is one.
proof fn lemma_group_stays_one_alternative(a: Seq<u8>, b: Seq<u8>)
    requires
        forall|k: int| 0 <= k < a.len() ==> #[trigger] is_inert_byte(a[k]),
        forall|k: int| 0 <= k < b.len() ==> #[trigger] is_inert_byte(b[k]),
    ensures
        stays_one_alternative(seq![OPEN_PAREN] + a + seq![PIPE] + b + seq![CLOSE_PAREN]),
{
    let g = seq![OPEN_PAREN] + a + seq![PIPE] + b + seq![CLOSE_PAREN];
    let n = g.len() as int;
    assert(n == a.len() + b.len() + 3);
    assert forall|i: int| 1 <= i < n implies #[trigger] nesting(g, i) == 1 by {
        lemma_group_nesting(a, b, i);
    }
    assert(g[n - 1] == CLOSE_PAREN);
    assert(nesting(g, n) == nesting(g, n - 1) - 1);
    assert forall|i: int| 0 <= i < n implies (#[trigger] g[i] == CLOSE_PAREN || g[i] == PIPE) ==> nesting(g, i)
        >= 1 by {
        if i == 0 {
            assert(g[0] == OPEN_PAREN);
        } else {
            assert(nesting(g, i) == 1);
        }
    }
}

/// Inside `(a|b)` the nesting is one.
proof fn lemma_group_nesting(a: Seq<u8>, b: Seq<u8>, i: int)
    requires
        forall|k: int| 0 <= k < a.len() ==> #[trigger] is_inert_byte(a[k]),
        forall|k: int| 0 <= k < b.len() ==> #[trigger] is_inert_byte(b[k]),
        1 <= i < a.len() + b.len() + 3,
    ensures
        nesting(seq![OPEN_PAREN] + a + seq![PIPE] + b + seq![CLOSE_PAREN], i) == 1,
    decreases i,
{
    let g = seq![OPEN_PAREN] + a + seq![PIPE] + b + seq![CLOSE_PAREN];
    if i == 1 {
        assert(g[0] == OPEN_PAREN);
        assert(nesting(g, 0) == 0);
    } else {
        lemma_group_nesting(a, b, i - 1);
        let k = i - 1;
        if k <= a.len() {
            assert(g[k] == a[k - 1]);
            assert(is_inert_byte(a[k - 1]));
        } else if k == a.len() + 1 {
            assert(g[k] == PIPE);
        } else {
            assert(g[k] == b[k - a.len() - 2]);
            assert(is_inert_byte(b[k - a.len() - 2]));
        }
    }
}

/// Inert bytes `lo..hi` of `p` parse to their literals.
proof fn lemma_parse_inert_range(p: Seq<u8>, lo: int, hi: int, x: Seq<u8>)
    requires
        0 <= lo <= hi <= p.len(),
        p.subrange(lo, hi) == x,
        forall|k: int| 0 <= k < x.len() ==> #[trigger] is_inert_byte(x[k]),
    ensures
        parse_from(p, lo, hi, lo, Seq::empty()) == Ok::<Seq<Tok>, PatternError>(plain_tokens(x)),
{
    assert forall|k: int| lo <= k < hi implies #[trigger] is_plain_byte(p[k]) by {
        assert(p.subrange(lo, hi)[k - lo] == p[k]);
        assert(is_inert_byte(x[k - lo]));
    }
    lemma_parse_plain(p, lo, hi, lo, hi, Seq::empty());
    assert(Seq::<Tok>::empty() + plain_tokens(x) =~= plain_tokens(x));
}

/// `((a|b)|c)` with `a`, `b` and `c` inert parses to one alternation whose first
/// alternative is the alternation of `a` and `b` and whose second is `c`: the
/// `|` inside the inner group does not split the outer alternation.
pub proof fn lemma_nested_alternation(a: Seq<u8>, b: Seq<u8>, c: Seq<u8>)
    requires
        forall|k: int| 0 <= k < a.len() ==> #[trigger] is_inert_byte(a[k]),
        forall|k: int| 0 <= k < b.len() ==> #[trigger] is_inert_byte(b[k]),
        forall|k: int| 0 <= k < c.len() ==> #[trigger] is_inert_byte(c[k]),
    ensures
        pattern_spec(
            seq![OPEN_PAREN] + (seq![OPEN_PAREN] + a + seq![PIPE] + b + seq![CLOSE_PAREN]) + seq![PIPE] + c
                + seq![CLOSE_PAREN],
        ) == Ok::<Seq<Tok>, PatternError>(
            seq![Tok::Alt(seq![seq![Tok::Alt(seq![plain_tokens(a), plain_tokens(b)])], plain_tokens(c)])],
        ),
{
    let g = seq![OPEN_PAREN] + a + seq![PIPE] + b + seq![CLOSE_PAREN];
    let t = seq![OPEN_PAREN] + g + seq![PIPE] + c + seq![CLOSE_PAREN];
    let n = t.len() as int;
    lemma_group_stays_one_alternative(a, b);
    lemma_inert_stays_one_alternative(c);
    lemma_inert_stays_one_alternative(a);
    lemma_inert_stays_one_alternative(b);
    assert(t.subrange(0, n) =~= t);
    lemma_two_alternatives(t, 0, n, g, c);
    // The first alternative is the group `(a|b)`.
    let gl = g.len() as int;
    assert(t.subrange(1, 1 + gl) =~= g);
    assert(t.subrange(1, 1 + gl) =~= seq![OPEN_PAREN] + a + seq![PIPE] + b + seq![CLOSE_PAREN]);
    lemma_two_alternatives(t, 1, 1 + gl, a, b);
    let al = a.len() as int;
    let bl = b.len() as int;
    assert(t.subrange(2, 2 + al) =~= a);
    lemma_parse_inert_range(t, 2, 2 + al, a);
    assert(t.subrange(3 + al, 3 + al + bl) =~= b);
    lemma_parse_inert_range(t, 3 + al, 3 + al + bl, b);
    assert(t.subrange(2 + gl, 2 + gl + c.len()) =~= c);
    lemma_parse_inert_range(t, 2 + gl, 2 + gl + c.len(), c);
}

/// Compiles a pattern text into tokens.
pub fn parse_pattern(pattern_text: &str) -> (r: Result<CompiledPattern, PatternError>)
    ensures
        match pattern_spec(pattern_text.spec_bytes()) {
            Err(e) => r == Err::<CompiledPattern, PatternError>(e),
            Ok(ts) => r matches Ok(cp) && tokens_view(cp.tokens@) == ts && tokens_wf(cp.tokens@),
        },
{
    let bytes = pattern_text.as_bytes();
    match parse_tokens_in(pattern_text, bytes, 0, bytes.len()) {
        Ok(tokens) => Ok(CompiledPattern { tokens }),
        Err(e) => Err(e),
    }
}

} // verus!
