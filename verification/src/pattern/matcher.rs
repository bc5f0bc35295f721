use vstd::prelude::*;
use vstd::slice::{slice_subrange, slice_to_vec};
use vstd::string::StringSliceAdditionalSpecFns;
use crate::pattern::error::PatternError;
use crate::pattern::parser::{parse_pattern, pattern_spec};

verus! {

/// One element of a compiled pattern.
#[derive(Debug, PartialEq, Eq)]
pub enum PatternToken {
    Literal(char),
    Digit,
    WordChar,
    Wildcard,
    CharacterGroup(Vec<char>),
    NegatedCharacterGroup(Vec<char>),
    StartAnchor,
    EndAnchor,
    Quantifier { min: usize, max: usize, inner: Box<PatternToken> },
    Alternation(Vec<Vec<PatternToken>>),
    Backreference(usize),
}

/// Number of token nodes in a token, counting nested tokens.
pub open spec fn token_size(t: PatternToken) -> nat
    decreases t,
{
    match t {
        PatternToken::Quantifier { inner, .. } => 1 + token_size(*inner),
        PatternToken::Alternation(alts) => 1 + alts_size(alts@),
        _ => 1,
    }
}

/// Number of token nodes in a token sequence.
pub open spec fn tokens_size(s: Seq<PatternToken>) -> nat
    decreases s,
{
    if s.len() == 0 {
        0
    } else {
        token_size(s[0]) + tokens_size(s.subrange(1, s.len() as int))
    }
}

/// Number of token nodes in a list of alternatives.
pub open spec fn alts_size(a: Seq<Vec<PatternToken>>) -> nat
    decreases a,
{
    if a.len() == 0 {
        0
    } else {
        tokens_size(a[0]@) + alts_size(a.subrange(1, a.len() as int))
    }
}


/// `tokens_size` distributes over concatenation.
pub proof fn lemma_tokens_size_concat(a: Seq<PatternToken>, b: Seq<PatternToken>)
    ensures
        tokens_size(a + b) == tokens_size(a) + tokens_size(b),
    decreases a.len(),
{
    if a.len() == 0 {
        assert(a + b =~= b);
    } else {
        assert((a + b)[0] == a[0]);
        assert((a + b).subrange(1, (a + b).len() as int) =~= a.subrange(1, a.len() as int) + b);
        lemma_tokens_size_concat(a.subrange(1, a.len() as int), b);
    }
}

/// Each alternative is no larger than the whole list of alternatives.
pub proof fn lemma_alts_size_member(a: Seq<Vec<PatternToken>>, k: int)
    requires
        0 <= k < a.len(),
    ensures
        tokens_size(a[k]@) <= alts_size(a),
    decreases k,
{
    if k > 0 {
        let tail = a.subrange(1, a.len() as int);
        assert(tail[k - 1] == a[k]);
        lemma_alts_size_member(tail, k - 1);
    }
}

/// Whether byte `b` is an ASCII decimal digit.
pub open spec fn is_digit_byte(b: u8) -> bool {
    48 <= b <= 57
}

/// Whether byte `b` is an ASCII letter, digit or underscore.
pub open spec fn is_word_byte(b: u8) -> bool {
    is_digit_byte(b) || (65 <= b <= 90) || (97 <= b <= 122) || b == 95
}

/// Whether a single-byte token accepts byte `b` (read as the character with that code).
pub open spec fn byte_accepted(t: PatternToken, b: u8) -> bool {
    match t {
        PatternToken::Literal(c) => (b as char) == c,
        PatternToken::Digit => is_digit_byte(b),
        PatternToken::WordChar => is_word_byte(b),
        PatternToken::Wildcard => true,
        PatternToken::CharacterGroup(chars) => chars@.contains(b as char),
        PatternToken::NegatedCharacterGroup(chars) => !chars@.contains(b as char),
        _ => false,
    }
}

/// The result of matching a token sequence: `Err(n)` when backreference `\n` names
/// a group that has not been captured, otherwise whether the tokens matched, the
/// index reached, and the captured groups afterwards. `Err(0)` marks a match that
/// cannot go on at all: a backreference to group 0, or to a capture that does not
/// lie in the input.
pub type MatchOutcome = Result<(bool, int, Seq<(usize, usize)>), usize>;

/// Backtracking match of `toks` against `input` starting at byte `idx`, with the
/// groups captured so far in `caps`. A quantifier first repeats its inner token
/// greedily, then retries the rest from the longest repetition down to `min`; an
/// alternation tries its alternatives in order, capturing the first one that lets
/// the rest of the pattern match.
pub open spec fn match_at(
    input: Seq<u8>,
    idx: int,
    toks: Seq<PatternToken>,
    caps: Seq<(usize, usize)>,
) -> MatchOutcome
    decreases tokens_size(toks), 3int, 0int,
{
    if toks.len() == 0 {
        Ok((true, idx, caps))
    } else {
        let rest = toks.subrange(1, toks.len() as int);
        proof {
            assert(tokens_size(toks) == token_size(toks[0]) + tokens_size(rest));
        }
        match toks[0] {
            PatternToken::Quantifier { min, max, inner } => {
                proof {
                    assert(token_size(toks[0]) == 1 + token_size(*inner));
                }
                match greedy_repeat(input, *inner, max as int, idx, seq![idx as usize], caps) {
                    Err(n) => Err(n),
                    Ok((positions, caps2)) => {
                        let count = positions.len() - 1;
                        if count < min {
                            Ok((false, idx, caps2))
                        } else {
                            backtrack_repeat(input, rest, positions, min as nat, count, idx, caps2)
                        }
                    },
                }
            },
            PatternToken::Alternation(alts) => {
                proof {
                    assert(token_size(toks[0]) == 1 + alts_size(alts@));
                }
                try_alternatives(input, idx, alts@, 0, rest, caps)
            },
            PatternToken::Backreference(n) => {
                if n == 0 || n - 1 >= caps.len() {
                    Err(n)
                } else {
                    proof {
                        assert(token_size(toks[0]) == 1);
                    }
                    let start = caps[n - 1].0 as int;
                    let end = caps[n - 1].1 as int;
                    let group_len = end - start;
                    if end < start {
                        Err(0)
                    } else if idx + group_len > input.len() {
                        Ok((false, idx, caps))
                    } else if end > input.len() {
                        Err(0)
                    } else if input.subrange(start, end) != input.subrange(idx, idx + group_len) {
                        Ok((false, idx, caps))
                    } else {
                        match_at(input, idx + group_len, rest, caps)
                    }
                }
            },
            PatternToken::StartAnchor => {
                if idx != 0 {
                    Ok((false, idx, caps))
                } else {
                    match_at(input, idx, rest, caps)
                }
            },
            PatternToken::EndAnchor => {
                if idx != input.len() {
                    Ok((false, idx, caps))
                } else {
                    match_at(input, idx, rest, caps)
                }
            },
            _ => {
                if idx >= input.len() || !byte_accepted(toks[0], input[idx]) {
                    Ok((false, idx, caps))
                } else {
                    match_at(input, idx + 1, rest, caps)
                }
            },
        }
    }
}

/// Greedy repetition of `inner` from `cand`, at most `max` times in all; `positions`
/// holds the index reached after each repetition so far (starting with the initial
/// index). Stops at the first failure or at a repetition that consumes nothing.
pub open spec fn greedy_repeat(
    input: Seq<u8>,
    inner: PatternToken,
    max: int,
    cand: int,
    positions: Seq<usize>,
    caps: Seq<(usize, usize)>,
) -> Result<(Seq<usize>, Seq<(usize, usize)>), usize>
    decreases token_size(inner) + 1, 2int, input.len() + 1 - cand,
{
    if positions.len() - 1 >= max {
        Ok((positions, caps))
    } else {
        proof {
            let single = seq![inner];
            assert(single.subrange(1, 1).len() == 0);
            assert(tokens_size(single.subrange(1, 1)) == 0);
            assert(tokens_size(single) == token_size(inner));
        }
        match match_at(input, cand, seq![inner], caps) {
            Err(n) => Err(n),
            Ok((matched, next, caps2)) => {
                if !matched {
                    Ok((positions, caps2))
                } else if next == cand || !(cand < next <= input.len()) {
                    Ok((positions.push(next as usize), caps2))
                } else {
                    greedy_repeat(input, inner, max, next, positions.push(next as usize), caps2)
                }
            },
        }
    }
}

/// Tries the rest of the pattern after `count`, `count - 1`, ..., `min` repetitions.
pub open spec fn backtrack_repeat(
    input: Seq<u8>,
    rest: Seq<PatternToken>,
    positions: Seq<usize>,
    min: nat,
    count: int,
    idx: int,
    caps: Seq<(usize, usize)>,
) -> MatchOutcome
    decreases tokens_size(rest), 4int, count,
{
    match match_at(input, positions[count] as int, rest, caps) {
        Err(n) => Err(n),
        Ok((matched, end, caps2)) => {
            if matched {
                Ok((true, end, caps2))
            } else if count <= min {
                Ok((false, idx, caps2))
            } else {
                backtrack_repeat(input, rest, positions, min, count - 1, idx, caps2)
            }
        },
    }
}

/// Tries alternatives `k`, `k + 1`, ... of an alternation at `idx`, followed by `rest`.
pub open spec fn try_alternatives(
    input: Seq<u8>,
    idx: int,
    alts: Seq<Vec<PatternToken>>,
    k: int,
    rest: Seq<PatternToken>,
    caps: Seq<(usize, usize)>,
) -> MatchOutcome
    decreases alts_size(alts) + 1 + tokens_size(rest), 2int, alts.len() - k,
{
    if k < 0 || k >= alts.len() {
        Ok((false, idx, caps))
    } else {
        proof {
            lemma_alts_size_member(alts, k);
            lemma_tokens_size_concat(alts[k]@, rest);
        }
        let prev_len = caps.len();
        match match_at(input, idx, alts[k]@, caps.push((idx as usize, idx as usize))) {
            Err(n) => Err(n),
            Ok((matched, end, caps2)) => {
                if !matched {
                    let caps3 = if prev_len <= caps2.len() {
                        caps2.subrange(0, prev_len as int)
                    } else {
                        caps2
                    };
                    try_alternatives(input, idx, alts, k + 1, rest, caps3)
                } else {
                    match match_at(
                        input,
                        idx,
                        alts[k]@ + rest,
                        caps2.update(prev_len as int, (idx as usize, end as usize)),
                    ) {
                        Err(n) => Err(n),
                        Ok((matched2, end2, caps4)) => {
                            if matched2 {
                                Ok((true, end2, caps4))
                            } else {
                                try_alternatives(input, idx, alts, k + 1, rest, caps4)
                            }
                        },
                    }
                }
            },
        }
    }
}


/// A token is well formed when every backreference in it names a group from 1 on.
pub open spec fn token_wf(t: PatternToken) -> bool
    decreases t,
{
    match t {
        PatternToken::Quantifier { inner, .. } => token_wf(*inner),
        PatternToken::Alternation(alts) => alts_wf(alts@),
        PatternToken::Backreference(n) => n >= 1,
        _ => true,
    }
}

/// Every token of the sequence is well formed.
pub open spec fn tokens_wf(s: Seq<PatternToken>) -> bool
    decreases s,
{
    s.len() == 0 || (token_wf(s[0]) && tokens_wf(s.subrange(1, s.len() as int)))
}

/// Every alternative is well formed.
pub open spec fn alts_wf(a: Seq<Vec<PatternToken>>) -> bool
    decreases a,
{
    a.len() == 0 || (tokens_wf(a[0]@) && alts_wf(a.subrange(1, a.len() as int)))
}

/// Well-formedness of a concatenation follows from that of its parts.
pub proof fn lemma_tokens_wf_concat(a: Seq<PatternToken>, b: Seq<PatternToken>)
    requires
        tokens_wf(a),
        tokens_wf(b),
    ensures
        tokens_wf(a + b),
    decreases a.len(),
{
    if a.len() == 0 {
        assert(a + b =~= b);
    } else {
        assert((a + b)[0] == a[0]);
        assert((a + b).subrange(1, (a + b).len() as int) =~= a.subrange(1, a.len() as int) + b);
        lemma_tokens_wf_concat(a.subrange(1, a.len() as int), b);
    }
}

/// Each alternative of a well-formed list is well formed.
pub proof fn lemma_alts_wf_member(a: Seq<Vec<PatternToken>>, k: int)
    requires
        alts_wf(a),
        0 <= k < a.len(),
    ensures
        tokens_wf(a[k]@),
    decreases k,
{
    if k > 0 {
        let tail = a.subrange(1, a.len() as int);
        assert(tail[k - 1] == a[k]);
        lemma_alts_wf_member(tail, k - 1);
    }
}

/// The furthest position a match from `index` can reach in an input of length
/// `len`: the end of the input, or `index` itself when it lies past the end.
pub open spec fn reach(len: int, index: int) -> int {
    if index <= len {
        len
    } else {
        index
    }
}

/// Every captured group lies inside an input of length `len`.
pub open spec fn captures_wf(caps: Seq<(usize, usize)>, len: int) -> bool {
    forall|i: int| 0 <= i < caps.len() ==> (#[trigger] caps[i]).0 <= caps[i].1 <= len
}

/// The tokens still to be matched after the current slice: the slices of the stack
/// from the top (last) one down.
pub open spec fn pending_tokens(p: Seq<&[PatternToken]>) -> Seq<PatternToken>
    decreases p.len(),
{
    if p.len() == 0 {
        Seq::empty()
    } else {
        p.last()@ + pending_tokens(p.drop_last())
    }
}

/// A prefix of a prefix is a prefix.
proof fn lemma_prefix_kept(a: Seq<(usize, usize)>, b: Seq<(usize, usize)>, c: Seq<(usize, usize)>)
    requires
        b.len() <= a.len(),
        a.subrange(0, b.len() as int) == b,
        c.len() <= b.len(),
        b.subrange(0, c.len() as int) == c,
    ensures
        a.subrange(0, c.len() as int) == c,
{
    assert(a.subrange(0, c.len() as int) =~= c) by {
        assert forall|i: int| 0 <= i < c.len() implies a.subrange(0, c.len() as int)[i] == c[i] by {
            assert(a.subrange(0, b.len() as int)[i] == b[i]);
            assert(b.subrange(0, c.len() as int)[i] == c[i]);
        }
    }
}

/// Whether an executable match result agrees with a specified outcome.
pub open spec fn outcome_agrees(
    o: MatchOutcome,
    r: Result<(bool, usize), PatternError>,
    caps: Seq<(usize, usize)>,
) -> bool {
    match o {
        Err(n) => r == Err::<(bool, usize), PatternError>(PatternError::InvalidBackreference(n)),
        Ok((matched, end, c)) => r matches Ok((m, e)) && m == matched && e as int == end && caps
            == c,
    }
}

/// The one-element slice holding `*t` (`std::slice::from_ref`).
#[verifier::external_body]
fn slice_from_ref<T>(t: &T) -> (r: &[T])
    ensures
        r@ == seq![*t],
{
    std::slice::from_ref(t)
}

/// Whether `chars` holds the character `c`.
fn chars_contain(chars: &Vec<char>, c: char) -> (r: bool)
    ensures
        r == chars@.contains(c),
{
    let mut i: usize = 0;
    while i < chars.len()
        invariant
            0 <= i <= chars@.len(),
            forall|j: int| 0 <= j < i ==> chars@[j] != c,
        decreases chars@.len() - i,
    {
        if chars[i] == c {
            assert(chars@[i as int] == c);
            return true;
        }
        i += 1;
    }
    false
}

/// Whether the `n` bytes at `a` equal the `n` bytes at `b`.
fn same_bytes(input: &[u8], a: usize, b: usize, n: usize) -> (r: bool)
    requires
        a + n <= input@.len(),
        b + n <= input@.len(),
    ensures
        r == (input@.subrange(a as int, a + n) == input@.subrange(b as int, b + n)),
{
    let len = input.len();
    let mut i: usize = 0;
    while i < n
        invariant
            len == input@.len(),
            a + n <= input@.len(),
            b + n <= input@.len(),
            0 <= i <= n,
            input@.subrange(a as int, a + i) == input@.subrange(b as int, b + i),
        decreases n - i,
    {
        if input[a + i] != input[b + i] {
            assert(input@.subrange(a as int, a + n)[i as int] != input@.subrange(b as int, b + n)[i as int]);
            return false;
        }
        assert(input@.subrange(a as int, a + i + 1) =~= input@.subrange(a as int, a + i).push(input@[a + i]));
        assert(input@.subrange(b as int, b + i + 1) =~= input@.subrange(b as int, b + i).push(input@[b + i]));
        i += 1;
    }
    assert(input@.subrange(a as int, a + n) =~= input@.subrange(b as int, b + n));
    true
}

/// The stack `pending` with `rest` pushed on top.
fn pending_with<'a>(pending: &[&'a [PatternToken]], rest: &'a [PatternToken]) -> (r: Vec<&'a [PatternToken]>)
    ensures
        r@ == pending@.push(rest),
{
    let mut r = slice_to_vec(pending);
    r.push(rest);
    r
}


/// The step taken by a token that consumes at most one byte: anchors test the
/// position, the other tokens test the byte at `idx` and advance past it.
pub open spec fn single_step(t: PatternToken, input: Seq<u8>, idx: int) -> (bool, int) {
    match t {
        PatternToken::StartAnchor => (idx == 0, idx),
        PatternToken::EndAnchor => (idx == input.len(), idx),
        _ => if idx < input.len() && byte_accepted(t, input[idx]) {
            (true, idx + 1)
        } else {
            (false, idx)
        },
    }
}

impl PatternToken {
    /// Matches a token that consumes at most one byte at `index`; returns whether
    /// it matched and the index after it.
    fn matches(&self, input_bytes: &[u8], index: usize) -> (r: (bool, usize))
        requires
            !(self is Quantifier || self is Alternation || self is Backreference),
        ensures
            r.0 == single_step(*self, input_bytes@, index as int).0,
            r.1 as int == single_step(*self, input_bytes@, index as int).1,
    {
        match self {
            Self::StartAnchor => {
                if index != 0 {
                    return (false, index);
                }
                assert(single_step(*self, input_bytes@, index as int) == (true, index as int));
                (true, index)
            },
            Self::EndAnchor => {
                if index != input_bytes.len() {
                    return (false, index);
                }
                assert(single_step(*self, input_bytes@, index as int) == (true, index as int));
                (true, index)
            },
            _ => self.match_single_char(input_bytes, index),
        }
    }

    /// Whether this single-byte token accepts byte `b`.
    fn accepts_byte(&self, b: u8) -> (r: bool)
        ensures
            r == byte_accepted(*self, b),
    {
        match self {
            Self::Literal(c) => (b as char) == *c,
            Self::Digit => is_ascii_digit(b),
            Self::WordChar => is_ascii_alphanumeric(b) || b == 95u8,
            Self::Wildcard => true,
            Self::CharacterGroup(chars) => chars_contain(chars, b as char),
            Self::NegatedCharacterGroup(chars) => !chars_contain(chars, b as char),
            _ => false,
        }
    }

    /// Consumes the byte at `index` when this token accepts it.
    fn match_single_char(&self, input_bytes: &[u8], index: usize) -> (r: (bool, usize))
        ensures
            r.0 == (index < input_bytes@.len() && byte_accepted(*self, input_bytes@[index as int])),
            r.0 ==> r.1 == index + 1,
            !r.0 ==> r.1 == index,
    {
        if index >= input_bytes.len() || !self.accepts_byte(input_bytes[index]) {
            return (false, index);
        }
        (true, index + 1)
    }
}

/// Whether `b` is an ASCII decimal digit (`u8::is_ascii_digit`).
pub(crate) fn is_ascii_digit(b: u8) -> (r: bool)
    ensures
        r == is_digit_byte(b),
{
    48 <= b && b <= 57
}

/// Whether `b` is an ASCII letter or digit (`u8::is_ascii_alphanumeric`).
fn is_ascii_alphanumeric(b: u8) -> (r: bool)
    ensures
        r == (is_digit_byte(b) || (65 <= b <= 90) || (97 <= b <= 122)),
{
    (48 <= b && b <= 57) || (65 <= b && b <= 90) || (97 <= b && b <= 122)
}


/// Every capture from position `from` on starts no later than it ends, and ends
/// no later than `bound`.
pub open spec fn captures_wf_from(caps: Seq<(usize, usize)>, from: int, bound: int) -> bool {
    forall|i: int| from <= i < caps.len() ==> (#[trigger] caps[i]).0 <= caps[i].1 <= bound
}

/// What a match needs: well-formed tokens and captures, or at least a match that
/// never reaches a backreference it cannot follow.
pub open spec fn match_can_run(input: Seq<u8>, idx: int, toks: Seq<PatternToken>, caps: Seq<(usize, usize)>) -> bool {
    ||| tokens_wf(toks) && captures_wf(caps, reach(input.len() as int, idx))
    ||| match_at(input, idx, toks, caps) != Err::<(bool, int, Seq<(usize, usize)>), usize>(0)
}

/// Captures well formed from `from` on stay so when a call keeps those before
/// `before.len()` and adds well-formed ones.
proof fn lemma_captures_from_extend(
    after: Seq<(usize, usize)>,
    before: Seq<(usize, usize)>,
    from: int,
    bound: int,
)
    requires
        0 <= from <= before.len() <= after.len(),
        after.subrange(0, before.len() as int) == before,
        captures_wf_from(before, from, bound),
        captures_wf_from(after, before.len() as int, bound),
    ensures
        captures_wf_from(after, from, bound),
{
    assert forall|i: int| from <= i < after.len() implies (#[trigger] after[i]).0 <= after[i].1 <= bound by {
        if i < before.len() {
            assert(after.subrange(0, before.len() as int)[i] == after[i]);
            assert(before[i].0 <= before[i].1 <= bound);
        } else {
            assert(captures_wf_from(after, before.len() as int, bound));
        }
    }
}

/// Well-formed captures followed by well-formed new ones are well formed.
proof fn lemma_captures_join(caps: Seq<(usize, usize)>, caps0: Seq<(usize, usize)>, bound: int)
    requires
        caps0.len() <= caps.len(),
        caps.subrange(0, caps0.len() as int) == caps0,
        captures_wf(caps0, bound),
        captures_wf_from(caps, caps0.len() as int, bound),
    ensures
        captures_wf(caps, bound),
{
    assert forall|i: int| 0 <= i < caps.len() implies (#[trigger] caps[i]).0 <= caps[i].1 <= bound by {
        if i < caps0.len() {
            assert(caps.subrange(0, caps0.len() as int)[i] == caps[i]);
            assert(caps0[i].0 <= caps0[i].1 <= bound);
        } else {
            assert(captures_wf_from(caps, caps0.len() as int, bound));
        }
    }
}

/// Matches `tokens` followed by the slices of `pending` (top first) against
/// `input_bytes` from `index`, recording the groups of alternations in `captures`.
#[verifier::loop_isolation(false)]
fn match_tokens<'a>(
    input_bytes: &[u8],
    index: usize,
    tokens: &'a [PatternToken],
    pending: &[&'a [PatternToken]],
    captures: &mut Vec<(usize, usize)>,
) -> (result: Result<(bool, usize), PatternError>)
    requires
        match_can_run(input_bytes@, index as int, tokens@ + pending_tokens(pending@), old(captures)@),
    ensures
        outcome_agrees(
            match_at(
                input_bytes@,
                index as int,
                tokens@ + pending_tokens(pending@),
                old(captures)@,
            ),
            result,
            final(captures)@,
        ),
        captures_wf_from(
            final(captures)@,
            old(captures)@.len() as int,
            reach(input_bytes@.len() as int, index as int),
        ),
        final(captures)@.len() >= old(captures)@.len(),
        final(captures)@.subrange(0, old(captures)@.len() as int) == old(captures)@,
        result matches Ok((matched, end)) ==> matched ==> index <= end && (end <= input_bytes@.len()
            || end == index),
    decreases tokens_size(tokens@ + pending_tokens(pending@)), pending@.len(),
{
    let ghost input = input_bytes@;
    let ghost caps0 = captures@;
    let ghost full = tokens@ + pending_tokens(pending@);
    if tokens.len() == 0 {
        if pending.len() == 0 {
            assert(full =~= Seq::<PatternToken>::empty());
            return Ok((true, index));
        }
        let top: &[PatternToken] = pending[pending.len() - 1];
        let below = slice_subrange(pending, 0, pending.len() - 1);
        assert(below@ =~= pending@.drop_last());
        assert(full =~= top@ + pending_tokens(below@));
        return match_tokens(input_bytes, index, top, below, captures);
    }
    let token = &tokens[0];
    let rest_tokens = slice_subrange(tokens, 1, tokens.len());
    let ghost rest = rest_tokens@ + pending_tokens(pending@);
    let ghost bound = reach(input.len() as int, index as int);
    let ghost wf = tokens_wf(full) && captures_wf(caps0, bound);
    assert(full[0] == *token);
    assert(full.subrange(1, full.len() as int) =~= rest);
    assert(tokens_wf(full) ==> token_wf(*token) && tokens_wf(rest));
    assert(tokens_size(full) == token_size(*token) + tokens_size(rest));
    let no_pending: Vec<&[PatternToken]> = Vec::new();
    assert(pending_tokens(no_pending@) =~= Seq::<PatternToken>::empty());
    match token {
        PatternToken::Quantifier { min, max, inner } => {
            let inner_tokens = slice_from_ref(&**inner);
            assert(inner_tokens@ + pending_tokens(no_pending@) =~= seq![**inner]);
            assert(tokens_size(seq![**inner].subrange(1, 1)) == 0);
            assert(tokens_size(seq![**inner]) == token_size(**inner));
            assert(tokens_wf(seq![**inner].subrange(1, 1)));
            assert(tokens_wf(full) ==> tokens_wf(seq![**inner]));
            let ghost greedy0 = greedy_repeat(input, **inner, *max as int, index as int, seq![index], caps0);
            let mut match_count: usize = 0;
            let mut positions: Vec<usize> = Vec::new();
            positions.push(index);
            assert(positions@ =~= seq![index]);
            let mut candidate = index;
            loop
                invariant
                    greedy_repeat(input, **inner, *max as int, candidate as int, positions@, captures@)
                        == greedy0,
                    positions@.len() == match_count + 1,
                    positions@.last() == candidate,
                    positions@[0] == index,
                    forall|i: int|
                        0 <= i < positions@.len() ==> index <= #[trigger] positions@[i] <= reach(
                            input.len() as int,
                            index as int,
                        ) && (positions@[i] <= input.len() || positions@[i] == index),
                    match_count <= *max,
                    captures_wf_from(captures@, caps0.len() as int, bound),
                    captures@.len() >= caps0.len(),
                    captures@.subrange(0, caps0.len() as int) == caps0,
                decreases reach(input.len() as int, index as int) - candidate,
            {
                if match_count >= *max {
                    break;
                }
                proof {
                    if wf {
                        lemma_captures_join(captures@, caps0, bound);
                    }
                }
                let ghost before = captures@;
                let result = match_tokens(input_bytes, candidate, inner_tokens, no_pending.as_slice(), captures);
                proof {
                    lemma_prefix_kept(captures@, before, caps0);
                    lemma_captures_from_extend(captures@, before, caps0.len() as int, bound);
                }
                let (is_match, new_index) = match result {
                    Ok(r) => r,
                    Err(e) => {
                        return Err(e);
                    },
                };
                if !is_match {
                    break;
                }
                match_count += 1;
                positions.push(new_index);
                if new_index == candidate {
                    break;
                }
                candidate = new_index;
            }
            if match_count < *min {
                return Ok((false, index));
            }
            let ghost back0 = backtrack_repeat(input, rest, positions@, *min as nat, match_count as int, index as int, captures@);
            let mut count: usize = match_count;
            loop
                invariant
                    backtrack_repeat(input, rest, positions@, *min as nat, count as int, index as int, captures@) == back0,
                    *min <= count <= match_count,
                    captures_wf_from(captures@, caps0.len() as int, bound),
                    captures@.len() >= caps0.len(),
                    captures@.subrange(0, caps0.len() as int) == caps0,
                decreases count,
            {
                let try_idx = positions[count];
                proof {
                    if wf {
                        lemma_captures_join(captures@, caps0, bound);
                    }
                }
                let ghost before = captures@;
                let result = match_tokens(input_bytes, try_idx, rest_tokens, pending, captures);
                proof {
                    lemma_prefix_kept(captures@, before, caps0);
                    lemma_captures_from_extend(captures@, before, caps0.len() as int, bound);
                }
                let (is_match, end) = match result {
                    Ok(r) => r,
                    Err(e) => {
                        return Err(e);
                    },
                };
                if is_match {
                    return Ok((true, end));
                }
                if count <= *min {
                    return Ok((false, index));
                }
                count -= 1;
            }
        },
        PatternToken::Alternation(alternatives) => {
            let ghost alts = alternatives@;
            let ghost alt0 = try_alternatives(input, index as int, alts, 0, rest, caps0);
            let mut k: usize = 0;
            while k < alternatives.len()
                invariant
                    try_alternatives(input, index as int, alts, k as int, rest, captures@) == alt0,
                    captures_wf_from(captures@, caps0.len() as int, bound),
                    captures@.len() >= caps0.len(),
                    captures@.subrange(0, caps0.len() as int) == caps0,
                decreases alternatives.len() - k,
            {
                let alt_tokens = alternatives[k].as_slice();
                proof {
                    lemma_alts_size_member(alts, k as int);
                    lemma_tokens_size_concat(alt_tokens@, rest);
                    if tokens_wf(full) {
                        lemma_alts_wf_member(alts, k as int);
                        lemma_tokens_wf_concat(alt_tokens@, rest);
                    }
                    if wf {
                        lemma_captures_join(captures@, caps0, bound);
                    }
                }
                assert(alt_tokens@ + pending_tokens(no_pending@) =~= alt_tokens@);
                let prev_len = captures.len();
                let ghost entry = captures@;
                captures.push((index, index));
                proof {
                    assert(captures@.subrange(0, entry.len() as int) =~= entry);
                    lemma_prefix_kept(captures@, entry, caps0);
                }
                proof {
                    if wf {
                        lemma_captures_join(captures@, caps0, bound);
                    }
                }
                let ghost pushed = captures@;
                let first = match_tokens(input_bytes, index, alt_tokens, no_pending.as_slice(), captures);
                proof {
                    lemma_prefix_kept(captures@, pushed, caps0);
                    lemma_captures_from_extend(captures@, pushed, caps0.len() as int, bound);
                }
                let (is_match, end) = match first {
                    Ok(r) => r,
                    Err(e) => {
                        return Err(e);
                    },
                };
                if !is_match {
                    let ghost grown = captures@;
                    captures.truncate(prev_len);
                    proof {
                        assert(captures@ =~= grown.subrange(0, prev_len as int));
                        assert(pushed.subrange(0, entry.len() as int) =~= entry);
                        lemma_prefix_kept(grown, pushed, entry);
                        assert(captures@ == entry);
                    }
                    k += 1;
                    continue;
                }
                let ghost grown = captures@;
                captures.set(prev_len, (index, end));
                proof {
                    assert(pushed.subrange(0, entry.len() as int) =~= entry);
                    lemma_prefix_kept(grown, pushed, entry);
                    assert(captures@.subrange(0, entry.len() as int) =~= entry);
                    lemma_prefix_kept(captures@, entry, caps0);
                }
                let combined = pending_with(pending, rest_tokens);
                assert(pending_tokens(combined@) =~= rest_tokens@ + pending_tokens(pending@)) by {
                    assert(combined@.drop_last() =~= pending@);
                }
                assert(alt_tokens@ + pending_tokens(combined@) =~= alt_tokens@ + rest);
                proof {
                    if wf {
                        lemma_captures_join(captures@, caps0, bound);
                    }
                }
                let ghost updated = captures@;
                let second = match_tokens(input_bytes, index, alt_tokens, combined.as_slice(), captures);
                proof {
                    lemma_prefix_kept(captures@, updated, caps0);
                    lemma_captures_from_extend(captures@, updated, caps0.len() as int, bound);
                }
                let (is_match, end) = match second {
                    Ok(r) => r,
                    Err(e) => {
                        return Err(e);
                    },
                };
                if is_match {
                    return Ok((true, end));
                }
                k += 1;
            }
            Ok((false, index))
        },
        PatternToken::Backreference(group_num) => {
            let group_index = *group_num - 1;
            if group_index >= captures.len() {
                return Err(PatternError::InvalidBackreference(*group_num));
            }
            let (start, end) = captures[group_index];
            let group_len = end - start;
            if index > input_bytes.len() || group_len > input_bytes.len() - index || !same_bytes(
                input_bytes,
                start,
                index,
                group_len,
            ) {
                return Ok((false, index));
            }
            match_tokens(input_bytes, index + group_len, rest_tokens, pending, captures)
        },
        _ => {
            let (is_match, next_index) = token.matches(input_bytes, index);
            if !is_match {
                return Ok((false, next_index));
            }
            match_tokens(input_bytes, next_index, rest_tokens, pending, captures)
        },
    }
}


/// Matches the token sequence against `input_bytes` from `index`, with no group
/// captured beforehand.
pub(crate) fn match_tokens_at(input_bytes: &[u8], index: usize, tokens: &[PatternToken]) -> (r: Result<
    (bool, usize),
    PatternError,
>)
    requires
        index <= input_bytes@.len(),
        tokens_wf(tokens@),
    ensures
        match match_at(input_bytes@, index as int, tokens@, Seq::empty()) {
            Err(n) => r == Err::<(bool, usize), PatternError>(PatternError::InvalidBackreference(n)),
            Ok((matched, end, _)) => r matches Ok((m, e)) && m == matched && e as int == end,
        },
        r matches Ok((m, e)) ==> m ==> index <= e <= input_bytes@.len(),
{
    let no_pending: Vec<&[PatternToken]> = Vec::new();
    assert(pending_tokens(no_pending@) =~= Seq::<PatternToken>::empty());
    assert(tokens@ + pending_tokens(no_pending@) =~= tokens@);
    let mut captures: Vec<(usize, usize)> = Vec::new();
    assert(captures@ =~= Seq::<(usize, usize)>::empty());
    match_tokens(input_bytes, index, tokens, no_pending.as_slice(), &mut captures)
}

/// Whether the whole token sequence matches `input` from `start`, with no group
/// captured beforehand.
pub open spec fn matches_from(input: Seq<u8>, toks: Seq<PatternToken>, start: int) -> bool {
    match_at(input, start, toks, Seq::empty()) matches Ok((true, _, _))
}

/// Whether the token sequence is tried at `start` and does not match there.
pub open spec fn fails_from(input: Seq<u8>, toks: Seq<PatternToken>, start: int) -> bool {
    match_at(input, start, toks, Seq::empty()) matches Ok((false, _, _))
}

/// Tries every start position from `start` up to and including the end of the
/// input, stopping at the first match or the first invalid backreference.
pub open spec fn search_from(input: Seq<u8>, toks: Seq<PatternToken>, start: int) -> Result<bool, usize>
    decreases input.len() + 1 - start,
{
    if start > input.len() {
        Ok(false)
    } else {
        match match_at(input, start, toks, Seq::empty()) {
            Err(n) => Err(n),
            Ok((matched, _, _)) => if matched {
                Ok(true)
            } else {
                search_from(input, toks, start + 1)
            },
        }
    }
}

/// Scans the input from `start`: a non-empty match at `start` is recorded and the
/// scan resumes where it ended; otherwise the scan moves on by one byte. `has`
/// records whether any tried position matched, even with an empty match.
pub open spec fn scan_matches(input: Seq<u8>, toks: Seq<PatternToken>, start: int, has: bool) -> Result<
    (bool, Seq<(usize, usize)>),
    usize,
>
    decreases input.len() + 1 - start,
{
    if start > input.len() {
        Ok((has, Seq::empty()))
    } else {
        match match_at(input, start, toks, Seq::empty()) {
            Err(n) => Err(n),
            Ok((matched, end, _)) => {
                let has2 = has || matched;
                if !matched || end <= start || end > input.len() {
                    scan_matches(input, toks, start + 1, has2)
                } else {
                    match scan_matches(input, toks, end, has2) {
                        Err(n) => Err(n),
                        Ok((h, ranges)) => Ok((h, seq![(start as usize, end as usize)] + ranges)),
                    }
                }
            },
        }
    }
}

/// `res` with `prefix` put before its ranges.
pub open spec fn with_prefix(
    prefix: Seq<(usize, usize)>,
    res: Result<(bool, Seq<(usize, usize)>), usize>,
) -> Result<(bool, Seq<(usize, usize)>), usize> {
    match res {
        Err(n) => Err(n),
        Ok((h, ranges)) => Ok((h, prefix + ranges)),
    }
}

/// The ranges are non-empty, lie within `lo..=len`, come in increasing order
/// without overlapping, and each is a match of the tokens starting at its start.
pub open spec fn ranges_are_matches(
    input: Seq<u8>,
    toks: Seq<PatternToken>,
    ranges: Seq<(usize, usize)>,
    lo: int,
) -> bool {
    &&& forall|i: int|
        0 <= i < ranges.len() ==> lo <= (#[trigger] ranges[i]).0 < ranges[i].1 <= input.len()
    &&& forall|i: int, j: int|
        0 <= i < j < ranges.len() ==> (#[trigger] ranges[i]).1 <= (#[trigger] ranges[j]).0
    &&& forall|i: int|
        0 <= i < ranges.len() ==> (match_at(input, (#[trigger] ranges[i]).0 as int, toks, Seq::empty())
            matches Ok((true, end, _)) && end == ranges[i].1)
}

/// What a scan reports: its ranges are matches in order, and a match was seen
/// whenever one was seen before or a range was reported.
pub proof fn lemma_scan_ranges(input: Seq<u8>, toks: Seq<PatternToken>, start: int, has: bool)
    requires
        0 <= start,
        input.len() <= usize::MAX,
    ensures
        scan_matches(input, toks, start, has) matches Ok((h, ranges)) ==> {
            &&& ranges_are_matches(input, toks, ranges, start)
            &&& has ==> h
            &&& ranges.len() > 0 ==> h
        },
    decreases input.len() + 1 - start,
{
    if start <= input.len() {
        match match_at(input, start, toks, Seq::empty()) {
            Err(n) => {},
            Ok((matched, end, _)) => {
                let has2 = has || matched;
                if !matched || end <= start || end > input.len() {
                    lemma_scan_ranges(input, toks, start + 1, has2);
                } else {
                    lemma_scan_ranges(input, toks, end, has2);
                    if let Ok((h, ranges)) = scan_matches(input, toks, end, has2) {
                        let all = seq![(start as usize, end as usize)] + ranges;
                        assert forall|i: int| 0 <= i < all.len() implies start <= (#[trigger] all[i]).0
                            < all[i].1 <= input.len() by {
                            if i > 0 {
                                assert(all[i] == ranges[i - 1]);
                            }
                        }
                        assert forall|i: int, j: int| 0 <= i < j < all.len() implies (#[trigger] all[i]).1
                            <= (#[trigger] all[j]).0 by {
                            assert(all[j] == ranges[j - 1]);
                            if i > 0 {
                                assert(all[i] == ranges[i - 1]);
                            }
                        }
                        assert forall|i: int| 0 <= i < all.len() implies (match_at(
                            input,
                            (#[trigger] all[i]).0 as int,
                            toks,
                            Seq::empty(),
                        ) matches Ok((true, e, _)) && e == all[i].1) by {
                            if i > 0 {
                                assert(all[i] == ranges[i - 1]);
                            }
                        }
                    }
                }
            },
        }
    }
}

/// Whether position `p` lies inside one of the ranges.
pub open spec fn covered(ranges: Seq<(usize, usize)>, p: int) -> bool {
    exists|i: int| 0 <= i < ranges.len() && (#[trigger] ranges[i]).0 <= p < ranges[i].1
}

/// A scan leaves out no non-empty match: at each position from `start` up to the
/// end of the input that no reported range covers, the tokens were tried without
/// error, and they do not match there with a non-empty match inside the input.
pub proof fn lemma_scan_complete(input: Seq<u8>, toks: Seq<PatternToken>, start: int, has: bool)
    requires
        0 <= start,
        input.len() <= usize::MAX,
    ensures
        scan_matches(input, toks, start, has) matches Ok((_, ranges)) ==> forall|p: int|
            start <= p <= input.len() && !covered(ranges, p) ==> (#[trigger] match_at(
                input,
                p,
                toks,
                Seq::empty(),
            ) matches Ok((m, e, _)) && !(m && p < e <= input.len())),
    decreases input.len() + 1 - start,
{
    if start <= input.len() {
        match match_at(input, start, toks, Seq::empty()) {
            Err(n) => {},
            Ok((matched, end, _)) => {
                let has2 = has || matched;
                if !matched || end <= start || end > input.len() {
                    lemma_scan_complete(input, toks, start + 1, has2);
                } else {
                    lemma_scan_complete(input, toks, end, has2);
                    if let Ok((h, rs)) = scan_matches(input, toks, end, has2) {
                        let all = seq![(start as usize, end as usize)] + rs;
                        assert forall|p: int|
                            start <= p <= input.len() && !covered(all, p) implies (#[trigger] match_at(
                            input,
                            p,
                            toks,
                            Seq::empty(),
                        ) matches Ok((m, e, _)) && !(m && p < e <= input.len())) by {
                            assert(all[0] == (start as usize, end as usize));
                            if p < end {
                                assert(covered(all, p));
                            }
                            if covered(rs, p) {
                                let i = choose|i: int| 0 <= i < rs.len() && (#[trigger] rs[i]).0 <= p < rs[i].1;
                                assert(all[i + 1] == rs[i]);
                                assert(covered(all, p));
                            }
                        }
                    }
                }
            },
        }
    }
}

/// A scan whose flag is already set reports a match.
proof fn lemma_scan_keeps_flag(input: Seq<u8>, toks: Seq<PatternToken>, start: int)
    requires
        0 <= start,
        input.len() <= usize::MAX,
    ensures
        scan_matches(input, toks, start, true) matches Ok((h, _)) ==> h,
{
    lemma_scan_ranges(input, toks, start, true);
}

/// The match flag of a complete scan agrees with a search for a first matching
/// position: `match_all_patterns` reports a match exactly when `match_pattern`
/// finds one.
pub proof fn lemma_has_match_agrees_with_search(input: Seq<u8>, toks: Seq<PatternToken>, start: int)
    requires
        0 <= start,
        input.len() <= usize::MAX,
    ensures
        scan_matches(input, toks, start, false) matches Ok((h, _)) ==> search_from(input, toks, start)
            == Ok::<bool, usize>(h),
    decreases input.len() + 1 - start,
{
    if start <= input.len() {
        match match_at(input, start, toks, Seq::empty()) {
            Err(n) => {},
            Ok((matched, end, _)) => {
                if matched {
                    if end <= start || end > input.len() {
                        lemma_scan_keeps_flag(input, toks, start + 1);
                    } else {
                        lemma_scan_keeps_flag(input, toks, end);
                    }
                } else {
                    lemma_has_match_agrees_with_search(input, toks, start + 1);
                }
            },
        }
    }
}

/// A search that reports a match found one at some position from `start` on; a
/// search that reports none tried every position from `start` to the end.
pub proof fn lemma_search_meaning(input: Seq<u8>, toks: Seq<PatternToken>, start: int)
    requires
        0 <= start,
    ensures
        search_from(input, toks, start) == Ok::<bool, usize>(true) ==> exists|s: int|
            start <= s <= input.len() && #[trigger] matches_from(input, toks, s),
        search_from(input, toks, start) == Ok::<bool, usize>(false) ==> forall|s: int|
            start <= s <= input.len() ==> #[trigger] fails_from(input, toks, s),
    decreases input.len() + 1 - start,
{
    if start <= input.len() {
        lemma_search_meaning(input, toks, start + 1);
        if search_from(input, toks, start) == Ok::<bool, usize>(true) {
            if !matches_from(input, toks, start) {
                assert(matches_from(input, toks, start + 1) || exists|s: int|
                    start + 1 <= s <= input.len() && #[trigger] matches_from(input, toks, s));
            }
        }
        if search_from(input, toks, start) == Ok::<bool, usize>(false) {
            assert forall|s: int| start <= s <= input.len() implies #[trigger] fails_from(input, toks, s) by {
                if s > start {
                }
            }
        }
    }
}

/// Whether a token matches exactly one byte, the bytes it accepts.
pub open spec fn is_single_byte_token(t: PatternToken) -> bool {
    ||| t is Literal
    ||| t is Digit
    ||| t is WordChar
    ||| t is Wildcard
    ||| t is CharacterGroup
    ||| t is NegatedCharacterGroup
}

/// Whether each token, in turn, accepts the byte of `input` at its place from
/// position `s` on.
pub open spec fn accepted_from(input: Seq<u8>, toks: Seq<PatternToken>, s: int) -> bool {
    &&& 0 <= s
    &&& s + toks.len() <= input.len()
    &&& forall|i: int| 0 <= i < toks.len() ==> #[trigger] byte_accepted(toks[i], input[s + i])
}

/// Tokens of one byte each match exactly where each accepts its byte in turn,
/// capturing nothing.
pub proof fn lemma_single_bytes_match_at(input: Seq<u8>, toks: Seq<PatternToken>, s: int, caps: Seq<(usize, usize)>)
    requires
        forall|i: int| 0 <= i < toks.len() ==> #[trigger] is_single_byte_token(toks[i]),
        0 <= s <= input.len(),
    ensures
        match_at(input, s, toks, caps) matches Ok((m, end, c)) && c == caps && m == accepted_from(input, toks, s)
            && (m ==> end == s + toks.len()),
    decreases toks.len(),
{
    if toks.len() > 0 {
        let rest = toks.subrange(1, toks.len() as int);
        assert(is_single_byte_token(toks[0]));
        assert forall|i: int| 0 <= i < rest.len() implies #[trigger] is_single_byte_token(rest[i]) by {
            assert(rest[i] == toks[i + 1]);
        }
        if s < input.len() && byte_accepted(toks[0], input[s]) {
            lemma_single_bytes_match_at(input, rest, s + 1, caps);
            if accepted_from(input, rest, s + 1) {
                assert forall|i: int| 0 <= i < toks.len() implies #[trigger] byte_accepted(toks[i], input[s + i]) by {
                    if i > 0 {
                        assert(rest[i - 1] == toks[i]);
                        assert(byte_accepted(rest[i - 1], input[s + 1 + (i - 1)]));
                    }
                }
            }
            if accepted_from(input, toks, s) {
                assert forall|i: int| 0 <= i < rest.len() implies #[trigger] byte_accepted(rest[i], input[s + 1 + i]) by {
                    assert(rest[i] == toks[i + 1]);
                    assert(byte_accepted(toks[i + 1], input[s + (i + 1)]));
                }
            }
        } else {
            if accepted_from(input, toks, s) {
                assert(byte_accepted(toks[0], input[s + 0]));
            }
        }
    }
}

/// A search for tokens of one byte each finds a match exactly when they accept,
/// in turn, the bytes from some position at or after `start`.
pub proof fn lemma_single_bytes_search(input: Seq<u8>, toks: Seq<PatternToken>, start: int)
    requires
        forall|i: int| 0 <= i < toks.len() ==> #[trigger] is_single_byte_token(toks[i]),
        0 <= start,
    ensures
        search_from(input, toks, start) == Ok::<bool, usize>(
            exists|s: int| start <= s && #[trigger] accepted_from(input, toks, s),
        ),
    decreases input.len() + 1 - start,
{
    if start > input.len() {
        assert forall|s: int| start <= s implies !#[trigger] accepted_from(input, toks, s) by {}
    } else {
        lemma_single_bytes_match_at(input, toks, start, Seq::empty());
        lemma_single_bytes_search(input, toks, start + 1);
        if exists|s: int| start <= s && #[trigger] accepted_from(input, toks, s) {
            let s = choose|s: int| start <= s && #[trigger] accepted_from(input, toks, s);
            if s > start {
                assert(start + 1 <= s && accepted_from(input, toks, s));
            }
        }
    }
}

/// Tokens of one byte each, followed by more tokens: where they accept their
/// bytes, matching goes on after them with nothing captured; elsewhere the
/// whole fails.
pub proof fn lemma_single_bytes_then(
    input: Seq<u8>,
    toks: Seq<PatternToken>,
    rest: Seq<PatternToken>,
    s: int,
    caps: Seq<(usize, usize)>,
)
    requires
        forall|i: int| 0 <= i < toks.len() ==> #[trigger] is_single_byte_token(toks[i]),
        0 <= s <= input.len(),
    ensures
        accepted_from(input, toks, s) ==> match_at(input, s, toks + rest, caps) == match_at(
            input,
            s + toks.len(),
            rest,
            caps,
        ),
        !accepted_from(input, toks, s) ==> (match_at(input, s, toks + rest, caps) matches Ok((false, _, c))
            && c == caps),
    decreases toks.len(),
{
    if toks.len() == 0 {
        assert(toks + rest =~= rest);
    } else {
        let tail = toks.subrange(1, toks.len() as int);
        let all = toks + rest;
        assert(all[0] == toks[0]);
        assert(all.subrange(1, all.len() as int) =~= tail + rest);
        assert(is_single_byte_token(toks[0]));
        assert forall|i: int| 0 <= i < tail.len() implies #[trigger] is_single_byte_token(tail[i]) by {
            assert(tail[i] == toks[i + 1]);
        }
        if s < input.len() && byte_accepted(toks[0], input[s]) {
            lemma_single_bytes_then(input, tail, rest, s + 1, caps);
            if accepted_from(input, tail, s + 1) {
                assert forall|i: int| 0 <= i < toks.len() implies #[trigger] byte_accepted(toks[i], input[s + i]) by {
                    if i > 0 {
                        assert(tail[i - 1] == toks[i]);
                        assert(byte_accepted(tail[i - 1], input[s + 1 + (i - 1)]));
                    }
                }
            }
            if accepted_from(input, toks, s) {
                assert forall|i: int| 0 <= i < tail.len() implies #[trigger] byte_accepted(tail[i], input[s + 1 + i]) by {
                    assert(tail[i] == toks[i + 1]);
                    assert(byte_accepted(toks[i + 1], input[s + (i + 1)]));
                }
            }
        } else {
            if accepted_from(input, toks, s) {
                assert(byte_accepted(toks[0], input[s + 0]));
            }
        }
    }
}

/// A search finds a match exactly at the positions where the tokens match, when
/// each position from `start` to the end is tried without error.
pub proof fn lemma_search_by_positions(
    input: Seq<u8>,
    toks: Seq<PatternToken>,
    start: int,
    found: spec_fn(int) -> bool,
)
    requires
        0 <= start,
        forall|s: int|
            start <= s <= input.len() ==> (#[trigger] match_at(input, s, toks, Seq::empty()) matches Ok((m, _, _))
                && m == found(s)),
    ensures
        search_from(input, toks, start) == Ok::<bool, usize>(
            exists|s: int| start <= s <= input.len() && #[trigger] found(s),
        ),
    decreases input.len() + 1 - start,
{
    if start <= input.len() {
        assert(match_at(input, start, toks, Seq::empty()) matches Ok((m, _, _)) && m == found(start));
        lemma_search_by_positions(input, toks, start + 1, found);
        if exists|s: int| start <= s <= input.len() && #[trigger] found(s) {
            let s = choose|s: int| start <= s <= input.len() && #[trigger] found(s);
            if s > start {
                assert(start + 1 <= s <= input.len() && found(s));
            }
        }
    }
}

/// Whether token `t` accepts each of the `k` bytes of `input` from `s` on.
pub open spec fn repeats_at(input: Seq<u8>, t: PatternToken, s: int, k: int) -> bool {
    &&& 0 <= k
    &&& s + k <= input.len()
    &&& forall|i: int| 0 <= i < k ==> #[trigger] byte_accepted(t, input[s + i])
}

/// A greedy repetition of a one-byte token takes the longest run of bytes it
/// accepts, up to `max`, and captures nothing.
proof fn lemma_greedy_single_byte(
    input: Seq<u8>,
    t: PatternToken,
    max: int,
    s: int,
    cand: int,
    positions: Seq<usize>,
    caps: Seq<(usize, usize)>,
)
    requires
        is_single_byte_token(t),
        0 <= s <= cand <= input.len() <= usize::MAX,
        positions.len() == cand - s + 1,
        forall|i: int| 0 <= i < positions.len() ==> positions[i] == s + i,
        repeats_at(input, t, s, cand - s),
        cand - s <= max,
    ensures
        greedy_repeat(input, t, max, cand, positions, caps) matches Ok((ps, c)) && {
            &&& c == caps
            &&& 1 <= ps.len() <= max + 1
            &&& forall|i: int| 0 <= i < ps.len() ==> ps[i] == s + i
            &&& repeats_at(input, t, s, ps.len() - 1)
            &&& ps.len() - 1 < max ==> !repeats_at(input, t, s, ps.len() as int)
        },
    decreases input.len() + 1 - cand,
{
    if positions.len() - 1 < max {
        lemma_single_bytes_match_at(input, seq![t], cand, caps);
        assert(seq![t][0] == t);
        if cand < input.len() && byte_accepted(t, input[cand]) {
            let next = positions.push((cand + 1) as usize);
            assert forall|i: int| 0 <= i < cand + 1 - s implies #[trigger] byte_accepted(t, input[s + i]) by {
                if i < cand - s {
                    assert(byte_accepted(t, input[s + i]));
                }
            }
            assert forall|i: int| 0 <= i < next.len() implies next[i] == s + i by {
                if i < positions.len() {
                    assert(next[i] == positions[i]);
                }
            }
            lemma_greedy_single_byte(input, t, max, s, cand + 1, next, caps);
        } else {
            if repeats_at(input, t, s, positions.len() as int) {
                assert(byte_accepted(t, input[s + (cand - s)]));
            }
        }
    }
}

/// Retrying the tokens after a repetition of a one-byte token, from `count`
/// repetitions down to `min`, finds a match exactly when the tokens after it,
/// all of one byte, accept the bytes after one of those repetition counts.
proof fn lemma_backtrack_single_bytes(
    input: Seq<u8>,
    rest: Seq<PatternToken>,
    positions: Seq<usize>,
    min: nat,
    count: int,
    idx: int,
    caps: Seq<(usize, usize)>,
)
    requires
        forall|i: int| 0 <= i < rest.len() ==> #[trigger] is_single_byte_token(rest[i]),
        min <= count < positions.len(),
        forall|i: int| 0 <= i <= count ==> positions[i] == idx + i,
        0 <= idx,
        idx + count <= input.len(),
    ensures
        backtrack_repeat(input, rest, positions, min, count, idx, caps) matches Ok((m, _, _)) && m == exists|k: int|
            min <= k <= count && #[trigger] accepted_from(input, rest, idx + k),
    decreases count,
{
    assert(positions[count] == idx + count);
    lemma_single_bytes_match_at(input, rest, idx + count, caps);
    if !accepted_from(input, rest, idx + count) && count > min {
        lemma_backtrack_single_bytes(input, rest, positions, min, count - 1, idx, caps);
        if exists|k: int| min <= k <= count && #[trigger] accepted_from(input, rest, idx + k) {
            let k = choose|k: int| min <= k <= count && #[trigger] accepted_from(input, rest, idx + k);
            assert(k <= count - 1);
        }
    }
    if accepted_from(input, rest, idx + count) {
        assert(min <= count && accepted_from(input, rest, idx + count));
    }
}

/// A repetition `t{min,max}` of a one-byte token followed by one-byte tokens
/// matches at `s` exactly when, for some number `k` of repetitions with
/// `min <= k <= max`, `t` accepts the `k` bytes from `s` and the tokens after it
/// accept the bytes after those: the repetition gives back as many repetitions as
/// the rest needs, down to `min` (so `x.*y` matches `xy`).
pub proof fn lemma_repetition_then_single_bytes(
    input: Seq<u8>,
    s: int,
    min: usize,
    max: usize,
    t: PatternToken,
    rest: Seq<PatternToken>,
    caps: Seq<(usize, usize)>,
)
    requires
        is_single_byte_token(t),
        forall|i: int| 0 <= i < rest.len() ==> #[trigger] is_single_byte_token(rest[i]),
        0 <= s <= input.len() <= usize::MAX,
    ensures
        match_at(input, s, seq![PatternToken::Quantifier { min, max, inner: Box::new(t) }] + rest, caps) matches Ok(
            (m, _, _),
        ) && m == exists|k: int|
            min <= k <= max && repeats_at(input, t, s, k) && #[trigger] accepted_from(input, rest, s + k),
{
    let q = PatternToken::Quantifier { min, max, inner: Box::new(t) };
    let toks = seq![q] + rest;
    assert(toks[0] == q);
    assert(toks.subrange(1, toks.len() as int) =~= rest);
    let start = seq![s as usize];
    assert(repeats_at(input, t, s, 0));
    lemma_greedy_single_byte(input, t, max as int, s, s, start, caps);
    let target = exists|k: int|
        min <= k <= max && repeats_at(input, t, s, k) && #[trigger] accepted_from(input, rest, s + k);
    if let Ok((ps, c)) = greedy_repeat(input, t, max as int, s, start, caps) {
        let g = ps.len() - 1;
        // Every run of accepted bytes from `s` within `max` is at most `g` long.
        assert forall|k: int| 0 <= k <= max && repeats_at(input, t, s, k) implies k <= g by {
            if k > g {
                assert(g < max);
                assert(repeats_at(input, t, s, g + 1)) by {
                    assert forall|i: int| 0 <= i < g + 1 implies #[trigger] byte_accepted(t, input[s + i]) by {
                        assert(byte_accepted(t, input[s + i]));
                    }
                }
            }
        }
        if g >= min {
            lemma_backtrack_single_bytes(input, rest, ps, min as nat, g, s, c);
            if exists|k: int| min <= k <= g && #[trigger] accepted_from(input, rest, s + k) {
                let k = choose|k: int| min <= k <= g && #[trigger] accepted_from(input, rest, s + k);
                assert(repeats_at(input, t, s, k)) by {
                    assert forall|i: int| 0 <= i < k implies #[trigger] byte_accepted(t, input[s + i]) by {
                        assert(byte_accepted(t, input[s + i]));
                    }
                }
                assert(target);
            }
        }
    }
}

/// One-byte tokens, a repetition of a one-byte token, then one-byte tokens (as in
/// `x.*y`) match at `s` exactly when the first tokens accept the bytes from `s`
/// and, for some number `k` of repetitions with `min <= k <= max`, the repeated
/// token accepts the `k` bytes after them and the last tokens the bytes after
/// those.
pub proof fn lemma_single_bytes_repetition_single_bytes(
    input: Seq<u8>,
    s: int,
    before: Seq<PatternToken>,
    min: usize,
    max: usize,
    t: PatternToken,
    after: Seq<PatternToken>,
)
    requires
        forall|i: int| 0 <= i < before.len() ==> #[trigger] is_single_byte_token(before[i]),
        is_single_byte_token(t),
        forall|i: int| 0 <= i < after.len() ==> #[trigger] is_single_byte_token(after[i]),
        0 <= s <= input.len() <= usize::MAX,
    ensures
        match_at(
            input,
            s,
            before + (seq![PatternToken::Quantifier { min, max, inner: Box::new(t) }] + after),
            Seq::empty(),
        ) matches Ok((m, _, _)) && m == (accepted_from(input, before, s) && exists|k: int|
            min <= k <= max && repeats_at(input, t, s + before.len(), k) && #[trigger] accepted_from(
                input,
                after,
                s + before.len() + k,
            )),
{
    let q = seq![PatternToken::Quantifier { min, max, inner: Box::new(t) }];
    lemma_single_bytes_then(input, before, q + after, s, Seq::empty());
    if accepted_from(input, before, s) {
        lemma_repetition_then_single_bytes(input, s + before.len(), min, max, t, after, Seq::empty());
    }
}

/// Tokens that stand for the bytes of `text` one by one, each byte read as the
/// character with its code.
pub open spec fn literals_of(toks: Seq<PatternToken>, text: Seq<u8>) -> bool {
    &&& toks.len() == text.len()
    &&& forall|i: int| 0 <= i < toks.len() ==> toks[i] == PatternToken::Literal(#[trigger] text[i] as char)
}

/// Whether `text` occurs in `input` from position `s`.
pub open spec fn occurs_at(input: Seq<u8>, text: Seq<u8>, s: int) -> bool {
    0 <= s && s + text.len() <= input.len() && input.subrange(s, s + text.len()) == text
}

/// Literal tokens accept the bytes from `s` on exactly where their text occurs.
pub proof fn lemma_literals_accept(input: Seq<u8>, toks: Seq<PatternToken>, text: Seq<u8>, s: int)
    requires
        literals_of(toks, text),
    ensures
        accepted_from(input, toks, s) == occurs_at(input, text, s),
{
    if accepted_from(input, toks, s) {
        assert forall|i: int| 0 <= i < text.len() implies input.subrange(s, s + text.len())[i] == text[i] by {
            assert(byte_accepted(toks[i], input[s + i]));
            assert(toks[i] == PatternToken::Literal(text[i] as char));
        }
        assert(input.subrange(s, s + text.len()) =~= text);
    }
    if occurs_at(input, text, s) {
        assert forall|i: int| 0 <= i < toks.len() implies #[trigger] byte_accepted(toks[i], input[s + i]) by {
            assert(input.subrange(s, s + text.len())[i] == text[i]);
            assert(toks[i] == PatternToken::Literal(text[i] as char));
        }
    }
}

/// A search for literal tokens finds a match exactly when their text occurs in
/// the input at or after `start`.
pub proof fn lemma_literals_search(input: Seq<u8>, toks: Seq<PatternToken>, text: Seq<u8>, start: int)
    requires
        literals_of(toks, text),
        0 <= start,
    ensures
        search_from(input, toks, start) == Ok::<bool, usize>(
            exists|s: int| start <= s && #[trigger] occurs_at(input, text, s),
        ),
{
    assert forall|i: int| 0 <= i < toks.len() implies #[trigger] is_single_byte_token(toks[i]) by {
        assert(toks[i] == PatternToken::Literal(text[i] as char));
    }
    lemma_single_bytes_search(input, toks, start);
    assert forall|s: int| #[trigger] accepted_from(input, toks, s) == occurs_at(input, text, s) by {
        lemma_literals_accept(input, toks, text, s);
    }
    if exists|s: int| start <= s && #[trigger] occurs_at(input, text, s) {
        let s = choose|s: int| start <= s && #[trigger] occurs_at(input, text, s);
        assert(accepted_from(input, toks, s));
    }
    if exists|s: int| start <= s && #[trigger] accepted_from(input, toks, s) {
        let s = choose|s: int| start <= s && #[trigger] accepted_from(input, toks, s);
        assert(occurs_at(input, text, s));
    }
}

/// The occurrences of a non-empty `text` in `input` from `start` on, found from
/// left to right, each search resuming after the occurrence before it.
pub open spec fn occurrences_from(input: Seq<u8>, text: Seq<u8>, start: int) -> Seq<(usize, usize)>
    decreases input.len() + 1 - start,
{
    if start < 0 || start > input.len() || text.len() == 0 {
        Seq::empty()
    } else if occurs_at(input, text, start) {
        seq![(start as usize, (start + text.len()) as usize)] + occurrences_from(
            input,
            text,
            start + text.len(),
        )
    } else {
        occurrences_from(input, text, start + 1)
    }
}

/// Scanning for literal tokens of a non-empty text reports exactly the
/// occurrences of the text, one after the other, and a match when there is one.
pub proof fn lemma_literals_scan(input: Seq<u8>, toks: Seq<PatternToken>, text: Seq<u8>, start: int, has: bool)
    requires
        literals_of(toks, text),
        text.len() > 0,
        0 <= start,
        input.len() <= usize::MAX,
    ensures
        scan_matches(input, toks, start, has) == Ok::<(bool, Seq<(usize, usize)>), usize>(
            (
                has || exists|s: int| start <= s && #[trigger] occurs_at(input, text, s),
                occurrences_from(input, text, start),
            ),
        ),
    decreases input.len() + 1 - start,
{
    if start > input.len() {
        assert forall|s: int| start <= s implies !#[trigger] occurs_at(input, text, s) by {}
    } else {
        assert forall|i: int| 0 <= i < toks.len() implies #[trigger] is_single_byte_token(toks[i]) by {
            assert(toks[i] == PatternToken::Literal(text[i] as char));
        }
        lemma_single_bytes_match_at(input, toks, start, Seq::empty());
        lemma_literals_accept(input, toks, text, start);
        if occurs_at(input, text, start) {
            lemma_literals_scan(input, toks, text, start + text.len(), true);
        } else {
            lemma_literals_scan(input, toks, text, start + 1, has);
            if exists|s: int| start <= s && #[trigger] occurs_at(input, text, s) {
                let s = choose|s: int| start <= s && #[trigger] occurs_at(input, text, s);
                assert(start + 1 <= s);
            }
        }
    }
}

/// Scanning with no tokens matches, emptily, at every position, and reports no
/// range.
pub proof fn lemma_empty_scan(input: Seq<u8>, start: int, has: bool)
    requires
        0 <= start,
    ensures
        scan_matches(input, Seq::<PatternToken>::empty(), start, has) == Ok::<(bool, Seq<(usize, usize)>), usize>(
            (has || start <= input.len(), Seq::empty()),
        ),
    decreases input.len() + 1 - start,
{
    if start <= input.len() {
        lemma_empty_scan(input, start + 1, true);
    }
}

/// `$` alone matches every line, the empty one too: it matches the empty
/// position at the end of the line.
pub proof fn lemma_end_anchor_matches_every_line(input: Seq<u8>, start: int)
    requires
        0 <= start <= input.len(),
    ensures
        search_from(input, seq![PatternToken::EndAnchor], start) == Ok::<bool, usize>(true),
    decreases input.len() - start,
{
    let toks = seq![PatternToken::EndAnchor];
    let none = Seq::<(usize, usize)>::empty();
    assert(toks.subrange(1, 1) =~= Seq::<PatternToken>::empty());
    assert(toks[0] == PatternToken::EndAnchor);
    if start < input.len() {
        assert(match_at(input, start, toks, none) == Ok::<(bool, int, Seq<(usize, usize)>), usize>(
            (false, start, none),
        ));
        lemma_end_anchor_matches_every_line(input, start + 1);
    } else {
        assert(match_at(input, start, toks.subrange(1, 1), none) == Ok::<
            (bool, int, Seq<(usize, usize)>),
            usize,
        >((true, start, none)));
        assert(match_at(input, start, toks, none) == Ok::<(bool, int, Seq<(usize, usize)>), usize>(
            (true, start, none),
        ));
    }
}

/// `^` alone matches every line, at its start.
pub proof fn lemma_start_anchor_matches_every_line(input: Seq<u8>)
    ensures
        search_from(input, seq![PatternToken::StartAnchor], 0) == Ok::<bool, usize>(true),
{
    let toks = seq![PatternToken::StartAnchor];
    let none = Seq::<(usize, usize)>::empty();
    assert(toks.subrange(1, 1) =~= Seq::<PatternToken>::empty());
    assert(toks[0] == PatternToken::StartAnchor);
    assert(match_at(input, 0, toks.subrange(1, 1), none) == Ok::<(bool, int, Seq<(usize, usize)>), usize>(
        (true, 0, none),
    ));
    assert(match_at(input, 0, toks, none) == Ok::<(bool, int, Seq<(usize, usize)>), usize>(
        (true, 0, none),
    ));
}

/// A greedy repetition only adds positions to those it starts with.
proof fn lemma_greedy_keeps_positions(
    input: Seq<u8>,
    inner: PatternToken,
    max: int,
    cand: int,
    positions: Seq<usize>,
    caps: Seq<(usize, usize)>,
)
    ensures
        greedy_repeat(input, inner, max, cand, positions, caps) matches Ok((ps, _)) ==> ps.len()
            >= positions.len(),
    decreases input.len() + 1 - cand,
{
    if positions.len() - 1 < max {
        if let Ok((matched, next, caps2)) = match_at(input, cand, seq![inner], caps) {
            if matched && next != cand && cand < next <= input.len() {
                lemma_greedy_keeps_positions(input, inner, max, next, positions.push(next as usize), caps2);
            }
        }
    }
}

/// A repetition that allows zero repetitions, with nothing after it, matches at
/// every position where it is tried without an error: `x*` and `x?` match every
/// line.
pub proof fn lemma_optional_repetition_matches(
    input: Seq<u8>,
    s: int,
    max: usize,
    inner: PatternToken,
    caps: Seq<(usize, usize)>,
)
    ensures
        match_at(input, s, seq![PatternToken::Quantifier { min: 0, max, inner: Box::new(inner) }], caps)
            matches Ok((m, _, _)) ==> m,
{
    let toks = seq![PatternToken::Quantifier { min: 0, max, inner: Box::new(inner) }];
    let rest = toks.subrange(1, 1);
    assert(rest =~= Seq::<PatternToken>::empty());
    let start = seq![s as usize];
    lemma_greedy_keeps_positions(input, inner, max as int, s, start, caps);
    if let Ok((positions, caps2)) = greedy_repeat(input, inner, max as int, s, start, caps) {
        let count = positions.len() - 1;
        assert(match_at(input, positions[count] as int, rest, caps2) == Ok::<
            (bool, int, Seq<(usize, usize)>),
            usize,
        >((true, positions[count] as int, caps2)));
        assert(backtrack_repeat(input, rest, positions, 0, count, s, caps2) matches Ok((true, _, _)));
    }
}

/// The result of matching a pattern at every position of a line.
pub struct PatternMatches {
    /// Whether the pattern matched at some position tried, even with an empty match.
    pub has_match: bool,
    /// The non-empty, non-overlapping matches, from left to right, as byte ranges.
    pub ranges: Vec<(usize, usize)>,
}

#[verifier::loop_isolation(false)]
/// Whether the pattern matches `input_line` at some byte position, from the start
/// of the line up to and including its end.
pub fn match_pattern(input_line: &str, pattern_tokens: &[PatternToken]) -> (result: Result<bool, PatternError>)
    requires
        tokens_wf(pattern_tokens@),
    ensures
        match search_from(input_line.spec_bytes(), pattern_tokens@, 0) {
            Ok(b) => result == Ok::<bool, PatternError>(b),
            Err(n) => result == Err::<bool, PatternError>(PatternError::InvalidBackreference(n)),
        },
        result == Ok::<bool, PatternError>(true) ==> exists|s: int|
            0 <= s <= input_line.spec_bytes().len() && #[trigger] matches_from(
                input_line.spec_bytes(),
                pattern_tokens@,
                s,
            ),
        result == Ok::<bool, PatternError>(false) ==> forall|s: int|
            0 <= s <= input_line.spec_bytes().len() ==> #[trigger] fails_from(
                input_line.spec_bytes(),
                pattern_tokens@,
                s,
            ),
{
    let input_bytes = input_line.as_bytes();
    let ghost input = input_bytes@;
    let ghost toks = pattern_tokens@;
    proof {
        lemma_search_meaning(input, toks, 0);
    }
    let mut start: usize = 0;
    loop
        invariant
            search_from(input, toks, start as int) == search_from(input, toks, 0),
            start <= input.len(),
            input == input_bytes@,
        decreases input.len() - start,
    {
        let (is_match, _) = match match_tokens_at(input_bytes, start, pattern_tokens) {
            Ok(r) => r,
            Err(e) => {
                return Err(e);
            },
        };
        if is_match {
            return Ok(true);
        }
        if start == input_bytes.len() {
            assert(search_from(input, toks, start + 1) == Ok::<bool, usize>(false));
            return Ok(false);
        }
        start += 1;
    }
}

#[verifier::loop_isolation(false)]
/// Matches the pattern at successive positions of `input_line`, collecting the
/// non-empty matches from left to right without overlap.
pub fn match_all_patterns(input_line: &str, pattern_tokens: &[PatternToken]) -> (result: Result<
    PatternMatches,
    PatternError,
>)
    requires
        tokens_wf(pattern_tokens@),
        input_line.spec_bytes().len() < usize::MAX,
    ensures
        match scan_matches(input_line.spec_bytes(), pattern_tokens@, 0, false) {
            Ok((h, ranges)) => result matches Ok(m) && m.has_match == h && m.ranges@ == ranges,
            Err(n) => result == Err::<PatternMatches, PatternError>(PatternError::InvalidBackreference(n)),
        },
        result matches Ok(m) ==> {
            &&& ranges_are_matches(input_line.spec_bytes(), pattern_tokens@, m.ranges@, 0)
            &&& m.ranges@.len() > 0 ==> m.has_match
        },
{
    let input_bytes = input_line.as_bytes();
    let ghost input = input_bytes@;
    let ghost toks = pattern_tokens@;
    proof {
        lemma_scan_ranges(input, toks, 0, false);
    }
    let ghost scan0 = scan_matches(input, toks, 0, false);
    let mut start: usize = 0;
    let mut has_match = false;
    let mut ranges: Vec<(usize, usize)> = Vec::new();
    assert(with_prefix(ranges@, scan0) =~~= scan0) by {
        assert(ranges@ =~= Seq::<(usize, usize)>::empty());
        if let Ok((h, rs)) = scan0 {
            assert(ranges@ + rs =~= rs);
        }
    }
    while start <= input_bytes.len()
        invariant
            with_prefix(ranges@, scan_matches(input, toks, start as int, has_match)) == scan0,
            start <= input.len() + 1,
            input == input_bytes@,
        decreases input.len() + 1 - start,
    {
        let (is_match, end) = match match_tokens_at(input_bytes, start, pattern_tokens) {
            Ok(r) => r,
            Err(e) => {
                return Err(e);
            },
        };
        has_match = has_match || is_match;
        if !is_match || end <= start {
            start += 1;
            continue;
        }
        let ghost before = ranges@;
        ranges.push((start, end));
        proof {
            if let Ok((h, rs)) = scan_matches(input, toks, end as int, has_match) {
                assert(before + (seq![(start, end)] + rs) =~= ranges@ + rs);
            }
        }
        start = end;
    }
    proof {
        if let Ok((h, rs)) = scan_matches(input, toks, start as int, has_match) {
            assert(ranges@ + rs =~= ranges@);
        }
    }
    Ok(PatternMatches { has_match, ranges })
}


/// The mathematical model of a pattern token: its character groups and
/// alternatives as sequences.
pub ghost enum Tok {
    Literal(char),
    Digit,
    WordChar,
    Wildcard,
    Group(Seq<char>),
    NegatedGroup(Seq<char>),
    Start,
    End,
    Repeat(usize, usize, Box<Tok>),
    Alt(Seq<Seq<Tok>>),
    Backref(usize),
}

/// The model of a token.
pub open spec fn token_view(t: PatternToken) -> Tok
    decreases t,
{
    match t {
        PatternToken::Literal(c) => Tok::Literal(c),
        PatternToken::Digit => Tok::Digit,
        PatternToken::WordChar => Tok::WordChar,
        PatternToken::Wildcard => Tok::Wildcard,
        PatternToken::CharacterGroup(chars) => Tok::Group(chars@),
        PatternToken::NegatedCharacterGroup(chars) => Tok::NegatedGroup(chars@),
        PatternToken::StartAnchor => Tok::Start,
        PatternToken::EndAnchor => Tok::End,
        PatternToken::Quantifier { min, max, inner } => Tok::Repeat(min, max, Box::new(token_view(*inner))),
        PatternToken::Alternation(alts) => Tok::Alt(alts_view(alts@)),
        PatternToken::Backreference(n) => Tok::Backref(n),
    }
}

/// The model of a token sequence.
pub open spec fn tokens_view(s: Seq<PatternToken>) -> Seq<Tok>
    decreases s,
{
    if s.len() == 0 {
        Seq::empty()
    } else {
        tokens_view(s.subrange(0, s.len() - 1)).push(token_view(s[s.len() - 1]))
    }
}

/// The model of a list of alternatives.
pub open spec fn alts_view(a: Seq<Vec<PatternToken>>) -> Seq<Seq<Tok>>
    decreases a,
{
    if a.len() == 0 {
        Seq::empty()
    } else {
        alts_view(a.subrange(0, a.len() - 1)).push(tokens_view(a[a.len() - 1]@))
    }
}

/// The model of a sequence has one entry per token, each the model of its token.
pub proof fn lemma_tokens_view_index(s: Seq<PatternToken>)
    ensures
        tokens_view(s).len() == s.len(),
        forall|i: int| 0 <= i < s.len() ==> #[trigger] tokens_view(s)[i] == token_view(s[i]),
    decreases s.len(),
{
    if s.len() > 0 {
        let init = s.subrange(0, s.len() - 1);
        lemma_tokens_view_index(init);
        assert forall|i: int| 0 <= i < s.len() implies #[trigger] tokens_view(s)[i] == token_view(s[i]) by {
            if i < s.len() - 1 {
                assert(init[i] == s[i]);
            }
        }
    }
}

/// Well-formedness of a sequence is that of each of its tokens.
pub proof fn lemma_tokens_wf_iff(s: Seq<PatternToken>)
    ensures
        tokens_wf(s) <==> forall|i: int| 0 <= i < s.len() ==> #[trigger] token_wf(s[i]),
    decreases s.len(),
{
    if s.len() > 0 {
        let tail = s.subrange(1, s.len() as int);
        lemma_tokens_wf_iff(tail);
        if forall|i: int| 0 <= i < s.len() ==> #[trigger] token_wf(s[i]) {
            assert forall|i: int| 0 <= i < tail.len() implies #[trigger] token_wf(tail[i]) by {
                assert(tail[i] == s[i + 1]);
            }
            assert(token_wf(s[0]));
        }
        if tokens_wf(s) {
            assert forall|i: int| 0 <= i < s.len() implies #[trigger] token_wf(s[i]) by {
                if i > 0 {
                    assert(tail[i - 1] == s[i]);
                }
            }
        }
    }
}

/// Well-formedness of a list of alternatives is that of each alternative.
pub proof fn lemma_alts_wf_iff(a: Seq<Vec<PatternToken>>)
    ensures
        alts_wf(a) <==> forall|k: int| 0 <= k < a.len() ==> #[trigger] tokens_wf(a[k]@),
    decreases a.len(),
{
    if a.len() > 0 {
        let tail = a.subrange(1, a.len() as int);
        lemma_alts_wf_iff(tail);
        if forall|k: int| 0 <= k < a.len() ==> #[trigger] tokens_wf(a[k]@) {
            assert forall|k: int| 0 <= k < tail.len() implies #[trigger] tokens_wf(tail[k]@) by {
                assert(tail[k] == a[k + 1]);
            }
            assert(tokens_wf(a[0]@));
        }
        if alts_wf(a) {
            assert forall|k: int| 0 <= k < a.len() implies #[trigger] tokens_wf(a[k]@) by {
                if k > 0 {
                    assert(tail[k - 1] == a[k]);
                }
            }
        }
    }
}

/// Each token is no larger than the whole sequence.
proof fn lemma_tokens_size_member(s: Seq<PatternToken>, i: int)
    requires
        0 <= i < s.len(),
    ensures
        token_size(s[i]) <= tokens_size(s),
    decreases i,
{
    if i > 0 {
        let tail = s.subrange(1, s.len() as int);
        assert(tail[i - 1] == s[i]);
        lemma_tokens_size_member(tail, i - 1);
    }
}

/// A copy of a token.
fn clone_token(t: &PatternToken) -> (r: PatternToken)
    ensures
        token_view(r) == token_view(*t),
    decreases token_size(*t), 0int,
{
    match t {
        PatternToken::Literal(c) => PatternToken::Literal(*c),
        PatternToken::Digit => PatternToken::Digit,
        PatternToken::WordChar => PatternToken::WordChar,
        PatternToken::Wildcard => PatternToken::Wildcard,
        PatternToken::CharacterGroup(chars) => PatternToken::CharacterGroup(clone_chars(chars)),
        PatternToken::NegatedCharacterGroup(chars) => PatternToken::NegatedCharacterGroup(clone_chars(chars)),
        PatternToken::StartAnchor => PatternToken::StartAnchor,
        PatternToken::EndAnchor => PatternToken::EndAnchor,
        PatternToken::Quantifier { min, max, inner } => PatternToken::Quantifier {
            min: *min,
            max: *max,
            inner: Box::new(clone_token(&**inner)),
        },
        PatternToken::Alternation(alts) => PatternToken::Alternation(clone_alts(alts)),
        PatternToken::Backreference(n) => PatternToken::Backreference(*n),
    }
}

/// A copy of a list of characters.
fn clone_chars(chars: &Vec<char>) -> (r: Vec<char>)
    ensures
        r@ == chars@,
{
    let mut r: Vec<char> = Vec::new();
    let mut i: usize = 0;
    while i < chars.len()
        invariant
            i <= chars@.len(),
            r@ == chars@.subrange(0, i as int),
        decreases chars@.len() - i,
    {
        r.push(chars[i]);
        assert(chars@.subrange(0, i + 1) =~= chars@.subrange(0, i as int).push(chars@[i as int]));
        i += 1;
    }
    assert(chars@.subrange(0, i as int) =~= chars@);
    r
}

/// A copy of a token sequence.
fn clone_tokens(v: &Vec<PatternToken>) -> (r: Vec<PatternToken>)
    ensures
        tokens_view(r@) == tokens_view(v@),
    decreases tokens_size(v@), 1int,
{
    let mut r: Vec<PatternToken> = Vec::new();
    let mut i: usize = 0;
    assert(tokens_view(r@) =~= tokens_view(v@.subrange(0, 0)));
    while i < v.len()
        invariant
            i <= v@.len(),
            tokens_view(r@) == tokens_view(v@.subrange(0, i as int)),
        decreases v@.len() - i,
    {
        proof {
            lemma_tokens_size_member(v@, i as int);
        }
        let t = clone_token(&v[i]);
        let ghost before = r@;
        r.push(t);
        proof {
            let next = v@.subrange(0, i + 1);
            assert(r@.subrange(0, before.len() as int) =~= before);
            assert(next.subrange(0, i as int) =~= v@.subrange(0, i as int));
        }
        i += 1;
    }
    assert(v@.subrange(0, i as int) =~= v@);
    r
}

/// A copy of a list of alternatives.
fn clone_alts(alts: &Vec<Vec<PatternToken>>) -> (r: Vec<Vec<PatternToken>>)
    ensures
        alts_view(r@) == alts_view(alts@),
    decreases alts_size(alts@), 2int,
{
    let mut r: Vec<Vec<PatternToken>> = Vec::new();
    let mut k: usize = 0;
    assert(alts_view(r@) =~= alts_view(alts@.subrange(0, 0)));
    while k < alts.len()
        invariant
            k <= alts@.len(),
            alts_view(r@) == alts_view(alts@.subrange(0, k as int)),
        decreases alts@.len() - k,
    {
        proof {
            lemma_alts_size_member(alts@, k as int);
        }
        let v = clone_tokens(&alts[k]);
        let ghost before = r@;
        r.push(v);
        proof {
            let next = alts@.subrange(0, k + 1);
            assert(r@.subrange(0, before.len() as int) =~= before);
            assert(next.subrange(0, k as int) =~= alts@.subrange(0, k as int));
        }
        k += 1;
    }
    assert(alts@.subrange(0, k as int) =~= alts@);
    r
}

impl Clone for PatternToken {
    /// A copy of the token, with the same model.
    fn clone(&self) -> (r: Self)
        ensures
            token_view(r) == token_view(*self),
    {
        clone_token(self)
    }
}


/// A parsed pattern, ready to be matched against lines.
pub struct CompiledPattern {
    pub tokens: Vec<PatternToken>,
}

impl CompiledPattern {
    /// Compiles a pattern text (see `parse_pattern`).
    pub fn parse(pattern_text: &str) -> (r: Result<CompiledPattern, PatternError>)
        ensures
            match pattern_spec(pattern_text.spec_bytes()) {
                Err(e) => r == Err::<CompiledPattern, PatternError>(e),
                Ok(ts) => r matches Ok(cp) && tokens_view(cp.tokens@) == ts && tokens_wf(cp.tokens@),
            },
    {
        parse_pattern(pattern_text)
    }

    /// Whether the pattern matches somewhere in `input_line` (see `match_pattern`).
    pub fn match_pattern(&self, input_line: &str) -> (result: Result<bool, PatternError>)
        requires
            tokens_wf(self.tokens@),
        ensures
            match search_from(input_line.spec_bytes(), self.tokens@, 0) {
                Ok(b) => result == Ok::<bool, PatternError>(b),
                Err(n) => result == Err::<bool, PatternError>(PatternError::InvalidBackreference(n)),
            },
    {
        match_pattern(input_line, self.tokens.as_slice())
    }

    /// The matches of the pattern in `input_line` (see `match_all_patterns`).
    pub fn match_all_patterns(&self, input_line: &str) -> (result: Result<PatternMatches, PatternError>)
        requires
            tokens_wf(self.tokens@),
            input_line.spec_bytes().len() < usize::MAX,
        ensures
            match scan_matches(input_line.spec_bytes(), self.tokens@, 0, false) {
                Ok((h, ranges)) => result matches Ok(m) && m.has_match == h && m.ranges@ == ranges,
                Err(n) => result == Err::<PatternMatches, PatternError>(PatternError::InvalidBackreference(n)),
            },
            result matches Ok(m) ==> {
                &&& ranges_are_matches(input_line.spec_bytes(), self.tokens@, m.ranges@, 0)
                &&& m.ranges@.len() > 0 ==> m.has_match
            },
    {
        match_all_patterns(input_line, self.tokens.as_slice())
    }
}

} // verus!
