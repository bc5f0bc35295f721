use vstd::prelude::*;

verus! {

/// Why a pattern could not be compiled or matched. Positions are byte offsets into
/// the pattern text.
#[derive(Debug, PartialEq, Eq, Structural)]
pub enum PatternError {
    /// The pattern ends with a lone `\`.
    TrailingBackslash,
    /// `\` is followed by a character that starts no escape sequence.
    UnknownEscape(char),
    /// The digits at `start..end` do not form a number that fits in `usize`.
    InvalidNumber { start: usize, end: usize },
    /// A `[` has no closing `]`.
    UnmatchedBracket,
    /// A quantifier stands where no token precedes it.
    QuantifierWithoutToken,
    /// A `{` has no closing `}`.
    UnmatchedBrace,
    /// The text at `start..end` between `{` and `}` is not a valid repetition range.
    InvalidQuantifier { start: usize, end: usize },
    /// The repetition range at `start..end` has a minimum above its maximum.
    QuantifierMinAboveMax { start: usize, end: usize },
    /// A `(` has no closing `)`.
    UnmatchedParen,
    /// A backreference names a group that has not been captured.
    InvalidBackreference(usize),
}

} // verus!
