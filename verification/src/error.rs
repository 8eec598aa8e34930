//! The ways in which a text can fail to be JSON.
use vstd::prelude::*;

verus! {

/// Why a parse stopped. Every variant but `UnexpectedEof` carries a character
/// offset into the input (counted in `char`s, from zero); `UnexpectedEof` is
/// always detected at the end of the input.
#[derive(Debug, Clone, Copy, PartialEq, Eq)]
pub enum ParseError {
    /// The input ended while a token or a value was still expected.
    UnexpectedEof,
    /// The character `found`, at offset `pos`, cannot stand where it does.
    UnexpectedChar { pos: usize, found: char },
    /// The token `expected` was required at offset `pos`, where another
    /// character stands: the colon after a key; after an element the comma,
    /// where what stands there could start the next element, and else the
    /// closing bracket.
    ExpectedToken { pos: usize, expected: char },
    /// The numeric literal that starts at `pos` breaks the number grammar.
    InvalidNumber { pos: usize },
    /// The escape sequence whose backslash is at `pos` is not a JSON escape,
    /// or is a surrogate without its partner.
    InvalidEscape { pos: usize },
    /// The string whose opening quote is at `pos` is never closed.
    UnterminatedString { pos: usize },
    /// The bracket at `pos` opens a container deeper than the nesting limit.
    NestingTooDeep { pos: usize },
}

impl ParseError {
    /// The offset the error carries, if it carries one.
    pub open spec fn spec_position(&self) -> Option<usize> {
        match *self {
            ParseError::UnexpectedEof => None,
            ParseError::UnexpectedChar { pos, .. } => Some(pos),
            ParseError::ExpectedToken { pos, .. } => Some(pos),
            ParseError::InvalidNumber { pos } => Some(pos),
            ParseError::InvalidEscape { pos } => Some(pos),
            ParseError::UnterminatedString { pos } => Some(pos),
            ParseError::NestingTooDeep { pos } => Some(pos),
        }
    }

    /// The character offset at which the problem lies; `None` for
    /// `UnexpectedEof`, which lies at the end of the input.
    #[verifier::when_used_as_spec(spec_position)]
    pub fn position(&self) -> (r: Option<usize>)
        ensures
            r == self.spec_position(),
    {
        match *self {
            ParseError::UnexpectedEof => None,
            ParseError::UnexpectedChar { pos, .. } => Some(pos),
            ParseError::ExpectedToken { pos, .. } => Some(pos),
            ParseError::InvalidNumber { pos } => Some(pos),
            ParseError::InvalidEscape { pos } => Some(pos),
            ParseError::UnterminatedString { pos } => Some(pos),
            ParseError::NestingTooDeep { pos } => Some(pos),
        }
    }
}

} // verus!
