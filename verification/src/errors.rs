use vstd::prelude::*;
use crate::token::TerminalCat;

verus! {

/// A parse failure, carrying the byte offset it was found at.
///
/// `EndOfInput` is the lexer running out of bytes while a token was still
/// required; `UnexpectedToken` is a byte sequence matching no lexical rule;
/// `UnexpectedTerminal` is a token the grammar has no continuation for,
/// carrying every terminal category that would have been accepted;
/// `InternalInvariantViolation` is a mismatch of the parser's own stack
/// bookkeeping, never a property of the input.
#[derive(Debug, PartialEq)]
pub enum ParseError {
    EndOfInput(usize),
    UnexpectedToken(usize),
    UnexpectedTerminal { offset: usize, expected: Vec<TerminalCat>, found: TerminalCat },
    InternalInvariantViolation,
}

/// The mathematical model of a [`ParseError`].
pub enum ErrModel {
    EndOfInput(int),
    UnexpectedToken(int),
    UnexpectedTerminal { offset: int, expected: Seq<TerminalCat>, found: TerminalCat },
    InternalInvariantViolation,
}

impl View for ParseError {
    type V = ErrModel;

    open spec fn view(&self) -> ErrModel {
        match self {
            ParseError::EndOfInput(o) => ErrModel::EndOfInput(*o as int),
            ParseError::UnexpectedToken(o) => ErrModel::UnexpectedToken(*o as int),
            ParseError::UnexpectedTerminal { offset, expected, found } => {
                ErrModel::UnexpectedTerminal {
                    offset: *offset as int,
                    expected: expected@,
                    found: *found,
                }
            },
            ParseError::InternalInvariantViolation => ErrModel::InternalInvariantViolation,
        }
    }
}

} // verus!
