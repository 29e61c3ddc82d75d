//! What can go wrong in the tokenizer, the converter, the evaluator and the
//! binary format, and what the engine asks of its caller.
use vstd::prelude::*;
use crate::number::{Ask, Request};

verus! {

/// What can go wrong.
#[derive(Debug, Clone, Copy, PartialEq, Eq, Structural)]
pub enum Error {
    /// A cell address or a range is malformed, or a column name is not one to
    /// three letters.
    InvalidAddress,
    /// The text holds no number where one is expected, or one that is not finite.
    InvalidNumber,
    /// A string literal does not begin with a double quote.
    MissingQuote,
    /// A string literal has no closing double quote.
    UnterminatedString,
    /// No token begins here.
    UnparsedToken,
    /// A closing bracket without an opening one.
    UnmatchedBracket,
    /// A round bracket closed by a square one, or the reverse.
    BracketMismatch,
    /// A comma that no bracket encloses.
    CommaOutsideBrackets,
    /// An operator or a function found too few operands.
    EmptyStack,
    /// The divisor is zero.
    DivisionByZero,
    /// A formula refers, directly or through other cells, to its own cell.
    RecursionDetected,
    /// The evaluation did not end with exactly one value.
    InvalidExpression,
    /// An operator that the evaluator does not know.
    UnsupportedOperator,
    /// A function that the evaluator does not know.
    UnsupportedFunction,
    /// A function was given no argument.
    MissingArgument,
    /// A range of several cells stands where one value is needed.
    NotScalar,
    /// A value cannot be read as a number.
    NotNumber,
    /// A value cannot be read as text.
    NotText,
    /// Values of these kinds cannot be compared.
    Incomparable,
    /// A referred cell holds an error; the code is that cell's.
    CellError(u16),
    /// The stored data end too early or hold a text that is no UTF-8.
    Truncated,
    /// The stored data are of another version.
    UnsupportedVersion,
    /// A stored count is out of range.
    InvalidCount,
    /// A stored index is out of range.
    InvalidIndex,
    /// A reserved field is not zero.
    ReservedNotZero,
    /// A stored colour tag or colour index is unknown.
    InvalidColor,
    /// A stored alignment tag is unknown.
    InvalidAlign,
    /// The fixed band would leave nothing of the viewport.
    TooManyFixed,
}

/// Why a function that needs numbers stopped: it failed, or the table of
/// numbers lacks an answer, which the caller supplies before it calls again.
#[derive(Debug, Clone, PartialEq, Eq)]
pub enum Stop {
    Failed(Error),
    Unanswered(Request),
}

/// A [`Stop`] as a plain value.
pub enum Halt {
    Failed(Error),
    Unanswered(Ask),
}

impl View for Stop {
    type V = Halt;

    open spec fn view(&self) -> Halt {
        match *self {
            Stop::Failed(e) => Halt::Failed(e),
            Stop::Unanswered(q) => Halt::Unanswered(q@),
        }
    }
}

/// The code of a cell without an error.
pub const ERR_NONE: u16 = 0;

/// The code of an error that is no recursion and no division by zero.
pub const ERR_VALUE: u16 = 1;

/// The code of a circular reference.
pub const ERR_RECURSION: u16 = 2;

/// The code of a division by zero.
pub const ERR_DIVISION: u16 = 3;

/// The code that a cell stores for an error.
pub open spec fn code_of(e: Error) -> u16 {
    match e {
        Error::RecursionDetected => ERR_RECURSION,
        Error::DivisionByZero => ERR_DIVISION,
        Error::CellError(c) => if c == ERR_NONE { ERR_VALUE } else { c },
        _ => ERR_VALUE,
    }
}

impl Error {
    /// The code that a cell stores for this error; never zero.
    pub fn code(&self) -> (r: u16)
        ensures
            r == code_of(*self),
            r != ERR_NONE,
    {
        match self {
            Error::RecursionDetected => ERR_RECURSION,
            Error::DivisionByZero => ERR_DIVISION,
            Error::CellError(c) => if *c == ERR_NONE { ERR_VALUE } else { *c },
            _ => ERR_VALUE,
        }
    }
}

} // verus!
