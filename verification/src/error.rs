//! What is reported when an invocation cannot be read or expanded.

use crate::token::Position;
use vstd::prelude::*;
use vstd::string::StringExecFns;

verus! {

/// The ways in which an invocation can be refused.
#[derive(Clone, Copy, Debug, PartialEq, Eq, Structural)]
pub enum ErrorKind {
    /// The invocation does not begin with the name of the loop variable.
    ExpectedIdent,
    /// The keyword `in` does not follow the loop variable.
    ExpectedIn,
    /// A bound of the range is not an integer literal that fits 64 bits.
    InvalidBound,
    /// The two bounds are not separated by `..`.
    ExpectedDotDot,
    /// The body in braces is missing.
    ExpectedBraces,
    /// Something follows the body.
    UnexpectedToken,
    /// Groups are nested deeper than [`MAX_DEPTH`](crate::expand::MAX_DEPTH).
    NestingTooDeep,
}

impl ErrorKind {
    /// The message that goes with this kind of error.
    pub open spec fn text(self) -> Seq<char> {
        match self {
            ErrorKind::ExpectedIdent => "expected identifier"@,
            ErrorKind::ExpectedIn => "expected `in`"@,
            ErrorKind::InvalidBound => "expected integer literal"@,
            ErrorKind::ExpectedDotDot => "expected `..`"@,
            ErrorKind::ExpectedBraces => "expected curly braces"@,
            ErrorKind::UnexpectedToken => "unexpected token"@,
            ErrorKind::NestingTooDeep => "token groups are nested too deeply"@,
        }
    }

    /// The message that goes with this kind of error.
    pub fn message(self) -> (r: String)
        ensures
            r@ == self.text(),
    {
        match self {
            ErrorKind::ExpectedIdent => String::from_str("expected identifier"),
            ErrorKind::ExpectedIn => String::from_str("expected `in`"),
            ErrorKind::InvalidBound => String::from_str("expected integer literal"),
            ErrorKind::ExpectedDotDot => String::from_str("expected `..`"),
            ErrorKind::ExpectedBraces => String::from_str("expected curly braces"),
            ErrorKind::UnexpectedToken => String::from_str("unexpected token"),
            ErrorKind::NestingTooDeep => String::from_str("token groups are nested too deeply"),
        }
    }
}

/// An error, with the position of the token that caused it.
#[derive(Clone, Debug, PartialEq, Eq)]
pub struct Error {
    /// What is wrong.
    pub kind: ErrorKind,
    /// The same in words: the message of the kind.
    pub message: String,
    /// Where the offending token begins.
    pub pos: Position,
}

/// The mathematical value of an [`Error`].
pub struct Fault {
    /// What is wrong.
    pub kind: ErrorKind,
    /// The same in words.
    pub message: Seq<char>,
    /// Where the offending token begins.
    pub pos: Position,
}

impl View for Error {
    type V = Fault;

    open spec fn view(&self) -> Fault {
        Fault { kind: self.kind, message: self.message@, pos: self.pos }
    }
}

/// The error of the given kind at the given position, with the message of its kind.
pub open spec fn fault(kind: ErrorKind, pos: Position) -> Fault {
    Fault { kind, message: kind.text(), pos }
}

impl Error {
    /// The error of the given kind at the given position.
    pub fn new(kind: ErrorKind, pos: Position) -> (r: Error)
        ensures
            r@ == fault(kind, pos),
    {
        Error { kind, message: kind.message(), pos }
    }
}

} // verus!
