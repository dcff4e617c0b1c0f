//! Error type and source positions.
use vstd::prelude::*;
use vstd::string::*;
use crate::text::{char_debug_text, debug_char, digits_text, number_text};

verus! {

/// Position in the input. Line and column are 1-based, the byte offset is
/// 0-based.
#[derive(Clone, Copy, Debug, PartialEq, Eq, Structural)]
pub struct Position {
    pub line: u32,
    pub column: u32,
    pub byte_offset: usize,
}

/// The position of the first byte of a document.
pub open spec fn start_position() -> Position {
    Position { line: 1, column: 1, byte_offset: 0 }
}

impl Position {
    /// Line 1, column 1, byte offset 0.
    pub fn start() -> (p: Self)
        ensures
            p == start_position(),
    {
        Position { line: 1, column: 1, byte_offset: 0 }
    }
}

/// Errors reported by the lexer, the parser and the entity expander.
#[non_exhaustive]
#[derive(Debug, Clone, PartialEq, Eq)]
pub enum XmlError {
    /// Malformed XML: not well-formed per XML 1.0 section 2.1.
    NotWellFormed { pos: Position, reason: String },
    /// Input ended in the middle of a construct.
    UnexpectedEof { pos: Position, context: &'static str },
    /// A character that may not stand where it was found.
    InvalidChar { pos: Position, char: char },
    /// Encoding-related error.
    Encoding { pos: Position, reason: String },
}

/// The result of the library's fallible operations.
pub type Result<T> = core::result::Result<T, XmlError>;

/// An error as contracts speak of it: its kind, its position, and the
/// reason, construct or character it carries.
pub enum ErrorKind {
    NotWellFormed(Position, Seq<char>),
    UnexpectedEof(Position, Seq<char>),
    InvalidChar(Position, char),
    Encoding(Position, Seq<char>),
}

impl XmlError {
    /// The error, its strings taken by their characters.
    pub open spec fn kind(&self) -> ErrorKind {
        match self {
            XmlError::NotWellFormed { pos, reason } => ErrorKind::NotWellFormed(*pos, reason@),
            XmlError::UnexpectedEof { pos, context } => ErrorKind::UnexpectedEof(*pos, context@),
            XmlError::InvalidChar { pos, char } => ErrorKind::InvalidChar(*pos, *char),
            XmlError::Encoding { pos, reason } => ErrorKind::Encoding(*pos, reason@),
        }
    }
}

/// How `{:?}` writes a position.
pub open spec fn position_text(p: Position) -> Seq<char> {
    "Position { line: "@ + digits_text(p.line as nat, 10) + ", column: "@ + digits_text(
        p.column as nat,
        10,
    ) + ", byte_offset: "@ + digits_text(p.byte_offset as nat, 10) + " }"@
}

/// The message of an error, as it is displayed.
pub open spec fn message_text(e: XmlError) -> Seq<char> {
    match e {
        XmlError::NotWellFormed { pos, reason } => "not well-formed at "@ + position_text(pos)
            + ": "@ + reason@,
        XmlError::UnexpectedEof { pos, context } => "unexpected end of input at "@ + position_text(
            pos,
        ) + " (in "@ + context@ + ")"@,
        XmlError::InvalidChar { pos, char } => "invalid character "@ + char_debug_text(char)
            + " at "@ + position_text(pos),
        XmlError::Encoding { pos, reason } => "encoding error at "@ + position_text(pos) + ": "@
            + reason@,
    }
}

/// A position written as `{:?}` writes it.
pub fn position_debug(p: Position) -> (s: String)
    ensures
        s@ == position_text(p),
{
    let mut s = String::from_str("Position { line: ");
    s.append(number_text(p.line as u64, 10).as_str());
    s.append(", column: ");
    s.append(number_text(p.column as u64, 10).as_str());
    s.append(", byte_offset: ");
    s.append(number_text(p.byte_offset as u64, 10).as_str());
    s.append(" }");
    s
}

impl XmlError {
    /// The error's message: what the error type displays.
    pub fn message(&self) -> (s: String)
        ensures
            s@ == message_text(*self),
    {
        match self {
            XmlError::NotWellFormed { pos, reason } => {
                let mut s = String::from_str("not well-formed at ");
                s.append(position_debug(*pos).as_str());
                s.append(": ");
                s.append(reason.as_str());
                s
            },
            XmlError::UnexpectedEof { pos, context } => {
                let mut s = String::from_str("unexpected end of input at ");
                s.append(position_debug(*pos).as_str());
                s.append(" (in ");
                s.append(context);
                s.append(")");
                s
            },
            XmlError::InvalidChar { pos, char } => {
                let mut s = String::from_str("invalid character ");
                s.append(debug_char(*char).as_str());
                s.append(" at ");
                s.append(position_debug(*pos).as_str());
                s
            },
            XmlError::Encoding { pos, reason } => {
                let mut s = String::from_str("encoding error at ");
                s.append(position_debug(*pos).as_str());
                s.append(": ");
                s.append(reason.as_str());
                s
            },
        }
    }
}

} // verus!
