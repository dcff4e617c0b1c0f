//! A memory-safe XML 1.0 parser: tokeniser, well-formedness checker and
//! bounded entity expansion, with the behaviour of each layer stated in its
//! contracts and proved.
pub mod boundary;
pub mod carry;
pub mod entities;
pub mod error;
pub mod event;
pub mod grammar;
pub mod laws;
pub mod lexer;
pub mod parser;
pub mod reading;
pub mod stream;
pub mod text;
pub mod token;

pub use entities::{EntityTable, ExpansionLimits};
pub use error::{Position, Result, XmlError};
pub use event::Event;
pub use lexer::Lexer;
pub use parser::Parser;
pub use token::{Attr, Token, XmlDecl};
