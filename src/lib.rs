//! A lexical scanner for a small SQL dialect: it turns source text into
//! classified tokens with their line and column.

pub mod error;
pub mod laws;
pub mod lexer;
pub mod position;
pub mod scan;
pub mod text;
pub mod token;

pub use error::LexError;
pub use lexer::lex;
pub use position::{Cursor, Location};
pub use scan::{lex_character_delimited, lex_identifier, lex_keyword, lex_numeric, lex_string, lex_symbol};
pub use token::{Keyword, Symbol, Token, TokenKind};
