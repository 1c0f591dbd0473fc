//! Source-text tokenization and position-tracking slicing, with a layout-aware comment extractor.

pub mod combinators;
pub mod comment;
pub mod config;
pub mod context;
pub mod error;
pub mod kind;
pub mod lex;
pub mod lex_error;
pub mod lexeme;
pub mod lexer;
pub mod mark;
pub mod parse;
pub mod render;
pub mod text;
pub mod token;

pub use config::{CommentConfig, Config};
pub use context::{Context, ParseContext};
pub use error::{Error, ParseResult};
pub use kind::Kind;
pub use lex::Lex;
pub use lex_error::{LexError, LexResult};
pub use lexeme::Lexeme;
pub use lexer::Lexer;
pub use text::TokenView;
pub use token::Token;
