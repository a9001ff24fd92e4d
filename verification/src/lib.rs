//! Front end of the Monkey language: a scanner that turns source text into
//! tokens and a precedence-climbing parser that turns tokens into a syntax tree.
//!
//! Every executable function carries a contract over the mathematical view of
//! its arguments.  The scanner is specified by [`lexer::scan`], the parser's
//! productions by the functions of [`grammar`], and the text that
//! reconstructs a tree by [`ast::ExprView::text`].  The modules [`scanning`],
//! [`laws`], [`shape`] and [`roundtrip`] hold what is proved of every source
//! text and of every parse.
pub mod ast;
pub mod fitting;
pub mod grammar;
pub mod identifier;
pub mod laws;
pub mod lexer;
pub mod parser;
pub mod reparse;
pub mod roundtrip;
pub mod scanning;
pub mod shape;
pub mod spelling;
pub mod text;
pub mod token;

pub use ast::{
    BlockStatement, Expr, ExprView, Ident, Infix, Parameters, Precedence, Program, Stmt, StmtView,
};
pub use grammar::{ParserView, PrefixParser};
pub use identifier::TokenBuilder;
pub use lexer::{is_valid_letter, is_valid_number, token_from_identifier, Lexer};
pub use parser::{parse_boolean, parse_identifier, parse_integer, Parser};
pub use token::{Token, TokenKind, TokenType, TokenTypeView, TokenView};
