//! A JSON front end: a lexer that turns source text into line-numbered
//! tokens, a recursive-descent parser that builds a value tree from them,
//! and an s-expression printer for that tree.
pub mod text;
pub mod lexer;
pub mod parser;
