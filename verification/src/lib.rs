//! Emmet abbreviation expansion for Phlex templates: a parser for the
//! abbreviation syntax, a renderer to Phlex markup, and the completion logic
//! of the language server, with their contracts proved by Verus.
pub mod types;
pub mod parser;
pub mod text;
pub mod rendering;
pub mod lsp;
pub mod utils;
pub mod grammar_laws;
