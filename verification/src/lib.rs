//! Type representation and inference core for a language with ownership
//! permissions and generic definitions, together with the lexer and parser
//! front end that feeds it.

pub mod ast;
pub mod check;
pub mod family;
pub mod grammar;
pub mod indices;
pub mod instantiate;
pub mod intern;
pub mod lexer_helpers;
pub mod ops;
pub mod parser;
pub mod pos;
pub mod program;
pub mod quicklex;
pub mod relate;
pub mod tokenizer;
pub mod ty;
pub mod unify;
