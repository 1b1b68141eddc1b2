//! A small Lisp front end and evaluator: a lexer, a parser that builds
//! S-expression trees, and a tree-walking evaluator over one flat environment.
//!
//! Data flows one way: `lex` turns text into tokens, `parse` turns tokens
//! into trees, and `eval` runs the trees in order. Each stage is specified
//! by a spec function over a mathematical model of its input and output, and
//! each executable stage is proved to compute exactly that.
//!
//! Beside the interpreter stand smaller verified pieces: text parser
//! combinators, a relaxed JSON reader, a scanner for a C-like language, a
//! text splitter, two counters, a rectangle, a linked list and a binary
//! search tree.
use vstd::prelude::*;

pub mod ast;
pub mod text;
pub mod lexer;
pub mod parser;
pub mod evaluator;
pub mod combinators;
pub mod counters;
pub mod shapes;
pub mod splitter;
pub mod json;
pub mod scanner;
pub mod linked_list;
pub mod search_tree;

pub use ast::{CompilerError, SExpression};
pub use evaluator::eval;
pub use lexer::{lex, Literal, Token};
pub use parser::parse;

verus! {

} // verus!
