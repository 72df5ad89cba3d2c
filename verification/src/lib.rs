//! A small interpreter for a dynamically-typed, prototype-based scripting
//! language in the JavaScript family: a lexer that turns bytes into tokens,
//! and a tree-walking evaluator that runs expression trees against a mutable
//! global object and a stack of lexical scopes.
pub mod dbl;
pub mod token;
pub mod value;
pub mod object;
pub mod ast;
pub mod exec;
pub mod lexer;
