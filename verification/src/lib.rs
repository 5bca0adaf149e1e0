//! A lexer and a grammar-driven parser for a small indentation-sensitive
//! language.
//!
//! * [`advancer`]: a backtracking cursor over a slice;
//! * [`tokenize`]: characters to tokens, with their spans and positions;
//! * [`indentation`]: the width of one level of indentation, estimated from
//!   the leading spaces of the lines;
//! * [`grammar`]: grammar rules compiled into a flat program of steps;
//! * [`nesting`]: the nested form of a grammar, and its relation to the flat
//!   one;
//! * [`semantics`]: what a program matches, as a mathematical function;
//! * [`nested`]: what a nested grammar matches, and that its program
//!   matches the same;
//! * [`interpreter`]: the stack machine that computes it without recursion;
//! * [`laws`]: what holds of every parse;
//! * [`limit`]: that the room given to a parse cuts no parse that ends.
pub mod advancer;
pub mod grammar;
pub mod indentation;
pub mod interpreter;
pub mod laws;
pub mod limit;
pub mod nested;
pub mod nesting;
pub mod semantics;
pub mod tokenize;
