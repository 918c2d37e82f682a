//! A verified interpreter for a minimal tape-based esoteric language:
//! an optimizer that shrinks source text, a parser that resolves loop
//! jump targets, and a machine that executes the token stream against a
//! fixed-size wrap-around byte tape.

pub mod token;
mod text;
pub mod optimizer;
pub mod matching;
pub mod parser;
pub mod machine;
pub mod equivalence;
