//! A small interpreter for a whitespace-delimited instruction language.
//!
//! A program is a flat sequence of tokens. The engine reads the token under
//! its program counter, carries out the instruction it names against a
//! machine of registers, named strings and labels, and moves the counter.
//! Every executable function here carries a contract over a mathematical
//! model of the machine, and the contracts are proved.
pub mod interpreter;
pub mod laws;
pub mod machine;
pub mod number;
pub mod program;
pub mod table;
pub mod text;
