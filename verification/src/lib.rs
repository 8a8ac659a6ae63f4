//! A minimal command-line shell core: a tokenizer, a grammar parser that
//! groups tokens into operators and commands, a chain builder that splits the
//! parsed elements at sequencing boundaries, and an evaluator that applies
//! short-circuit control flow to each chain.
//!
//! The core itself never touches the operating system: spawning a process and
//! waiting for its exit status belong to the surrounding program, which drives
//! the evaluator step by step and hands each command's outcome back.

pub mod chain;
pub mod eval;
pub mod grammar;
pub mod token;
