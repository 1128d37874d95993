//! The pipeline over flat statements: a loop is a jump back to its first
//! statement, and the tape machine wraps or stops at the margins of the tape
//! and of a cell, as chosen at construction.

pub mod executor;
pub mod flatten;
pub mod machine;
pub mod parser;

pub use crate::lexer::Lexer;
pub use crate::token::Token;
pub use executor::{Action, Executor};
pub use machine::BrainfuckMachine;
pub use parser::{Parser, Statement};
