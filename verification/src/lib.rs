//! A verified pipeline for the eight-symbol tape language: a lexer, a
//! parser, an optimizer and a step-by-step interpreter, each with a contract
//! that Verus proves.
//!
//! The crate root holds the pipeline over nested statements, in which a
//! loop owns its body, and a tape machine whose head must stay on the tape.
//! The module [`brainfuck`] holds the same pipeline over flat statements, in
//! which a loop is a jump back, and a tape machine whose behaviour at the
//! margins is chosen at construction.
//!
//! Reading and writing characters is left to the host: an interpreter
//! executes one statement per call and says what the host has to do next.
//! The module [`semantics`] states what a program means and proves that the
//! optimizer keeps that meaning and that the interpreter carries it out.

pub mod brainfuck;
pub mod code;
pub mod fusion;
pub mod grammar;
pub mod interpreter;
pub mod lexer;
pub mod machine;
pub mod nesting;
pub mod optimizer;
pub mod parser;
pub mod semantics;
pub mod statement;
pub mod token;

pub use code::Code;
pub use interpreter::{Action, Interpreter};
pub use lexer::Lexer;
pub use machine::BrainfuckMachine;
pub use optimizer::Optimizer;
pub use parser::{ParseError, Parser};
pub use statement::Statement;
pub use token::Token;
