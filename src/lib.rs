//! A verified interpreter for the eight-symbol tape language.
//!
//! The engine is split into three modules: [`tape`] holds the byte cells and
//! the data pointer, [`lexer`] turns program text into instruction symbols and
//! keeps the program cursor, and [`interpreter`] matches loop brackets and
//! dispatches instructions. Reading input and writing output are left to the
//! caller: the interpreter pauses and reports what it needs, and [`input`]
//! reads a cell value from a line of text.
pub mod input;
pub mod interpreter;
pub mod lexer;
pub mod tape;

pub use interpreter::{Action, Error, Interpreter};
pub use lexer::{Lexer, Token};
