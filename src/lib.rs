//! Lexical analysis for the Risl language: byte-offset spans, a character
//! cursor, the token model and the lexer with the grammar it follows, an
//! earlier eager tokenizer, and the command-line argument parser of the
//! interpreter.
pub mod span;
pub mod text;
pub mod chars;
pub mod cursor;
pub mod emitter;
pub mod diagnostic;
pub mod context;
pub mod token;
pub mod grammar;
pub mod lexer;
pub mod cli_error;
pub mod args;
pub mod tokenizer;
