// A validating JSON reader: `lexer` turns text into `token`s, `parser`
// checks them by recursive descent and reads a `value` tree. Each executable
// function is proved equal to a spec function of the same module; `laws`
// states the properties that relate them, proved in `round_trip`.
pub mod config;
pub mod error;
pub mod laws;
pub mod lexer;
pub mod literal;
pub mod parser;
pub mod round_trip;
pub mod text;
pub mod token;
pub mod tree;
pub mod value;
