//! A Brainfuck front end and x86-64 code generator with verified contracts.
pub mod backends;
pub mod brackets;
pub mod interpret;
pub mod jit;
pub mod layout;
pub mod sanitize;
pub mod tokenize;
