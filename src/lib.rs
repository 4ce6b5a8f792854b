//! A table-driven LALR(1) parser engine.
//!
//! A compiled grammar (an Enhanced Grammar Table) is decoded from bytes into
//! typed tables; a DFA tokenizer and an LALR(1) driver then turn a source text
//! into a stream of parse events and, on acceptance, a reduction tree.
pub mod assemble;
pub mod builder;
pub mod charset;
pub mod egt;
pub mod gold;
pub mod group;
pub mod parser;
pub mod position;
pub mod production;
pub mod records;
pub mod source;
pub mod stack;
pub mod states;
pub mod symbol;
pub mod tables;
pub mod text;
pub mod token;
pub mod tokenizer;
pub mod tree;

pub use gold::GOLDParser;
pub use parser::Parser;
