//! A small SQL-flavored query language over CSV row data:
//! `SELECT <cols> FROM <file> [WHERE <expr>] [LIMIT n]`.
//!
//! The pipeline is strictly linear — tokenizer, recursive-descent parser,
//! semantic validator, row-by-row executor — and every stage is specified
//! and verified.  The crate never touches the filesystem: callers hand the
//! validator and the executor the table file's bytes, and the `csv` crate
//! decodes them behind one trusted wrapper.

pub mod token;
pub mod lexer;
pub mod ast;
pub mod parser;
pub mod num;
pub mod columns;
pub mod rows;
pub mod semantic;
pub mod engine;
pub mod ir;
pub mod dfa;
pub mod roundtrip;
