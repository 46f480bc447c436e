//! Source-file dependency resolution for C programs, and the data model of a
//! corpus of C and Rust program pairs.

pub mod text;
pub mod resolver;
pub mod schema;
pub mod parser;
pub mod writer;
pub mod cli;
pub mod progress;
