//! Front end for Metamath-style proof databases: tokenizing, file inclusion,
//! grouping into syntax productions, and source positions.

pub mod token;
pub mod lexer;
pub mod builder;
pub mod resolver;
pub mod position;
pub mod path;
pub mod theorems;
