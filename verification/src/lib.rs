//! The core of a small, line-oriented scripting language: a decomposer that
//! turns raw text lines into typed items, a pluggable lexing-specification
//! registry that canonicalizes them, and an evaluator with an environment
//! stack and a mark-sweep garbage collector over a heap of tables.

use vstd::prelude::*;

pub mod environment;
pub mod errors;
pub mod lexer;
pub mod lexing_specification;
pub mod line;
pub mod table;
pub mod text;
pub mod value;
pub mod vm;
