//! A small ahead-of-time compiler front end for an imperative language of
//! integers, booleans, functions, variables and conditionals.
//!
//! Source text is split into tokens, the tokens are parsed into a syntax
//! tree, and the tree is lowered into a control-flow-graph intermediate
//! representation. Every stage is stated against a mathematical model and
//! proved to agree with it.

pub mod ast;
pub mod codegen;
pub mod correct;
pub mod error;
pub mod flow;
pub mod grammar;
pub mod ir;
pub mod laws;
pub mod lower;
pub mod meaning;
pub mod parser;
pub mod scope;
pub mod semantics;
pub mod token;
