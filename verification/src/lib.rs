//! A front end for a small regular-expression language: a recursive-descent
//! parser producing a syntax tree, a Thompson construction lowering the tree
//! to an epsilon-NFA, and a textual export of the automaton as a directed
//! graph.

pub mod ast;
pub mod builder;
pub mod canonical;
pub mod dot;
pub mod grammar;
pub mod grouping;
pub mod input;
pub mod model;
pub mod nfa;
pub mod parser;
pub mod roundtrip;
pub mod text;
pub mod thompson;
pub mod traversal;
