//! A small compiler back end for a straight-line, SSA-like intermediate
//! representation: a lexer for its token alphabet, a recursive descent
//! parser, a scope-tracking type checker, and a Chaitin-style register
//! allocator that builds an interference graph from liveness information
//! and colors it with the smallest number of registers it can find.

pub mod ir_lexer;
pub mod ir_parser;
pub mod ir_typechecker;
pub mod rig_graph;
pub mod ir_reg_allocer;
