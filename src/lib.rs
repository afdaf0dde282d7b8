//! Craftability of item/recipe systems: a small declaration language, a
//! bipartite dependency graph, the integer state equation handed to an SMT
//! solver, and the reconstruction of a stock-safe firing plan.

pub mod error;
pub mod system;
pub mod decl;
pub mod model;
pub mod plan;
pub mod equation;
pub mod graph;
pub mod lexer;
pub mod parser;
pub mod load;
pub mod oracle;
