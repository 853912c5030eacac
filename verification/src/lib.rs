//! A parametric, context-sensitive, stochastic L-system derivation engine.
//!
//! The engine rewrites a branching symbol sequence (a bracketed string with
//! explicit branch markers) for a fixed number of generations, choosing among
//! weighted rewrite rules whose left/right contexts and guard conditions are
//! matched against the current sequence, and finally translates the last
//! generation through a separate table of coding rules.

pub mod ast;
pub mod node;
pub mod values;
pub mod derivator;
pub mod eval;
pub mod lexer;
pub mod lsystem;
pub mod rng;
pub mod tree;
