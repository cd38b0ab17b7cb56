//! Scope-hoisting core of a module bundler.
//!
//! Given a resolved module dependency graph and a chunk assignment, this
//! library decides which modules can be concatenated into a single merged
//! module without changing observable behaviour, and rewires the graph
//! accordingly.  The search phase (eligibility classification, per-module
//! fact cache, backtracking configuration builder, root scheduler) only
//! reads the graph; all mutation happens in the integration phase, which
//! applies the accepted configurations in descending size order.

pub mod builder;
pub mod chunks;
pub mod classify;
pub mod codegen;
pub mod content;
pub mod config;
pub mod deps;
pub mod facts;
pub mod integrate;
pub mod laws;
pub mod pass;
pub mod graph;
pub mod runtime;
pub mod seq_util;
pub mod text;
