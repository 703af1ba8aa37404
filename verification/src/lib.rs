//! A verified execution core for a typed, graph-shaped query language.
//!
//! Given an already-parsed selection tree and a typed object graph, the
//! library walks the selections in declaration order, materializes field
//! arguments with schema defaults, evaluates inclusion directives, dispatches
//! to field resolvers, merges the results into one ordered response object,
//! and propagates `Null` upward when a non-nullable field fails, isolating
//! other field errors.

pub mod arguments;
pub mod ast;
pub mod executor;
pub mod input;
pub mod keyed;
pub mod meta;
pub mod resolve;
pub mod value;
