//! Delta-join rendering core of a streaming relational dataflow engine.
//!
//! Given a multi-way equi-join between N continuously updating input
//! relations, the crate translates a declarative join description (inputs,
//! equivalence classes of expressions, per-input traversal orders, residual
//! predicates) into a network of delta streams whose union is the join's
//! changelog, together with a verified model of how those streams evaluate
//! finite batches of updates.

pub mod display;
pub mod eval;
pub mod expr;
pub mod filter;
pub mod find;
pub mod mapper;
pub mod render;
pub mod row;
