//! Type inference for a schema and query language: constraint cells unified by
//! union-find, a lattice of types with structural unification, and the scope chain that
//! resolves column names in nested SQL queries.
pub mod ast;
pub mod cell_laws;
pub mod error;
pub mod inference;
pub mod scope;
pub mod sql;
pub mod types;
