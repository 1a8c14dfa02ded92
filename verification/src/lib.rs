//! A relational query-builder and schema-migration library.
//!
//! Schemas and queries are described as typed, composable values instead of
//! raw SQL strings: a [`schema::TableDescriptor`] names a table and its
//! columns, a [`condition::Condition`] is a typed predicate tree, and the
//! builders in [`query`] assemble SELECT / INSERT / UPDATE / DROP statements
//! over them. The condition engine lowers predicates to parameterized SQL in
//! a chosen placeholder dialect, keeping every literal out of the SQL text.
//! The [`backend`] module provides the uniform adapter contract together with
//! an in-memory adapter whose execution semantics are fully specified, and
//! [`migration`] versions, orders, applies and reverts schema-change scripts.

pub mod backend;
pub mod condition;
pub mod error;
pub mod migration;
pub mod query;
pub mod schema;
pub mod text;
pub mod value;
