//! Error taxonomy. Every failure is surfaced as an explicit result value;
//! the core never terminates the process.

use vstd::prelude::*;

verus! {

/// The backend could not be reached or refused the credentials.
#[derive(Debug)]
pub enum ConnectError {
    /// The connection string was empty.
    EmptyName,
}

/// A builder was invoked without a required stage, or a referenced column is
/// absent from the descriptor.
#[derive(Debug)]
pub enum ValidationError {
    /// SELECT was built without a `from` stage.
    MissingFrom,
    /// UPDATE was built without a `set` stage.
    MissingSet,
    /// A condition or column list referenced a column the descriptor lacks.
    UnknownColumn(String),
    /// An entity's value count does not match its descriptor's column count.
    ArityMismatch,
    /// An INSERT batch mixed entities of different descriptors.
    MixedDescriptors,
    /// An INSERT batch held no entity at all.
    NoRows,
}

/// The backend rejected or failed a statement.
#[derive(Debug)]
pub enum ExecError {
    /// The named table does not exist.
    NoSuchTable(String),
    /// The named table cannot take another row.
    TableFull(String),
}

/// Creating tables at bootstrap failed.
#[derive(Debug)]
pub enum SchemaError {
    /// A descriptor is not well-formed.
    BadDescriptor(String),
    /// A table of this name already exists.
    DuplicateTable(String),
}

/// A failure while recording migration state.
#[derive(Debug)]
pub enum MigrationError {
    /// The version is not the next pending unit, so it cannot be applied.
    NotPending(u64),
    /// The version is not the most recently applied unit, so it cannot be
    /// rolled back.
    NotLastApplied(u64),
    /// No version stamp above the latest one can be allocated.
    VersionExhausted,
}

/// What `build` reports: a validation failure or an execution failure.
#[derive(Debug)]
pub enum QueryError {
    Validation(ValidationError),
    Exec(ExecError),
}

} // verus!
