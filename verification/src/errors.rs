//! The closed error taxonomy: schema faults, structural-consistency faults,
//! and the top-level operation errors that every fallible request returns.
//! Errors are plain data; nothing here panics or carries behaviour.

use vstd::prelude::*;

verus! {

/// Entry-shape violations reported by schema validation.
#[derive(Debug, PartialEq, Eq, Clone)]
pub enum SchemaError {
    NotImplemented,
    InvalidClass,
    MissingMustAttribute(String),
    InvalidAttribute,
    InvalidAttributeSyntax,
    EmptyFilter,
    Corrupted,
}

/// Structural-integrity faults found by a consistency pass.
#[derive(Debug, PartialEq, Eq, Clone)]
pub enum ConsistencyError {
    Unknown,
    // Class, Attribute
    SchemaClassMissingAttribute(String, String),
    QueryServerSearchFailure,
    EntryUuidCorrupt(u64),
    UuidIndexCorrupt(String),
    UuidNotUnique(String),
    RefintNotUpheld(u64),
    MemberOfInvalid(u64),
    InvalidAttributeType(&'static str),
    DuplicateUniqueAttribute(String),
}

/// Request-processing failures: the top layer of the taxonomy.
///
/// `SchemaViolation` wraps a [`SchemaError`]; `ConsistencyError` carries the
/// per-check results of a whole consistency pass, so one pass can report
/// several simultaneous faults.
#[derive(Debug, PartialEq, Eq, Clone)]
pub enum OperationError {
    EmptyRequest,
    Backend,
    NoMatchingEntries,
    CorruptedEntry(u64),
    ConsistencyError(Vec<Result<(), ConsistencyError>>),
    SchemaViolation(SchemaError),
    Plugin,
    FilterGeneration,
    FilterUUIDResolution,
    InvalidAttributeName(String),
    InvalidAttribute(&'static str),
    InvalidDBState,
    InvalidEntryID,
    InvalidRequestState,
    InvalidState,
    InvalidEntryState,
    InvalidUuid,
    InvalidACPState(&'static str),
    InvalidSchemaState(&'static str),
    InvalidAccountState(&'static str),
    BackendEngine,
    SQLiteError,
    FsError,
    SerdeJsonError,
    SerdeCborError,
    AccessDenied,
    NotAuthenticated,
    InvalidAuthState(&'static str),
    InvalidSessionState,
    SystemProtectedObject,
}

/// Wraps a schema fault as an operation failure; the only sanctioned
/// conversion between the two layers.
pub fn schema_violation(e: SchemaError) -> (r: OperationError)
    ensures
        r == OperationError::SchemaViolation(e),
{
    OperationError::SchemaViolation(e)
}

/// Wraps the results of a consistency pass as an operation failure.
pub fn consistency_failure(rs: Vec<Result<(), ConsistencyError>>) -> (r: OperationError)
    ensures
        r == OperationError::ConsistencyError(rs),
{
    OperationError::ConsistencyError(rs)
}

} // verus!
