//! Branch & version store with a structural-model diff engine.
//!
//! A project tracks named branches; each branch holds an ordered history of
//! versions, and each version may carry a generated E2K artifact (a sectioned
//! text export of a structural model).  The library parses E2K text into
//! records, extracts normalized structural members from those records, diffs
//! two record streams (categorized add/remove/modify changes) and two member
//! sets (added/removed/modified ids), and maintains the branch-lineage and
//! latest-version invariants of the store.

use vstd::prelude::*;

pub mod clock;
pub mod strutil;
pub mod e2k;
pub mod e2k_diff;
pub mod geometry;
pub mod store;
pub mod reconcile;

verus! {

/// The kind of an error surfaced by the store and diff operations.
#[derive(Clone, Copy, Debug, PartialEq, Eq, Structural)]
pub enum ErrorKind {
    /// A referenced project, branch, version or artifact does not exist.
    NotFound,
    /// A name or id that must be fresh already exists.
    Conflict,
    /// A request field is malformed (for example an empty branch name).
    InvalidInput,
    /// A filesystem or external-process failure.
    IoFailure,
    /// An artifact could not be decoded as text at all.
    ParseFailure,
}

/// A tagged error: a kind plus a human-readable message.
#[derive(Clone, Debug)]
pub struct StoreError {
    pub kind: ErrorKind,
    pub message: String,
}

impl StoreError {
    pub fn new(kind: ErrorKind, message: String) -> (r: StoreError)
        ensures
            r.kind == kind,
            r.message@ == message@,
    {
        StoreError { kind, message }
    }
}

/// The generic envelope every response to a caller is wrapped in.
/// `error` is present exactly when `success` is false; `data` is present
/// exactly when `success` is true.
#[derive(Clone, Debug)]
pub struct CliResult<T> {
    pub success: bool,
    pub error: Option<String>,
    pub timestamp: i64,
    pub data: Option<T>,
}

/// Whether the envelope is internally consistent: an error message is
/// carried exactly on failure, and data exactly on success.
pub open spec fn cli_result_wf<T>(r: CliResult<T>) -> bool {
    &&& r.success <==> r.error is None
    &&& r.success <==> r.data is Some
}

impl<T> CliResult<T> {
    /// Wrap a successful payload.
    pub fn ok(data: T, timestamp: i64) -> (r: CliResult<T>)
        ensures
            cli_result_wf(r),
            r.success,
            r.data == Some(data),
            r.timestamp == timestamp,
    {
        CliResult { success: true, error: None, timestamp, data: Some(data) }
    }

    /// Wrap a failure message.
    pub fn err(message: String, timestamp: i64) -> (r: CliResult<T>)
        ensures
            cli_result_wf(r),
            !r.success,
            r.error == Some(message),
            r.timestamp == timestamp,
    {
        CliResult { success: false, error: Some(message), timestamp, data: None }
    }
}

} // verus!
