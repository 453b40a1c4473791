//! Directory-state auditor: a verified scan-and-diff engine.
//!
//! The crate walks no filesystem itself; callers hand it ordered
//! observations of a directory tree, and the engine reconciles them
//! against a durable snapshot store, classifying every entry as
//! added, modified, deleted, type-changed, or unchanged.

pub mod changes;
pub mod classify;
pub mod paths;
pub mod reconcile;
pub mod store;

use vstd::prelude::*;

verus! {

/// The closed error taxonomy of the engine.
///
/// Per-entry walker failures and per-file hash failures are recovered
/// where they arise and never reach the store; what remains are
/// lookups of unknown rows and violations of the one-scan-per-root
/// discipline.
#[derive(Debug, PartialEq, Eq, Copy, Clone, Structural)]
pub enum AuditError {
    /// No root is registered under this id.
    RootNotFound { root_path_id: i64 },
    /// The path is already registered.
    DuplicateRootPath,
    /// No scan exists under this id.
    ScanNotFound { scan_id: i64 },
    /// Another scan of the same root is already in progress.
    ScanInProgress { root_path_id: i64 },
    /// The scan does not hold its root's lease (never begun, aborted,
    /// or already finished).
    ScanNotInProgress { scan_id: i64 },
    /// The scan is complete and can no longer be written to.
    ScanAlreadyComplete { scan_id: i64 },
}

} // verus!
