//! The failure taxonomy of the archival lifecycle.
//!
//! Every failure is scoped to the smallest unit that can fail on its own —
//! one target, one archive unit, or one batch — so that a failing unit never
//! aborts its siblings.

use vstd::prelude::*;

verus! {

/// Why an operation on one target, one archive unit, or one batch failed.
#[derive(Debug)]
pub enum ArchiveError {
    /// A supplied target does not exist on disk.
    TargetNotFound { path: Vec<u8> },
    /// A member is owned by another user and elevation is disallowed.
    PrivilegeDenied { path: Vec<u8>, owner: u32 },
    /// The copy or compression step for an artifact reported a failure.
    BuildFailed { artifact: Vec<u8>, status: i32 },
    /// A batch's metadata record could not be read back.
    MetadataCorrupt { batch: Vec<u8> },
    /// Some members of a batch were restored but not all; the batch is kept
    /// for inspection.
    PartialRecovery { batch: Vec<u8> },
    /// An expired batch was left in place because it is owned by another
    /// user and elevation is unavailable.
    SweepSkipped { path: Vec<u8>, owner: u32 },
}

} // verus!
