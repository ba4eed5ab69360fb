use vstd::prelude::*;

use crate::model::{CompareStatus, CompareSummary};

verus! {

/// Progress of one side's scan.
#[derive(Debug, Clone)]
pub struct ScanProgressPayload {
    pub side: String,
    pub entries_scanned: usize,
    pub phase: String,
}

/// A comparison finished.
#[derive(Debug, Clone)]
pub struct CompareDonePayload {
    pub summary: CompareSummary,
}

/// A scan or comparison ended in an error, or was cancelled.
#[derive(Debug, Clone)]
pub struct CompareErrorPayload {
    pub message: String,
}

/// One directory pair of a level was resolved.
#[derive(Debug, Clone)]
pub struct DirStatusResolvedPayload {
    /// Name of the directory, as listed on the left.
    pub name: String,
    pub status: CompareStatus,
    /// The level's left directory.
    pub left_path: String,
    /// The level's right directory.
    pub right_path: String,
    pub total_size: u64,
}

/// Output of a terminal session.
#[derive(Debug, Clone)]
pub struct TerminalOutputPayload {
    pub side: String,
    pub data: String,
}

/// A terminal session ended.
#[derive(Debug, Clone)]
pub struct TerminalExitPayload {
    pub side: String,
}

} // verus!
