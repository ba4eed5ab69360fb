use vstd::prelude::*;

verus! {

/// Kind of a filesystem node; a symlink is never followed.
#[derive(Debug, Clone, Copy, PartialEq, Eq, Structural)]
pub enum EntryKind {
    File,
    Dir,
    Symlink,
}

/// Metadata of one entry, as captured when it was read.
#[derive(Debug, Clone)]
pub struct EntryMeta {
    pub kind: EntryKind,
    pub size: u64,
    /// Epoch milliseconds.
    pub modified: Option<u64>,
    pub symlink_target: Option<String>,
}

impl EntryMeta {
    /// A copy of this metadata.
    pub fn duplicate(&self) -> (r: EntryMeta)
        ensures
            r == *self,
    {
        let symlink_target = match &self.symlink_target {
            Some(t) => Some(t.clone()),
            None => None,
        };
        EntryMeta { kind: self.kind, size: self.size, modified: self.modified, symlink_target }
    }
}

/// How one path compares between the two trees.
#[derive(Debug, Clone, Copy, PartialEq, Eq, Structural)]
pub enum DiffKind {
    OnlyLeft,
    OnlyRight,
    TypeMismatch,
    Same,
    MetaDiff,
    Error,
}

/// One row of a full-tree comparison.
#[derive(Debug, Clone)]
pub struct DiffItem {
    pub rel_path: String,
    pub diff_kind: DiffKind,
    pub left: Option<EntryMeta>,
    pub right: Option<EntryMeta>,
    pub error_message: Option<String>,
}

/// Structure compares existence and kind only; Smart also compares size and
/// symlink target of non-directories.
#[derive(Debug, Clone, Copy, PartialEq, Eq, Structural)]
pub enum CompareMode {
    Structure,
    Smart,
}

/// Counters of one comparison.
#[derive(Debug, Clone, Copy, PartialEq, Eq, Structural)]
pub struct CompareSummary {
    pub total_left: usize,
    pub total_right: usize,
    pub only_left: usize,
    pub only_right: usize,
    pub type_mismatch: usize,
    pub same: usize,
    pub meta_diff: usize,
    pub errors: usize,
}

/// The summary with every counter at zero.
pub open spec fn zero_summary() -> CompareSummary {
    CompareSummary {
        total_left: 0,
        total_right: 0,
        only_left: 0,
        only_right: 0,
        type_mismatch: 0,
        same: 0,
        meta_diff: 0,
        errors: 0,
    }
}

impl Default for CompareSummary {
    fn default() -> (r: CompareSummary)
        ensures
            r == zero_summary(),
    {
        CompareSummary {
            total_left: 0,
            total_right: 0,
            only_left: 0,
            only_right: 0,
            type_mismatch: 0,
            same: 0,
            meta_diff: 0,
            errors: 0,
        }
    }
}

/// Status of one row of a single-level comparison.
#[derive(Debug, Clone, Copy, PartialEq, Eq, Structural)]
pub enum CompareStatus {
    Same,
    Modified,
    OnlyLeft,
    OnlyRight,
    TypeMismatch,
    /// A directory on both sides whose subtrees are not resolved yet.
    Pending,
}

/// What a resolved directory pair adds to its row.
#[derive(Debug, Clone, Copy, PartialEq, Eq, Structural)]
pub struct DirResolveInfo {
    pub total_size: u64,
}

/// One row of a single-level comparison.
#[derive(Debug, Clone)]
pub struct CompareEntry {
    pub name: String,
    pub kind: EntryKind,
    pub status: CompareStatus,
    pub left_size: Option<u64>,
    pub right_size: Option<u64>,
    pub left_modified: Option<u64>,
    pub right_modified: Option<u64>,
    pub dir_info: Option<DirResolveInfo>,
}

} // verus!
