use vstd::prelude::*;

verus! {

/// One file's selection inside a change group: a repo-relative path and
/// the hunk-header strings to keep from that file's diff section. A
/// `hunks` list holding the single entry `ALL` selects the whole file.
pub struct FileChange {
    pub path: Vec<u8>,
    pub hunks: Vec<Vec<u8>>,
}

/// An ordered list of file selections meant to become one commit.
pub struct ChangeGroup {
    pub changes: Vec<FileChange>,
}

/// Metadata of one historical commit, fetched once per regeneration run.
pub struct CommitMetadata {
    pub hash: String,
    pub message: String,
}

/// What staging one change group asks of the gateway: whole files to add
/// (deduplicated and sorted), and at most one composed patch to apply to
/// the index. Both parts come from the same captured snapshot; the caller
/// performs the two gateway operations, in that order.
pub struct StagingPlan {
    pub files_to_stage: Vec<Vec<u8>>,
    pub patch: Option<Vec<u8>>,
}

} // verus!
