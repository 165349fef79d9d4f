use vstd::prelude::*;

verus! {

/// Error taxonomy of the core.
///
/// Gateway failures carry the diagnostic text of the underlying
/// version-control invocation; the locked-index condition is kept
/// distinct so a caller can print remediation advice. Validation and
/// not-found errors carry the offending path (and, for validation, the
/// requested hunk identifiers that matched nothing) as plain bytes.
#[derive(Debug)]
pub enum CommitGenError {
    /// A version-control gateway operation failed.
    GitError { message: String },
    /// The version-control index is locked by another process.
    GitIndexLocked { lock_path: String },
    /// None of a file's requested hunk identifiers matched a header in
    /// the snapshot, so the composed patch would have been empty.
    ValidationError { path: Vec<u8>, unmatched_hunks: Vec<Vec<u8>> },
    /// The requested file path has no section in the diff snapshot.
    NotFound { path: Vec<u8> },
    /// The message generator failed for one commit, after whatever
    /// retries it performs itself; the text wraps the last cause.
    GenerationError { message: String },
    /// Any other failure, described in text.
    Other { message: String },
}

impl CommitGenError {
    /// Wrap a gateway diagnostic message.
    pub fn git(message: String) -> (r: CommitGenError)
        ensures
            r == (CommitGenError::GitError { message }),
    {
        CommitGenError::GitError { message }
    }
}

} // verus!
