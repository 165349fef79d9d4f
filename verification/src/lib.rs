//! Core of a conventional-commit message generator.
//!
//! Two verified engines live here. The patch engine slices one file's
//! section out of a captured unified-diff snapshot, matches hunk headers
//! by their normalized numeric form, and recomposes a minimal patch from a
//! caller's file/hunk selection. The rewrite engine holds the decision
//! logic of the history-regeneration pipeline: preconditions, preview
//! truncation, and the order-preserving collection of per-commit
//! generation outcomes.
//!
//! All process-boundary work (running the version-control tool, calling
//! the message generator over the network) stays outside this crate; the
//! functions here compute plans and results from plain values.

pub mod bytes;
pub mod error;
pub mod laws;
pub mod patch;
pub mod rewrite;
pub mod types;
