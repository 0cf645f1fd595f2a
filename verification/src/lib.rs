//! Staged-change formatting pipeline for a pre-commit gate.
//!
//! The library decides, for each staged change, which transformer chain (if
//! any) rewrites its content, applies built-in transformers itself, states
//! what an external transformer run must yield, and models the tree-level
//! policy of the run: which paths of the staged tree are rewritten, how the
//! result is reconciled against the working copy, and when the run ends in
//! an empty index.  The repository backend (object store, diff, merge,
//! checkout) performs the corresponding operations on the real repository.

pub mod config;
pub mod errors;
pub mod laws;
pub mod pipeline;
pub mod router;
pub mod transform;
pub mod tree;
