//! The run's error conditions.

use vstd::prelude::*;

verus! {

/// Why a run stopped.  Every failure aborts the whole run: a commit that
/// mixes formatted and unformatted files is never produced.
#[derive(Debug)]
pub enum Error {
    /// No configuration source was found in the repository.
    ConfigurationNotFound,
    /// The configuration source did not decode; carries the decoder's text.
    ConfigurationParseError(String),
    /// The configuration source was not valid UTF-8.
    ConfigurationEncodingError,
    /// The repository has no working directory, so reconciliation is
    /// meaningless.
    RepositoryIsBare,
    /// The repository backend failed; carries its diagnostic text.
    GitError(String),
    /// A transformer failed; carries its identity and diagnostic text.
    TransformerError(String),
    /// No net change remains to commit: the commit should be aborted.
    EmptyIndex,
}

} // verus!
