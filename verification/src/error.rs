//! The library's error taxonomy. No kind is retried: every error aborts the
//! operation it arose in and is surfaced to the caller.

use vstd::prelude::*;

verus! {

/// Why an operation failed, with the value that triggered it.
#[derive(Debug, Clone, PartialEq)]
pub enum TmsError {
    /// A malformed configuration entry, named by its label.
    Config { entry: String },
    /// A directory that could not be listed, named by its path.
    Io { path: String },
    /// A child path that could not be rendered as text.
    Path,
    /// A referenced environment variable that is not set.
    EnvSubst { var: String },
    /// A malformed session-listing line.
    Parse { line: String },
    /// A failed external command, named by its program.
    Process { program: String },
}

} // verus!
