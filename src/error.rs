//! Failures that a scan can meet.
use vstd::prelude::*;

verus! {

/// Why one file could not be read or inspected.
#[derive(Clone, Copy, Debug, PartialEq, Eq, Structural)]
pub enum IoFailure {
    NotFound,
    PermissionDenied,
    Unsupported,
    Other,
}

/// The errors of a scan and of its session parameters.
#[derive(Debug, PartialEq, Eq)]
pub enum ScanError {
    /// A directory under the root could not be listed.
    TraversalFailure(String),
    /// The contents of a file could not be read.
    FileUnreadable(String, IoFailure),
    /// The metadata of a file could not be read.
    MetadataUnreadable(String, IoFailure),
    /// The platform gives no modification time for a file.
    UnsupportedPlatform(String),
    /// A session length that is not a whole number of minutes.
    BadDuration(String),
    /// A weekday number outside `0..7` (Sunday is `0`).
    BadBoundarySpec(u32),
}

/// What reading one path gave: its value, or why it failed.
pub struct Probe<T> {
    pub path: String,
    pub outcome: Result<T, IoFailure>,
}

} // verus!
