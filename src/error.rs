use vstd::prelude::*;

verus! {

/// The ways in which building or restoring an archive can fail.
#[derive(Clone, Copy, Debug, PartialEq, Eq, Structural)]
pub enum BackupError {
    /// A source directory or the archive does not exist.
    NotFound,
    /// A source path exists but is not a directory.
    NotADirectory,
    /// The archive being written lies inside a source directory.
    SelfContainment,
    /// Two source directories have the same root name.
    DuplicateRootName,
    /// A source path has no normal component to name its root.
    UnnameableRoot,
    /// A restore selector is empty or holds a `..` segment.
    InvalidSelector,
    /// No archive entry lies under the restore selector.
    RootNotFound,
    /// The archive could not be encoded or decoded.
    Archive,
}

} // verus!
