use vstd::prelude::*;

pub mod error;
pub mod paths;
pub mod builder;
pub mod restore;
pub mod archive;
pub mod laws;

verus! {

/// Which of the two operations a run performs.
#[derive(Clone, Copy, Debug, PartialEq, Eq, Structural)]
pub enum BackupMode {
    Backup,
    Restore,
}

} // verus!
