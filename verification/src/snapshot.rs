//! What a snapshot says of the log that it replaces.

use crate::entry::LogIndex;
use vstd::prelude::*;

verus! {

/// The last entry that a snapshot covers.
#[derive(Clone, Copy, Debug, PartialEq, Eq, Structural)]
pub struct SnapshotMeta {
    /// The index of that entry
    pub last_included_index: LogIndex,
    /// The term of that entry
    pub last_included_term: u64,
}

} // verus!
