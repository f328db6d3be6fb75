//! The errors of the store.
use vstd::prelude::*;

verus! {

/// What can go wrong in the store.
#[derive(Debug)]
pub enum KvsError {
    /// `remove` was asked for a key that is not in the store.
    KeyNotFound,
    /// A segment holds bytes that cannot be a record, before its last complete
    /// record; `segment` is the segment's id, `offset` where the bytes start.
    Corrupt { segment: u64, offset: usize },
}

/// The result type of the store's operations.
pub type Result<T> = std::result::Result<T, KvsError>;

} // verus!
