//! What can go wrong in the store.

use vstd::prelude::*;

verus! {

/// The errors of the store. A key that was never written, or that was
/// deleted, is no error: lookups report that in their result.
#[derive(Debug, PartialEq, Eq, Clone, Copy)]
pub enum Error {
    /// The arena cannot take the record: the table is full.
    CapacityExhausted,
    /// Every sequence number has been given out.
    SequenceExhausted,
    /// A buffer does not hold one whole record.
    Corruption,
}

} // verus!
