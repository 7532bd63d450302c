//! The ways in which an operation on the store fails.

use vstd::prelude::*;

verus! {

/// Why an operation on the store failed.
#[derive(Clone, Copy, Debug, PartialEq, Eq, Structural)]
pub enum StoreError {
    /// The storage below could not take or give the data.
    StorageIO,
    /// What was asked for is not stored.
    NotFound,
    /// The write collides with what is stored: an order or a hash that is
    /// taken, or an order that does not follow the checkpoint.
    Conflict,
    /// The checkpoint disagrees with the transaction log or the accumulator.
    Corruption,
}

impl StoreError {
    /// A short description of the error.
    pub fn message(&self) -> (r: &'static str)
        ensures
            r@ == (match *self {
                StoreError::StorageIO => "storage failure"@,
                StoreError::NotFound => "not found"@,
                StoreError::Conflict => "conflict with stored data"@,
                StoreError::Corruption => "checkpoint disagrees with the stores"@,
            }),
    {
        match self {
            StoreError::StorageIO => "storage failure",
            StoreError::NotFound => "not found",
            StoreError::Conflict => "conflict with stored data",
            StoreError::Corruption => "checkpoint disagrees with the stores",
        }
    }
}

} // verus!
