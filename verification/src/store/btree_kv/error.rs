use vstd::prelude::*;

verus! {

/// Why an operation on a page did not take place.
#[derive(Eq, PartialEq, Debug, Structural)]
pub enum RustyKVError {
    /// The page cannot hold the new row, or the replacement value differs
    /// in length from the stored one.
    InsufficientSpace,
    /// No row with the given key is stored.
    ItemNotFound,
    UnknownError,
}

} // verus!
