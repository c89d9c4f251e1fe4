use vstd::prelude::*;

verus! {

/// The failures that the store's own rules produce.
#[derive(Clone, Copy, Debug, PartialEq, Eq, Structural)]
pub enum KvsError {
    /// `remove` of a key that holds no value.
    KeyNotFound,
    /// The record that the index points at is not a `Put`.
    UnexpectedCommandType,
}

} // verus!
