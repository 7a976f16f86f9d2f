//! The error type shared by the store backends and the engine.

use vstd::prelude::*;

verus! {

/// Everything that can go wrong in a store backend or in the engine.
#[derive(Debug, Clone, PartialEq)]
pub enum StoreError {
    /// A backend failed to read or write its medium.
    IoError(String),
    /// A payload could not be encoded or decoded.
    SerializationError(String),
    /// A point lookup missed.
    NotFound,
    /// An empty key was handed to a store operation.
    InvalidKey,
    /// A malformed year-month tag, an unparseable date, or date arithmetic
    /// that left the supported calendar range.
    InvalidValue,
}

} // verus!
