//! What every storage engine offers.

use vstd::prelude::*;
use crate::error::ErrorCode;

verus! {

/// A key-value storage engine. The log-structured engine of this library is
/// one once it is joined to its files; other engines can stand in its place.
pub trait KvsEngine {
    /// Maps `key` to `value`.
    fn set(&mut self, key: String, value: String) -> Result<(), ErrorCode>;

    /// The value of `key`; `None` where the key has no mapping.
    fn get(&mut self, key: String) -> Result<Option<String>, ErrorCode>;

    /// Erases `key`; `KeyNotFound` where the key has no mapping.
    fn remove(&mut self, key: String) -> Result<(), ErrorCode>;
}

} // verus!
