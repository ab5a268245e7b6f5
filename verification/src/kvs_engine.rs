//! The interface of a storage engine.

use crate::error::KvsError;
use vstd::prelude::*;

verus! {

/// An engine that stores pairs of key and value.
///
/// Every operation takes a shared reference, so that one handle can be
/// cloned across threads. Clones share the state of the engine.
pub trait KvsEngine: Clone + Send + 'static {
    /// Removes `key`; fails with `KeyNotFound` where the key is not live.
    fn remove(&self, key: String) -> Result<(), KvsError>;

    /// Gets the value of `key`, or `None` where the key is not live.
    fn get(&self, key: String) -> Result<Option<String>, KvsError>;

    /// Sets `key` to `value`, overwriting any value it had.
    fn set(&self, key: String, value: String) -> Result<(), KvsError>;
}

} // verus!
