//! The store's error taxonomy. `NotFound` and `PinLimitExceeded` are
//! ordinary expected outcomes; failures of the filesystem boundary are
//! raised by the surrounding I/O layer, never by the store itself.

use vstd::prelude::*;

verus! {

/// An expected failure of a store operation.
#[derive(Debug, Clone, Copy, PartialEq, Eq)]
pub enum StoreError {
    /// No entry or content file exists for the given id.
    NotFound,
    /// Pinning one more entry would exceed the pin cap.
    PinLimitExceeded,
}

impl StoreError {
    /// A human-readable description of the failure.
    pub fn message(&self) -> (s: String)
        ensures
            *self == StoreError::NotFound ==> s@ == "Entry not found"@,
            *self == StoreError::PinLimitExceeded ==> s@
                == "Maximum pinned entries (25) reached. Unpin something first."@,
    {
        match self {
            StoreError::NotFound => String::from_str("Entry not found"),
            StoreError::PinLimitExceeded => String::from_str(
                "Maximum pinned entries (25) reached. Unpin something first.",
            ),
        }
    }
}

} // verus!
