//! A verified clipboard-history store.
//!
//! The library models a bounded, deduplicated history of text snippets:
//! an ordered index of entry metadata (most recent first) together with
//! the per-entry content files, plus the rules that govern them —
//! dedup-on-write, pin-aware eviction, pin caps, clearing, and recovery
//! of the index from the content files.

use vstd::prelude::*;

pub mod clock;
pub mod content;
pub mod digest;
pub mod entry;
pub mod errors;
pub mod format;
pub mod laws;
pub mod recovery;
pub mod search;
pub mod store;
pub mod text;

verus! {

/// Number of Unicode scalar values kept in an entry preview.
pub const MAX_PREVIEW_LEN: usize = 100;

/// Default retention bound for unpinned entries.
pub const DEFAULT_MAX_ENTRIES: usize = 100;

/// Hard upper bound the configured retention limit is clamped to.
pub const ABSOLUTE_MAX_ENTRIES: usize = 10000;

/// Hard cap on the number of pinned entries.
pub const MAX_PINNED: usize = 25;

} // verus!
