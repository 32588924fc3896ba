//! Engine-wide default sizes.
use vstd::prelude::*;

verus! {

/// Number of pages to allocate when creating a database.
pub const DEFAULT_NUM_PAGES: usize = 32;

} // verus!
