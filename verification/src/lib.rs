pub mod bucket;
pub mod bytes;
pub mod codec;
pub mod config;
pub mod db;
pub mod defaults;
pub mod errors;
pub mod freelist;
pub mod inner;
pub mod meta;
pub mod node;
pub mod page;
pub mod transaction;

use vstd::prelude::*;

verus! {

/// Sum of two machine-word counts; the caller guarantees the sum fits.
pub fn add(left: usize, right: usize) -> (r: usize)
    requires
        left + right <= usize::MAX,
    ensures
        r == left + right,
{
    left + right
}

} // verus!
