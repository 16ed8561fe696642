//! Defaults of the request fields that a client may leave out.
use vstd::prelude::*;

verus! {

/// The memory type of a store request that names none.
pub fn default_memory_type() -> (r: String)
    ensures
        r@ == "general"@,
{
    "general".to_owned()
}

/// The number of hits of a search request that names no limit.
pub fn default_limit() -> (r: usize)
    ensures
        r == 10,
{
    10
}

} // verus!
