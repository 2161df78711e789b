use vstd::prelude::*;

verus! {

/// Marks the code path leading to this call as cold, or "unlikely".
pub fn cold_path() {
}

/// Marks the boolean as unlikely to be true. Returns the boolean unchanged.
pub fn unlikely(b: bool) -> (r: bool)
    ensures
        r == b,
{
    if b {
        cold_path();
    }
    b
}

} // verus!
