//! Allocation tracing of a live process.
use vstd::prelude::*;
use crate::types::{AllocationTrace, Region};

verus! {

/// Traces the allocations that process `pid` makes in `regions` for
/// `duration_secs` seconds. This platform has no allocation tracer, so the
/// call always fails with a message saying so.
pub fn trace_allocations(pid: u32, duration_secs: u64, regions: &[Region]) -> (r: Result<
    Vec<AllocationTrace>,
    String,
>)
    ensures
        r matches Err(m) && m@ == "Linux allocation tracing is not yet implemented"@,
{
    Err(String::from_str("Linux allocation tracing is not yet implemented"))
}

} // verus!
