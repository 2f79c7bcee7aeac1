//! The brainstem's integer vital signs: when free memory or the count of
//! process errors asks the organism to stop.

use vstd::prelude::*;

verus! {

/// Below this much free memory (10 MiB) the organism asks to stop.
pub const MIN_FREE_RAM_BYTES: u64 = 10485760;

/// More process errors than this ask the organism to stop.
pub const MAX_PROCESS_ERRORS: u32 = 5;

/// Whether a reading of free memory asks the organism to stop. A reading of
/// zero is not a valid reading.
pub fn ram_free_demands_stop(free_bytes: u64) -> (stop: bool)
    requires
        free_bytes > 0,
    ensures
        stop == (free_bytes < MIN_FREE_RAM_BYTES),
{
    free_bytes < MIN_FREE_RAM_BYTES
}

/// Whether a count of process errors asks the organism to stop.
pub fn process_errors_demand_stop(err_count: u32) -> (stop: bool)
    ensures
        stop == (err_count > MAX_PROCESS_ERRORS),
{
    err_count > MAX_PROCESS_ERRORS
}

} // verus!
