//! Run timing, held as explicit values rather than process-wide state: the
//! run records the clock once at its start and derives elapsed time from
//! the clock reading of the moment.

use vstd::prelude::*;

verus! {

/// Whole seconds elapsed since the run started, given the clock reading at
/// the start of the run and the reading now.
pub fn realtime(start_secs: u64, now_secs: u64) -> (r: u64)
    requires
        start_secs <= now_secs,
    ensures
        r == now_secs - start_secs,
{
    now_secs - start_secs
}

} // verus!
