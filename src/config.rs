//! Settings of the backup schedule.

use vstd::prelude::*;

verus! {

/// Seconds between two scheduled backups unless configured otherwise: one
/// hour.
pub fn default_duration() -> (r: u64)
    ensures
        r == 3600,
{
    3600
}

} // verus!
