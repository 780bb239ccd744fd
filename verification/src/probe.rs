//! The probe-timeout rule: echo tools that only accept whole seconds
//! get the millisecond timeout rounded to the nearest second, half up,
//! and never less than one second.

use vstd::prelude::*;

verus! {

pub open spec fn spec_timeout_secs(ms: u32) -> int {
    let s = (ms + 500) / 1000;
    if s < 1 {
        1
    } else {
        s
    }
}

/// Convert a millisecond probe timeout to whole seconds.
pub fn timeout_secs(timeout_ms: u32) -> (r: u32)
    ensures
        r == spec_timeout_secs(timeout_ms),
{
    let s: u64 = (timeout_ms as u64 + 500) / 1000;
    if s < 1 {
        1
    } else {
        s as u32
    }
}

} // verus!
