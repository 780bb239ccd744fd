//! The run-level timestamp.

use vstd::prelude::*;
use crate::num::{dec_str, u64_to_dec};

verus! {

/// Relies on `std::time::SystemTime::now`: whole seconds since the
/// Unix epoch, or zero should the clock read earlier than the epoch.
/// Nothing is promised of the value: it is the wall clock's.
#[verifier::external_body]
fn epoch_seconds() -> u64 {
    match std::time::SystemTime::now().duration_since(std::time::UNIX_EPOCH) {
        Ok(d) => d.as_secs(),
        Err(_) => 0,
    }
}

/// The run's shared timestamp: the clock's seconds since the epoch,
/// formatted as a canonical decimal numeral.
pub fn now_epoch() -> (r: String)
    ensures
        exists|n: u64| r@ == dec_str(n as nat),
{
    let n = epoch_seconds();
    let r = u64_to_dec(n);
    proof {
        assert(r@ == dec_str(n as nat));
    }
    r
}

} // verus!
