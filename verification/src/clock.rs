use vstd::prelude::*;
use anchor_lang::prelude::{Clock, SolanaSysvar};

verus! {

/// Reads the runtime's clock sysvar with `Clock::get` and hands out its
/// `unix_timestamp`, or `None` where the runtime does not provide the
/// sysvar. Nothing is claimed of the value: it is whatever the runtime
/// reports at the time of the call.
#[verifier::external_body]
pub(crate) fn unix_timestamp() -> (r: Option<i64>) {
    match Clock::get() {
        Ok(clock) => Some(clock.unix_timestamp),
        Err(_) => None,
    }
}

} // verus!
