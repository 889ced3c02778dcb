//! The clock of the host that runs the platform.
//!
//! New records get the host's time as their id. That two readings differ is
//! up to the host, and the stores do not check it.

use vstd::prelude::*;

verus! {

/// Reads the host's clock with `ic_cdk::api::time`: the time in nanoseconds
/// since 1970-01-01, as the host counts it.
///
/// Nothing is claimed of the value: it is what the host reports, and two
/// calls may report the same. The host offers its clock to a canister only;
/// anywhere else the call fails and does not return.
#[verifier::external_body]
pub(crate) fn host_time() -> (now: u64) {
    ic_cdk::api::time()
}

} // verus!
