//! The wall clock.
use vstd::prelude::*;

verus! {

/// The current time in whole seconds since the Unix epoch, from
/// `chrono::Local::now().timestamp()`.  Nothing is claimed of the value: it
/// depends on the moment of the call.
#[verifier::external_body]
pub(crate) fn now_secs() -> (r: i64) {
    chrono::Local::now().timestamp()
}

} // verus!
