//! The wall clock.

use std::time::Instant;
use vstd::prelude::*;

verus! {

/// A moment on the monotonic clock of `std`, of which nothing is known here.
#[verifier::external_type_specification]
#[verifier::external_body]
pub struct ExInstant(Instant);

/// `std::time::Instant::elapsed`, in whole milliseconds. Nothing is claimed
/// of the result: it depends on when the call is made.
#[verifier::external_body]
pub(crate) fn elapsed_millis(since: &Instant) -> (millis: u128) {
    since.elapsed().as_millis()
}

} // verus!
