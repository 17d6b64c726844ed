//! Reading the clock, to time the steps of an import.

use vstd::prelude::*;
use std::time::SystemTime;

verus! {

#[verifier::external_type_specification]
#[verifier::external_body]
pub struct ExSystemTime(SystemTime);

/// `SystemTime::now`: the current time. Nothing is promised of it.
#[verifier::external_body]
pub(crate) fn now() -> SystemTime {
    SystemTime::now()
}

/// `SystemTime::elapsed`, in milliseconds, zero when the clock went back.
/// Nothing is promised of its value.
#[verifier::external_body]
pub(crate) fn millis_since(start: &SystemTime) -> u128 {
    start.elapsed().unwrap_or_default().as_millis()
}

} // verus!
