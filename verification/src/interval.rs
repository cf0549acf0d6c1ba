//! Lengths of time, from the standard library.

use std::time::Duration;
use vstd::prelude::*;

verus! {

/// The length of a duration in whole milliseconds.
pub uninterp spec fn millis_of(d: Duration) -> nat;

/// `Duration::from_millis`: a duration of that many milliseconds.
#[verifier::external_body]
pub(crate) fn millis(ms: u64) -> (res: Duration)
    ensures
        millis_of(res) == ms,
{
    Duration::from_millis(ms)
}

} // verus!
