//! The system clock, behind a trusted wrapper.

use vstd::prelude::*;

verus! {

/// The time now, in whole seconds since the Unix epoch; zero for any
/// instant before it.
///
/// Relies on `chrono::Utc::now`: nothing is assumed of the value beyond
/// its type — callers treat it as arbitrary.
#[verifier::external_body]
pub fn now_seconds() -> (r: u64)
{
    let t = chrono::Utc::now().timestamp();
    if t < 0 {
        0
    } else {
        t as u64
    }
}

} // verus!
