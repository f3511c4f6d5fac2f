//! The one place where the library reads the wall clock.
use vstd::prelude::*;

verus! {

/// Relies on chrono::Local::now, for the current moment as whole seconds
/// since the Unix epoch. Nothing is promised of the value: it depends on the
/// machine's clock.
#[verifier::external_body]
pub(crate) fn now_seconds() -> i64 {
    chrono::Local::now().timestamp()
}

/// Relies on chrono::Local::now, for the current moment as whole
/// milliseconds since the Unix epoch. Nothing is promised of the value.
#[verifier::external_body]
pub(crate) fn now_millis() -> i64 {
    chrono::Local::now().timestamp_millis()
}

} // verus!
