use vstd::prelude::*;

verus! {

/// Relies on `chrono::Utc::now`: reads the system clock; `timestamp` turns it
/// into whole seconds since the Unix epoch. Nothing is promised of the value:
/// every caller hands it to an operation whose contract holds for any
/// timestamp.
#[verifier::external_body]
pub(crate) fn now_timestamp() -> i64 {
    chrono::Utc::now().timestamp()
}

} // verus!
