use vstd::prelude::*;

verus! {

/// Relies on chrono::Utc::now and chrono::DateTime::timestamp: the
/// current wall-clock time as whole seconds since the epoch. Nothing is
/// assumed of the clock's value; every caller must work for any `i64`.
#[verifier::external_body]
pub(crate) fn mint_timestamp() -> i64 {
    chrono::Utc::now().timestamp()
}

} // verus!
