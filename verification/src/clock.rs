use vstd::prelude::*;
use std::time::{Duration, SystemTime};

verus! {

#[verifier::external_type_specification]
#[verifier::external_body]
pub struct ExSystemTime(SystemTime);

/// `SystemTime::now`: a reading of the system clock. Nothing is claimed of it.
#[verifier::external_body]
pub(crate) fn clock_now() -> (t: SystemTime) {
    SystemTime::now()
}

/// `Duration::from_secs`: a span of whole seconds. Nothing is claimed of the value.
#[verifier::external_body]
pub(crate) fn whole_seconds(secs: u64) -> (d: Duration) {
    Duration::from_secs(secs)
}

/// `SystemTime::elapsed`: the time gone by since `t`, read as no time at all when the
/// clock stands before `t` (the error case). Nothing is claimed of the value.
#[verifier::external_body]
pub(crate) fn time_since(t: &SystemTime) -> (d: Duration) {
    match t.elapsed() {
        Ok(d) => d,
        Err(_) => Duration::ZERO,
    }
}

/// `Duration > Duration`. Nothing is claimed of the answer, which is only ever asked of
/// clock readings here.
#[verifier::external_body]
pub(crate) fn span_longer(a: &Duration, b: &Duration) -> (r: bool) {
    *a > *b
}

} // verus!
