use vstd::prelude::*;

verus! {

/// Wall-clock time in nanoseconds since the Unix epoch.
///
/// Calls `std::time::SystemTime::elapsed` on `UNIX_EPOCH` and converts the
/// duration to nanoseconds (truncated to 64 bits); a clock set before the
/// epoch reads as 0. Nothing is promised about the value: it depends on the
/// machine's clock.
#[verifier::external_body]
pub(crate) fn nanos() -> u64 {
    std::time::UNIX_EPOCH.elapsed().unwrap_or_default().as_nanos() as u64
}

} // verus!
