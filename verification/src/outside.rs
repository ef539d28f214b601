//! Calls whose results the library cannot compute itself: the clock and
//! fresh identifiers.
use vstd::prelude::*;

verus! {

#[verifier::external_type_specification]
#[verifier::external_body]
pub struct ExSystemTime(std::time::SystemTime);

#[verifier::external_type_specification]
#[verifier::external_body]
pub struct ExSystemTimeError(std::time::SystemTimeError);

/// Calls `std::time::SystemTime::now`. The result is the machine's clock,
/// so nothing is stated of it.
#[verifier::external_body]
fn clock_now() -> std::time::SystemTime {
    std::time::SystemTime::now()
}

/// Calls `SystemTime::duration_since` with the Unix epoch: the time since
/// the epoch, or an error when `t` lies before it. Nothing is stated of
/// which comes back.
#[verifier::external_body]
fn since_epoch(t: &std::time::SystemTime) -> Result<core::time::Duration, std::time::SystemTimeError> {
    t.duration_since(std::time::UNIX_EPOCH)
}

/// Calls `Duration::as_millis`: the whole milliseconds of `d`. A
/// `Duration` is opaque here, so nothing is stated of the number.
#[verifier::external_body]
fn whole_millis(d: &core::time::Duration) -> u128 {
    d.as_millis()
}

/// The clock as whole milliseconds since the Unix epoch (0 when the clock
/// stands before the epoch; the low 64 bits of the count otherwise, as
/// `as u64` keeps them). It rests on the machine's clock, so nothing is
/// stated of it.
pub(crate) fn now_ms() -> u64 {
    let t = clock_now();
    match since_epoch(&t) {
        Ok(d) => #[verifier::truncate] (whole_millis(&d) as u64),
        Err(_) => 0,
    }
}

/// Calls `ulid::Ulid::new` and renders it with `Ulid::to_string`. The value
/// is built from the clock and a random number, so only what holds of every
/// outcome is stated: the Crockford base-32 text of a ULID is 26 characters.
#[verifier::external_body]
pub(crate) fn new_ulid() -> (id: String)
    ensures
        id@.len() == 26,
{
    ulid::Ulid::new().to_string()
}

} // verus!
