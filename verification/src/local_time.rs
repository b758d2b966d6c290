use vstd::prelude::*;
use crate::time_of_day::TimeOfDay;

verus! {

/// Relies on time::OffsetDateTime::now_local (falling back to now_utc when
/// the local offset cannot be determined) and Time::as_hms_nano: the
/// clock's components always form a valid time of day.
#[verifier::external_body]
fn now_hms_nano() -> (r: (u8, u8, u8, u32))
    ensures
        r.0 < 24,
        r.1 < 60,
        r.2 < 60,
        r.3 < 1_000_000_000,
{
    let odt = match time::OffsetDateTime::now_local() {
        Ok(t) => t,
        Err(_) => time::OffsetDateTime::now_utc(),
    };
    odt.time().as_hms_nano()
}

/// The wall clock's current time of day.
pub fn now_time() -> (r: TimeOfDay)
    ensures
        r.is_valid(),
{
    let (h, m, s, n) = now_hms_nano();
    TimeOfDay::from_hms_nano(h, m, s, n)
}

} // verus!
