use vstd::prelude::*;

verus! {

/// The bound within which chrono documents that an instant in microseconds
/// since the Unix epoch is representable (about 253,000 years away from the
/// epoch, inside chrono's documented limit of about 262,000 years).
pub const MAX_INSTANT_MICROS: i64 = 8_000_000_000_000_000_000;

/// Whether an instant lies in the representable range.
pub open spec fn instant_in_range(micros: i64) -> bool {
    -MAX_INSTANT_MICROS <= micros <= MAX_INSTANT_MICROS
}

/// The calendar date (year, month, day) of a UTC instant, given in
/// microseconds since the Unix epoch, in the reference timezone
/// (Europe/Vienna). The reference timezone's database is compiled into the
/// timezone crate, so the result depends on the instant alone.
pub uninterp spec fn vienna_ymd(micros: i64) -> (i32, u32, u32);

/// Whether midnight of the given calendar date exists exactly once in the
/// reference timezone: the date is a valid calendar date and its midnight is
/// neither skipped nor repeated by a daylight-saving transition.
pub uninterp spec fn vienna_midnight_single(y: i32, m: u32, d: u32) -> bool;

/// Relies on chrono's `DateTime::from_timestamp_micros` (in range by the
/// precondition, so it returns a value), `with_timezone` and the `Datelike`
/// accessors, with chrono-tz's Europe/Vienna timezone: converts the instant
/// to the reference timezone's local calendar date. Month and day ranges are
/// documented by `Datelike`; the year bound follows from chrono's documented
/// limit of about 262,000 years from the common era, which the timezone
/// offset moves by less than a day.
#[verifier::external_body]
pub fn vienna_ymd_of(micros: i64) -> (r: (i32, u32, u32))
    requires
        instant_in_range(micros),
    ensures
        r == vienna_ymd(micros),
        1 <= r.1 <= 12,
        1 <= r.2 <= 31,
        -300_000 <= r.0 <= 300_000,
{
    let dt = chrono::DateTime::<chrono::Utc>::from_timestamp_micros(micros).unwrap();
    let local = dt.with_timezone(&chrono_tz::Europe::Vienna);
    (
        chrono::Datelike::year(&local),
        chrono::Datelike::month(&local),
        chrono::Datelike::day(&local),
    )
}

/// Relies on chrono-tz's `TimeZone::with_ymd_and_hms` for Europe/Vienna and
/// chrono's `MappedLocalTime::single`: reports whether midnight of the given
/// calendar date maps to exactly one instant in the reference timezone. The
/// result depends on the arguments alone.
#[verifier::external_body]
pub fn vienna_midnight_of(y: i32, m: u32, d: u32) -> (r: bool)
    ensures
        r == vienna_midnight_single(y, m, d),
{
    chrono::TimeZone::with_ymd_and_hms(&chrono_tz::Europe::Vienna, y, m, d, 0, 0, 0)
        .single()
        .is_some()
}

} // verus!
