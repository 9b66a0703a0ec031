//! Dates and times in queries and in the index.

use vstd::prelude::*;

use crate::data;
use crate::data::DateTimeUtc;
use crate::numbers;
use crate::numbers::{Forms, Number};
use crate::outside;
use crate::text;

verus! {

/// The first day of 1970, counted from the day before the year 1.
pub const EPOCH_DAY: i32 = 719_163;

/// The seconds of a day.
pub const DAY_SECS: i64 = 86_400;

/// Midnight of a day.
pub open spec fn midnight(day: i32) -> (i64, u32) {
    (((day - EPOCH_DAY) * DAY_SECS) as i64, 0)
}

/// The instant that a literal names: in RFC 3339, else as a date and time without
/// an offset in UTC, else as a date at midnight in UTC. White space at the ends
/// does not count.
pub open spec fn literal_instant(text: Seq<char>) -> Option<(i64, u32)> {
    let t = text::trimmed(text);
    match outside::rfc3339_instant(t) {
        Ok(i) => Some(i),
        Err(_) => match outside::naive_instant(t) {
            Some(i) => Some(i),
            None => match outside::naive_day(t) {
                Some(day) => if data::valid_instant(midnight(day)) {
                    Some(midnight(day))
                } else {
                    None
                },
                None => None,
            },
        },
    }
}

/// Reads a literal.
pub fn parse_datetime_literal(s: &str) -> (r: Option<DateTimeUtc>)
    ensures
        match literal_instant(s@) {
            Some(t) => r is Some && r->Some_0@ == t,
            None => r is None,
        },
{
    let t: &str = text::trim(s);
    let rfc3339: Option<(i64, u32)> = match outside::parse_rfc3339(t) {
        Ok(i) => Some(i),
        Err(_) => None,
    };
    first_instant(
        rfc3339,
        outside::parse_naive_datetime(t),
        outside::parse_naive_date(t),
    )
}

/// The instant of the first form that names one: in RFC 3339, without an offset,
/// as a day.
pub fn first_instant(
    rfc3339: Option<(i64, u32)>,
    naive: Option<(i64, u32)>,
    day: Option<i32>,
) -> (r: Option<DateTimeUtc>)
    ensures
        ({
            let t = match rfc3339 {
                Some(i) => Some(i),
                None => match naive {
                    Some(i) => Some(i),
                    None => match day {
                        Some(d) => Some(midnight(d)),
                        None => None,
                    },
                },
            };
            match t {
                Some(i) => (r is Some <==> data::valid_instant(i)) && (r is Some ==> r->Some_0@
                    == i),
                None => r is None,
            }
        }),
{
    match rfc3339 {
        Some((secs, nanos)) => DateTimeUtc::from_timestamp(secs, nanos),
        None => match naive {
            Some((secs, nanos)) => DateTimeUtc::from_timestamp(secs, nanos),
            None => match day {
                Some(d) => {
                    let days: i64 = d as i64 - EPOCH_DAY as i64;
                    DateTimeUtc::from_timestamp(days * DAY_SECS, 0)
                },
                None => None,
            },
        },
    }
}

/// The point of an instant in a point tree: its whole microseconds, in seconds.
pub fn datetime_to_point<F: Fn(Number) -> Forms>(dt: &DateTimeUtc, forms: &F) -> (r: u64)
    requires
        forall|n: Number| call_requires(*forms, (n,)),
    ensures
        numbers::gives_bits(
            *forms,
            Number::Micros { micros: data::instant_micros(dt@) as i64 },
            r,
        ),
{
    let f: Forms = (*forms)(Number::Micros { micros: dt.timestamp_micros() });
    assert(numbers::gives(
        *forms,
        Number::Micros { micros: data::instant_micros(dt@) as i64 },
        f,
    ));
    f.bits
}

} // verus!
