//! The time of the clock, and the text of a time.

use crate::number::{signed_decimal_text, write_signed};
use crate::outside::{
    format_time, has_date, is_zone_offset, local_offset_secs, nanos_of, time_text, unix_epoch,
};
use crate::text::string_of;
use std::time::SystemTime;
use vstd::prelude::*;

verus! {

/// Seconds as a signed number; those beyond its range come out negative.
pub open spec fn signed_secs(secs: u64) -> int {
    if secs <= i64::MAX {
        secs as int
    } else {
        secs - 0x1_0000_0000_0000_0000
    }
}

/// Seconds as a signed number.
pub fn to_signed_secs(secs: u64) -> (res: i64)
    ensures
        res == signed_secs(secs),
{
    if secs <= 9223372036854775807 {
        secs as i64
    } else {
        ((secs as i128) - 0x1_0000_0000_0000_0000) as i64
    }
}

/// The whole seconds since the start of 1970 at a point in time so many nanoseconds after it;
/// 0 at an earlier one.
pub open spec fn clock_value(nanos: int) -> int {
    if nanos < 0 {
        0
    } else {
        signed_secs((nanos / 1_000_000_000) as u64)
    }
}

/// The whole seconds since the start of 1970 at a point in time.
pub fn epoch_secs_at(now: &SystemTime) -> (res: i64)
    ensures
        res == clock_value(nanos_of(*now)),
{
    match now.duration_since(unix_epoch()) {
        Ok(span) => to_signed_secs(span.as_secs()),
        Err(_) => 0,
    }
}

/// The whole seconds since the start of 1970, as the clock of the machine shows them. Which
/// point in time that is depends on the clock.
pub fn now_epoch_secs() -> (res: i64)
    ensures
        exists|now: SystemTime| res == clock_value(#[trigger] nanos_of(now)),
{
    let now = SystemTime::now();
    epoch_secs_at(&now)
}

/// The text of a registration time in a zone so many seconds from UTC: date, time and zone,
/// the zone in hours, with the minutes where they are not zero. A time without a date is
/// written as its number.
pub open spec fn registered_time(epoch_secs: int, offset_secs: int) -> Seq<char> {
    if !has_date(epoch_secs) {
        signed_decimal_text(epoch_secs)
    } else if offset_secs % 3600 == 0 {
        time_text(epoch_secs, offset_secs, "%Y-%m-%dT%H:%M:%S%.3f%:::z"@)
    } else {
        time_text(epoch_secs, offset_secs, "%Y-%m-%dT%H:%M:%S%.3f%:z"@)
    }
}

/// The text of a registration time in a zone so many seconds from UTC.
pub fn format_registered_time_at(epoch_secs: i64, offset_secs: i32) -> (res: String)
    requires
        is_zone_offset(offset_secs as int),
    ensures
        res@ == registered_time(epoch_secs as int, offset_secs as int),
{
    if epoch_secs < -8334601228800 || epoch_secs > 8210266876799 {
        return string_of(&write_signed(epoch_secs));
    }
    let whole_hours: bool = if offset_secs >= 0 {
        offset_secs % 3600 == 0
    } else {
        (0 - offset_secs) % 3600 == 0
    };
    if whole_hours {
        format_time(epoch_secs, offset_secs, "%Y-%m-%dT%H:%M:%S%.3f%:::z")
    } else {
        format_time(epoch_secs, offset_secs, "%Y-%m-%dT%H:%M:%S%.3f%:z")
    }
}

/// Whether `text` is what a registration time reads as in some time zone.
pub open spec fn is_registered_time(epoch_secs: int, text: Seq<char>) -> bool {
    exists|offset_secs: int|
        is_zone_offset(offset_secs) && text == #[trigger] registered_time(epoch_secs, offset_secs)
}

/// The text of a registration time in the time zone of the machine.
pub fn format_registered_time(epoch_secs: i64) -> (res: String)
    ensures
        is_registered_time(epoch_secs as int, res@),
        !has_date(epoch_secs as int) ==> res@ == signed_decimal_text(epoch_secs as int),
{
    let offset_secs: i32 = match local_offset_secs(epoch_secs) {
        Some(secs) => secs,
        None => 0,
    };
    let res = format_registered_time_at(epoch_secs, offset_secs);
    assert(res@ == registered_time(epoch_secs as int, offset_secs as int));
    res
}

/// A clock shows the seconds that are over since the start of 1970, and 0 before it.
pub proof fn law_clock_counts_seconds(nanos: int)
    requires
        nanos < 0x8000_0000_0000_0000 * 1_000_000_000,
    ensures
        nanos < 0 ==> clock_value(nanos) == 0,
        nanos >= 0 ==> clock_value(nanos) * 1_000_000_000 <= nanos < (clock_value(nanos) + 1)
            * 1_000_000_000,
{
}

/// Seconds are kept as they are where they fit, and else come out as much too low as a turn of
/// the number makes.
pub proof fn law_seconds_with_a_sign(secs: u64)
    ensures
        secs < 0x8000_0000_0000_0000 ==> signed_secs(secs) == secs,
        secs >= 0x8000_0000_0000_0000 ==> signed_secs(secs) == secs - 0x1_0000_0000_0000_0000,
{
}

/// A registration time is written as its own date and time in its own zone, to the
/// millisecond: the zone in hours where it is whole hours from UTC, and else with minutes. A
/// time that has no date is written as its number.
pub proof fn law_registered_time(epoch_secs: int, offset_secs: int)
    ensures
        epoch_secs < -8334601228800 || epoch_secs > 8210266876799 ==> registered_time(
            epoch_secs,
            offset_secs,
        ) == signed_decimal_text(epoch_secs),
        -8334601228800 <= epoch_secs <= 8210266876799 && offset_secs % 3600 == 0 ==> registered_time(
            epoch_secs,
            offset_secs,
        ) == time_text(epoch_secs, offset_secs, "%Y-%m-%dT%H:%M:%S%.3f%:::z"@),
        -8334601228800 <= epoch_secs <= 8210266876799 && offset_secs % 3600 != 0 ==> registered_time(
            epoch_secs,
            offset_secs,
        ) == time_text(epoch_secs, offset_secs, "%Y-%m-%dT%H:%M:%S%.3f%:z"@),
{
}

/// The text of a registration time is that in some zone less than a day from UTC.
pub proof fn law_registered_time_in_some_zone(epoch_secs: int, text: Seq<char>)
    ensures
        is_registered_time(epoch_secs, text) <==> exists|offset_secs: int|
            -86400 < offset_secs < 86400 && text == #[trigger] registered_time(
                epoch_secs,
                offset_secs,
            ),
{
}

} // verus!
