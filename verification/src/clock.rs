//! The time of day, as far as the file system records it.

use vstd::prelude::*;
use chrono::{Datelike, Timelike};
use crate::disk::Stamp;
use crate::types::{pack_date, pack_time, DirectoryEntry};

verus! {

/// A calendar date and a time of day.
#[derive(Debug, Clone, Copy)]
pub struct LocalTime {
    pub year: i32,
    pub month: u32,
    pub day: u32,
    pub hour: u32,
    pub minute: u32,
    pub second: u32,
}

/// Calls `chrono::Local::now` and takes the fields of its result: the month counts from 1
/// to 12, the day from 1 to 31, the hour from 0 to 23, the minute and the second from 0 to
/// 59. Which moment it is depends on the clock of the machine.
#[verifier::external_body]
pub(crate) fn local_time() -> (t: LocalTime)
    ensures
        1 <= t.month <= 12,
        1 <= t.day <= 31,
        t.hour <= 23,
        t.minute <= 59,
        t.second <= 59,
{
    let now = chrono::Local::now();
    LocalTime {
        year: now.year(),
        month: now.month(),
        day: now.day(),
        hour: now.hour(),
        minute: now.minute(),
        second: now.second(),
    }
}

/// `n` if a byte can hold it.
pub open spec fn byte_or(n: u32, default: u8) -> u8 {
    if n <= 255 {
        n as u8
    } else {
        default
    }
}

/// A moment in packed form. A year that 16 bits cannot hold counts as 2025.
pub open spec fn stamp_spec(t: LocalTime) -> Stamp {
    let year = if 0 <= t.year <= 0xFFFF { t.year as u16 } else { 2025u16 };
    Stamp {
        date: pack_date(year, byte_or(t.month, 1), byte_or(t.day, 1)),
        time: pack_time(byte_or(t.hour, 0), byte_or(t.minute, 0), byte_or(t.second, 0)),
    }
}

fn to_byte(n: u32, default: u8) -> (b: u8)
    ensures
        b == byte_or(n, default),
{
    if n <= 255 {
        n as u8
    } else {
        default
    }
}

/// Packs a moment.
pub fn stamp_of(t: &LocalTime) -> (s: Stamp)
    ensures
        s == stamp_spec(*t),
{
    let year: u16 = if 0 <= t.year && t.year <= 0xFFFF { t.year as u16 } else { 2025 };
    Stamp {
        date: DirectoryEntry::encode_date(year, to_byte(t.month, 1), to_byte(t.day, 1)),
        time: DirectoryEntry::encode_time(
            to_byte(t.hour, 0),
            to_byte(t.minute, 0),
            to_byte(t.second, 0),
        ),
    }
}

/// The local time in packed form.
pub fn local_stamp() -> (s: Stamp)
    ensures
        exists|t: LocalTime|
            1 <= t.month <= 12 && 1 <= t.day <= 31 && t.hour <= 23 && t.minute <= 59 && t.second
                <= 59 && s == #[trigger] stamp_spec(t),
{
    let t = local_time();
    let s = stamp_of(&t);
    assert(s == stamp_spec(t));
    s
}

} // verus!
