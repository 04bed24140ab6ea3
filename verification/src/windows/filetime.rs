//! Windows file times: 100-nanosecond ticks since 1601-01-01.
use vstd::prelude::*;

verus! {

/// Ticks between the Windows epoch (1601) and the Unix epoch (1970).
pub const WINDOWS_TO_UNIX_EPOCH_100NS: u64 = 116_444_736_000_000_000;

/// A file time as its two 32-bit halves.
#[derive(Clone, Copy, Debug, PartialEq, Eq, Structural)]
pub struct FileTime {
    pub low: u32,
    pub high: u32,
}

/// The tick count that the halves of a file time make up.
pub open spec fn ticks_of(value: FileTime) -> u64 {
    ((value.high as u64) * 0x1_0000_0000 + value.low as u64) as u64
}

/// Nanoseconds since the Unix epoch for a tick count: none before the Unix
/// epoch, and saturated at the largest `u64`.
pub open spec fn unix_nanos_of_ticks(ticks: u64) -> Option<u64> {
    if ticks < WINDOWS_TO_UNIX_EPOCH_100NS {
        None
    } else if (ticks - WINDOWS_TO_UNIX_EPOCH_100NS) * 100 > u64::MAX {
        Some(u64::MAX)
    } else {
        Some(((ticks - WINDOWS_TO_UNIX_EPOCH_100NS) * 100) as u64)
    }
}

/// The tick count for nanoseconds since the Unix epoch: whole ticks, with the
/// count truncated to 64 bits and the sum saturated at the largest `u64`.
pub open spec fn ticks_of_unix_nanos(nanos: u128) -> u64 {
    let whole = ((nanos / 100) as u64) as nat;
    if WINDOWS_TO_UNIX_EPOCH_100NS + whole > u64::MAX {
        u64::MAX
    } else {
        (WINDOWS_TO_UNIX_EPOCH_100NS + whole) as u64
    }
}

/// The tick count of a file time.
pub fn to_ticks(value: FileTime) -> (r: u64)
    ensures
        r == ticks_of(value),
{
    let r = ((value.high as u64) << 32) | (value.low as u64);
    let (high, low) = (value.high, value.low);
    assert(r == ((high as u64) * 0x1_0000_0000 + low as u64) as u64) by (bit_vector)
        requires r == ((high as u64) << 32) | (low as u64);
    r
}

/// The file time of a tick count.
pub fn from_ticks(ticks: u64) -> (r: FileTime)
    ensures
        ticks_of(r) == ticks,
        r.low == ticks % 0x1_0000_0000,
        r.high == ticks / 0x1_0000_0000,
{
    let low = ticks as u32;
    let high = (ticks >> 32) as u32;
    assert(low == ticks % 0x1_0000_0000 && high == ticks / 0x1_0000_0000
        && ((high as u64) * 0x1_0000_0000 + low as u64) as u64 == ticks) by (bit_vector)
        requires low == ticks as u32, high == (ticks >> 32) as u32;
    FileTime { low, high }
}

/// Nanoseconds since the Unix epoch for a tick count, or `None` before the
/// Unix epoch.
pub fn unix_nanos_from_ticks(ticks: u64) -> (r: Option<u64>)
    ensures
        r == unix_nanos_of_ticks(ticks),
{
    match ticks.checked_sub(WINDOWS_TO_UNIX_EPOCH_100NS) {
        Some(delta) => match delta.checked_mul(100) {
            Some(nanos) => Some(nanos),
            None => Some(u64::MAX),
        },
        None => None,
    }
}

/// The tick count for nanoseconds since the Unix epoch.
pub fn ticks_from_unix_nanos(nanos: u128) -> (r: u64)
    ensures
        r == ticks_of_unix_nanos(nanos),
{
    let whole = (nanos / 100) as u64;
    WINDOWS_TO_UNIX_EPOCH_100NS.saturating_add(whole)
}

/// Splitting a tick count into halves and joining them gives it back, and
/// so does joining halves and splitting them.
pub proof fn lemma_ticks_round_trip(value: FileTime, ticks: u64)
    ensures
        ({
            let t = ticks_of(value);
            FileTime { low: (t % 0x1_0000_0000) as u32, high: (t / 0x1_0000_0000) as u32 } == value
        }),
{
    let (high, low) = (value.high, value.low);
    assert((((high as u64) * 0x1_0000_0000 + low as u64) as u64) % 0x1_0000_0000 == low
        && (((high as u64) * 0x1_0000_0000 + low as u64) as u64) / 0x1_0000_0000 == high) by (bit_vector);
}

/// A tick count at or after the Unix epoch, whose distance from it in
/// nanoseconds fits in 64 bits, survives conversion to nanoseconds and back.
pub proof fn lemma_unix_nanos_round_trip(ticks: u64)
    requires
        ticks >= WINDOWS_TO_UNIX_EPOCH_100NS,
        (ticks - WINDOWS_TO_UNIX_EPOCH_100NS) * 100 <= u64::MAX,
    ensures
        unix_nanos_of_ticks(ticks) matches Some(nanos) && ticks_of_unix_nanos(nanos as u128) == ticks,
{
    let delta = (ticks - WINDOWS_TO_UNIX_EPOCH_100NS) as u64;
    let nanos = (delta * 100) as u64;
    assert((nanos as u128) / 100 == delta as u128);
}

} // verus!
