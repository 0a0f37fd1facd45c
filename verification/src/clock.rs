use vstd::prelude::*;

verus! {

/// `chrono::Utc::now().timestamp()`: the seconds that the system clock counts
/// since the Unix epoch. Nothing is promised of the number.
#[verifier::external_body]
pub(crate) fn unix_seconds() -> i64 {
    chrono::Utc::now().timestamp()
}

/// `chrono::Utc::now().to_string()`: the date and time of the system clock as
/// text. Nothing is promised of the text.
#[verifier::external_body]
pub(crate) fn utc_text() -> String {
    chrono::Utc::now().to_string()
}

/// The second that the system clock shows, as the database counts seconds:
/// the low 32 bits of the clock's reading.
pub fn now() -> u32 {
    second_of(unix_seconds())
}

/// The second that a reading of the clock stands for, as the database
/// counts seconds: the low 32 bits of the reading.
pub open spec fn low_bits(reading: i64) -> u32 {
    (reading & 0xFFFF_FFFF) as u32
}

/// The second that a reading of the clock stands for, as the database
/// counts seconds: the low 32 bits of the reading. A reading that 32 bits
/// hold stands for itself.
pub fn second_of(reading: i64) -> (second: u32)
    ensures
        second == low_bits(reading),
        0 <= reading <= u32::MAX ==> second == reading,
{
    assert(reading & 0xFFFF_FFFF == reading as u32) by (bit_vector);
    assert(0 <= reading <= 0xFFFF_FFFF ==> reading & 0xFFFF_FFFF == reading) by (bit_vector);
    #[verifier::truncate]
    (reading as u32)
}

/// The seconds from one second to a later one; none where it is not later.
pub open spec fn seconds_between(now: u32, at: u32) -> u64 {
    if at > now {
        (at - now) as u64
    } else {
        0
    }
}

/// The seconds from a second to a later one; none where it is not later.
pub fn seconds_until(at: u32, now: u32) -> (seconds: u64)
    ensures
        seconds == seconds_between(now, at),
{
    if at > now {
        (at - now) as u64
    } else {
        0
    }
}

} // verus!
