//! The clock, and how long a sink holds off between two tries.

use vstd::prelude::*;

verus! {

/// A moment: seconds since the epoch and the nanoseconds into that
/// second.
#[derive(Debug, Clone, Copy, PartialEq, Eq)]
pub struct Moment {
    pub seconds: i64,
    pub nanos: u32,
}

/// The present moment: `std::time::SystemTime::now`, turned into a
/// `chrono::DateTime<Utc>` by chrono's `From<SystemTime>` and read off with
/// `DateTime::timestamp` and `DateTime::timestamp_subsec_nanos`. Nothing is
/// promised of a clock's answer.
#[verifier::external_body]
pub(crate) fn utc_now() -> Moment {
    let now = chrono::DateTime::<chrono::Utc>::from(std::time::SystemTime::now());
    Moment { seconds: now.timestamp(), nanos: now.timestamp_subsec_nanos() }
}

/// The milliseconds to hold off after `attempts` tries in a row that came
/// to nothing: none before the first, then 1, 4, 8 and so on doubling, and
/// 512 from the ninth on.
pub open spec fn delay_of(attempts: u32) -> u64 {
    if attempts == 0 {
        0
    } else if attempts == 1 {
        1
    } else if attempts == 2 {
        4
    } else if attempts == 3 {
        8
    } else if attempts == 4 {
        16
    } else if attempts == 5 {
        32
    } else if attempts == 6 {
        64
    } else if attempts == 7 {
        128
    } else if attempts == 8 {
        256
    } else {
        512
    }
}

/// The milliseconds to hold off after `attempts` fruitless tries.
pub fn delay_millis(attempts: u32) -> (ms: u64)
    ensures
        ms == delay_of(attempts),
{
    match attempts {
        0 => 0,
        1 => 1,
        2 => 4,
        3 => 8,
        4 => 16,
        5 => 32,
        6 => 64,
        7 => 128,
        8 => 256,
        _ => 512,
    }
}

/// The holding off never shrinks as the tries go on, and never passes 512
/// milliseconds.
pub proof fn lemma_delay_bounded(a: u32, b: u32)
    requires
        a <= b,
    ensures
        delay_of(a) <= delay_of(b) <= 512,
{
}

} // verus!
