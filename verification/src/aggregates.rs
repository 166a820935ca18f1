//! Shared vocabulary of the aggregation core: time units, the stale marker,
//! samples, the fatal-error taxonomy, and the IEEE-754 value order that the
//! counter-reset logic decides with.

use vstd::prelude::*;

pub mod codec;
pub mod counter;
pub mod gapfill_delta;
pub mod irate;
pub mod prom_delta;
pub mod prom_increase;
pub mod prom_rate;
pub mod vector_selector;

verus! {

/// Millisecond-resolution duration, as handed in by the host.
pub type Milliseconds = i64;

/// Microsecond-resolution instant or duration, the unit of all internal
/// timestamp arithmetic.
pub type Microseconds = i64;

/// Bit pattern of the stale marker: a reserved NaN that means "no real sample
/// here". It is distinguished from ordinary NaN by exact bit equality.
pub const STALE_NAN: u64 = 0x7ff0_0000_0000_0002;

pub const USECS_PER_SEC: i64 = 1_000_000;

pub const USECS_PER_MS: i64 = 1_000;

/// One input row: a microsecond timestamp and the IEEE-754 bit pattern of the
/// double-precision sample value.
#[derive(Clone, Copy, Debug, PartialEq, Eq, Structural)]
pub struct Sample {
    pub time: Microseconds,
    pub value: u64,
}

/// The fatal conditions of the aggregation core. Each aborts the whole
/// aggregation in the host engine; none is recoverable.
#[derive(Clone, Copy, Debug, PartialEq, Eq, Structural)]
pub enum AggregateError {
    /// A sample timestamp lies outside the `[lowest_time, greatest_time]`
    /// bounds declared to a window aggregate.
    TimeNotInBounds,
    /// A sample arrived with a timestamp before one already processed by an
    /// ordered aggregate.
    NotChronological,
    /// A sample timestamp exceeds the selector's declared `end_time`.
    TimeGreaterThanExpected,
    /// A sample timestamp precedes the selector's earliest admissible time.
    TimeLessThanExpected,
    /// Two partial selector states with different configurations were handed
    /// to `combine`.
    IncompatibleSelectors,
}

impl AggregateError {
    /// The wording the host engine reports for this condition.
    pub fn message(&self) -> (r: &'static str)
        ensures
            r == self.spec_message(),
    {
        match self {
            AggregateError::TimeNotInBounds => "input time not in bounds",
            AggregateError::NotChronological => "inputs are not in chronological order",
            AggregateError::TimeGreaterThanExpected => "input time greater than expected",
            AggregateError::TimeLessThanExpected => "input time less than expected",
            AggregateError::IncompatibleSelectors => "trying to combine incompatible vector selectors",
        }
    }

    pub open spec fn spec_message(&self) -> &'static str {
        match self {
            AggregateError::TimeNotInBounds => "input time not in bounds",
            AggregateError::NotChronological => "inputs are not in chronological order",
            AggregateError::TimeGreaterThanExpected => "input time greater than expected",
            AggregateError::TimeLessThanExpected => "input time less than expected",
            AggregateError::IncompatibleSelectors => "trying to combine incompatible vector selectors",
        }
    }
}

/// Whether this bit pattern is the stale marker.
pub open spec fn spec_is_stale(value: u64) -> bool {
    value == STALE_NAN
}

pub fn is_stale(value: u64) -> (r: bool)
    ensures
        r == spec_is_stale(value),
{
    value == STALE_NAN
}

/// Sign bit of an encoded double.
pub open spec fn val_sign(a: u64) -> u64 {
    a >> 63
}

/// Whether an encoded double is a NaN (exponent all ones, mantissa nonzero).
/// The stale marker is one such pattern.
pub open spec fn val_is_nan(a: u64) -> bool {
    (a >> 52) & 0x7ff == 0x7ff && a & 0xf_ffff_ffff_ffff != 0
}

/// Whether an encoded double is a zero of either sign.
pub open spec fn val_is_zero(a: u64) -> bool {
    a & 0x7fff_ffff_ffff_ffff == 0
}

/// The IEEE-754 `<` order on encoded doubles: any comparison against a NaN is
/// false, the two zeros are equal, and otherwise the order is sign-magnitude
/// order on the bit patterns.
pub open spec fn spec_val_lt(a: u64, b: u64) -> bool {
    if val_is_nan(a) || val_is_nan(b) {
        false
    } else if val_is_zero(a) && val_is_zero(b) {
        false
    } else if val_sign(a) != val_sign(b) {
        val_sign(a) == 1
    } else if val_sign(a) == 0 {
        a < b
    } else {
        b < a
    }
}

/// Decides `spec_val_lt`, the IEEE-754 `<` on the doubles the bit patterns
/// encode.
pub fn val_lt(a: u64, b: u64) -> (r: bool)
    ensures
        r == spec_val_lt(a, b),
{
    let a_nan: bool = (a >> 52) & 0x7ff == 0x7ff && a & 0xf_ffff_ffff_ffff != 0;
    let b_nan: bool = (b >> 52) & 0x7ff == 0x7ff && b & 0xf_ffff_ffff_ffff != 0;
    if a_nan || b_nan {
        false
    } else if a & 0x7fff_ffff_ffff_ffff == 0 && b & 0x7fff_ffff_ffff_ffff == 0 {
        false
    } else if (a >> 63) != (b >> 63) {
        (a >> 63) == 1
    } else if (a >> 63) == 0 {
        a < b
    } else {
        b < a
    }
}

} // verus!
