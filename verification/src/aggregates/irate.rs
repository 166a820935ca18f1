//! The `irate` aggregate: the instantaneous rate between the last two
//! samples of an ordered series. The verified state keeps the two freshest
//! non-stale samples; the finalizer decides the counter-reset swap exactly
//! and hands the finisher the operands of the floating-point quotient.

use vstd::prelude::*;

use crate::aggregates::{spec_is_stale, spec_val_lt, AggregateError, Sample};

verus! {

/// The two freshest non-stale samples seen so far.
#[derive(Clone, Copy, Debug, PartialEq, Eq, Structural)]
pub struct IRateState {
    pub prior: Option<Sample>,
    pub last: Option<Sample>,
}

impl IRateState {
    /// The empty state: no sample seen yet.
    pub fn new() -> (r: IRateState)
        ensures
            r == (IRateState { prior: None::<Sample>, last: None::<Sample> }),
    {
        IRateState { prior: None, last: None }
    }
}

/// One transition of the model: a stale value changes nothing; a row before
/// the freshest sample is a fatal ordering violation; any other row shifts
/// the freshest sample down and takes its place.
pub open spec fn spec_irate_transition(s: IRateState, t: i64, v: u64) -> Result<
    IRateState,
    AggregateError,
> {
    if spec_is_stale(v) {
        Ok(s)
    } else if s.last matches Some(l) && t < l.time {
        Err(AggregateError::NotChronological)
    } else {
        Ok(IRateState { prior: s.last, last: Some(Sample { time: t, value: v }) })
    }
}

/// One transition step of the `irate` aggregate.
pub fn irate_transition(state: Option<IRateState>, sample_time: i64, sample_value: u64) -> (r:
    Result<IRateState, AggregateError>)
    ensures
        ({
            let base = match state {
                Some(s) => s,
                None => IRateState { prior: None::<Sample>, last: None::<Sample> },
            };
            match r {
                Ok(s2) => spec_irate_transition(base, sample_time, sample_value) == Ok::<
                    IRateState,
                    AggregateError,
                >(s2),
                Err(e) => spec_irate_transition(base, sample_time, sample_value) == Err::<
                    IRateState,
                    AggregateError,
                >(e),
            }
        }),
{
    let s: IRateState = match state {
        Some(s) => s,
        None => IRateState::new(),
    };
    if crate::aggregates::is_stale(sample_value) {
        return Ok(s);
    }
    if let Some(l) = s.last {
        if sample_time < l.time {
            return Err(AggregateError::NotChronological);
        }
    }
    Ok(IRateState { prior: s.last, last: Some(Sample { time: sample_time, value: sample_value }) })
}

/// What the finisher divides: the two value bit patterns already in slope
/// order (a counter reset swaps them), and the sampled interval in
/// microseconds. The quotient `(upper - lower) / seconds` is floating-point
/// work and stays with the finisher.
#[derive(Clone, Copy, Debug, PartialEq)]
pub enum IRateResult {
    /// Fewer than two samples were seen: the aggregate's output is zero.
    Zero,
    /// Two samples were seen: divide the difference of the encoded doubles
    /// by the interval in seconds.
    Slope { lower: u64, upper: u64, interval_usecs: i128 },
}

/// The finalizer of `irate`: zero without two samples; otherwise the
/// operands of the instantaneous-rate quotient, with the two values swapped
/// when the last one dropped below the one before it.
pub fn irate_final(state: Option<IRateState>) -> (r: IRateResult)
    ensures
        ({
            match state {
                None => r == IRateResult::Zero,
                Some(s) => match (s.prior, s.last) {
                    (Some(p), Some(l)) => {
                        let swapped = spec_val_lt(l.value, p.value);
                        r == (IRateResult::Slope {
                            lower: if swapped {
                                l.value
                            } else {
                                p.value
                            },
                            upper: if swapped {
                                p.value
                            } else {
                                l.value
                            },
                            interval_usecs: (l.time - p.time) as i128,
                        })
                    },
                    _ => r == IRateResult::Zero,
                },
            }
        }),
{
    let s: IRateState = match state {
        Some(s) => s,
        None => { return IRateResult::Zero },
    };
    let (p, l): (Sample, Sample) = match (s.prior, s.last) {
        (Some(p), Some(l)) => (p, l),
        _ => { return IRateResult::Zero },
    };
    let interval: i128 = l.time as i128 - p.time as i128;
    if crate::aggregates::val_lt(l.value, p.value) {
        IRateResult::Slope { lower: l.value, upper: p.value, interval_usecs: interval }
    } else {
        IRateResult::Slope { lower: p.value, upper: l.value, interval_usecs: interval }
    }
}

} // verus!
