//! The `prom_delta` aggregate: plain per-window deltas, no counter-reset
//! correction and no rate normalization.
//!
//! Time is divided into sliding windows of fixed size; each window's result
//! is derived from the first and last sample buffered for it. The transition
//! checks the row against the declared bounds and feeds the window state;
//! the finalizer hands out one entry per completed window, carrying the
//! window's bounds and samples for the floating-point extrapolation.

use vstd::prelude::*;

use crate::aggregates::gapfill_delta::{
    deltas_view, flush_all, init_view, spec_add, view_wf, GapfillDeltaTransition, GapfillView,
    WindowSamples,
};
use crate::aggregates::vector_selector::MAX_MS_DURATION;
use crate::aggregates::{AggregateError, Milliseconds};

verus! {

#[allow(non_camel_case_types)]
pub struct prom_delta;

/// The model the transition starts from: the caller's existing state, or a
/// fresh one built from the row's configuration arguments.
pub open spec fn base_view(
    state: Option<GapfillDeltaTransition>,
    lowest_time: i64,
    greatest_time: i64,
    step_size: i64,
    range: i64,
    is_counter: bool,
    is_rate: bool,
) -> GapfillView {
    match state {
        Some(s) => s@,
        None => init_view(
            lowest_time as int,
            greatest_time as int,
            range as int * 1000,
            step_size as int * 1000,
            is_counter,
            is_rate,
        ),
    }
}

/// The configuration a live state must agree with: the host passes the same
/// arguments on every row of one aggregation.
pub open spec fn state_matches(
    s: GapfillDeltaTransition,
    lowest_time: i64,
    greatest_time: i64,
    step_size: i64,
    range: i64,
    is_counter: bool,
    is_rate: bool,
) -> bool {
    &&& view_wf(s@)
    &&& s@.lowest == lowest_time as int
    &&& s@.greatest == greatest_time as int
    &&& s@.step == step_size as int * 1000
    &&& s@.range == range as int * 1000
    &&& s@.is_counter == is_counter
    &&& s@.is_rate == is_rate
}

/// The machine limits under which a fresh state can be built.
pub open spec fn config_ok(
    lowest_time: i64,
    greatest_time: i64,
    step_size: i64,
    range: i64,
) -> bool {
    &&& 1 <= range <= MAX_MS_DURATION
    &&& 1 <= step_size <= MAX_MS_DURATION
    &&& lowest_time <= greatest_time
    &&& greatest_time as int + range as int * 1000 + step_size as int * 1000 <= i64::MAX as int
}

impl prom_delta {
    /// One transition step: rejects a row outside
    /// `[lowest_time, greatest_time]`, creates the state on the first row,
    /// and otherwise advances the window state by this row.
    pub fn state(
        state: Option<GapfillDeltaTransition>,
        lowest_time: i64,
        greatest_time: i64,
        step_size: Milliseconds,
        range: Milliseconds,
        sample_time: i64,
        sample_value: u64,
    ) -> (r: Result<GapfillDeltaTransition, AggregateError>)
        requires
            config_ok(lowest_time, greatest_time, step_size, range),
            state matches Some(s) ==> state_matches(
                s,
                lowest_time,
                greatest_time,
                step_size,
                range,
                false,
                false,
            ),
        ensures
            sample_time < lowest_time || sample_time > greatest_time ==> r == Err::<
                GapfillDeltaTransition,
                AggregateError,
            >(AggregateError::TimeNotInBounds),
            lowest_time <= sample_time <= greatest_time ==> {
                let base = base_view(
                    state,
                    lowest_time,
                    greatest_time,
                    step_size,
                    range,
                    false,
                    false,
                );
                match r {
                    Ok(s2) => view_wf(s2@) && spec_add(base, sample_time, sample_value) == Ok::<
                        GapfillView,
                        AggregateError,
                    >(s2@),
                    Err(e) => spec_add(base, sample_time, sample_value) == Err::<
                        GapfillView,
                        AggregateError,
                    >(e),
                }
            },
    {
        if sample_time < lowest_time || sample_time > greatest_time {
            return Err(AggregateError::TimeNotInBounds);
        }
        let mut s: GapfillDeltaTransition = match state {
            Some(s) => s,
            None => GapfillDeltaTransition::new(
                lowest_time,
                greatest_time,
                range,
                step_size,
                false,
                false,
            ),
        };
        match s.add_data_point(sample_time, sample_value) {
            Ok(()) => Ok(s),
            Err(e) => Err(e),
        }
    }

    /// The finalizer: flushes the remaining windows and hands out the
    /// per-window entries, or nothing when no row was seen.
    pub fn finalize(state: Option<GapfillDeltaTransition>) -> (r: Option<
        Vec<Option<WindowSamples>>,
    >)
        requires
            state matches Some(s) ==> view_wf(s@),
        ensures
            state is None <==> r is None,
            state matches Some(s) ==> (r matches Some(d) && deltas_view(d@) == flush_all(
                s@,
            ).deltas),
    {
        match state {
            Some(s) => Some(s.finalize()),
            None => None,
        }
    }
}

} // verus!
