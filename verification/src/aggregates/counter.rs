//! Counter-reset accumulators: `counter_reset_count` counts the resets of a
//! monotonically-intended-increasing metric, and `counter_reset_sum` reports
//! the values the counter held just before each reset. Their floating-point
//! sum is taken by the finisher; the verified state records the exact list
//! of addends.

use vstd::prelude::*;

use crate::aggregates::{spec_is_stale, spec_val_lt, AggregateError, Sample};

verus! {

/// State of the counter-reset aggregates: the freshest non-stale sample, the
/// reset count, and the value observed just before each reset, in order.
#[derive(Clone, Debug, PartialEq)]
pub struct CounterResetState {
    pub prior: Sample,
    pub resets: i64,
    pub reset_values: Vec<u64>,
}

/// Mathematical model of the counter-reset state.
pub struct CounterView {
    pub prior: Sample,
    pub resets: int,
    pub reset_values: Seq<u64>,
}

impl View for CounterResetState {
    type V = CounterView;

    open spec fn view(&self) -> CounterView {
        CounterView { prior: self.prior, resets: self.resets as int, reset_values: self.reset_values@ }
    }
}

/// The reset count always equals the number of recorded pre-reset values.
pub open spec fn counter_wf(v: CounterView) -> bool {
    v.resets == v.reset_values.len()
}

/// The state after one row, ordering already checked: a stale value changes
/// nothing; a value below the prior one records a reset; and every non-stale
/// row becomes the new prior sample.
pub open spec fn counter_step(s: CounterView, t: i64, v: u64) -> CounterView {
    if spec_is_stale(v) {
        s
    } else if spec_val_lt(v, s.prior.value) {
        CounterView {
            prior: Sample { time: t, value: v },
            resets: s.resets + 1,
            reset_values: s.reset_values.push(s.prior.value),
        }
    } else {
        CounterView { prior: Sample { time: t, value: v }, ..s }
    }
}

/// One transition of the model: a row before the prior sample's time is a
/// fatal ordering violation, any other row is folded in by `counter_step`.
pub open spec fn spec_counter_transition(s: CounterView, t: i64, v: u64) -> Result<
    CounterView,
    AggregateError,
> {
    if t < s.prior.time {
        Err(AggregateError::NotChronological)
    } else {
        Ok(counter_step(s, t, v))
    }
}

/// The model a transition starts from: the existing state, or one seeded
/// with the first row itself.
pub open spec fn counter_base(state: Option<CounterResetState>, t: i64, v: u64) -> CounterView {
    match state {
        Some(s) => s@,
        None => CounterView {
            prior: Sample { time: t, value: v },
            resets: 0,
            reset_values: Seq::empty(),
        },
    }
}

impl CounterResetState {
    /// Seeds the state with the first row.
    pub fn new(t: i64, v: u64) -> (r: CounterResetState)
        ensures
            r@ == (CounterView {
                prior: Sample { time: t, value: v },
                resets: 0,
                reset_values: Seq::<u64>::empty(),
            }),
            counter_wf(r@),
    {
        let r = CounterResetState { prior: Sample { time: t, value: v }, resets: 0, reset_values: Vec::new() };
        proof {
            assert(r.reset_values@ =~= Seq::<u64>::empty());
        }
        r
    }
}

/// One transition step of both counter-reset aggregates: creates the state
/// from the first row, rejects out-of-order rows, skips stale values, and
/// records a reset whenever the value drops below the prior one.
pub fn counter_reset_transition(
    state: Option<CounterResetState>,
    sample_time: i64,
    sample_value: u64,
) -> (r: Result<CounterResetState, AggregateError>)
    requires
        state matches Some(s) ==> counter_wf(s@) && s.resets < i64::MAX,
    ensures
        match r {
            Ok(s2) => counter_wf(s2@) && spec_counter_transition(
                counter_base(state, sample_time, sample_value),
                sample_time,
                sample_value,
            ) == Ok::<CounterView, AggregateError>(s2@),
            Err(e) => spec_counter_transition(
                counter_base(state, sample_time, sample_value),
                sample_time,
                sample_value,
            ) == Err::<CounterView, AggregateError>(e),
        },
{
    let mut s: CounterResetState = match state {
        Some(s) => s,
        None => CounterResetState::new(sample_time, sample_value),
    };
    if sample_time < s.prior.time {
        return Err(AggregateError::NotChronological);
    }
    if crate::aggregates::is_stale(sample_value) {
        return Ok(s);
    }
    if crate::aggregates::val_lt(sample_value, s.prior.value) {
        s.resets = s.resets + 1;
        s.reset_values.push(s.prior.value);
    }
    s.prior = Sample { time: sample_time, value: sample_value };
    Ok(s)
}

/// The finalizer of `counter_reset_sum`: the recorded pre-reset values,
/// whose floating-point sum is the aggregate's output; nothing when no row
/// was seen.
pub fn counter_reset_sum_final(state: Option<CounterResetState>) -> (r: Option<Vec<u64>>)
    ensures
        state is None <==> r is None,
        state matches Some(s) ==> r matches Some(vals) && vals@ == s.reset_values@,
{
    match state {
        Some(s) => Some(s.reset_values),
        None => None,
    }
}

/// The finalizer of `counter_reset_count`: how many resets were observed;
/// nothing when no row was seen.
pub fn counter_reset_count_final(state: Option<CounterResetState>) -> (r: Option<i64>)
    ensures
        state is None <==> r is None,
        state matches Some(s) ==> r == Some(s.resets),
{
    match state {
        Some(s) => Some(s.resets),
        None => None,
    }
}

/// Rows in non-decreasing time order.
pub open spec fn chronological(rows: Seq<Sample>) -> bool {
    forall|i: int, j: int|
        #![trigger rows[i], rows[j]]
        0 <= i < j < rows.len() ==> rows[i].time <= rows[j].time
}

/// No row carries the stale marker.
pub open spec fn no_stale(rows: Seq<Sample>) -> bool {
    forall|i: int| 0 <= i < rows.len() ==> !spec_is_stale((#[trigger] rows[i]).value)
}

/// The values held just before each drop in a row sequence.
pub open spec fn drops(rows: Seq<Sample>) -> Seq<u64>
    decreases rows.len(),
{
    if rows.len() < 2 {
        Seq::empty()
    } else {
        (if spec_val_lt(rows[1].value, rows[0].value) {
            seq![rows[0].value]
        } else {
            Seq::empty()
        }) + drops(rows.drop_first())
    }
}

/// Folding a row sequence into a state, ordering checks already passed.
pub open spec fn run_from(s: CounterView, rows: Seq<Sample>) -> CounterView
    decreases rows.len(),
{
    if rows.len() == 0 {
        s
    } else {
        run_from(counter_step(s, rows[0].time, rows[0].value), rows.drop_first())
    }
}

/// The state the aggregate reaches on a whole row sequence, the first row
/// seeding it.
pub open spec fn run_counter(rows: Seq<Sample>) -> CounterView {
    run_from(
        CounterView { prior: rows[0], resets: 0, reset_values: Seq::empty() },
        rows.drop_first(),
    )
}

proof fn lemma_run_from_drops(s: CounterView, rows: Seq<Sample>)
    requires
        no_stale(rows),
    ensures
        run_from(s, rows).reset_values == s.reset_values + drops(seq![s.prior] + rows),
        run_from(s, rows).resets == s.resets + drops(seq![s.prior] + rows).len(),
    decreases rows.len(),
{
    let all = seq![s.prior] + rows;
    if rows.len() == 0 {
        assert(all.len() == 1);
        assert(drops(all) =~= Seq::<u64>::empty());
        assert(s.reset_values + Seq::<u64>::empty() =~= s.reset_values);
    } else {
        let s2 = counter_step(s, rows[0].time, rows[0].value);
        assert(forall|i: int| 0 <= i < rows.drop_first().len() ==> #[trigger] rows.drop_first()[i]
            == rows[i + 1]);
        lemma_run_from_drops(s2, rows.drop_first());
        assert(all[0] == s.prior && all[1] == rows[0]);
        assert(all.drop_first() =~= rows);
        assert(seq![s2.prior] + rows.drop_first() =~= rows);
        if spec_val_lt(rows[0].value, s.prior.value) {
            assert(drops(all) == seq![s.prior.value] + drops(rows));
            assert((s.reset_values.push(s.prior.value)) + drops(rows) =~= s.reset_values + (seq![
                s.prior.value] + drops(rows)));
        } else {
            assert(drops(all) == Seq::<u64>::empty() + drops(rows));
            assert(Seq::<u64>::empty() + drops(rows) =~= drops(rows));
            assert(s.reset_values + drops(rows) =~= s.reset_values + drops(all));
        }
    }
}

/// Over any chronological, stale-free row sequence, the recorded pre-reset
/// values are exactly the values just before each drop, and the reset count
/// is their number.
pub proof fn lemma_counter_reset_accumulation(rows: Seq<Sample>)
    requires
        rows.len() >= 1,
        no_stale(rows),
    ensures
        run_counter(rows).reset_values == drops(rows),
        run_counter(rows).resets == drops(rows).len(),
{
    let s0 = CounterView { prior: rows[0], resets: 0, reset_values: Seq::<u64>::empty() };
    assert(forall|i: int| 0 <= i < rows.drop_first().len() ==> #[trigger] rows.drop_first()[i]
        == rows[i + 1]);
    lemma_run_from_drops(s0, rows.drop_first());
    assert(seq![rows[0]] + rows.drop_first() =~= rows);
    assert(Seq::<u64>::empty() + drops(rows) =~= drops(rows));
}

} // verus!
