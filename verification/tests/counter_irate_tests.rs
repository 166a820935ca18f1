use promscale::aggregates::counter::{
    counter_reset_count_final, counter_reset_sum_final, counter_reset_transition,
    CounterResetState,
};
use promscale::aggregates::irate::{irate_final, irate_transition, IRateResult, IRateState};
use promscale::aggregates::{AggregateError, STALE_NAN};

fn mins(m: i64) -> i64 {
    m * 60 * 1_000_000
}

fn fixture() -> Vec<(i64, f64)> {
    let values = [0.0, 12.0, 24.0, 15.0, 48.0, 60.0, 0.0, 12.0, 24.0, 1.0, 48.0];
    values
        .iter()
        .enumerate()
        .map(|(i, v)| (mins(5 * i as i64), *v))
        .collect()
}

fn run_counter(rows: &[(i64, f64)]) -> CounterResetState {
    let mut s: Option<CounterResetState> = None;
    for (t, v) in rows {
        s = Some(counter_reset_transition(s, *t, v.to_bits()).expect("transition failed"));
    }
    s.expect("no rows")
}

fn reset_sum(s: CounterResetState) -> f64 {
    counter_reset_sum_final(Some(s))
        .unwrap()
        .into_iter()
        .map(f64::from_bits)
        .sum()
}

#[test]
fn counter_reset_sum_of_one_sample_is_zero() {
    let s = run_counter(&fixture()[..1]);
    assert_eq!(reset_sum(s), 0_f64);
}

#[test]
fn counter_reset_sum_after_one_reset() {
    let s = run_counter(&fixture()[..4]);
    assert_eq!(reset_sum(s), 24_f64);
}

#[test]
fn counter_reset_sum_after_two_resets() {
    let s = run_counter(&fixture()[..8]);
    assert_eq!(reset_sum(s), 84_f64);
}

#[test]
fn counter_reset_sum_over_the_whole_series() {
    let s = run_counter(&fixture());
    assert_eq!(reset_sum(s), 108_f64);
}

#[test]
fn counter_reset_count_of_one_sample_is_zero() {
    let s = run_counter(&fixture()[..1]);
    assert_eq!(counter_reset_count_final(Some(s)), Some(0_i64));
}

#[test]
fn counter_reset_count_after_one_reset() {
    let s = run_counter(&fixture()[..4]);
    assert_eq!(counter_reset_count_final(Some(s)), Some(1_i64));
}

#[test]
fn counter_reset_count_after_two_resets() {
    let s = run_counter(&fixture()[..8]);
    assert_eq!(counter_reset_count_final(Some(s)), Some(2_i64));
}

#[test]
fn counter_reset_count_over_the_whole_series() {
    let s = run_counter(&fixture());
    assert_eq!(counter_reset_count_final(Some(s)), Some(3_i64));
}

#[test]
fn counter_records_the_value_before_each_drop() {
    let s = run_counter(&fixture());
    let terms: Vec<f64> = counter_reset_sum_final(Some(s))
        .unwrap()
        .into_iter()
        .map(f64::from_bits)
        .collect();
    assert_eq!(terms, vec![24.0, 60.0, 24.0]);
}

#[test]
fn counter_skips_stale_rows_entirely() {
    let rows = [(mins(0), 10.0)];
    let mut s = Some(run_counter(&rows));
    s = Some(counter_reset_transition(s, mins(5), STALE_NAN).unwrap());
    // The drop from 10 to 3 is seen against the last real sample, not the
    // stale one.
    s = Some(counter_reset_transition(s, mins(10), 3.0_f64.to_bits()).unwrap());
    assert_eq!(counter_reset_count_final(s), Some(1_i64));
}

#[test]
fn counter_rejects_out_of_order_rows() {
    let s = run_counter(&fixture()[..2]);
    assert_eq!(
        counter_reset_transition(Some(s), mins(1), 99.0_f64.to_bits()),
        Err(AggregateError::NotChronological)
    );
}

#[test]
fn counter_finals_of_no_state_are_nothing() {
    assert_eq!(counter_reset_sum_final(None), None);
    assert_eq!(counter_reset_count_final(None), None);
}

fn run_irate(rows: &[(i64, f64)]) -> Option<IRateState> {
    let mut s: Option<IRateState> = None;
    for (t, v) in rows {
        s = Some(irate_transition(s, *t, v.to_bits()).expect("transition failed"));
    }
    s
}

fn rate_of(r: IRateResult) -> f64 {
    match r {
        IRateResult::Zero => 0.0,
        IRateResult::Slope { lower, upper, interval_usecs } => {
            let secs = interval_usecs as f64 / 1_000_000.0;
            (f64::from_bits(upper) - f64::from_bits(lower)) / secs
        }
    }
}

#[test]
fn irate_of_one_sample_is_zero() {
    let s = run_irate(&fixture()[..1]);
    assert_eq!(rate_of(irate_final(s)), 0.0_f64);
}

#[test]
fn irate_of_a_rising_pair() {
    let s = run_irate(&fixture()[..2]);
    assert_eq!(rate_of(irate_final(s)), 12_f64 / (5.0 * 60.0));
}

#[test]
fn irate_swaps_a_reset_pair() {
    let s = run_irate(&fixture()[..4]);
    assert_eq!(rate_of(irate_final(s)), (24_f64 - 15.0) / (5.0 * 60.0));
}

#[test]
fn irate_over_the_whole_series() {
    let s = run_irate(&fixture());
    assert_eq!(rate_of(irate_final(s)), 47_f64 / (5.0 * 60.0));
}

#[test]
fn irate_exposes_the_exact_slope_operands() {
    let rows = [(mins(0), 3.0), (mins(7), 11.0)];
    let s = run_irate(&rows);
    assert_eq!(
        irate_final(s),
        IRateResult::Slope {
            lower: 3.0_f64.to_bits(),
            upper: 11.0_f64.to_bits(),
            interval_usecs: mins(7) as i128,
        }
    );
}

#[test]
fn irate_rejects_out_of_order_rows() {
    let s = run_irate(&fixture()[..3]);
    assert_eq!(
        irate_transition(s, mins(1), 5.0_f64.to_bits()),
        Err(AggregateError::NotChronological)
    );
}

#[test]
fn irate_skips_stale_rows() {
    let rows = [(mins(0), 1.0), (mins(5), 2.0)];
    let mut s = run_irate(&rows);
    s = Some(irate_transition(s, mins(10), STALE_NAN).unwrap());
    // The stale row neither shifts the pair nor errors.
    assert_eq!(
        irate_final(s),
        IRateResult::Slope {
            lower: 1.0_f64.to_bits(),
            upper: 2.0_f64.to_bits(),
            interval_usecs: mins(5) as i128,
        }
    );
}
