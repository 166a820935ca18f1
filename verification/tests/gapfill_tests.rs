use promscale::aggregates::gapfill_delta::{GapfillDeltaTransition, WindowSamples};
use promscale::aggregates::prom_delta::prom_delta;
use promscale::aggregates::prom_increase::prom_increase;
use promscale::aggregates::prom_rate::prom_rate;
use promscale::aggregates::{AggregateError, Sample, STALE_NAN};

fn mins(m: i64) -> i64 {
    m * 60 * 1_000_000
}

fn min_ms(m: i64) -> i64 {
    m * 60 * 1000
}

fn delta_feed(
    lowest: i64,
    greatest: i64,
    step_ms: i64,
    range_ms: i64,
    rows: &[(i64, f64)],
) -> Vec<Option<WindowSamples>> {
    let mut s: Option<GapfillDeltaTransition> = None;
    for (t, v) in rows {
        s = Some(
            prom_delta::state(s, lowest, greatest, step_ms, range_ms, *t, v.to_bits())
                .expect("transition failed"),
        );
    }
    prom_delta::finalize(s).expect("no state")
}

fn sample_values(w: &WindowSamples) -> Vec<f64> {
    w.samples.iter().map(|s| f64::from_bits(s.value)).collect()
}

/// The plain per-window delta when every boundary duration is zero: samples
/// land exactly on the window bounds, so no extrapolation applies and the
/// result is last minus first.
fn boundary_delta(w: &WindowSamples) -> f64 {
    let first = w.samples.first().unwrap();
    let last = w.samples.last().unwrap();
    assert_eq!(first.time, w.window_min);
    assert_eq!(last.time, w.window_max);
    f64::from_bits(last.value) - f64::from_bits(first.value)
}

fn hump() -> Vec<(i64, f64)> {
    let values = [0.0, 50.0, 100.0, 150.0, 200.0, 200.0, 150.0, 100.0, 50.0, 0.0];
    values
        .iter()
        .enumerate()
        .map(|(i, v)| (mins(5 * i as i64), *v))
        .collect()
}

#[test]
fn prom_delta_two_boundary_windows() {
    let out = delta_feed(0, mins(45), min_ms(20), min_ms(20), &hump());
    assert_eq!(out.len(), 2);
    let w1 = out[0].as_ref().expect("first window empty");
    let w2 = out[1].as_ref().expect("second window empty");
    assert_eq!(sample_values(w1), vec![0.0, 50.0, 100.0, 150.0, 200.0]);
    assert_eq!(sample_values(w2), vec![200.0, 200.0, 150.0, 100.0, 50.0]);
    assert_eq!(boundary_delta(w1), 200.0);
    assert_eq!(boundary_delta(w2), -150.0);
}

#[test]
fn prom_delta_early_start_yields_leading_nulls() {
    let out = delta_feed(mins(-45), mins(45), min_ms(20), min_ms(20), &hump());
    assert_eq!(out.len(), 4);
    assert!(out[0].is_none());
    assert!(out[1].is_none());
    let w3 = out[2].as_ref().expect("third window empty");
    let w4 = out[3].as_ref().expect("fourth window empty");
    assert_eq!(w3.window_min, mins(-5));
    assert_eq!(w3.window_max, mins(15));
    assert_eq!(sample_values(w3), vec![0.0, 50.0, 100.0, 150.0]);
    assert_eq!(w4.window_min, mins(15));
    assert_eq!(w4.window_max, mins(35));
    assert_eq!(sample_values(w4), vec![150.0, 200.0, 200.0, 150.0, 100.0]);
}

#[test]
fn prom_delta_rejects_out_of_bounds_rows() {
    let r = prom_delta::state(
        None,
        0,
        mins(45),
        min_ms(20),
        min_ms(20),
        mins(46),
        0.0_f64.to_bits(),
    );
    assert_eq!(r.unwrap_err(), AggregateError::TimeNotInBounds);
    let r = prom_delta::state(
        None,
        0,
        mins(45),
        min_ms(20),
        min_ms(20),
        mins(-1),
        0.0_f64.to_bits(),
    );
    assert_eq!(r.unwrap_err(), AggregateError::TimeNotInBounds);
}

#[test]
fn prom_delta_rejects_out_of_order_rows() {
    let s = prom_delta::state(
        None,
        0,
        mins(45),
        min_ms(20),
        min_ms(20),
        mins(10),
        1.0_f64.to_bits(),
    )
    .unwrap();
    let r = prom_delta::state(
        Some(s),
        0,
        mins(45),
        min_ms(20),
        min_ms(20),
        mins(5),
        2.0_f64.to_bits(),
    );
    assert_eq!(r.unwrap_err(), AggregateError::NotChronological);
}

#[test]
fn windows_with_fewer_than_two_samples_are_null() {
    let rows = [(mins(2), 5.0), (mins(30), 6.0), (mins(31), 7.0)];
    let out = delta_feed(0, mins(40), min_ms(10), min_ms(10), &rows);
    assert_eq!(out.len(), 4);
    assert!(out[0].is_none());
    assert!(out[1].is_none());
    assert!(out[2].is_none());
    let w = out[3].as_ref().unwrap();
    assert_eq!(sample_values(w), vec![6.0, 7.0]);
}

#[test]
fn a_stale_row_never_advances_the_window() {
    let step_range_ms = min_ms(10);
    let mut s =
        GapfillDeltaTransition::new(0, mins(100), step_range_ms, step_range_ms, false, false);
    s.add_data_point(mins(5), 1.0_f64.to_bits()).unwrap();
    s.add_data_point(mins(6), 2.0_f64.to_bits()).unwrap();
    // A stale sample far past the current window is dropped before any
    // flushing, so the first window is still open and keeps taking rows.
    s.add_data_point(mins(50), STALE_NAN).unwrap();
    s.add_data_point(mins(7), 3.0_f64.to_bits()).unwrap();
    let out = s.finalize();
    let w1 = out[0].as_ref().expect("first window empty");
    assert_eq!(sample_values(w1), vec![1.0, 2.0, 3.0]);
}

#[test]
fn prom_increase_ramp_over_one_window() {
    let rows: Vec<(i64, f64)> = (0..11).map(|i| (mins(5 * i), (10 * i) as f64)).collect();
    let mut s: Option<GapfillDeltaTransition> = None;
    for (t, v) in &rows {
        s = Some(
            prom_increase::state(s, 0, mins(50), min_ms(50), min_ms(50), *t, v.to_bits())
                .expect("transition failed"),
        );
    }
    let out = prom_increase::finalize(s).unwrap();
    assert_eq!(out.len(), 1);
    let w = out[0].as_ref().unwrap();
    assert_eq!(boundary_delta(w), 100.0);
    // No value ever drops, so the counter-reset correction is zero and the
    // increase over the window is exactly 100.
    let vals = sample_values(w);
    assert!(vals.windows(2).all(|p| p[1] >= p[0]));
}

#[test]
fn prom_increase_window_with_reset_carries_its_samples() {
    let values = [0.0, 10.0, 20.0, 30.0, 40.0, 50.0, 0.0, 10.0, 20.0, 30.0, 40.0];
    let rows: Vec<(i64, f64)> = values
        .iter()
        .enumerate()
        .map(|(i, v)| (mins(5 * i as i64), *v))
        .collect();
    let mut s: Option<GapfillDeltaTransition> = None;
    for (t, v) in &rows {
        s = Some(
            prom_increase::state(s, 0, mins(50), min_ms(50), min_ms(50), *t, v.to_bits())
                .unwrap(),
        );
    }
    let out = prom_increase::finalize(s).unwrap();
    assert_eq!(out.len(), 1);
    let w = out[0].as_ref().unwrap();
    let vals = sample_values(w);
    assert_eq!(vals, values.to_vec());
    // One drop of 50, so increase = (40 - 0) + 50 = 90 with boundary samples.
    let drops: f64 = vals.windows(2).filter(|p| p[1] < p[0]).map(|p| p[0]).sum();
    assert_eq!(drops + vals.last().unwrap() - vals.first().unwrap(), 90.0);
}

#[test]
fn prom_rate_boundary_window_carries_its_samples() {
    let values = [0.0, 12.0, 24.0, 36.0, 48.0, 60.0];
    let rows: Vec<(i64, f64)> = values
        .iter()
        .enumerate()
        .map(|(i, v)| (mins(5 * i as i64), *v))
        .collect();
    let mut s: Option<GapfillDeltaTransition> = None;
    for (t, v) in &rows {
        s = Some(
            prom_rate::state(s, 0, mins(25), min_ms(25), min_ms(25), *t, v.to_bits()).unwrap(),
        );
    }
    let out = prom_rate::finalize(s).unwrap();
    assert_eq!(out.len(), 1);
    let w = out[0].as_ref().unwrap();
    // Boundary samples and no reset: the rate is 60 over 1500 seconds.
    assert_eq!(boundary_delta(w) / 1500.0, 0.04);
}

#[test]
fn finalize_length_matches_the_window_count() {
    let rows = [(mins(1), 1.0), (mins(2), 2.0)];
    // greatest - lowest = 45 min, range = step = 20 min: two windows close at
    // or before greatest (at 20 and 40 minutes).
    let out = delta_feed(0, mins(45), min_ms(20), min_ms(20), &rows);
    assert_eq!(out.len(), 2);
    // With range larger than the whole span no window ever closes.
    let out = delta_feed(0, mins(10), min_ms(20), min_ms(20), &rows);
    assert_eq!(out.len(), 0);
}

#[test]
fn gapfill_state_survives_its_own_bookkeeping() {
    let mut s = GapfillDeltaTransition::new(0, mins(45), min_ms(20), min_ms(20), false, false);
    s.add_data_point(mins(0), 1.0_f64.to_bits()).unwrap();
    s.add_data_point(mins(20), 2.0_f64.to_bits()).unwrap();
    s.add_data_point(mins(25), 3.0_f64.to_bits()).unwrap();
    let out = s.finalize();
    assert_eq!(out.len(), 2);
    let w1 = out[0].as_ref().unwrap();
    assert_eq!(
        w1.samples,
        vec![
            Sample { time: mins(0), value: 1.0_f64.to_bits() },
            Sample { time: mins(20), value: 2.0_f64.to_bits() },
        ]
    );
    assert!(out[1].is_some());
}
