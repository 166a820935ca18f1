use promscale::aggregates::vector_selector::{
    vector_selector_combine, vector_selector_deserialize, vector_selector_final,
    vector_selector_serialize, vector_selector_transition, VectorSelector,
};
use promscale::aggregates::{AggregateError, STALE_NAN};

fn mins(m: i64) -> i64 {
    m * 60 * 1_000_000
}

fn min_ms(m: i64) -> i64 {
    m * 60 * 1000
}

fn feed(
    state: Option<VectorSelector>,
    start: i64,
    end: i64,
    bw_ms: i64,
    lb_ms: i64,
    rows: &[(i64, f64)],
) -> VectorSelector {
    let mut s = state;
    for (t, v) in rows {
        s = Some(
            vector_selector_transition(s, start, end, bw_ms, lb_ms, *t, v.to_bits())
                .expect("transition failed"),
        );
    }
    s.expect("no rows")
}

fn ramp() -> Vec<(i64, f64)> {
    (0..11).map(|i| (mins(5 * i), (10 * i) as f64)).collect()
}

fn unbits(out: Vec<Option<u64>>) -> Vec<Option<f64>> {
    out.into_iter()
        .map(|o| o.map(f64::from_bits))
        .collect()
}

#[test]
fn bucket_and_lookback_exactly_match_beginning_and_end() {
    let s = feed(None, 0, mins(50), min_ms(50), min_ms(50), &ramp());
    let result = unbits(s.results().into());
    assert_eq!(result, vec![Some(0_f64), Some(100_f64)]);
}

#[test]
fn start_end_not_aligned_with_table_data() {
    let s = feed(None, mins(-5), mins(50), min_ms(50), min_ms(50), &ramp());
    let result = unbits(s.results().into());
    assert_eq!(result, vec![None, Some(90_f64)]);
}

#[test]
fn smaller_bucket_and_lookback_size() {
    let s = feed(None, 0, mins(50), min_ms(10), min_ms(10), &ramp());
    let result = unbits(s.results().into());
    assert_eq!(
        result,
        vec![
            Some(0_f64),
            Some(20_f64),
            Some(40_f64),
            Some(60_f64),
            Some(80_f64),
            Some(100_f64)
        ]
    );
}

#[test]
fn randomized_input_order_gives_the_same_answer() {
    let rows = ramp();
    let shuffled = vec![
        rows[7], rows[0], rows[10], rows[3], rows[5], rows[1], rows[9], rows[2], rows[8],
        rows[4], rows[6],
    ];
    let a = feed(None, 0, mins(50), min_ms(10), min_ms(10), &rows);
    let b = feed(None, 0, mins(50), min_ms(10), min_ms(10), &shuffled);
    assert_eq!(a.results(), b.results());
}

#[test]
fn results_is_idempotent() {
    let s = feed(None, 0, mins(50), min_ms(10), min_ms(10), &ramp());
    assert_eq!(s.results(), s.results());
}

#[test]
fn parallel_partial_states_combine_to_the_same_answer() {
    let rows = ramp();
    let whole = feed(None, 0, mins(50), min_ms(10), min_ms(10), &rows);
    let part1 = feed(None, 0, mins(50), min_ms(10), min_ms(10), &rows[..4]);
    let part2 = feed(None, 0, mins(50), min_ms(10), min_ms(10), &rows[4..]);
    let combined = vector_selector_combine(Some(part1), Some(part2))
        .expect("combine failed")
        .expect("no state");
    assert_eq!(combined.results(), whole.results());
}

#[test]
fn combining_with_an_empty_selector_returns_the_original() {
    let s = feed(None, 0, mins(50), min_ms(10), min_ms(10), &ramp());
    let empty = VectorSelector::new(0, mins(50), min_ms(10), min_ms(10));
    let left = vector_selector_combine(Some(s.clone()), Some(empty.clone()))
        .unwrap()
        .unwrap();
    let right = vector_selector_combine(Some(empty), Some(s.clone())).unwrap().unwrap();
    assert_eq!(left, s);
    assert_eq!(right, s);
}

#[test]
fn combine_is_commutative_and_associative_for_distinct_timestamps() {
    let rows = ramp();
    let a = feed(None, 0, mins(50), min_ms(10), min_ms(10), &rows[..3]);
    let b = feed(None, 0, mins(50), min_ms(10), min_ms(10), &rows[3..7]);
    let c = feed(None, 0, mins(50), min_ms(10), min_ms(10), &rows[7..]);
    let ab = vector_selector_combine(Some(a.clone()), Some(b.clone())).unwrap().unwrap();
    let ba = vector_selector_combine(Some(b.clone()), Some(a.clone())).unwrap().unwrap();
    assert_eq!(ab, ba);
    let ab_c = vector_selector_combine(Some(ab), Some(c.clone())).unwrap().unwrap();
    let bc = vector_selector_combine(Some(b), Some(c)).unwrap().unwrap();
    let a_bc = vector_selector_combine(Some(a), Some(bc)).unwrap().unwrap();
    assert_eq!(ab_c, a_bc);
}

#[test]
fn combining_incompatible_selectors_fails() {
    let a = VectorSelector::new(0, mins(50), min_ms(10), min_ms(10));
    let b = VectorSelector::new(0, mins(50), min_ms(5), min_ms(10));
    assert_eq!(
        vector_selector_combine(Some(a), Some(b)),
        Err(AggregateError::IncompatibleSelectors)
    );
}

#[test]
fn a_sample_after_end_time_is_a_fatal_error() {
    let mut s = VectorSelector::new(0, mins(50), min_ms(10), min_ms(10));
    assert_eq!(
        s.insert(mins(51), 1.0_f64.to_bits()),
        Err(AggregateError::TimeGreaterThanExpected)
    );
}

#[test]
fn a_sample_before_the_lookback_is_a_fatal_error() {
    let mut s = VectorSelector::new(0, mins(50), min_ms(10), min_ms(10));
    assert_eq!(
        s.insert(mins(-11), 1.0_f64.to_bits()),
        Err(AggregateError::TimeLessThanExpected)
    );
}

#[test]
fn stale_markers_are_masked_in_the_output() {
    let mut s = VectorSelector::new(0, mins(20), min_ms(10), min_ms(10));
    s.insert(mins(0), 1.0_f64.to_bits()).unwrap();
    s.insert(mins(10), STALE_NAN).unwrap();
    s.insert(mins(20), 3.0_f64.to_bits()).unwrap();
    let result = unbits(s.results().into());
    assert_eq!(result, vec![Some(1.0), None, Some(3.0)]);
}

#[test]
fn the_later_sample_wins_a_bucket() {
    let mut s = VectorSelector::new(0, mins(10), min_ms(10), min_ms(10));
    s.insert(mins(3), 7.0_f64.to_bits()).unwrap();
    // An earlier sample for the same bucket does not displace a later one.
    s.insert(mins(2), 9.0_f64.to_bits()).unwrap();
    assert_eq!(unbits(s.results().into()), vec![None, Some(7.0)]);
    // A strictly later one does.
    s.insert(mins(9), 8.0_f64.to_bits()).unwrap();
    assert_eq!(unbits(s.results().into()), vec![None, Some(8.0)]);
}

#[test]
fn serialized_state_restores_exactly() {
    let s = feed(None, 0, mins(50), min_ms(10), min_ms(10), &ramp());
    let bytes = vector_selector_serialize(&s);
    let restored = vector_selector_deserialize(&bytes).expect("deserialize failed");
    assert_eq!(restored, s);
    assert_eq!(vector_selector_serialize(&restored), bytes);
}

#[test]
fn deserialize_rejects_corrupt_bytes() {
    let s = feed(None, 0, mins(50), min_ms(10), min_ms(10), &ramp());
    let mut bytes = vector_selector_serialize(&s);
    bytes.pop();
    assert!(vector_selector_deserialize(&bytes).is_none());
    assert!(vector_selector_deserialize(&Vec::new()).is_none());
}

#[test]
fn final_of_no_state_is_nothing() {
    assert_eq!(vector_selector_final(None), None);
    let s = feed(None, 0, mins(50), min_ms(50), min_ms(50), &ramp());
    let out = vector_selector_final(Some(&s)).unwrap();
    assert_eq!(unbits(out), vec![Some(0.0), Some(100.0)]);
}

#[test]
fn an_empty_bucket_carries_the_last_sample_within_lookback() {
    let mut s = VectorSelector::new(0, mins(40), min_ms(10), min_ms(25));
    s.insert(mins(5), 42.0_f64.to_bits()).unwrap();
    let result = unbits(s.results().into());
    // The sample is 5 minutes old at its own bucket and ages out 25 minutes
    // later: carried forward twice, then null again.
    assert_eq!(result, vec![None, Some(42.0), Some(42.0), Some(42.0), None]);
}

#[test]
fn a_stale_sample_still_advances_the_carry() {
    let mut s = VectorSelector::new(0, mins(30), min_ms(10), min_ms(40));
    s.insert(mins(2), 7.0_f64.to_bits()).unwrap();
    s.insert(mins(12), STALE_NAN).unwrap();
    let result = unbits(s.results().into());
    // The stale sample is never emitted, but it displaces the earlier sample
    // as the carry, so the last bucket gets null rather than 7.
    assert_eq!(result, vec![None, Some(7.0), None, None]);
}
