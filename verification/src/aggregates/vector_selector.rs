//! Instant-vector selector: one "most recent sample" slot per output bucket,
//! with order-independent insertion and parallel combination.
//!
//! The selector divides `[first_bucket_max_time, last_bucket_max_time]` into
//! buckets of `bucket_width` milliseconds. Each bucket's timestamp is the
//! greatest instant belonging to it (inclusive); the least is the previous
//! bucket's timestamp (exclusive). A bucket's slot holds the sample with the
//! greatest timestamp seen for it so far.

use vstd::prelude::*;

use crate::aggregates::{AggregateError, USECS_PER_MS};

verus! {

/// Greatest millisecond duration whose microsecond form fits an `i64`.
pub const MAX_MS_DURATION: i64 = 9_223_372_036_854_775;

/// Partial state of a range query: a fixed array of buckets, each remembering
/// the latest sample that landed in it. Sample values are IEEE-754 bit
/// patterns.
#[derive(Clone, Debug, PartialEq)]
pub struct VectorSelector {
    pub first_bucket_max_time: i64,
    pub last_bucket_max_time: i64,
    pub end_time: i64,
    pub bucket_width: i64,
    pub lookback: i64,
    pub elements: Vec<Option<(i64, u64)>>,
}

/// Bucket width in microseconds.
pub open spec fn bw_us(v: &VectorSelector) -> int {
    v.bucket_width as int * USECS_PER_MS as int
}

/// Lookback in microseconds.
pub open spec fn lb_us(v: &VectorSelector) -> int {
    v.lookback as int * USECS_PER_MS as int
}

/// The time span owned by bucket `i`: the half-open interval ending at the
/// bucket's own timestamp, which is inclusive. Bucket 0 additionally accepts
/// the lookback span before the first bucket's timestamp.
pub open spec fn in_bucket(first: int, bw: int, lb: int, i: int, t: int) -> bool {
    if i == 0 {
        first - lb <= t <= first
    } else {
        first + (i - 1) * bw < t <= first + i * bw
    }
}

/// The last bucket's timestamp for a configuration: `end_time` rounded down
/// onto the bucket grid anchored at `start_time`.
pub open spec fn grid_last(start: int, end: int, bw: int) -> int {
    end - (end - start) % bw
}

/// Well-formedness of a selector: positive bucket width, non-negative
/// lookback, the last bucket's timestamp on the bucket grid and within one
/// bucket width of `end_time`, arithmetic headroom for the scans, and every
/// occupied slot holding a sample of its own bucket. The grid clauses pin the
/// bucket count: it is the unique `n` with
/// `last = first + (n-1)*width <= end < last + width`.
pub open spec fn wf(v: &VectorSelector) -> bool {
    &&& 1 <= v.bucket_width <= MAX_MS_DURATION
    &&& 0 <= v.lookback <= MAX_MS_DURATION
    &&& v.first_bucket_max_time <= v.end_time
    &&& v.end_time as int - v.first_bucket_max_time as int <= i64::MAX as int
    &&& v.first_bucket_max_time as int - lb_us(v) >= i64::MIN as int
    &&& v.end_time as int + bw_us(v) <= i64::MAX as int
    &&& v.elements@.len() >= 1
    &&& v.last_bucket_max_time as int == v.first_bucket_max_time as int + (v.elements@.len() - 1)
        * bw_us(v)
    &&& v.last_bucket_max_time <= v.end_time
    &&& (v.end_time as int) < v.last_bucket_max_time as int + bw_us(v)
    &&& forall|i: int|
        0 <= i < v.elements@.len() ==> match #[trigger] v.elements@[i] {
            Some(slot) => in_bucket(
                v.first_bucket_max_time as int,
                bw_us(v),
                lb_us(v),
                i,
                slot.0 as int,
            ),
            None => true,
        }
}

/// Two selectors may be combined only when their whole configuration agrees.
pub open spec fn compatible(a: &VectorSelector, b: &VectorSelector) -> bool {
    &&& a.first_bucket_max_time == b.first_bucket_max_time
    &&& a.last_bucket_max_time == b.last_bucket_max_time
    &&& a.end_time == b.end_time
    &&& a.bucket_width == b.bucket_width
    &&& a.lookback == b.lookback
    &&& a.elements@.len() == b.elements@.len()
}

/// The winning slot when two partial states have seen different samples for
/// one bucket: the strictly later sample wins; on a tie the left (receiving)
/// state keeps its own.
pub open spec fn slot_merge(a: Option<(i64, u64)>, b: Option<(i64, u64)>) -> Option<(i64, u64)> {
    match (a, b) {
        (None, None) => None,
        (Some(x), None) => Some(x),
        (None, Some(y)) => Some(y),
        (Some(x), Some(y)) => if y.0 > x.0 {
            Some(y)
        } else {
            Some(x)
        },
    }
}

/// Slot-wise combination of two compatible states.
pub open spec fn combined(
    a: Seq<Option<(i64, u64)>>,
    b: Seq<Option<(i64, u64)>>,
) -> Seq<Option<(i64, u64)>> {
    Seq::new(a.len(), |i: int| slot_merge(a[i], b[i]))
}

/// The slot after an insertion of `(t, val)` into it: taken only when the
/// slot is empty or holds a strictly earlier sample.
pub open spec fn slot_insert(slot: Option<(i64, u64)>, t: i64, val: u64) -> Option<(i64, u64)> {
    match slot {
        None => Some((t, val)),
        Some(existing) => if existing.0 < t {
            Some((t, val))
        } else {
            Some(existing)
        },
    }
}


/// Whether a sample may still be emitted at the bucket timestamp `ts`: it
/// must lie within the lookback span and must not be the stale marker.
pub open spec fn emits(sample: Option<(i64, u64)>, ts: int, lb: int) -> bool {
    match sample {
        Some(s) => s.0 as int >= ts - lb && s.1 != crate::aggregates::STALE_NAN,
        None => false,
    }
}

/// The output of the selector from bucket `i` on, where `ts` is bucket `i`'s
/// timestamp and `last` the latest sample seen in any earlier bucket. Each
/// bucket emits its own sample if it qualifies, else the carried-forward
/// `last` if that qualifies, else null; the carry advances whenever the
/// bucket itself holds a sample, qualifying or not.
pub open spec fn results_rec(
    elems: Seq<Option<(i64, u64)>>,
    ts: int,
    bw: int,
    lb: int,
    i: int,
    last: Option<(i64, u64)>,
) -> Seq<Option<u64>>
    decreases elems.len() - i,
{
    if i < 0 || i >= elems.len() {
        Seq::empty()
    } else {
        let slot = elems[i];
        let emitted: Option<u64> = match slot {
            None => if emits(last, ts, lb) {
                Some((last->0).1)
            } else {
                None
            },
            Some(s) => if emits(slot, ts, lb) {
                Some(s.1)
            } else {
                None
            },
        };
        let carried = if slot is Some {
            slot
        } else {
            last
        };
        seq![emitted] + results_rec(elems, ts + bw, bw, lb, i + 1, carried)
    }
}

/// The full output of the selector: one nullable value per bucket.
pub open spec fn results_spec(v: &VectorSelector) -> Seq<Option<u64>> {
    results_rec(
        v.elements@,
        v.first_bucket_max_time as int,
        bw_us(v),
        lb_us(v),
        0,
        None,
    )
}

/// The output is a function of the state alone, so reading the results twice
/// without an intervening insertion yields identical sequences.
pub proof fn lemma_results_deterministic(a: &VectorSelector, b: &VectorSelector)
    requires
        a == b,
    ensures
        results_spec(a) == results_spec(b),
{
}

/// An instant belongs to at most one bucket, so a contract phrased with
/// `in_bucket` pins the bucket index completely.
pub proof fn lemma_in_bucket_unique(first: int, bw: int, lb: int, i: int, j: int, t: int)
    requires
        bw > 0,
        lb >= 0,
        0 <= i,
        0 <= j,
        in_bucket(first, bw, lb, i, t),
        in_bucket(first, bw, lb, j, t),
    ensures
        i == j,
{
    assert(i == j) by (nonlinear_arith)
        requires
            bw > 0,
            lb >= 0,
            0 <= i,
            0 <= j,
            (if i == 0 {
                first - lb <= t <= first
            } else {
                first + (i - 1) * bw < t <= first + i * bw
            }),
            (if j == 0 {
                first - lb <= t <= first
            } else {
                first + (j - 1) * bw < t <= first + j * bw
            }),
    ;
}

/// Quotient and remainder of a non-negative span by a bucket width, with the
/// facts the callers need stated so that their own reasoning stays linear.
fn div_rem(a: i64, b: i64) -> (r: (i64, i64))
    requires
        a >= 0,
        b >= 1000,
    ensures
        a as int == b as int * r.0 as int + r.1 as int,
        r.1 as int == a as int % b as int,
        0 <= r.1 < b,
        0 <= r.0,
        1000 * r.0 as int <= a as int,
        r.0 as int + 1 <= i64::MAX as int,
        r.1 <= a,
        a > 0 && r.1 == 0 ==> r.0 >= 1,
{
    proof {
        vstd::arithmetic::div_mod::lemma_fundamental_div_mod(a as int, b as int);
        assert(0 <= a as int / b as int && 1000 * (a as int / b as int) <= a as int && a as int
            % b as int <= a as int && (a > 0 && a as int % b as int == 0 ==> a as int / b as int
            >= 1)) by (nonlinear_arith)
            requires
                a >= 0,
                b >= 1000,
                a as int == b as int * (a as int / b as int) + a as int % b as int,
                0 <= (a as int % b as int) < b as int,
        ;
    }
    (a / b, a % b)
}

impl VectorSelector {
    /// Builds the selector for the range query `[start_time, end_time]` with
    /// the given bucket width and lookback (milliseconds). The bucket count
    /// is the number of whole bucket widths in the span, plus one; the last
    /// bucket's timestamp is `end_time` rounded down to the bucket grid, as
    /// the grid clauses of `wf` pin uniquely.
    pub fn new(start_time: i64, end_time: i64, bucket_width: i64, lookback: i64) -> (r:
        VectorSelector)
        requires
            1 <= bucket_width <= MAX_MS_DURATION,
            0 <= lookback <= MAX_MS_DURATION,
            start_time <= end_time,
            end_time as int - start_time as int <= i64::MAX as int,
            start_time as int - lookback as int * USECS_PER_MS as int >= i64::MIN as int,
            end_time as int + bucket_width as int * USECS_PER_MS as int <= i64::MAX as int,
        ensures
            wf(&r),
            r.first_bucket_max_time == start_time,
            r.end_time == end_time,
            r.bucket_width == bucket_width,
            r.lookback == lookback,
            r.last_bucket_max_time as int == grid_last(
                start_time as int,
                end_time as int,
                bucket_width as int * USECS_PER_MS as int,
            ),
            r.elements@ == Seq::new(r.elements@.len(), |i: int| None::<(i64, u64)>),
    {
        let width_us: i64 = bucket_width * USECS_PER_MS;
        let span: i64 = end_time - start_time;
        let (q, rem): (i64, i64) = div_rem(span, width_us);
        proof {
            assert(span as int % width_us as int == (end_time - start_time) as int % (bucket_width
                as int * USECS_PER_MS as int));
        }
        let last_bucket_max_time: i64 = end_time - rem;
        let mut elements: Vec<Option<(i64, u64)>> = Vec::new();
        let mut i: i64 = 0;
        while i <= q
            invariant
                0 <= i <= q + 1,
                q < i64::MAX,
                elements@.len() == i as int,
                forall|k: int| 0 <= k < elements@.len() ==> elements@[k] is None,
            decreases q + 1 - i,
        {
            elements.push(None);
            i += 1;
        }
        let r = VectorSelector {
            first_bucket_max_time: start_time,
            last_bucket_max_time,
            end_time,
            bucket_width,
            lookback,
            elements,
        };
        proof {
            assert(r.elements@.len() == q as int + 1);
            assert((r.elements@.len() - 1) * bw_us(&r) == width_us as int * q as int) by (nonlinear_arith)
                requires
                    r.elements@.len() - 1 == q as int,
                    bw_us(&r) == width_us as int,
            ;
            assert(r.elements@ =~= Seq::new(r.elements@.len(), |i: int| None::<(i64, u64)>));
        }
        r
    }

    /// The index of the bucket owning `time`. Fails when `time` precedes the
    /// selector's earliest admissible instant (lookback before the first
    /// bucket) or exceeds the last bucket's timestamp; otherwise returns the
    /// one index whose bucket span contains `time`.
    pub fn get_bucket(&self, time: i64) -> (r: Result<usize, AggregateError>)
        requires
            wf(self),
        ensures
            (time as int) < self.first_bucket_max_time as int - lb_us(self) ==> r == Err::<
                usize,
                AggregateError,
            >(AggregateError::TimeLessThanExpected),
            time > self.last_bucket_max_time && (time as int) >= self.first_bucket_max_time as int
                - lb_us(self) ==> r == Err::<usize, AggregateError>(
                AggregateError::TimeGreaterThanExpected,
            ),
            self.first_bucket_max_time as int - lb_us(self) <= (time as int)
                <= self.last_bucket_max_time as int ==> r is Ok,
            r matches Ok(b) ==> 0 <= b < self.elements@.len() && in_bucket(
                self.first_bucket_max_time as int,
                bw_us(self),
                lb_us(self),
                b as int,
                time as int,
            ),
    {
        let lookback_us: i64 = self.lookback * USECS_PER_MS;
        if time < self.first_bucket_max_time - lookback_us {
            return Err(AggregateError::TimeLessThanExpected);
        }
        if time > self.last_bucket_max_time {
            return Err(AggregateError::TimeGreaterThanExpected);
        }
        if time <= self.first_bucket_max_time {
            return Ok(0);
        }
        let width_us: i64 = self.bucket_width * USECS_PER_MS;
        let offset: i64 = time - self.first_bucket_max_time;
        let (q, rem): (i64, i64) = div_rem(offset, width_us);
        let mut bucket: i64 = q + 1;
        if rem == 0 {
            bucket -= 1;
        }
        proof {
            let first = self.first_bucket_max_time as int;
            let bw = bw_us(self);
            let nb = self.elements@.len() as int;
            assert(bw == width_us as int);
            if rem == 0 {
                assert((q as int - 1) * bw == width_us as int * q as int - bw && q as int * bw
                    == width_us as int * q as int) by (nonlinear_arith)
                    requires
                        bw == width_us as int,
                ;
                assert(in_bucket(first, bw, lb_us(self), q as int, time as int));
            } else {
                assert(q as int * bw == width_us as int * q as int && (q as int + 1) * bw
                    == width_us as int * q as int + bw) by (nonlinear_arith)
                    requires
                        bw == width_us as int,
                ;
                assert(in_bucket(first, bw, lb_us(self), q as int + 1, time as int));
            }
            assert(first + (bucket as int - 1) * bw < time as int);
            assert(bucket as int <= nb - 1) by (nonlinear_arith)
                requires
                    bw > 0,
                    first + (bucket as int - 1) * bw < time as int,
                    time as int <= first + (nb - 1) * bw,
            ;
            assert(0 <= (bucket as int) < self.elements@.len());
        }
        // The length, read as a usize, bounds the index for the cast below.
        let _n_buckets: usize = self.elements.len();
        Ok(bucket as usize)
    }

    /// Records one input row. A row beyond `end_time` is a fatal error; a row
    /// beyond the last bucket (but within `end_time`) is silently ignored;
    /// otherwise the row lands in its bucket and replaces the slot only when
    /// it is strictly later than the sample already there.
    pub fn insert(&mut self, time: i64, val: u64) -> (r: Result<(), AggregateError>)
        requires
            wf(&*old(self)),
        ensures
            wf(&*final(self)),
            compatible(&*final(self), &*old(self)),
            final(self).first_bucket_max_time == old(self).first_bucket_max_time,
            final(self).last_bucket_max_time == old(self).last_bucket_max_time,
            final(self).end_time == old(self).end_time,
            final(self).bucket_width == old(self).bucket_width,
            final(self).lookback == old(self).lookback,
            time > old(self).end_time ==> r == Err::<(), AggregateError>(
                AggregateError::TimeGreaterThanExpected,
            ) && final(self).elements@ == old(self).elements@,
            time <= old(self).end_time && time > old(self).last_bucket_max_time ==> r == Ok::<
                (),
                AggregateError,
            >(()) && final(self).elements@ == old(self).elements@,
            time <= old(self).last_bucket_max_time && (time as int) < old(
                self,
            ).first_bucket_max_time as int - lb_us(&*old(self)) ==> r == Err::<(), AggregateError>(
                AggregateError::TimeLessThanExpected,
            ) && final(self).elements@ == old(self).elements@,
            old(self).first_bucket_max_time as int - lb_us(&*old(self)) <= (time as int) <= old(
                self,
            ).last_bucket_max_time as int ==> r == Ok::<(), AggregateError>(()) && (exists|
                idx: int,
            |
                0 <= idx < old(self).elements@.len() && in_bucket(
                    old(self).first_bucket_max_time as int,
                    bw_us(&*old(self)),
                    lb_us(&*old(self)),
                    idx,
                    time as int,
                ) && final(self).elements@ == old(self).elements@.update(
                    idx,
                    slot_insert(old(self).elements@[idx], time, val),
                )),
    {
        if time > self.end_time {
            return Err(AggregateError::TimeGreaterThanExpected);
        }
        if time > self.last_bucket_max_time {
            return Ok(());
        }
        let bucket_idx: usize = match self.get_bucket(time) {
            Ok(b) => b,
            Err(e) => { return Err(e) },
        };
        let contents: Option<(i64, u64)> = self.elements[bucket_idx];
        match contents {
            Some(existing) => {
                if existing.0 < time {
                    self.elements[bucket_idx] = Some((time, val));
                } else {
                    proof {
                        assert(self.elements@ =~= old(self).elements@.update(
                            bucket_idx as int,
                            slot_insert(old(self).elements@[bucket_idx as int], time, val),
                        ));
                    }
                }
            },
            None => {
                self.elements[bucket_idx] = Some((time, val));
            },
        }
        Ok(())
    }


    /// The final output: for each bucket in order, the bucket's own sample if
    /// it is within lookback of the bucket timestamp and not stale, else the
    /// most recent earlier sample under the same conditions, else null. Reads
    /// the state without changing it, so repeated calls agree.
    pub fn results(&self) -> (r: Vec<Option<u64>>)
        requires
            wf(self),
        ensures
            r@ == results_spec(self),
            r@.len() == self.elements@.len(),
    {
        let n: usize = self.elements.len();
        let lookback_us: i64 = self.lookback * USECS_PER_MS;
        let width_us: i64 = self.bucket_width * USECS_PER_MS;
        let mut vals: Vec<Option<u64>> = Vec::new();
        let mut last: Option<(i64, u64)> = None;
        let mut ts: i64 = self.first_bucket_max_time;
        let mut i: usize = 0;
        while i < n
            invariant
                wf(self),
                n == self.elements@.len(),
                lookback_us as int == lb_us(self),
                width_us as int == bw_us(self),
                0 <= i <= n,
                vals@.len() == i as int,
                ts as int == self.first_bucket_max_time as int + i as int * bw_us(self),
                vals@ + results_rec(
                    self.elements@,
                    ts as int,
                    bw_us(self),
                    lb_us(self),
                    i as int,
                    last,
                ) == results_spec(self),
            decreases n - i,
        {
            proof {
                let first = self.first_bucket_max_time as int;
                let bw = bw_us(self);
                let nb = n as int;
                assert(i as int * bw >= 0 && ts as int <= self.last_bucket_max_time as int)
                    by (nonlinear_arith)
                    requires
                        bw > 0,
                        ts as int == first + i as int * bw,
                        self.last_bucket_max_time as int == first + (nb - 1) * bw,
                        0 <= i as int <= nb - 1,
                ;
                assert((i as int + 1) * bw == i as int * bw + bw) by (nonlinear_arith);
            }
            let content: Option<(i64, u64)> = self.elements[i];
            let ghost prev_vals = vals@;
            let ghost prev_last = last;
            let mut pushed: bool = false;
            match content {
                None => {
                    if let Some(tuple) = last {
                        let (t, v): (i64, u64) = tuple;
                        if t >= ts - lookback_us && v != crate::aggregates::STALE_NAN {
                            pushed = true;
                            vals.push(Some(v));
                        }
                    }
                },
                Some(tuple) => {
                    let (t, v2): (i64, u64) = tuple;
                    if t >= ts - lookback_us && v2 != crate::aggregates::STALE_NAN {
                        pushed = true;
                        vals.push(Some(v2));
                    }
                    last = content;
                },
            }
            if !pushed {
                vals.push(None);
            }
            proof {
                let e = self.elements@;
                let bw = bw_us(self);
                let lb = lb_us(self);
                let slot = e[i as int];
                let emitted: Option<u64> = match slot {
                    None => if emits(prev_last, ts as int, lb) {
                        Some((prev_last->0).1)
                    } else {
                        None
                    },
                    Some(sm) => if emits(slot, ts as int, lb) {
                        Some(sm.1)
                    } else {
                        None
                    },
                };
                assert(vals@ == prev_vals.push(emitted));
                assert(results_rec(e, ts as int, bw, lb, i as int, prev_last) == seq![emitted]
                    + results_rec(e, ts as int + bw, bw, lb, i as int + 1, last));
                assert(prev_vals + (seq![emitted] + results_rec(
                    e,
                    ts as int + bw,
                    bw,
                    lb,
                    i as int + 1,
                    last,
                )) =~= (prev_vals + seq![emitted]) + results_rec(
                    e,
                    ts as int + bw,
                    bw,
                    lb,
                    i as int + 1,
                    last,
                ));
                assert(prev_vals + seq![emitted] =~= prev_vals.push(emitted));
            }
            ts = ts + width_us;
            i += 1;
        }
        proof {
            assert(results_rec(
                self.elements@,
                ts as int,
                bw_us(self),
                lb_us(self),
                i as int,
                last,
            ) =~= Seq::<Option<u64>>::empty());
            assert(vals@ + Seq::<Option<u64>>::empty() =~= vals@);
        }
        vals
    }

    /// The host-facing form of `results`: the same nullable array.
    pub fn to_pg_array(&self) -> (r: Vec<Option<u64>>)
        requires
            wf(self),
        ensures
            r@ == results_spec(self),
    {
        self.results()
    }

    /// Merges another partial state into this one, slot by slot, keeping the
    /// strictly later sample of each pair. Fails when the two selectors were
    /// built with different configurations.
    pub fn combine(&mut self, other: &VectorSelector) -> (r: Result<(), AggregateError>)
        requires
            wf(&*old(self)),
            wf(other),
        ensures
            wf(&*final(self)),
            !compatible(&*old(self), other) ==> r == Err::<(), AggregateError>(
                AggregateError::IncompatibleSelectors,
            ) && *final(self) == *old(self),
            compatible(&*old(self), other) ==> r == Ok::<(), AggregateError>(()) && compatible(
                &*final(self),
                &*old(self),
            ) && final(self).elements@ == combined(old(self).elements@, other.elements@),
    {
        if self.first_bucket_max_time != other.first_bucket_max_time
            || self.last_bucket_max_time != other.last_bucket_max_time
            || self.end_time != other.end_time
            || self.bucket_width != other.bucket_width
            || self.lookback != other.lookback
            || self.elements.len() != other.elements.len() {
            return Err(AggregateError::IncompatibleSelectors);
        }
        let n: usize = self.elements.len();
        let mut i: usize = 0;
        while i < n
            invariant
                wf(&*old(self)),
                wf(other),
                compatible(&*old(self), other),
                n == old(self).elements@.len(),
                0 <= i <= n,
                self.first_bucket_max_time == old(self).first_bucket_max_time,
                self.last_bucket_max_time == old(self).last_bucket_max_time,
                self.end_time == old(self).end_time,
                self.bucket_width == old(self).bucket_width,
                self.lookback == old(self).lookback,
                self.elements@.len() == n,
                forall|k: int|
                    0 <= k < i ==> self.elements@[k] == slot_merge(
                        old(self).elements@[k],
                        other.elements@[k],
                    ),
                forall|k: int| i <= k < n ==> self.elements@[k] == old(self).elements@[k],
            decreases n - i,
        {
            let mine: Option<(i64, u64)> = self.elements[i];
            let theirs: Option<(i64, u64)> = other.elements[i];
            match (mine, theirs) {
                (None, None) => (),
                (Some(_), None) => (),
                (None, Some(o)) => {
                    self.elements[i] = Some(o);
                },
                (Some(m), Some(o)) => {
                    if o.0 > m.0 {
                        self.elements[i] = Some(o);
                    }
                },
            }
            i += 1;
        }
        proof {
            assert(self.elements@ =~= combined(old(self).elements@, other.elements@));
        }
        Ok(())
    }
}

} // verus!

verus! {

/// Encoding of one header field: the `i64` shifted onto the `u64` scale,
/// little-endian.
pub open spec fn enc_i64(x: i64) -> Seq<u8> {
    crate::aggregates::codec::le_bytes((x as int + 0x8000_0000_0000_0000) as nat, 8)
}

/// Encoding of one slot: a presence tag, then the sample's timestamp and
/// value bits.
pub open spec fn enc_slot(s: Option<(i64, u64)>) -> Seq<u8> {
    match s {
        None => seq![0u8],
        Some(p) => seq![1u8] + enc_i64(p.0) + crate::aggregates::codec::le_bytes(p.1 as nat, 8),
    }
}

/// Encoding of the slot array, front first.
pub open spec fn enc_slots(e: Seq<Option<(i64, u64)>>) -> Seq<u8>
    decreases e.len(),
{
    if e.len() == 0 {
        Seq::empty()
    } else {
        enc_slot(e[0]) + enc_slots(e.drop_first())
    }
}

/// The serialized form of a selector: the five configuration fields, the
/// bucket count, then the slots. The format is the crate's own; the contract
/// of `vector_selector_deserialize` makes the round trip exact.
pub open spec fn encoded(v: &VectorSelector) -> Seq<u8> {
    enc_i64(v.first_bucket_max_time) + enc_i64(v.last_bucket_max_time) + enc_i64(v.end_time)
        + enc_i64(v.bucket_width) + enc_i64(v.lookback) + crate::aggregates::codec::le_bytes(
        v.elements@.len() as nat,
        8,
    ) + enc_slots(v.elements@)
}

proof fn lemma_enc_slots_push(e: Seq<Option<(i64, u64)>>, s: Option<(i64, u64)>)
    ensures
        enc_slots(e.push(s)) == enc_slots(e) + enc_slot(s),
    decreases e.len(),
{
    let whole = e.push(s);
    if e.len() == 0 {
        assert(whole.drop_first() =~= Seq::<Option<(i64, u64)>>::empty());
        assert(whole[0] == s);
        assert(enc_slots(whole.drop_first()) == Seq::<u8>::empty());
        assert(enc_slots(whole) == enc_slot(s) + Seq::<u8>::empty());
        assert(enc_slot(s) + Seq::<u8>::empty() =~= enc_slot(s));
        assert(enc_slots(e) + enc_slot(s) =~= enc_slot(s));
    } else {
        assert(whole.drop_first() =~= e.drop_first().push(s));
        lemma_enc_slots_push(e.drop_first(), s);
        assert(enc_slot(whole[0]) + (enc_slots(e.drop_first()) + enc_slot(s)) =~= (enc_slot(e[0])
            + enc_slots(e.drop_first())) + enc_slot(s));
    }
}

} // verus!

verus! {

/// The 48-byte prefix of the serialized form: configuration and bucket count.
pub open spec fn enc_header(v: &VectorSelector) -> Seq<u8> {
    enc_i64(v.first_bucket_max_time) + enc_i64(v.last_bucket_max_time) + enc_i64(v.end_time)
        + enc_i64(v.bucket_width) + enc_i64(v.lookback) + crate::aggregates::codec::le_bytes(
        v.elements@.len() as nat,
        8,
    )
}

/// Turns a selector state into bytes for cross-process transfer of partial
/// aggregates. The format is `encoded`; `vector_selector_deserialize` reads
/// it back exactly.
pub fn vector_selector_serialize(state: &VectorSelector) -> (r: Vec<u8>)
    requires
        wf(state),
    ensures
        r@ == encoded(state),
{
    let mut out: Vec<u8> = Vec::new();
    crate::aggregates::codec::push_u64_le(
        &mut out,
        crate::aggregates::codec::i64_to_ordered_u64(state.first_bucket_max_time),
    );
    crate::aggregates::codec::push_u64_le(
        &mut out,
        crate::aggregates::codec::i64_to_ordered_u64(state.last_bucket_max_time),
    );
    crate::aggregates::codec::push_u64_le(
        &mut out,
        crate::aggregates::codec::i64_to_ordered_u64(state.end_time),
    );
    crate::aggregates::codec::push_u64_le(
        &mut out,
        crate::aggregates::codec::i64_to_ordered_u64(state.bucket_width),
    );
    crate::aggregates::codec::push_u64_le(
        &mut out,
        crate::aggregates::codec::i64_to_ordered_u64(state.lookback),
    );
    let n: usize = state.elements.len();
    crate::aggregates::codec::push_u64_le(&mut out, n as u64);
    proof {
        assert(out@ =~= enc_header(state));
    }
    let mut i: usize = 0;
    while i < n
        invariant
            wf(state),
            n == state.elements@.len(),
            0 <= i <= n,
            out@ == enc_header(state) + enc_slots(state.elements@.take(i as int)),
        decreases n - i,
    {
        let ghost prev = out@;
        let ghost prefix = state.elements@.take(i as int);
        match state.elements[i] {
            None => {
                out.push(0u8);
                proof {
                    assert(out@ =~= prev + seq![0u8]);
                }
            },
            Some(tuple) => {
                let (t, v): (i64, u64) = tuple;
                out.push(1u8);
                crate::aggregates::codec::push_u64_le(
                    &mut out,
                    crate::aggregates::codec::i64_to_ordered_u64(t),
                );
                crate::aggregates::codec::push_u64_le(&mut out, v);
                proof {
                    assert(out@ =~= prev + enc_slot(state.elements@[i as int]));
                }
            },
        }
        proof {
            assert(state.elements@.take(i as int + 1) =~= prefix.push(state.elements@[i as int]));
            lemma_enc_slots_push(prefix, state.elements@[i as int]);
            assert(prev + enc_slot(state.elements@[i as int]) =~= enc_header(state) + enc_slots(
                state.elements@.take(i as int + 1),
            ));
        }
        i += 1;
    }
    proof {
        assert(state.elements@.take(n as int) =~= state.elements@);
        assert(enc_header(state) + enc_slots(state.elements@) =~= encoded(state));
    }
    out
}

/// Tie-breaking aside, `slot_merge` ignores argument order; when both sides
/// hold samples of equal timestamp and value the tie is invisible too.
pub proof fn lemma_slot_merge_commutes(a: Option<(i64, u64)>, b: Option<(i64, u64)>)
    requires
        a matches Some(x) && b matches Some(y) && x.0 == y.0 ==> a == b,
    ensures
        slot_merge(a, b) == slot_merge(b, a),
{
}

/// `combined` ignores the order of its two states whenever equal-timestamp
/// slots agree on the value (in particular whenever timestamps are distinct).
pub proof fn lemma_combined_commutes(a: Seq<Option<(i64, u64)>>, b: Seq<Option<(i64, u64)>>)
    requires
        a.len() == b.len(),
        forall|i: int|
            0 <= i < a.len() ==> ((#[trigger] a[i]) matches Some(x) && b[i] matches Some(y) && x.0
                == y.0 ==> a[i] == b[i]),
    ensures
        combined(a, b) == combined(b, a),
{
    assert forall|i: int| 0 <= i < a.len() implies combined(a, b)[i] == combined(b, a)[i] by {
        lemma_slot_merge_commutes(a[i], b[i]);
    }
    assert(combined(a, b) =~= combined(b, a));
}

/// Merging partial states is associative: grouping does not matter when
/// workers' results are combined pairwise.
pub proof fn lemma_combined_assoc(
    a: Seq<Option<(i64, u64)>>,
    b: Seq<Option<(i64, u64)>>,
    c: Seq<Option<(i64, u64)>>,
)
    requires
        a.len() == b.len(),
        b.len() == c.len(),
    ensures
        combined(combined(a, b), c) == combined(a, combined(b, c)),
{
    assert(combined(combined(a, b), c) =~= combined(a, combined(b, c)));
}

/// A state with no samples is the identity of `combined`: merging with it
/// changes nothing, on either side.
pub proof fn lemma_combined_identity(a: Seq<Option<(i64, u64)>>, e: Seq<Option<(i64, u64)>>)
    requires
        a.len() == e.len(),
        forall|i: int| 0 <= i < e.len() ==> #[trigger] e[i] is None,
    ensures
        combined(a, e) == a,
        combined(e, a) == a,
{
    assert(combined(a, e) =~= a);
    assert(combined(e, a) =~= a);
}

/// One transition step of the selector aggregate: creates the state from the
/// configuration arguments on the first row, then records the row.
pub fn vector_selector_transition(
    state: Option<VectorSelector>,
    start_time: i64,
    end_time: i64,
    bucket_width: i64,
    lookback: i64,
    time: i64,
    value: u64,
) -> (r: Result<VectorSelector, AggregateError>)
    requires
        state matches Some(s) ==> wf(&s),
        state is None ==> {
            &&& 1 <= bucket_width <= MAX_MS_DURATION
            &&& 0 <= lookback <= MAX_MS_DURATION
            &&& start_time <= end_time
            &&& end_time as int - start_time as int <= i64::MAX as int
            &&& start_time as int - lookback as int * USECS_PER_MS as int >= i64::MIN as int
            &&& end_time as int + bucket_width as int * USECS_PER_MS as int <= i64::MAX as int
        },
    ensures
        r matches Ok(s2) ==> wf(&s2),
        ({
            // The configuration the row is judged against: the live state's
            // own, or — on the first row — the one the arguments build.
            let first_c: int = match state {
                Some(s) => s.first_bucket_max_time as int,
                None => start_time as int,
            };
            let last_c: int = match state {
                Some(s) => s.last_bucket_max_time as int,
                None => grid_last(
                    start_time as int,
                    end_time as int,
                    bucket_width as int * USECS_PER_MS as int,
                ),
            };
            let end_c: int = match state {
                Some(s) => s.end_time as int,
                None => end_time as int,
            };
            let lb_c: int = match state {
                Some(s) => lb_us(&s),
                None => lookback as int * USECS_PER_MS as int,
            };
            &&& (r is Err <==> ((time as int) > end_c || ((time as int) <= last_c && (time as int)
                < first_c - lb_c)))
            &&& (time as int) > end_c ==> r == Err::<VectorSelector, AggregateError>(
                AggregateError::TimeGreaterThanExpected,
            )
            &&& (time as int) <= last_c && (time as int) < first_c - lb_c ==> r == Err::<
                VectorSelector,
                AggregateError,
            >(AggregateError::TimeLessThanExpected)
        }),
        state matches Some(s) ==> (r matches Ok(s2) ==> {
            &&& compatible(&s2, &s)
            &&& time > s.last_bucket_max_time ==> s2.elements@ == s.elements@
            &&& s.first_bucket_max_time as int - lb_us(&s) <= (time as int) <= s
                .last_bucket_max_time as int ==> exists|idx: int|
                0 <= idx < s.elements@.len() && in_bucket(
                    s.first_bucket_max_time as int,
                    bw_us(&s),
                    lb_us(&s),
                    idx,
                    time as int,
                ) && s2.elements@ == s.elements@.update(
                    idx,
                    slot_insert(s.elements@[idx], time, value),
                )
        }),
        state is None ==> (r matches Ok(s2) ==> {
            &&& s2.first_bucket_max_time == start_time
            &&& s2.end_time == end_time
            &&& s2.bucket_width == bucket_width
            &&& s2.lookback == lookback
            &&& s2.last_bucket_max_time as int == grid_last(
                start_time as int,
                end_time as int,
                bucket_width as int * USECS_PER_MS as int,
            )
            &&& time > s2.last_bucket_max_time ==> forall|i: int|
                0 <= i < s2.elements@.len() ==> (#[trigger] s2.elements@[i]) is None
            &&& time <= s2.last_bucket_max_time ==> exists|idx: int|
                0 <= idx < s2.elements@.len() && in_bucket(
                    start_time as int,
                    bucket_width as int * USECS_PER_MS as int,
                    lookback as int * USECS_PER_MS as int,
                    idx,
                    time as int,
                ) && s2.elements@[idx] == Some((time, value)) && forall|j: int|
                    0 <= j < s2.elements@.len() && j != idx ==> (#[trigger] s2.elements@[j])
                        is None
        }),
{
    let mut s: VectorSelector = match state {
        Some(s) => s,
        None => VectorSelector::new(start_time, end_time, bucket_width, lookback),
    };
    let ghost base = s;
    match s.insert(time, value) {
        Ok(()) => {
            proof {
                if state is None && time <= base.last_bucket_max_time {
                    let idx = choose|idx: int|
                        0 <= idx < base.elements@.len() && in_bucket(
                            base.first_bucket_max_time as int,
                            bw_us(&base),
                            lb_us(&base),
                            idx,
                            time as int,
                        ) && s.elements@ == base.elements@.update(
                            idx,
                            slot_insert(base.elements@[idx], time, value),
                        );
                    assert(base.elements@[idx] is None);
                    assert(s.elements@[idx] == Some((time, value)));
                    assert(forall|j: int|
                        0 <= j < s.elements@.len() && j != idx ==> (#[trigger] s.elements@[j])
                            is None);
                }
            }
            Ok(s)
        },
        Err(e) => Err(e),
    }
}

/// The finalizer of the selector aggregate: the nullable per-bucket output,
/// or nothing when no row was ever seen.
pub fn vector_selector_final(state: Option<&VectorSelector>) -> (r: Option<Vec<Option<u64>>>)
    requires
        state matches Some(s) ==> wf(s),
    ensures
        state is None <==> r is None,
        state matches Some(s) ==> r matches Some(vals) && vals@ == results_spec(s),
{
    match state {
        Some(s) => Some(s.to_pg_array()),
        None => None,
    }
}

/// The combine step of the selector aggregate for parallel workers: merges
/// two optional partial states.
pub fn vector_selector_combine(
    state1: Option<VectorSelector>,
    state2: Option<VectorSelector>,
) -> (r: Result<Option<VectorSelector>, AggregateError>)
    requires
        state1 matches Some(s) ==> wf(&s),
        state2 matches Some(s) ==> wf(&s),
    ensures
        state1 is None && state2 is None ==> r == Ok::<Option<VectorSelector>, AggregateError>(
            None,
        ),
        state1 is None ==> (state2 matches Some(s2) ==> r == Ok::<
            Option<VectorSelector>,
            AggregateError,
        >(Some(s2))),
        state2 is None ==> (state1 matches Some(s1) ==> r == Ok::<
            Option<VectorSelector>,
            AggregateError,
        >(Some(s1))),
        state1 matches Some(s1) ==> (state2 matches Some(s2) ==> {
            &&& !compatible(&s1, &s2) ==> r == Err::<Option<VectorSelector>, AggregateError>(
                AggregateError::IncompatibleSelectors,
            )
            &&& compatible(&s1, &s2) ==> (r matches Ok(o) && o matches Some(m) && wf(&m)
                && compatible(&m, &s1) && m.elements@ == combined(s1.elements@, s2.elements@))
        }),
{
    match (state1, state2) {
        (None, None) => Ok(None),
        (None, Some(s2)) => Ok(Some(s2)),
        (Some(s1), None) => Ok(Some(s1)),
        (Some(s1), Some(s2)) => {
            let mut merged = s1;
            match merged.combine(&s2) {
                Ok(()) => Ok(Some(merged)),
                Err(e) => Err(e),
            }
        },
    }
}

} // verus!

verus! {


/// The slot section splits at any index: the encodings of a prefix and the
/// matching suffix concatenate to the whole.
proof fn lemma_enc_slots_split(e: Seq<Option<(i64, u64)>>, i: int)
    requires
        0 <= i <= e.len(),
    ensures
        enc_slots(e) == enc_slots(e.take(i)) + enc_slots(e.skip(i)),
    decreases i,
{
    if i == 0 {
        assert(e.take(0) =~= Seq::<Option<(i64, u64)>>::empty());
        assert(enc_slots(e.take(0)) =~= Seq::<u8>::empty());
        assert(e.skip(0) =~= e);
        assert(Seq::<u8>::empty() + enc_slots(e) =~= enc_slots(e));
    } else {
        lemma_enc_slots_split(e, i - 1);
        assert(e.take(i) =~= e.take(i - 1).push(e[i - 1]));
        lemma_enc_slots_push(e.take(i - 1), e[i - 1]);
        let rest = e.skip(i - 1);
        assert(rest.len() == e.len() - i + 1 >= 1);
        assert(rest[0] == e[i - 1]);
        assert(rest.drop_first() =~= e.skip(i));
        assert(enc_slots(rest) == enc_slot(e[i - 1]) + enc_slots(e.skip(i)));
        assert(enc_slots(e.take(i - 1)) + (enc_slot(e[i - 1]) + enc_slots(e.skip(i))) =~= (
        enc_slots(e.take(i - 1)) + enc_slot(e[i - 1])) + enc_slots(e.skip(i)));
    }
}

/// How long one slot's encoding is.
proof fn lemma_enc_slot_len(s: Option<(i64, u64)>)
    ensures
        s is None ==> enc_slot(s).len() == 1,
        s matches Some(p) ==> enc_slot(s).len() == 17 && enc_slot(s)[0] == 1u8,
        s is None ==> enc_slot(s)[0] == 0u8,
{
    match s {
        None => {},
        Some(p) => {
            crate::aggregates::codec::lemma_le_bytes_len(
                (p.0 as int + 0x8000_0000_0000_0000) as nat,
                8,
            );
            crate::aggregates::codec::lemma_le_bytes_len(p.1 as nat, 8);
        },
    }
}

/// What the header of a state's encoding denotes: each field's shifted
/// value, the slot count, and the slot section.
proof fn lemma_candidate_fields(cand: &VectorSelector, bytes: Seq<u8>)
    requires
        encoded(cand) == bytes,
    ensures
        bytes.len() == 48 + enc_slots(cand.elements@).len(),
        crate::aggregates::codec::from_le(bytes.subrange(0, 8)) == cand.first_bucket_max_time
            as int + 0x8000_0000_0000_0000,
        crate::aggregates::codec::from_le(bytes.subrange(8, 16)) == cand.last_bucket_max_time
            as int + 0x8000_0000_0000_0000,
        crate::aggregates::codec::from_le(bytes.subrange(16, 24)) == cand.end_time as int
            + 0x8000_0000_0000_0000,
        crate::aggregates::codec::from_le(bytes.subrange(24, 32)) == cand.bucket_width as int
            + 0x8000_0000_0000_0000,
        crate::aggregates::codec::from_le(bytes.subrange(32, 40)) == cand.lookback as int
            + 0x8000_0000_0000_0000,
        crate::aggregates::codec::from_le(bytes.subrange(40, 48)) == cand.elements@.len(),
        bytes.subrange(48, bytes.len() as int) == enc_slots(cand.elements@),
{
    lemma_header_layout(cand);
    crate::aggregates::codec::lemma_byte_bound_u64();
    crate::aggregates::codec::lemma_le_round_trip(
        (cand.first_bucket_max_time as int + 0x8000_0000_0000_0000) as nat,
        8,
    );
    crate::aggregates::codec::lemma_le_round_trip(
        (cand.last_bucket_max_time as int + 0x8000_0000_0000_0000) as nat,
        8,
    );
    crate::aggregates::codec::lemma_le_round_trip(
        (cand.end_time as int + 0x8000_0000_0000_0000) as nat,
        8,
    );
    crate::aggregates::codec::lemma_le_round_trip(
        (cand.bucket_width as int + 0x8000_0000_0000_0000) as nat,
        8,
    );
    crate::aggregates::codec::lemma_le_round_trip(
        (cand.lookback as int + 0x8000_0000_0000_0000) as nat,
        8,
    );
    assert(cand.elements@.len() <= usize::MAX) by {
        assert(vstd::std_specs::vec::spec_vec_len(&cand.elements) == cand.elements@.len());
    }
    crate::aggregates::codec::lemma_le_round_trip(cand.elements@.len() as nat, 8);
}


/// What the bytes of one encoded occupied slot denote: the tag, the
/// timestamp window and the value window, read off the suffix equation.
proof fn lemma_occupied_slot_windows(
    bytes: Seq<u8>,
    pos: int,
    n: int,
    p0: (i64, u64),
    tailslots: Seq<u8>,
)
    requires
        0 <= pos,
        pos + 17 <= n,
        n == bytes.len(),
        bytes.subrange(pos, n) == enc_slot(Some(p0)) + tailslots,
    ensures
        crate::aggregates::codec::from_le(bytes.subrange(pos + 1, pos + 9)) == p0.0 as int
            + 0x8000_0000_0000_0000,
        crate::aggregates::codec::from_le(bytes.subrange(pos + 9, pos + 17)) == p0.1 as nat,
{
    let ta = enc_i64(p0.0);
    let va = crate::aggregates::codec::le_bytes(p0.1 as nat, 8);
    crate::aggregates::codec::lemma_le_bytes_len((p0.0 as int + 0x8000_0000_0000_0000) as nat, 8);
    crate::aggregates::codec::lemma_le_bytes_len(p0.1 as nat, 8);
    assert(bytes.subrange(pos, n) =~= seq![bytes[pos]] + bytes.subrange(pos + 1, n));
    assert(enc_slot(Some(p0)) + tailslots =~= seq![1u8] + (ta + (va + tailslots)));
    lemma_concat_parts(
        seq![1u8],
        ta + (va + tailslots),
        seq![bytes[pos]],
        bytes.subrange(pos + 1, n),
    );
    assert(bytes.subrange(pos + 1, n) =~= bytes.subrange(pos + 1, pos + 9) + bytes.subrange(
        pos + 9,
        n,
    ));
    lemma_concat_parts(
        ta,
        va + tailslots,
        bytes.subrange(pos + 1, pos + 9),
        bytes.subrange(pos + 9, n),
    );
    assert(bytes.subrange(pos + 9, n) =~= bytes.subrange(pos + 9, pos + 17) + bytes.subrange(
        pos + 17,
        n,
    ));
    lemma_concat_parts(
        va,
        tailslots,
        bytes.subrange(pos + 9, pos + 17),
        bytes.subrange(pos + 17, n),
    );
    crate::aggregates::codec::lemma_byte_bound_u64();
    crate::aggregates::codec::lemma_le_round_trip(
        (p0.0 as int + 0x8000_0000_0000_0000) as nat,
        8,
    );
    crate::aggregates::codec::lemma_le_round_trip(p0.1 as nat, 8);
}

/// Reads a serialized selector back. The parser accepts exactly the
/// well-formed states' encodings, in both directions: a returned state is
/// well formed and re-serializes to the very bytes that were read, and any
/// bytes some well-formed state serializes to are accepted. With
/// `lemma_encoded_injective` this makes the round trip exact: decoding what
/// `vector_selector_serialize` wrote returns the serialized state itself.
#[verifier::rlimit(100)]
#[verifier::spinoff_prover]
pub fn vector_selector_deserialize(bytes: &Vec<u8>) -> (r: Option<VectorSelector>)
    ensures
        r matches Some(sel) ==> wf(&sel) && encoded(&sel) == bytes@,
        (exists|s: VectorSelector| wf(&s) && encoded(&s) == bytes@) ==> r is Some,
{
    let ghost encodable: bool = exists|s: VectorSelector| wf(&s) && encoded(&s) == bytes@;
    let ghost cand: VectorSelector = choose|s: VectorSelector| wf(&s) && encoded(&s) == bytes@;
    proof {
        if encodable {
            lemma_candidate_fields(&cand, bytes@);
        }
    }
    let n: usize = bytes.len();
    if n < 48 {
        proof {
            if encodable {
                assert(false);
            }
        }
        return None;
    }
    let first = crate::aggregates::codec::ordered_u64_to_i64(
        crate::aggregates::codec::read_u64_le(bytes, 0),
    );
    let last = crate::aggregates::codec::ordered_u64_to_i64(
        crate::aggregates::codec::read_u64_le(bytes, 8),
    );
    let end = crate::aggregates::codec::ordered_u64_to_i64(
        crate::aggregates::codec::read_u64_le(bytes, 16),
    );
    let bw = crate::aggregates::codec::ordered_u64_to_i64(
        crate::aggregates::codec::read_u64_le(bytes, 24),
    );
    let lb = crate::aggregates::codec::ordered_u64_to_i64(
        crate::aggregates::codec::read_u64_le(bytes, 32),
    );
    let count_u: u64 = crate::aggregates::codec::read_u64_le(bytes, 40);
    proof {
        if encodable {
            assert(first == cand.first_bucket_max_time);
            assert(last == cand.last_bucket_max_time);
            assert(end == cand.end_time);
            assert(bw == cand.bucket_width);
            assert(lb == cand.lookback);
            assert(count_u as int == cand.elements@.len());
        }
    }
    if bw < 1 || bw > MAX_MS_DURATION {
        proof {
            if encodable {
                assert(false);
            }
        }
        return None;
    }
    if lb < 0 || lb > MAX_MS_DURATION {
        proof {
            if encodable {
                assert(false);
            }
        }
        return None;
    }
    if first > end {
        proof {
            if encodable {
                assert(false);
            }
        }
        return None;
    }
    if end as i128 - first as i128 > i64::MAX as i128 {
        proof {
            if encodable {
                assert(false);
            }
        }
        return None;
    }
    if (first as i128) - (lb as i128) * 1000 < i64::MIN as i128 {
        proof {
            if encodable {
                assert(false);
            }
        }
        return None;
    }
    if (end as i128) + (bw as i128) * 1000 > i64::MAX as i128 {
        proof {
            if encodable {
                assert(false);
            }
        }
        return None;
    }
    if count_u < 1 || count_u > 9_223_372_036_854_776u64 {
        proof {
            if encodable {
                // A well-formed state's slot count is capped by the span of
                // its grid: at most one bucket per thousand microseconds of
                // an i64 span, plus one.
                let len = cand.elements@.len() as int;
                assert(1000 * (len - 1) <= (len - 1) * bw_us(&cand)) by (nonlinear_arith)
                    requires
                        len >= 1,
                        bw_us(&cand) >= 1000,
                ;
                assert(len <= 9_223_372_036_854_776);
                assert(false);
            }
        }
        return None;
    }
    let width_us_128: i128 = (bw as i128) * 1000;
    proof {
        assert(0 <= (count_u as int - 1) * (bw as int * 1000)
            <= 100_000_000_000_000_000_000_000_000_000_000_000) by (nonlinear_arith)
            requires
                1 <= count_u as int <= 9_223_372_036_854_776,
                1 <= bw as int <= 9_223_372_036_854_775,
        ;
    }
    if (last as i128) != (first as i128) + ((count_u - 1) as i128) * width_us_128 {
        proof {
            if encodable {
                assert(false);
            }
        }
        return None;
    }
    if last > end {
        proof {
            if encodable {
                assert(false);
            }
        }
        return None;
    }
    if (end as i128) >= (last as i128) + width_us_128 {
        proof {
            if encodable {
                assert(false);
            }
        }
        return None;
    }
    let mut elements: Vec<Option<(i64, u64)>> = Vec::new();
    let mut built: u64 = 0;
    while built < count_u
        invariant
            0 <= built <= count_u,
            elements@.len() == built as int,
            forall|k: int| 0 <= k < elements@.len() ==> elements@[k] is None,
        decreases count_u - built,
    {
        elements.push(None);
        built += 1;
    }
    let mut sel = VectorSelector {
        first_bucket_max_time: first,
        last_bucket_max_time: last,
        end_time: end,
        bucket_width: bw,
        lookback: lb,
        elements,
    };
    proof {
        assert(sel.elements@.len() == count_u as int);
        assert(sel.last_bucket_max_time as int == sel.first_bucket_max_time as int
            + (sel.elements@.len() - 1) * bw_us(&sel)) by (nonlinear_arith)
            requires
                last as int == first as int + (count_u as int - 1) * (bw as int * 1000),
                sel.last_bucket_max_time == last,
                sel.first_bucket_max_time == first,
                sel.elements@.len() == count_u as int,
                bw_us(&sel) == bw as int * 1000,
        ;
        assert(wf(&sel));
        if encodable {
            assert(cand.elements@.take(0) =~= sel.elements@.take(0));
        }
    }
    let n_slots: usize = sel.elements.len();
    let mut pos: usize = 48;
    let mut i: usize = 0;
    while i < n_slots
        invariant
            wf(&sel),
            n_slots == sel.elements@.len(),
            0 <= i <= n_slots,
            48 <= pos <= n,
            n == bytes@.len(),
            sel.first_bucket_max_time == first,
            sel.last_bucket_max_time == last,
            sel.end_time == end,
            sel.bucket_width == bw,
            sel.lookback == lb,
            bytes@.subrange(48, pos as int) == enc_slots(sel.elements@.take(i as int)),
            forall|k: int| i <= k < n_slots ==> sel.elements@[k] is None,
            encodable == (exists|s: VectorSelector| wf(&s) && encoded(&s) == bytes@),
            cand == (choose|s: VectorSelector| wf(&s) && encoded(&s) == bytes@),
            encodable ==> {
                &&& wf(&cand)
                &&& encoded(&cand) == bytes@
                &&& cand.first_bucket_max_time == first
                &&& cand.last_bucket_max_time == last
                &&& cand.end_time == end
                &&& cand.bucket_width == bw
                &&& cand.lookback == lb
                &&& cand.elements@.len() == n_slots as int
                &&& cand.elements@.take(i as int) == sel.elements@.take(i as int)
            },
        decreases n_slots - i,
    {
        let ghost prefix_bytes = bytes@.subrange(48, pos as int);
        let ghost prefix_slots = sel.elements@.take(i as int);
        proof {
            if encodable {
                // The remaining bytes are exactly the encodings of the
                // candidate's remaining slots.
                lemma_candidate_fields(&cand, bytes@);
                lemma_enc_slots_split(cand.elements@, i as int);
                assert(bytes@.subrange(48, n as int) =~= bytes@.subrange(48, pos as int)
                    + bytes@.subrange(pos as int, n as int));
                lemma_concat_parts(
                    enc_slots(cand.elements@.take(i as int)),
                    enc_slots(cand.elements@.skip(i as int)),
                    bytes@.subrange(48, pos as int),
                    bytes@.subrange(pos as int, n as int),
                );
                let tail = cand.elements@.skip(i as int);
                assert(tail.len() == n_slots - i >= 1);
                assert(tail[0] == cand.elements@[i as int]);
                assert(tail.drop_first() =~= cand.elements@.skip(i as int + 1));
                assert(enc_slots(tail) == enc_slot(cand.elements@[i as int]) + enc_slots(
                    cand.elements@.skip(i as int + 1),
                ));
                lemma_enc_slot_len(cand.elements@[i as int]);
            }
        }
        if pos >= n {
            proof {
                if encodable {
                    assert(bytes@.subrange(pos as int, n as int).len() >= 1);
                    assert(false);
                }
            }
            return None;
        }
        let tag: u8 = bytes[pos];
        proof {
            if encodable {
                assert(bytes@.subrange(pos as int, n as int)[0] == bytes@[pos as int]);
                assert(tag == enc_slot(cand.elements@[i as int])[0]);
            }
        }
        if tag == 0u8 {
            proof {
                lemma_enc_slots_push(prefix_slots, None);
                assert(sel.elements@.take(i as int + 1) =~= prefix_slots.push(
                    sel.elements@[i as int],
                ));
                assert(bytes@.subrange(48, pos as int + 1) =~= prefix_bytes + seq![bytes@[
                    pos as int]]);
                assert(enc_slot(None) =~= seq![0u8]);
                if encodable {
                    assert(cand.elements@[i as int] is None);
                    assert(cand.elements@.take(i as int + 1) =~= prefix_slots.push(
                        None::<(i64, u64)>,
                    ));
                }
            }
            pos += 1;
        } else if tag == 1u8 {
            proof {
                if encodable {
                    assert(cand.elements@[i as int] is Some);
                    assert(bytes@.subrange(pos as int, n as int).len() >= 17);
                }
            }
            if n - pos < 17 {
                proof {
                    if encodable {
                        assert(false);
                    }
                }
                return None;
            }
            let raw_t: u64 = crate::aggregates::codec::read_u64_le(bytes, pos + 1);
            let t: i64 = crate::aggregates::codec::ordered_u64_to_i64(raw_t);
            let v: u64 = crate::aggregates::codec::read_u64_le(bytes, pos + 9);
            proof {
                if encodable {
                    let p0 = cand.elements@[i as int]->0;
                    lemma_occupied_slot_windows(
                        bytes@,
                        pos as int,
                        n as int,
                        p0,
                        enc_slots(cand.elements@.skip(i as int + 1)),
                    );
                    assert(t == p0.0);
                    assert(v == p0.1);
                }
            }
            let b: usize = match sel.get_bucket(t) {
                Ok(b) => b,
                Err(_) => {
                    proof {
                        if encodable {
                            let p0 = cand.elements@[i as int]->0;
                            let fc = first as int;
                            let bwc = bw_us(&sel);
                            let lbc = lb_us(&sel);
                            assert(in_bucket(fc, bwc, lbc, i as int, p0.0 as int));
                            if i > 0 {
                                assert((i as int - 1) * bwc >= 0 && i as int * bwc <= (
                                n_slots as int - 1) * bwc) by (nonlinear_arith)
                                    requires
                                        bwc >= 1,
                                        1 <= i as int <= n_slots as int - 1,
                                ;
                            }
                            assert(false);
                        }
                    }
                    return None;
                },
            };
            if b != i {
                proof {
                    if encodable {
                        let p0 = cand.elements@[i as int]->0;
                        lemma_in_bucket_unique(
                            first as int,
                            bw_us(&sel),
                            lb_us(&sel),
                            b as int,
                            i as int,
                            p0.0 as int,
                        );
                        assert(false);
                    }
                }
                return None;
            }
            sel.elements[i] = Some((t, v));
            proof {
                let ghost w1 = bytes@.subrange(pos as int + 1, pos as int + 9);
                let ghost w2 = bytes@.subrange(pos as int + 9, pos as int + 17);
                crate::aggregates::codec::lemma_le_bytes_of_from_le(w1);
                crate::aggregates::codec::lemma_le_bytes_of_from_le(w2);
                assert(enc_i64(t) == w1);
                assert(crate::aggregates::codec::le_bytes(v as nat, 8) == w2);
                lemma_enc_slots_push(prefix_slots, Some((t, v)));
                assert(sel.elements@.take(i as int + 1) =~= prefix_slots.push(Some((t, v))));
                assert(enc_slot(Some((t, v))) =~= seq![1u8] + enc_i64(t)
                    + crate::aggregates::codec::le_bytes(v as nat, 8));
                assert(bytes@.subrange(48, pos as int + 17) =~= prefix_bytes + (seq![1u8] + w1
                    + w2));
                assert(prefix_bytes + (seq![1u8] + w1 + w2) =~= prefix_bytes + enc_slot(
                    Some((t, v)),
                ));
                if encodable {
                    assert(cand.elements@[i as int] == Some((t, v)));
                    assert(cand.elements@.take(i as int + 1) =~= prefix_slots.push(
                        Some((t, v)),
                    ));
                }
            }
            pos += 17;
        } else {
            proof {
                if encodable {
                    assert(false);
                }
            }
            return None;
        }
        i += 1;
    }
    if pos != n {
        proof {
            if encodable {
                lemma_candidate_fields(&cand, bytes@);
                assert(cand.elements@.take(i as int) =~= cand.elements@);
                assert(sel.elements@.take(i as int) =~= sel.elements@);
                assert(bytes@.subrange(48, pos as int).len() == enc_slots(cand.elements@).len());
                assert(false);
            }
        }
        return None;
    }
    proof {
        let ghost w0 = bytes@.subrange(0, 8);
        let ghost w1 = bytes@.subrange(8, 16);
        let ghost w2 = bytes@.subrange(16, 24);
        let ghost w3 = bytes@.subrange(24, 32);
        let ghost w4 = bytes@.subrange(32, 40);
        let ghost w5 = bytes@.subrange(40, 48);
        crate::aggregates::codec::lemma_le_bytes_of_from_le(w0);
        crate::aggregates::codec::lemma_le_bytes_of_from_le(w1);
        crate::aggregates::codec::lemma_le_bytes_of_from_le(w2);
        crate::aggregates::codec::lemma_le_bytes_of_from_le(w3);
        crate::aggregates::codec::lemma_le_bytes_of_from_le(w4);
        crate::aggregates::codec::lemma_le_bytes_of_from_le(w5);
        assert(enc_i64(sel.first_bucket_max_time) == w0);
        assert(enc_i64(sel.last_bucket_max_time) == w1);
        assert(enc_i64(sel.end_time) == w2);
        assert(enc_i64(sel.bucket_width) == w3);
        assert(enc_i64(sel.lookback) == w4);
        assert(crate::aggregates::codec::le_bytes(sel.elements@.len() as nat, 8) == w5);
        assert(sel.elements@.take(n_slots as int) =~= sel.elements@);
        assert(bytes@ =~= w0 + w1 + w2 + w3 + w4 + w5 + bytes@.subrange(48, n as int));
        assert(encoded(&sel) =~= bytes@);
    }
    Some(sel)
}

} // verus!

verus! {

/// Splitting equal concatenations at the same offset yields equal parts.
proof fn lemma_concat_parts(p1: Seq<u8>, q1: Seq<u8>, p2: Seq<u8>, q2: Seq<u8>)
    requires
        p1.len() == p2.len(),
        p1 + q1 == p2 + q2,
    ensures
        p1 == p2,
        q1 == q2,
{
    broadcast use vstd::seq::group_seq_axioms;

    assert forall|i: int| 0 <= i < p1.len() implies p1[i] == p2[i] by {
        assert(p1[i] == (p1 + q1)[i]);
        assert(p2[i] == (p2 + q2)[i]);
    }
    assert(p1 =~= p2);
    assert((p1 + q1).len() == p1.len() + q1.len());
    assert((p2 + q2).len() == p2.len() + q2.len());
    assert((p1 + q1).len() == (p2 + q2).len());
    assert(q1.len() == q2.len());
    assert forall|i: int| 0 <= i < q1.len() implies q1[i] == q2[i] by {
        let j = p1.len() as int + i;
        assert((p1 + q1)[j] == q1[j - p1.len()]);
        assert((p2 + q2)[j] == q2[j - p2.len()]);
    }
    assert(q1 =~= q2);
}

/// Two equal eight-byte encodings come from the same `i64`.
proof fn lemma_enc_i64_injective(x: i64, y: i64)
    requires
        enc_i64(x) == enc_i64(y),
    ensures
        x == y,
{
    let xn = (x as int + 0x8000_0000_0000_0000) as nat;
    let yn = (y as int + 0x8000_0000_0000_0000) as nat;
    crate::aggregates::codec::lemma_byte_bound_u64();
    crate::aggregates::codec::lemma_le_round_trip(xn, 8);
    crate::aggregates::codec::lemma_le_round_trip(yn, 8);
}

/// Equal slot encodings of equally long slot lists come from equal lists.
proof fn lemma_enc_slots_injective(a: Seq<Option<(i64, u64)>>, b: Seq<Option<(i64, u64)>>)
    requires
        a.len() == b.len(),
        enc_slots(a) == enc_slots(b),
    ensures
        a == b,
    decreases a.len(),
{
    if a.len() == 0 {
        assert(a =~= b);
    } else {
        let ea = enc_slot(a[0]);
        let eb = enc_slot(b[0]);
        assert(enc_slots(a) == ea + enc_slots(a.drop_first()));
        assert(enc_slots(b) == eb + enc_slots(b.drop_first()));
        assert((ea + enc_slots(a.drop_first()))[0] == (eb + enc_slots(b.drop_first()))[0]);
        match (a[0], b[0]) {
            (None, None) => {
                lemma_concat_parts(ea, enc_slots(a.drop_first()), eb, enc_slots(b.drop_first()));
            },
            (Some(pa), Some(pb)) => {
                crate::aggregates::codec::lemma_le_bytes_len(
                    (pa.0 as int + 0x8000_0000_0000_0000) as nat,
                    8,
                );
                crate::aggregates::codec::lemma_le_bytes_len(
                    (pb.0 as int + 0x8000_0000_0000_0000) as nat,
                    8,
                );
                crate::aggregates::codec::lemma_le_bytes_len(pa.1 as nat, 8);
                crate::aggregates::codec::lemma_le_bytes_len(pb.1 as nat, 8);
                lemma_concat_parts(ea, enc_slots(a.drop_first()), eb, enc_slots(b.drop_first()));
                let ta = enc_i64(pa.0);
                let tb = enc_i64(pb.0);
                let va = crate::aggregates::codec::le_bytes(pa.1 as nat, 8);
                let vb = crate::aggregates::codec::le_bytes(pb.1 as nat, 8);
                assert(seq![1u8] + (ta + va) =~= ea);
                assert(seq![1u8] + (tb + vb) =~= eb);
                lemma_concat_parts(seq![1u8], ta + va, seq![1u8], tb + vb);
                lemma_concat_parts(ta, va, tb, vb);
                lemma_enc_i64_injective(pa.0, pb.0);
                crate::aggregates::codec::lemma_byte_bound_u64();
                crate::aggregates::codec::lemma_le_round_trip(pa.1 as nat, 8);
                crate::aggregates::codec::lemma_le_round_trip(pb.1 as nat, 8);
            },
            (None, Some(pb)) => {
                assert(ea[0] == 0u8);
                crate::aggregates::codec::lemma_le_bytes_len(
                    (pb.0 as int + 0x8000_0000_0000_0000) as nat,
                    8,
                );
                assert(eb[0] == 1u8);
                assert(false);
            },
            (Some(pa), None) => {
                crate::aggregates::codec::lemma_le_bytes_len(
                    (pa.0 as int + 0x8000_0000_0000_0000) as nat,
                    8,
                );
                assert(ea[0] == 1u8);
                assert(eb[0] == 0u8);
                assert(false);
            },
        }
        if a[0] == b[0] {
            lemma_enc_slots_injective(a.drop_first(), b.drop_first());
            assert forall|i: int| 0 <= i < a.len() implies a[i] == b[i] by {
                if i > 0 {
                    assert(a.drop_first()[i - 1] == a[i]);
                    assert(b.drop_first()[i - 1] == b[i]);
                    assert(a.drop_first()[i - 1] == b.drop_first()[i - 1]);
                }
            }
            assert(a =~= b);
        }
    }
}

/// Serialization is injective: equal byte forms come from equal states. With
/// the contract of `vector_selector_deserialize` this closes the round trip:
/// whatever decoding `encoded(s)` returns, it is either nothing or `s`
/// itself, never some other state.
pub proof fn lemma_encoded_injective(a: &VectorSelector, b: &VectorSelector)
    requires
        encoded(a) == encoded(b),
    ensures
        a.first_bucket_max_time == b.first_bucket_max_time,
        a.last_bucket_max_time == b.last_bucket_max_time,
        a.end_time == b.end_time,
        a.bucket_width == b.bucket_width,
        a.lookback == b.lookback,
        a.elements@ == b.elements@,
{
    lemma_header_layout(a);
    lemma_header_layout(b);
    lemma_enc_i64_injective(a.first_bucket_max_time, b.first_bucket_max_time);
    lemma_enc_i64_injective(a.last_bucket_max_time, b.last_bucket_max_time);
    lemma_enc_i64_injective(a.end_time, b.end_time);
    lemma_enc_i64_injective(a.bucket_width, b.bucket_width);
    lemma_enc_i64_injective(a.lookback, b.lookback);
    lemma_tail_eq(a, b);
    assert(a.elements@ =~= b.elements@);
}

/// The layout of an encoding: each eight-byte span of the header is the
/// encoding of its field, and the slot section follows at byte 48.
proof fn lemma_header_layout(v: &VectorSelector)
    ensures
        encoded(v).subrange(0, 8) == enc_i64(v.first_bucket_max_time),
        encoded(v).subrange(8, 16) == enc_i64(v.last_bucket_max_time),
        encoded(v).subrange(16, 24) == enc_i64(v.end_time),
        encoded(v).subrange(24, 32) == enc_i64(v.bucket_width),
        encoded(v).subrange(32, 40) == enc_i64(v.lookback),
        encoded(v).subrange(40, 48) == crate::aggregates::codec::le_bytes(
            v.elements@.len() as nat,
            8,
        ),
        encoded(v).len() == 48 + enc_slots(v.elements@).len(),
        encoded(v).subrange(48, encoded(v).len() as int) == enc_slots(v.elements@),
{
    lemma_enc_i64_len(v.first_bucket_max_time);
    lemma_enc_i64_len(v.last_bucket_max_time);
    lemma_enc_i64_len(v.end_time);
    lemma_enc_i64_len(v.bucket_width);
    lemma_enc_i64_len(v.lookback);
    crate::aggregates::codec::lemma_le_bytes_len(v.elements@.len() as nat, 8);
    assert(encoded(v).subrange(0, 8) =~= enc_i64(v.first_bucket_max_time));
    assert(encoded(v).subrange(8, 16) =~= enc_i64(v.last_bucket_max_time));
    assert(encoded(v).subrange(16, 24) =~= enc_i64(v.end_time));
    assert(encoded(v).subrange(24, 32) =~= enc_i64(v.bucket_width));
    assert(encoded(v).subrange(32, 40) =~= enc_i64(v.lookback));
    assert(encoded(v).subrange(40, 48) =~= crate::aggregates::codec::le_bytes(
        v.elements@.len() as nat,
        8,
    ));
    assert(encoded(v).subrange(48, encoded(v).len() as int) =~= enc_slots(v.elements@));
}

proof fn lemma_enc_i64_len(x: i64)
    ensures
        enc_i64(x).len() == 8,
{
    crate::aggregates::codec::lemma_le_bytes_len((x as int + 0x8000_0000_0000_0000) as nat, 8);
}

/// The slot lists of two equal encodings agree.
proof fn lemma_tail_eq(a: &VectorSelector, b: &VectorSelector)
    requires
        encoded(a) == encoded(b),
    ensures
        a.elements@ == b.elements@,
{
    lemma_header_layout(a);
    lemma_header_layout(b);
    assert(encoded(a).subrange(40, 48) == encoded(b).subrange(40, 48));
    crate::aggregates::codec::lemma_byte_bound_u64();
    assert(a.elements@.len() <= usize::MAX) by {
        assert(vstd::std_specs::vec::spec_vec_len(&a.elements) == a.elements@.len());
    }
    assert(b.elements@.len() <= usize::MAX) by {
        assert(vstd::std_specs::vec::spec_vec_len(&b.elements) == b.elements@.len());
    }
    crate::aggregates::codec::lemma_le_round_trip(a.elements@.len() as nat, 8);
    crate::aggregates::codec::lemma_le_round_trip(b.elements@.len() as nat, 8);
    assert(a.elements@.len() == b.elements@.len());
    assert(encoded(a).subrange(48, encoded(a).len() as int) == encoded(b).subrange(
        48,
        encoded(b).len() as int,
    ));
    lemma_enc_slots_injective(a.elements@, b.elements@);
}

} // verus!
