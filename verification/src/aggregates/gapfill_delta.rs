//! Window state of the `delta` / `increase` / `rate` aggregates: a bounded
//! buffer of samples for the currently open window, flushed into an output
//! sequence with one nullable entry per completed window.
//!
//! A window is the interval ending at `current_window_max` (inclusive) and
//! starting at `current_window_min`; both advance by `step_size` at each
//! flush. The entry recorded for a window holds the window's bounds and its
//! buffered samples — everything the floating-point extrapolation of the
//! finisher needs — or null when fewer than two samples fell into it.

use vstd::prelude::*;

use crate::aggregates::{spec_is_stale, AggregateError, Sample};

verus! {

/// One completed window: its bounds and the samples that were buffered for
/// it, in ascending time order. Values are IEEE-754 bit patterns.
#[derive(Clone, Debug, PartialEq)]
pub struct WindowSamples {
    pub window_min: i64,
    pub window_max: i64,
    pub samples: Vec<Sample>,
}

/// Mathematical model of one completed window.
pub struct WinView {
    pub window_min: int,
    pub window_max: int,
    pub samples: Seq<Sample>,
}

impl View for WindowSamples {
    type V = WinView;

    open spec fn view(&self) -> WinView {
        WinView {
            window_min: self.window_min as int,
            window_max: self.window_max as int,
            samples: self.samples@,
        }
    }
}

/// Mathematical model of the whole window state.
pub struct GapfillView {
    pub window: Seq<Sample>,
    pub deltas: Seq<Option<WinView>>,
    pub min: int,
    pub max: int,
    pub step: int,
    pub range: int,
    pub lowest: int,
    pub greatest: int,
    pub is_counter: bool,
    pub is_rate: bool,
}

/// The models of the recorded window entries.
pub open spec fn deltas_view(d: Seq<Option<WindowSamples>>) -> Seq<Option<WinView>> {
    Seq::new(
        d.len(),
        |i: int|
            match d[i] {
                Some(w) => Some(w@),
                None => None,
            },
    )
}

/// Samples in ascending time order.
pub open spec fn sorted(s: Seq<Sample>) -> bool {
    forall|i: int, j: int|
        #![trigger s[i], s[j]]
        0 <= i < j < s.len() ==> s[i].time <= s[j].time
}

/// Well-formedness of the window state: positive configuration, the window
/// bounds one range apart and advanced from the start by whole steps (one per
/// recorded entry), arithmetic headroom, a sorted buffer lying within the
/// open window, and every recorded entry describing its own window with at
/// least two sorted samples inside it.
pub open spec fn view_wf(v: GapfillView) -> bool {
    &&& v.step >= 1
    &&& v.range >= 1
    &&& v.lowest <= v.greatest
    &&& v.greatest + v.range + v.step <= i64::MAX as int
    &&& i64::MIN as int <= v.lowest
    &&& v.max == v.min + v.range
    &&& v.max == v.lowest + v.range + v.deltas.len() * v.step
    &&& v.deltas.len() == 0 || v.max <= v.greatest + v.step
    &&& sorted(v.window)
    &&& forall|i: int|
        0 <= i < v.window.len() ==> v.min <= (#[trigger] v.window[i]).time <= v.max
    &&& forall|i: int|
        0 <= i < v.deltas.len() ==> match #[trigger] v.deltas[i] {
            Some(w) => {
                &&& w.samples.len() >= 2
                &&& sorted(w.samples)
                &&& w.window_max == w.window_min + v.range
                &&& w.window_max == v.lowest + v.range + i * v.step
                &&& forall|j: int|
                    0 <= j < w.samples.len() ==> w.window_min <= (#[trigger] w.samples[j]).time
                        <= w.window_max
            },
            None => true,
        }
}

/// The buffer after evicting, from the front, the samples older than `m`.
pub open spec fn evict(w: Seq<Sample>, m: int) -> Seq<Sample>
    decreases w.len(),
{
    if w.len() == 0 {
        w
    } else if w[0].time < m {
        evict(w.drop_first(), m)
    } else {
        w
    }
}

/// Eviction keeps a suffix of the buffer whose samples, when the buffer is
/// sorted, all lie at or after `m`.
pub proof fn lemma_evict_props(w: Seq<Sample>, m: int)
    requires
        sorted(w),
    ensures
        evict(w, m).len() <= w.len(),
        evict(w, m) == w.skip(w.len() - evict(w, m).len()),
        sorted(evict(w, m)),
        forall|i: int| 0 <= i < evict(w, m).len() ==> (#[trigger] evict(w, m)[i]).time >= m,
        evict(w, m).len() > 0 ==> evict(w, m).last() == w.last(),
    decreases w.len(),
{
    if w.len() == 0 {
        assert(evict(w, m) =~= w.skip(0));
    } else if w[0].time < m {
        assert(sorted(w.drop_first())) by {
            assert(forall|i: int, j: int|
                #![trigger w.drop_first()[i], w.drop_first()[j]]
                0 <= i < j < w.drop_first().len() ==> w.drop_first()[i].time
                    <= w.drop_first()[j].time) by {
                assert(forall|i: int|
                    0 <= i < w.drop_first().len() ==> #[trigger] w.drop_first()[i] == w[i + 1]);
            }
        }
        lemma_evict_props(w.drop_first(), m);
        let e = evict(w, m);
        assert(e == evict(w.drop_first(), m));
        assert(w.drop_first().skip(w.drop_first().len() - e.len()) =~= w.skip(w.len() - e.len()));
        if e.len() > 0 {
            assert(w.drop_first().last() == w.last());
        }
    } else {
        assert(evict(w, m) =~= w.skip(0));
        assert(forall|i: int| 0 <= i < w.len() ==> (#[trigger] w[i]).time >= w[0].time);
    }
}

/// Flushing the current window: record its entry (null when fewer than two
/// samples are buffered), advance both bounds by one step, and evict the
/// samples that fell before the new window.
pub open spec fn flush_one(v: GapfillView) -> GapfillView {
    let entry: Option<WinView> = if v.window.len() >= 2 {
        Some(WinView { window_min: v.min, window_max: v.max, samples: v.window })
    } else {
        None
    };
    GapfillView {
        deltas: v.deltas.push(entry),
        min: v.min + v.step,
        max: v.max + v.step,
        window: evict(v.window, v.min + v.step),
        ..v
    }
}

/// One flush preserves well-formedness as long as the window being flushed
/// still ends at or before `greatest`.
pub proof fn lemma_flush_one_wf(v: GapfillView)
    requires
        view_wf(v),
        v.max <= v.greatest,
    ensures
        view_wf(flush_one(v)),
{
    let f = flush_one(v);
    lemma_evict_props(v.window, v.min + v.step);
    assert(f.max == v.lowest + v.range + f.deltas.len() * v.step) by (nonlinear_arith)
        requires
            v.max == v.lowest + v.range + v.deltas.len() * v.step,
            f.max == v.max + v.step,
            f.deltas.len() == v.deltas.len() + 1,
    ;
    assert(forall|i: int|
        0 <= i < f.window.len() ==> f.min <= (#[trigger] f.window[i]).time <= f.max) by {
        assert(forall|i: int|
            0 <= i < f.window.len() ==> (#[trigger] f.window[i]) == v.window[i + (v.window.len()
                - f.window.len())]);
    }
    assert forall|i: int| 0 <= i < f.deltas.len() implies match #[trigger] f.deltas[i] {
        Some(w) => {
            &&& w.samples.len() >= 2
            &&& sorted(w.samples)
            &&& w.window_max == w.window_min + v.range
            &&& w.window_max == v.lowest + v.range + i * v.step
            &&& forall|j: int|
                0 <= j < w.samples.len() ==> w.window_min <= (#[trigger] w.samples[j]).time
                    <= w.window_max
        },
        None => true,
    } by {
        if i < v.deltas.len() {
            assert(f.deltas[i] == v.deltas[i]);
        } else {
            assert(i == v.deltas.len());
            assert(i * v.step == v.deltas.len() * v.step);
        }
    }
}

/// The distance, in whole steps still to flush, from the current window to
/// the instant `t`; zero when `t` already fits.
pub open spec fn dist(t: int, max: int) -> int {
    if t > max {
        t - max
    } else {
        0
    }
}

/// The state after flushing just enough windows for `t` to fit the current
/// one.
pub open spec fn flush_until(v: GapfillView, t: int) -> GapfillView
    decreases dist(t, v.max),
    when v.step >= 1
{
    if t <= v.max {
        v
    } else {
        flush_until(flush_one(v), t)
    }
}

/// The state after flushing every window that ends at or before `greatest`,
/// as `finalize` does.
pub open spec fn flush_all(v: GapfillView) -> GapfillView
    decreases
            if v.max <= v.greatest {
                v.greatest - v.max + 1
            } else {
                0
            },
    when v.step >= 1
{
    if v.max > v.greatest {
        v
    } else {
        flush_all(flush_one(v))
    }
}

/// One transition step on the model: a stale value is dropped before
/// anything else; otherwise the window advances until `time` fits, a sample
/// earlier than the freshest buffered one is a fatal ordering violation, a
/// sample before the current window is silently dropped, and any other
/// sample is appended to the buffer.
pub open spec fn spec_add(v: GapfillView, time: i64, value: u64) -> Result<
    GapfillView,
    AggregateError,
> {
    if spec_is_stale(value) {
        Ok(v)
    } else {
        let f = flush_until(v, time as int);
        if f.window.len() > 0 && (time as int) < f.window.last().time {
            Err(AggregateError::NotChronological)
        } else if (time as int) < f.min {
            Ok(f)
        } else {
            Ok(GapfillView { window: f.window.push(Sample { time, value }), ..f })
        }
    }
}

} // verus!

verus! {

/// The window state itself. Times are microseconds; `step_size` and `range`
/// are stored in microseconds, converted from the host's milliseconds at
/// creation.
#[derive(Clone, Debug, PartialEq)]
pub struct GapfillDeltaTransition {
    pub window: Vec<Sample>,
    pub deltas: Vec<Option<WindowSamples>>,
    pub current_window_min: i64,
    pub current_window_max: i64,
    pub step_size: i64,
    pub range: i64,
    pub lowest_time: i64,
    pub greatest_time: i64,
    pub is_counter: bool,
    pub is_rate: bool,
}

impl View for GapfillDeltaTransition {
    type V = GapfillView;

    open spec fn view(&self) -> GapfillView {
        GapfillView {
            window: self.window@,
            deltas: deltas_view(self.deltas@),
            min: self.current_window_min as int,
            max: self.current_window_max as int,
            step: self.step_size as int,
            range: self.range as int,
            lowest: self.lowest_time as int,
            greatest: self.greatest_time as int,
            is_counter: self.is_counter,
            is_rate: self.is_rate,
        }
    }
}

/// The model of a freshly created state: an empty buffer, no recorded
/// windows, and the first window ending one range after `lowest`.
pub open spec fn init_view(
    lowest: int,
    greatest: int,
    range_us: int,
    step_us: int,
    is_counter: bool,
    is_rate: bool,
) -> GapfillView {
    GapfillView {
        window: Seq::empty(),
        deltas: Seq::empty(),
        min: lowest,
        max: lowest + range_us,
        step: step_us,
        range: range_us,
        lowest,
        greatest,
        is_counter,
        is_rate,
    }
}

fn copy_samples(w: &Vec<Sample>) -> (r: Vec<Sample>)
    ensures
        r@ == w@,
{
    let mut r: Vec<Sample> = Vec::new();
    let n: usize = w.len();
    let mut i: usize = 0;
    while i < n
        invariant
            n == w@.len(),
            0 <= i <= n,
            r@ == w@.take(i as int),
        decreases n - i,
    {
        r.push(w[i]);
        proof {
            assert(w@.take(i as int + 1) =~= w@.take(i as int).push(w@[i as int]));
        }
        i += 1;
    }
    proof {
        assert(w@.take(n as int) =~= w@);
    }
    r
}

impl GapfillDeltaTransition {
    /// Creates the state for a window aggregation over
    /// `[lowest_time, greatest_time]` with the given range and step
    /// (milliseconds). The first window ends `range` after `lowest_time`.
    pub fn new(
        lowest_time: i64,
        greatest_time: i64,
        range: i64,
        step_size: i64,
        is_counter: bool,
        is_rate: bool,
    ) -> (r: GapfillDeltaTransition)
        requires
            1 <= range <= crate::aggregates::vector_selector::MAX_MS_DURATION,
            1 <= step_size <= crate::aggregates::vector_selector::MAX_MS_DURATION,
            lowest_time <= greatest_time,
            greatest_time as int + range as int * 1000 + step_size as int * 1000 <= i64::MAX as int,
        ensures
            r@ == init_view(
                lowest_time as int,
                greatest_time as int,
                range as int * 1000,
                step_size as int * 1000,
                is_counter,
                is_rate,
            ),
            view_wf(r@),
    {
        let range_us: i64 = range * crate::aggregates::USECS_PER_MS;
        let step_us: i64 = step_size * crate::aggregates::USECS_PER_MS;
        let r = GapfillDeltaTransition {
            window: Vec::new(),
            deltas: Vec::new(),
            current_window_min: lowest_time,
            current_window_max: lowest_time + range_us,
            step_size: step_us,
            range: range_us,
            lowest_time,
            greatest_time,
            is_counter,
            is_rate,
        };
        proof {
            assert(deltas_view(r.deltas@) =~= Seq::<Option<WinView>>::empty());
            assert(r@.deltas.len() * r@.step == 0) by (nonlinear_arith)
                requires
                    r@.deltas.len() == 0,
            ;
        }
        r
    }

    /// Records one entry for the window now closing and advances to the next
    /// window, dropping the buffered samples that fall before it.
    pub fn flush_current_window(&mut self)
        requires
            view_wf(old(self)@),
            old(self)@.max <= old(self)@.greatest,
        ensures
            view_wf(final(self)@),
            final(self)@ == flush_one(old(self)@),
    {
        proof {
            lemma_flush_one_wf(self@);
        }
        let entry: Option<WindowSamples> = if self.window.len() >= 2 {
            Some(
                WindowSamples {
                    window_min: self.current_window_min,
                    window_max: self.current_window_max,
                    samples: copy_samples(&self.window),
                },
            )
        } else {
            None
        };
        let ghost old_view = self@;
        self.deltas.push(entry);
        self.current_window_min = self.current_window_min + self.step_size;
        self.current_window_max = self.current_window_max + self.step_size;
        proof {
            assert(deltas_view(self.deltas@) =~= old_view.deltas.push(
                if old_view.window.len() >= 2 {
                    Some(
                        WinView {
                            window_min: old_view.min,
                            window_max: old_view.max,
                            samples: old_view.window,
                        },
                    )
                } else {
                    None
                },
            ));
        }
        let ghost target = evict(old_view.window, old_view.min + old_view.step);
        let ghost mid_deltas = self.deltas@;
        proof {
            lemma_evict_props(old_view.window, old_view.min + old_view.step);
        }
        while self.window.len() > 0 && self.window[0].time < self.current_window_min
            invariant
                evict(self.window@, self.current_window_min as int) == target,
                sorted(self.window@),
                self.current_window_min as int == old_view.min + old_view.step,
                self.current_window_max as int == old_view.max + old_view.step,
                self.deltas@ == mid_deltas,
                self.step_size as int == old_view.step,
                self.range as int == old_view.range,
                self.lowest_time as int == old_view.lowest,
                self.greatest_time as int == old_view.greatest,
                self.is_counter == old_view.is_counter,
                self.is_rate == old_view.is_rate,
            decreases self.window@.len(),
        {
            let ghost before = self.window@;
            self.window.remove(0);
            proof {
                assert(self.window@ =~= before.drop_first());
                assert(sorted(self.window@)) by {
                    assert(forall|i: int|
                        0 <= i < self.window@.len() ==> #[trigger] self.window@[i] == before[i
                            + 1]);
                }
            }
        }
        proof {
            assert(self.window@ == evict(self.window@, self.current_window_min as int));
            assert(self@ =~= flush_one(old_view)) by {
                assert(self@.deltas =~= flush_one(old_view).deltas);
            }
        }
    }

    /// Feeds one row into the state. The caller has already checked that
    /// `time` lies within `[lowest_time, greatest_time]`. A stale value
    /// returns at once, before any window advancement; otherwise windows are
    /// flushed until `time` fits, and the sample is appended, dropped as too
    /// old, or rejected as out of order, as `spec_add` says.
    pub fn add_data_point(&mut self, time: i64, value: u64) -> (r: Result<(), AggregateError>)
        requires
            view_wf(old(self)@),
            old(self)@.lowest <= time as int <= old(self)@.greatest,
        ensures
            view_wf(final(self)@),
            match r {
                Ok(()) => spec_add(old(self)@, time, value) == Ok::<GapfillView, AggregateError>(
                    final(self)@,
                ),
                Err(e) => spec_add(old(self)@, time, value) == Err::<GapfillView, AggregateError>(
                    e,
                ) && final(self)@ == flush_until(old(self)@, time as int),
            },
    {
        if crate::aggregates::is_stale(value) {
            return Ok(());
        }
        while time > self.current_window_max
            invariant
                view_wf(self@),
                time as int <= self@.greatest,
                flush_until(self@, time as int) == flush_until(old(self)@, time as int),
            decreases dist(time as int, self@.max),
        {
            self.flush_current_window();
        }
        proof {
            assert(flush_until(self@, time as int) == self@);
        }
        if self.window.len() > 0 {
            let freshest: Sample = self.window[self.window.len() - 1];
            if time < freshest.time {
                return Err(AggregateError::NotChronological);
            }
        }
        if time < self.current_window_min {
            return Ok(());
        }
        let ghost before = self@;
        self.window.push(Sample { time, value });
        proof {
            assert(sorted(self.window@)) by {
                assert(forall|i: int|
                    0 <= i < before.window.len() ==> #[trigger] self.window@[i]
                        == before.window[i]);
                assert(forall|i: int|
                    0 <= i < before.window.len() ==> (#[trigger] before.window[i]).time
                        <= before.window.last().time);
            }
            assert(self@ =~= GapfillView { window: before.window.push(Sample { time, value }), ..before });
        }
        Ok(())
    }

    /// Flushes every window ending at or before `greatest_time` and hands
    /// back the recorded entries, one per window in chronological order.
    pub fn finalize(self) -> (r: Vec<Option<WindowSamples>>)
        requires
            view_wf(self@),
        ensures
            deltas_view(r@) == flush_all(self@).deltas,
            r@.len() == window_count(self@.lowest, self@.greatest, self@.range, self@.step),
    {
        proof {
            lemma_finalize_length(self@);
        }
        let ghost orig = self@;
        let mut s = self;
        while s.current_window_max <= s.greatest_time
            invariant
                view_wf(s@),
                flush_all(s@) == flush_all(orig),
            decreases
                    if s@.max <= s@.greatest {
                        s@.greatest - s@.max + 1
                    } else {
                        0
                    },
        {
            s.flush_current_window();
        }
        s.deltas
    }
}

} // verus!

verus! {

/// How many windows a configuration yields: one per step from the first
/// window's end up to `greatest`, and none when even the first window ends
/// past `greatest`.
pub open spec fn window_count(lowest: int, greatest: int, range: int, step: int) -> int {
    if lowest + range <= greatest {
        (greatest - lowest - range) / step + 1
    } else {
        0
    }
}

/// The output sequence of `finalize` has exactly `window_count` entries, for
/// every reachable state of a given configuration: the recorded entries plus
/// the flushes still owed always add up to the same total.
pub proof fn lemma_finalize_length(v: GapfillView)
    requires
        view_wf(v),
    ensures
        flush_all(v).deltas.len() == window_count(v.lowest, v.greatest, v.range, v.step),
    decreases
            if v.max <= v.greatest {
                v.greatest - v.max + 1
            } else {
                0
            },
{
    if v.max > v.greatest {
        if v.deltas.len() == 0 {
            assert(v.deltas.len() * v.step == 0) by (nonlinear_arith)
                requires
                    v.deltas.len() == 0,
            ;
            assert(v.lowest + v.range > v.greatest);
        } else {
            let len = v.deltas.len() as int;
            let q = len - 1;
            let rem = v.greatest - v.lowest - v.range - q * v.step;
            assert((len - 1) * v.step == len * v.step - v.step) by (nonlinear_arith);
            assert(0 <= rem < v.step);
            assert(q * v.step >= 0) by (nonlinear_arith)
                requires
                    q >= 0,
                    v.step >= 1,
            ;
            assert(v.lowest + v.range <= v.greatest);
            assert((v.greatest - v.lowest - v.range) / v.step == q) by {
                vstd::arithmetic::div_mod::lemma_fundamental_div_mod_converse(
                    v.greatest - v.lowest - v.range,
                    v.step,
                    q,
                    rem,
                );
            }
        }
    } else {
        lemma_flush_one_wf(v);
        lemma_finalize_length(flush_one(v));
    }
}

/// A window that buffered fewer than two samples yields a null entry, and a
/// window with two or more always yields its samples: the entry recorded by
/// a flush is null exactly when no slope could be computed from the buffer.
pub proof fn lemma_flush_entry_null_iff(v: GapfillView)
    requires
        view_wf(v),
    ensures
        flush_one(v).deltas.last() is Some <==> v.window.len() >= 2,
        flush_one(v).deltas.last() matches Some(w) ==> w.samples == v.window && w.samples.len()
            >= 2 && w.window_min == v.min && w.window_max == v.max,
{
}

} // verus!
