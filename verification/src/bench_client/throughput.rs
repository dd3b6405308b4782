//! Throughput in windows of time, and latencies.
use super::histogram::{
    law_exact_rounding, law_three_digits, recorded, rounded, SerializableHistogramWrapper,
};
use crate::trace::laws::lemma_flatten_next;
use vstd::multiset::Multiset;
use vstd::prelude::*;

verus! {

/// How many requests were completed in each window of time in which any were.
pub struct Samples {
    pub totals: Vec<usize>,
}

impl View for Samples {
    type V = Seq<usize>;

    open spec fn view(&self) -> Seq<usize> {
        self.totals@
    }
}

impl Samples {
    /// No samples.
    pub fn new() -> (r: Self)
        ensures
            r@ == Seq::<usize>::empty(),
    {
        Samples { totals: Vec::new() }
    }

    /// How many samples there are.
    pub fn sample_count(&self) -> (n: usize)
        ensures
            n == self@.len(),
    {
        self.totals.len()
    }

    /// Adds a sample.
    pub fn add_sample(&mut self, total: usize)
        ensures
            final(self)@ == old(self)@.push(total),
    {
        self.totals.push(total);
    }

    /// Adds all samples of another one.
    pub fn add(&mut self, other: &Self)
        ensures
            final(self)@ == old(self)@ + other@,
    {
        crate::trace::extend_list(&mut self.totals, &other.totals);
    }

    /// Whether the samples are positive on average: that is, whether any is.
    pub fn has_progress(&self) -> (b: bool)
        ensures
            b == any_positive(self@),
    {
        for i in 0..self.totals.len()
            invariant
                forall|j: int| 0 <= j < i ==> #[trigger] self@[j] == 0,
        {
            if self.totals[i] > 0 {
                assert(self@[i as int] > 0);
                return true;
            }
        }
        false
    }
}

/// Whether any sample is positive.
pub open spec fn any_positive(s: Seq<usize>) -> bool {
    exists|i: int| 0 <= i < s.len() && #[trigger] s[i] > 0
}

/// What is measured at a client: a batch of completed requests with their latencies, or the
/// end of a window.
pub enum Measurement {
    Batch(Vec<u64>),
    WindowOver,
}

/// The latencies of a measurement.
pub open spec fn latencies_of(m: Measurement) -> Seq<u64> {
    match m {
        Measurement::Batch(latencies) => latencies@,
        Measurement::WindowOver => Seq::empty(),
    }
}

/// The latencies of all measurements.
pub open spec fn all_latencies(events: Seq<Measurement>) -> Seq<u64>
    decreases events.len(),
{
    if events.len() == 0 {
        Seq::empty()
    } else {
        all_latencies(events.drop_last()) + latencies_of(events.last())
    }
}

/// The requests of the window that is under way, and the samples of the windows before, after
/// some measurements. A window in which nothing was completed gives no sample.
pub open spec fn windows(total: nat, samples: Seq<usize>, events: Seq<Measurement>) -> (
    nat,
    Seq<usize>,
)
    decreases events.len(),
{
    if events.len() == 0 {
        (total, samples)
    } else {
        let (t, s) = windows(total, samples, events.drop_last());
        match events.last() {
            Measurement::Batch(latencies) => (t + latencies@.len(), s),
            Measurement::WindowOver => if t > 0 {
                (0, s.push(t as usize))
            } else {
                (0, s)
            },
        }
    }
}

/// The values that a histogram has counted after it counted a list of further ones.
pub open spec fn counted(m: Multiset<u64>, s: Seq<u64>) -> Multiset<u64>
    decreases s.len(),
{
    if s.len() == 0 {
        m
    } else {
        counted(m, s.drop_last()).insert(rounded(s.last() as nat) as u64)
    }
}

/// The sum of all samples.
pub open spec fn sum_of(s: Seq<usize>) -> nat
    decreases s.len(),
{
    if s.len() == 0 {
        0
    } else {
        sum_of(s.drop_last()) + s.last() as nat
    }
}

proof fn lemma_counted_len(m: Multiset<u64>, s: Seq<u64>)
    ensures
        counted(m, s).len() == m.len() + s.len(),
    decreases s.len(),
{
    if s.len() > 0 {
        lemma_counted_len(m, s.drop_last());
    }
}

/// Every completed request is in exactly one window: the samples and the window that is under
/// way together count all of them.
pub proof fn law_every_request_counts_once(
    total: nat,
    samples: Seq<usize>,
    events: Seq<Measurement>,
)
    requires
        total + all_latencies(events).len() <= usize::MAX,
    ensures
        windows(total, samples, events).0 + sum_of(windows(total, samples, events).1) == total
            + sum_of(samples) + all_latencies(events).len(),
        windows(total, samples, events).0 <= total + all_latencies(events).len(),
    decreases events.len(),
{
    if events.len() > 0 {
        law_every_request_counts_once(total, samples, events.drop_last());
        let (t, s) = windows(total, samples, events.drop_last());
        assert(s.push(t as usize).drop_last() =~= s);
    }
}

/// No sample is zero, if none was before.
pub proof fn law_samples_are_positive(total: nat, samples: Seq<usize>, events: Seq<Measurement>)
    requires
        total + all_latencies(events).len() <= usize::MAX,
        forall|i: int| 0 <= i < samples.len() ==> #[trigger] samples[i] > 0,
    ensures
        forall|i: int|
            0 <= i < windows(total, samples, events).1.len() ==> #[trigger] windows(
                total,
                samples,
                events,
            ).1[i] > 0,
    decreases events.len(),
{
    if events.len() > 0 {
        law_samples_are_positive(total, samples, events.drop_last());
        law_every_request_counts_once(total, samples, events.drop_last());
    }
}

/// The latencies of measurements are those of their batches, one after the other; the end of a
/// window has none.
pub proof fn law_all_latencies(events: Seq<Measurement>)
    ensures
        all_latencies(events) == events.map_values(
            |m: Measurement|
                match m {
                    Measurement::Batch(latencies) => latencies@,
                    Measurement::WindowOver => Seq::<u64>::empty(),
                },
        ).flatten(),
    decreases events.len(),
{
    let g = |m: Measurement|
        match m {
            Measurement::Batch(latencies) => latencies@,
            Measurement::WindowOver => Seq::<u64>::empty(),
        };
    if events.len() > 0 {
        let init = events.drop_last();
        law_all_latencies(init);
        assert(events.map_values(g) =~= init.map_values(g).push(g(events.last())));
        lemma_flatten_next(init.map_values(g), g(events.last()));
    } else {
        assert(events.map_values(g) =~= Seq::empty());
    }
}

/// How many of the latencies are told as the value.
pub open spec fn told_as(s: Seq<u64>, v: u64) -> nat {
    s.filter(|x: u64| rounded(x as nat) == v).len()
}

/// A histogram that has counted further latencies counts each value as often as before, plus the
/// number of those latencies that are the value with three digits.
pub proof fn law_counted(m: Multiset<u64>, s: Seq<u64>, v: u64)
    ensures
        counted(m, s).count(v) == m.count(v) + s.filter(|x: u64| rounded(x as nat) == v).len(),
        counted(m, s).len() == m.len() + s.len(),
    decreases s.len(),
{
    reveal(Seq::filter);
    lemma_counted_len(m, s);
    if s.len() > 0 {
        law_counted(m, s.drop_last(), v);
        law_three_digits(s.last() as nat);
        let p = |x: u64| rounded(x as nat) == v;
        assert(s.filter(p).len() == s.drop_last().filter(p).len() + if p(s.last()) {
            1nat
        } else {
            0
        });
    }
}

/// Below the number of values that are told apart, the latencies are counted as they are.
pub proof fn law_small_latencies_are_exact(m: Multiset<u64>, s: Seq<u64>, v: u64)
    requires
        v < 1024,
    ensures
        counted(m, s).count(v) == m.count(v) + s.filter(|x: u64| x == v).len(),
    decreases s.len(),
{
    reveal(Seq::filter);
    if s.len() > 0 {
        law_small_latencies_are_exact(m, s.drop_last(), v);
        law_exact_rounding(s.last() as nat);
        law_three_digits(s.last() as nat);
        let p = |x: u64| x == v;
        assert(s.filter(p).len() == s.drop_last().filter(p).len() + if p(s.last()) {
            1nat
        } else {
            0
        });
    }
}

/// Measurements can be taken in several goes: what comes out is the same as in one go.
pub proof fn law_windows_in_goes(
    total: nat,
    samples: Seq<usize>,
    a: Seq<Measurement>,
    b: Seq<Measurement>,
)
    ensures
        windows(total, samples, a + b) == windows(
            windows(total, samples, a).0,
            windows(total, samples, a).1,
            b,
        ),
    decreases b.len(),
{
    if b.len() > 0 {
        law_windows_in_goes(total, samples, a, b.drop_last());
        assert((a + b).drop_last() =~= a + b.drop_last());
        assert((a + b).last() == b.last());
    } else {
        assert(a + b =~= a);
    }
}

/// As long as no window ends, completed requests only add up. At its end a window gives one
/// sample: how many requests were completed in it, unless there were none. The next window
/// starts at zero.
pub proof fn law_one_window(total: nat, samples: Seq<usize>, batches: Seq<Measurement>)
    requires
        forall|i: int| 0 <= i < batches.len() ==> (#[trigger] batches[i]) is Batch,
        total + all_latencies(batches).len() <= usize::MAX,
    ensures
        windows(total, samples, batches) == (total + all_latencies(batches).len(), samples),
        total + all_latencies(batches).len() > 0 ==> windows(
            total,
            samples,
            batches.push(Measurement::WindowOver),
        ) == (0nat, samples.push((total + all_latencies(batches).len()) as usize)),
        total + all_latencies(batches).len() == 0 ==> windows(
            total,
            samples,
            batches.push(Measurement::WindowOver),
        ) == (0nat, samples),
    decreases batches.len(),
{
    if batches.len() > 0 {
        let init = batches.drop_last();
        assert forall|i: int| 0 <= i < init.len() implies (#[trigger] init[i]) is Batch by {
            assert(init[i] == batches[i]);
        }
        assert(batches[batches.len() - 1] is Batch);
        law_one_window(total, samples, init);
    }
    let sum = total + all_latencies(batches).len();
    assert(windows(total, samples, batches) == (sum, samples));
    let over = batches.push(Measurement::WindowOver);
    assert(over.drop_last() =~= batches);
    assert(over.last() == Measurement::WindowOver);
}

/// What is known of the throughput and the latencies of a client.
pub struct BenchResult {
    pub latency_histogram: SerializableHistogramWrapper,
    pub throughput: Samples,
}

/// A result that is still being measured.
pub struct Measuring {
    pub result: BenchResult,
    /// The requests that were completed in the window that is under way.
    pub total: usize,
}

impl Measuring {
    pub open spec fn wf(self) -> bool {
        self.result.latency_histogram.wf()
    }

    /// Nothing was measured yet.
    pub fn new() -> (r: Self)
        ensures
            r.wf(),
            r.total == 0,
            r.result.throughput@ == Seq::<usize>::empty(),
            recorded(r.result.latency_histogram) == Multiset::<u64>::empty(),
    {
        Measuring {
            result: BenchResult {
                latency_histogram: SerializableHistogramWrapper::new(),
                throughput: Samples::new(),
            },
            total: 0,
        }
    }
}

/// Computes the throughput and the latencies of requests from what is measured, in order.
///
/// Where the windows end is not determined; whatever comes is accounted for in the window in
/// which it comes.
pub fn compute_throughput_latency(state: &mut Measuring, events: Vec<Measurement>)
    requires
        old(state).wf(),
        old(state).total + all_latencies(events@).len() <= usize::MAX,
    ensures
        final(state).wf(),
        (final(state).total as nat, final(state).result.throughput@) == windows(
            old(state).total as nat,
            old(state).result.throughput@,
            events@,
        ),
        recorded(old(state).result.latency_histogram).len() + all_latencies(events@).len()
            <= u64::MAX ==> recorded(final(state).result.latency_histogram) == counted(
            recorded(old(state).result.latency_histogram),
            all_latencies(events@),
        ),
        recorded(old(state).result.latency_histogram).len() + all_latencies(events@).len()
            <= u64::MAX ==> forall|v: u64| #[trigger]
            recorded(final(state).result.latency_histogram).count(v) == recorded(
                old(state).result.latency_histogram,
            ).count(v) + told_as(all_latencies(events@), v),
{
    let ghost start = recorded(state.result.latency_histogram);
    let ghost total0 = state.total as nat;
    let ghost samples0 = state.result.throughput@;
    let ghost all = events@;
    assert(all.take(0) =~= Seq::empty());
    for event in it: events
        invariant
            it.seq() == all,
            state.wf(),
            total0 + all_latencies(all).len() <= usize::MAX,
            (state.total as nat, state.result.throughput@) == windows(
                total0,
                samples0,
                all.take(it.index() as int),
            ),
            start.len() + all_latencies(all).len() <= u64::MAX ==> recorded(
                state.result.latency_histogram,
            ) == counted(start, all_latencies(all.take(it.index() as int))),
    {
        let ghost k = it.index() as int;
        proof {
            crate::seqs::lemma_take_next(all, k);
            lemma_latencies_grow(all, k + 1);
            law_every_request_counts_once(total0, samples0, all.take(k));
        }
        let ghost before = all_latencies(all.take(k));
        match event {
            Measurement::Batch(latencies) => {
                let ghost batch = latencies@;
                let n: usize = latencies.len();
                for i in 0..n
                    invariant
                        n == latencies.len(),
                        latencies@ == batch,
                        state.wf(),
                        state.total as nat == windows(total0, samples0, all.take(k)).0,
                        state.result.throughput@ == windows(total0, samples0, all.take(k)).1,
                        before.len() + batch.len() <= all_latencies(all).len(),
                        start.len() + all_latencies(all).len() <= u64::MAX ==> recorded(
                            state.result.latency_histogram,
                        ) == counted(start, before + batch.take(i as int)),
                {
                    proof {
                        lemma_counted_len(start, before + batch.take(i as int));
                        crate::seqs::lemma_take_next(batch, i as int);
                        assert((before + batch.take(i + 1)).drop_last() =~= before + batch.take(
                            i as int,
                        ));
                    }
                    state.result.latency_histogram.record(latencies[i]);
                }
                proof {
                    assert(batch.take(n as int) =~= batch);
                }
                state.total = state.total + n;
            },
            Measurement::WindowOver => {
                if state.total > 0 {
                    state.result.throughput.add_sample(state.total);
                }
                state.total = 0;
                proof {
                    assert(before + Seq::<u64>::empty() =~= before);
                }
            },
        }
    }
    assert(all.take(all.len() as int) =~= all);
    proof {
        assert forall|v: u64| #[trigger] counted(start, all_latencies(all)).count(v)
            == start.count(v) + told_as(all_latencies(all), v) by {
            law_counted(start, all_latencies(all), v);
        }
    }
}

proof fn lemma_latencies_grow(events: Seq<Measurement>, k: int)
    requires
        0 <= k <= events.len(),
    ensures
        all_latencies(events.take(k)).len() <= all_latencies(events).len(),
    decreases events.len() - k,
{
    if k < events.len() {
        crate::seqs::lemma_take_next(events, k);
        lemma_latencies_grow(events, k + 1);
    } else {
        assert(events.take(k) =~= events);
    }
}

} // verus!
