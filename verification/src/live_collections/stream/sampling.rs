//! Sampling streams and values by a clock.
use super::aggregate::{first_of, is_made_deterministic};
use super::markers::{AtLeastOnce, ExactlyOnce, Retries, StreamOrdering, TotalOrder};
use super::Stream;
use crate::compile::builder::FlowBuilder;
use crate::compile::ir::{
    is_at, node_spec, ordered_kind, BoundKind, CollectionKind, DebugExpr, HydroNode, HydroOp,
    StreamOrder, StreamRetry,
};
use crate::datum::Dup;
use crate::live_collections::boundedness::{Bounded, Boundedness, Unbounded};
use crate::live_collections::optional::{present, Optional};
use crate::live_collections::quoted::Quoted;
use crate::live_collections::singleton::timing::snapshot_node;
use crate::live_collections::singleton::Singleton;
use crate::location::dynamic::DynLocation;
use crate::location::operations::{covers, interval_text, is_stream_source};
use crate::location::tick::{NoAtomic, NoTick, Tick};
use crate::location::Location;
use crate::nondet::NonDet;
use crate::text::text_of_parts;
use crate::trace::choice::{
    current, law_batches_keep_elements, law_batches_keep_order, ordered_batch, unordered_batch,
    version_shown,
};
use crate::trace::combine::gated;
use crate::trace::laws::{law_before_concatenates, lemma_flatten_next};
use crate::trace::{before, fits, flat, Trace};
use core::marker::PhantomData;
use vstd::prelude::*;

verus! {

/// The batch of a stream in a round.
pub open spec fn batch_of<T, O: StreamOrdering>(
    t: Seq<Seq<T>>,
    choices: Seq<usize>,
    i: int,
) -> Seq<T> {
    if O::ordering_spec() == StreamOrder::TotalOrder {
        ordered_batch(t, choices, i)
    } else {
        unordered_batch(t, choices, i)
    }
}

/// Whether the node tells, in the tick, whether the timer went off.
pub open spec fn is_timer_signal<L: DynLocation>(
    node: HydroNode,
    interval: Seq<char>,
    tick: Tick<L>,
) -> bool {
    let there = CollectionKind::Optional { bound: BoundKind::Bounded };
    &&& is_at(node, tick.id_spec(), there)
    &&& node.op matches HydroOp::MapEach { f, input } && f.code@ == "|_u| ()"@ && is_at(
        *input,
        tick.id_spec(),
        there,
    ) && (
    input.op matches HydroOp::Reduce { f, input } && f.code@ == "|_, _| {}"@ && is_at(
        *input,
        tick.id_spec(),
        ordered_kind(BoundKind::Bounded),
    ) && (input.op matches HydroOp::Batch { inner } && is_stream_source(
        *inner,
        tick.l.id_spec(),
        ordered_kind(BoundKind::Unbounded),
        interval_text(interval),
    )))
}

impl<T, L: NoTick + NoAtomic, B: Boundedness, O: StreamOrdering, R: Retries> Stream<T, L, B, O, R> {
    /// Samples the stream at the given interval: each batch of it is passed on if the timer
    /// went off. `samples` are the times at which the timer goes off, and `batching` decides
    /// which iteration of the clock sees them.
    pub fn sample_every(
        self,
        flow: &mut FlowBuilder,
        interval: &DebugExpr,
        samples: Trace<()>,
        nondet: NonDet,
        batching: NonDet,
    ) -> (r: Stream<T, L, Unbounded, O, AtLeastOnce>)
        requires
            self.wf(),
            covers(self.location, samples@),
            fits(self.trace@),
            fits(samples@),
            old(flow).next_clock_id < usize::MAX,
        ensures
            r.wf(),
            r.location == self.location,
            is_sampled_plan::<L, O, R>(
                r.ir_node,
                self.ir_node,
                interval.code@,
                (Tick { id: old(flow).next_clock_id, l: self.location }),
            ),
            *final(flow) == (FlowBuilder {
                next_clock_id: (old(flow).next_clock_id + 1) as usize,
                ..*old(flow)
            }),
            forall|i: int|
                0 <= i < r.trace@.len() ==> #[trigger] r.trace@[i] == gated(
                    batch_of::<T, O>(self.trace@, nondet@, i),
                    ordered_batch(samples@, batching@, i).len() > 0,
                ),
    {
        let ghost t = self.trace@;
        let timer = self.location.source_interval(interval, samples);
        let tick = self.location.tick(flow);
        let batch = self.batch(&tick, nondet);
        let ghost b = batch.trace@;
        let went_off = timer.batch(&tick, batching);
        let ghost w = went_off.trace@;
        let signal = went_off.first();
        let ghost s = signal.trace@;
        let passed = batch.filter_if_some(signal);
        proof {
            assert forall|i: int| 0 <= i < s.len() implies #[trigger] current(s, i) == first_of(
                w[i],
            ) by {
                assert(s[i].len() == 1);
                assert(before(s, i + 1).last() == s[i].last());
                assert(s[i].last() == first_of(w[i]));
            }
            assert forall|i: int| 0 <= i < passed.trace@.len() implies #[trigger] passed.trace@[i]
                == gated(
                batch_of::<T, O>(t, nondet@, i),
                ordered_batch(samples@, batching@, i).len() > 0,
            ) by {
                assert(passed.trace@[i] == gated(b[i], current(s, i) is Some));
                assert(b[i] == batch_of::<T, O>(t, nondet@, i));
                assert(w[i] == ordered_batch(samples@, batching@, i));
            }
        }
        passed.all_ticks().weaken_retries::<AtLeastOnce>()
    }
}

/// Whether the node passes on the batches of the source in which the timer went off.
pub open spec fn is_sampled_plan<L: DynLocation, O: StreamOrdering, R: Retries>(
    node: HydroNode,
    source: HydroNode,
    interval: Seq<char>,
    tick: Tick<L>,
) -> bool {
    if R::retries_spec() == StreamRetry::ExactlyOnce {
        &&& is_at(
            node,
            tick.l.id_spec(),
            CollectionKind::Stream {
                bound: BoundKind::Unbounded,
                order: O::ordering_spec(),
                retry: StreamRetry::AtLeastOnce,
            },
        )
        &&& node.op matches HydroOp::Cast { inner } && is_passed_plan::<L, O, R>(
            *inner,
            source,
            interval,
            tick,
        )
    } else {
        is_passed_plan::<L, O, R>(node, source, interval, tick)
    }
}

/// Whether the node yields, outside the tick, the batches in which the timer went off.
pub open spec fn is_passed_plan<L: DynLocation, O: StreamOrdering, R: Retries>(
    node: HydroNode,
    source: HydroNode,
    interval: Seq<char>,
    tick: Tick<L>,
) -> bool {
    let kind = |bound: BoundKind|
        CollectionKind::Stream { bound, order: O::ordering_spec(), retry: R::retries_spec() };
    &&& is_at(node, tick.l.id_spec(), kind(BoundKind::Unbounded))
    &&& node.op matches HydroOp::YieldConcat { inner } && is_at(
        *inner,
        tick.id_spec(),
        kind(BoundKind::Bounded),
    ) && (inner.op matches HydroOp::MapEach { f, input } && f.code@ == "|(d, _signal)| d"@
        && is_at(*input, tick.id_spec(), kind(BoundKind::Bounded)) && (
    input.op matches HydroOp::CrossSingleton { left, right } && *left == node_spec(
        HydroOp::Batch { inner: Box::new(source) },
        tick.id_spec(),
        kind(BoundKind::Bounded),
    ) && is_timer_signal(*right, interval, tick)))
}

impl<T: Dup, L: NoTick + NoAtomic, B: Boundedness> Singleton<T, L, B> {
    /// Samples the value at the given interval: a snapshot of it is passed on whenever the
    /// timer went off. `samples` are the times at which the timer goes off, and `batching`
    /// decides which iteration of the clock sees them.
    pub fn sample_every(
        self,
        flow: &mut FlowBuilder,
        interval: &DebugExpr,
        samples: Trace<()>,
        nondet: NonDet,
        batching: NonDet,
    ) -> (r: Stream<T, L, Unbounded, TotalOrder, AtLeastOnce>)
        requires
            self.wf(),
            covers(self.location, samples@),
            fits(self.trace@),
            fits(samples@),
            old(flow).next_clock_id < usize::MAX,
        ensures
            r.wf(),
            r.location == self.location,
            is_value_sampled_plan(
                r.ir_node,
                self.ir_node,
                interval.code@,
                (Tick { id: old(flow).next_clock_id, l: self.location }),
            ),
            *final(flow) == (FlowBuilder {
                next_clock_id: (old(flow).next_clock_id + 1) as usize,
                ..*old(flow)
            }),
            forall|i: int|
                0 <= i < r.trace@.len() ==> #[trigger] r.trace@[i] == gated(
                    seq![flat(self.trace@)[version_shown(self.trace@, nondet@, i)]],
                    ordered_batch(samples@, batching@, i).len() > 0,
                ),
    {
        let ghost t = self.trace@;
        let timer = self.location.source_interval(interval, samples);
        let tick = self.location.tick(flow);
        let value = self.snapshot(&tick, nondet);
        let ghost v = value.trace@;
        let went_off = timer.batch(&tick, batching);
        let ghost w = went_off.trace@;
        let signal = went_off.first();
        let ghost s = signal.trace@;
        let passed = value.filter_if_some(flow, signal);
        let ghost p = passed.trace@;
        let listed = passed.into_stream();
        proof {
            assert forall|i: int| 0 <= i < listed.trace@.len() implies #[trigger] listed.trace@[i]
                == gated(
                seq![flat(t)[version_shown(t, nondet@, i)]],
                ordered_batch(samples@, batching@, i).len() > 0,
            ) by {
                assert(s[i].len() == 1 && s[i].last() == first_of(w[i]));
                assert(current(s, i) == s[i].last());
                assert(v[i].len() == 1);
                assert(current(v, i) == v[i].last());
                assert(p[i] == seq![crate::live_collections::optional::if_some(v[i][0], s[i][0])]);
                lemma_present_one(p[i][0]);
                assert(w[i] == ordered_batch(samples@, batching@, i));
                assert(listed.trace@[i] =~= gated(v[i], w[i].len() > 0));
            }
        }
        listed.all_ticks().weaken_retries::<AtLeastOnce>()
    }
}

proof fn lemma_present_one<T>(x: Option<T>)
    ensures
        present(seq![x]) == (match x {
            Some(y) => seq![y],
            None => Seq::empty(),
        }),
{
    reveal_with_fuel(present, 2);
    assert(seq![x].drop_last() =~= Seq::empty());
    assert(present(seq![x]) =~= (match x {
        Some(y) => seq![y],
        None => Seq::empty(),
    }));
}

/// Whether the node yields, outside the tick, the snapshots of the value in which the timer
/// went off.
pub open spec fn is_value_sampled_plan<L: DynLocation>(
    node: HydroNode,
    source: HydroNode,
    interval: Seq<char>,
    tick: Tick<L>,
) -> bool {
    let there = CollectionKind::Optional { bound: BoundKind::Bounded };
    &&& is_at(
        node,
        tick.l.id_spec(),
        CollectionKind::Stream {
            bound: BoundKind::Unbounded,
            order: StreamOrder::TotalOrder,
            retry: StreamRetry::AtLeastOnce,
        },
    )
    &&& node.op matches HydroOp::Cast { inner } && is_at(
        *inner,
        tick.l.id_spec(),
        ordered_kind(BoundKind::Unbounded),
    ) && (inner.op matches HydroOp::YieldConcat { inner } && is_at(
        *inner,
        tick.id_spec(),
        ordered_kind(BoundKind::Bounded),
    ) && (inner.op matches HydroOp::Cast { inner } && is_at(*inner, tick.id_spec(), there) && (
    inner.op matches HydroOp::MapEach { f, input } && f.code@ == "|(d, _signal)| d"@ && is_at(
        *input,
        tick.id_spec(),
        there,
    ) && (input.op matches HydroOp::CrossSingleton { left, right } && *left == snapshot_node(
        source,
        tick,
    ) && is_timer_signal(*right, interval, tick)))))
}

/// Whether nothing arrived for longer than the duration: nothing at all, or last too long ago.
pub open spec fn timed_out(latest: Option<u64>, now: u64, duration: u64) -> bool {
    match latest {
        Some(t) => now - t > duration,
        None => true,
    }
}

/// A unit value if nothing arrived for longer than the duration.
pub fn check_timeout(latest: Option<u64>, now: u64, duration: u64) -> (r: Option<()>)
    ensures
        r is Some <==> timed_out(latest, now, duration),
{
    match latest {
        Some(t) => if now > t && now - t > duration {
            Some(())
        } else {
            None
        },
        None => Some(()),
    }
}

/// The times at which something arrived last, as they change: at first none, then that of
/// each arrival. If nothing can arrive any more after the first round, only the last one
/// counts.
pub open spec fn latest_times(times: Seq<Seq<u64>>, bound: BoundKind, i: int) -> Seq<Option<u64>> {
    let some = times[i].map_values(|t: u64| Some(t));
    if bound == BoundKind::Bounded {
        if i > 0 {
            Seq::empty()
        } else if some.len() == 0 {
            seq![None]
        } else {
            seq![some.last()]
        }
    } else if i == 0 {
        seq![None] + some
    } else {
        some
    }
}

fn follow_latest(times: &Trace<u64>, bound: BoundKind) -> (r: Trace<Option<u64>>)
    ensures
        r@.len() == times@.len(),
        forall|i: int| 0 <= i < r@.len() ==> #[trigger] r@[i] == latest_times(times@, bound, i),
{
    let n: usize = times.len();
    let mut r: Trace<Option<u64>> = Trace::new();
    for i in 0..n
        invariant
            n == times@.len(),
            r@.len() == i,
            forall|k: int| 0 <= k < i ==> #[trigger] r@[k] == latest_times(times@, bound, k),
    {
        let round = times.round(i);
        let mut versions: Vec<Option<u64>> = Vec::new();
        if bound == BoundKind::Bounded {
            if i == 0 {
                if round.len() == 0 {
                    versions.push(None);
                } else {
                    versions.push(Some(round[round.len() - 1]));
                }
            }
        } else {
            if i == 0 {
                versions.push(None);
            }
            let ghost start = versions@;
            for j in 0..round.len()
                invariant
                    versions@ == start + round@.take(j as int).map_values(|t: u64| Some(t)),
            {
                versions.push(Some(round[j]));
                assert(versions@ =~= start + round@.take(j + 1).map_values(|t: u64| Some(t)));
            }
            assert(round@.take(round.len() as int) =~= round@);
        }
        assert(versions@ =~= latest_times(times@, bound, i as int));
        r.push(versions);
    }
    r
}

/// The times at which something arrived last, round by round.
pub open spec fn latest_trace(times: Seq<Seq<u64>>, bound: BoundKind) -> Seq<Seq<Option<u64>>> {
    Seq::new(times.len(), |i: int| latest_times(times, bound, i))
}

/// The code that decides whether nothing arrived for longer than the duration.
pub open spec fn timeout_text(duration: Seq<char>) -> Seq<char> {
    "move |latest_received| { if let Some(latest_received) = latest_received { if Instant::now().duration_since(latest_received) > "@
        + duration + " { Some(()) } else { None } } else { Some(()) } }"@
}

/// Whether the node tells outside the tick whether a timeout was seen inside.
pub open spec fn is_timeout_plan<L: DynLocation>(
    node: HydroNode,
    source: HydroNode,
    bound: BoundKind,
    order: StreamOrder,
    retry: StreamRetry,
    duration: Seq<char>,
    tick: Tick<L>,
) -> bool {
    &&& is_at(node, tick.l.id_spec(), CollectionKind::Optional { bound: BoundKind::Unbounded })
    &&& node.op matches HydroOp::YieldConcat { inner } && is_at(
        *inner,
        tick.id_spec(),
        CollectionKind::Optional { bound: BoundKind::Bounded },
    ) && (inner.op matches HydroOp::FilterMap { f, input } && f.code@ == timeout_text(duration)
        && is_at(
        *input,
        tick.id_spec(),
        CollectionKind::Singleton { bound: BoundKind::Bounded },
    ) && (input.op matches HydroOp::Batch { inner } && is_at(
        *inner,
        tick.l.id_spec(),
        CollectionKind::Singleton { bound },
    ) && (inner.op matches HydroOp::Fold { init, acc, input } && init.code@ == "|| None"@
        && acc.code@ == "|latest, _| { *latest = Some(Instant::now()); }"@
        && is_made_deterministic(
        *input,
        source,
        tick.l.id_spec(),
        bound,
        order,
        retry,
        false,
        false,
    ))))
}

impl<T, L: NoTick + NoAtomic, B: Boundedness, O: StreamOrdering, R: Retries> Stream<T, L, B, O, R> {
    /// An [`Optional`] which has a value if the stream has not emitted an element for the
    /// duration.
    ///
    /// The clock decides: `received_at` are the times at which the elements are received, in
    /// the order in which that happens, and `now` is the time at which each iteration of the
    /// clock looks at the latest of them that it knows of.
    pub fn timeout(
        self,
        flow: &mut FlowBuilder,
        duration: Quoted<u64>,
        received_at: &Trace<u64>,
        now: &Vec<u64>,
        nondet: NonDet,
    ) -> (r: Optional<(), L, Unbounded>)
        requires
            self.wf(),
            O::ordering_spec() == StreamOrder::NoOrder ==> fits(self.trace@),
            received_at@.len() == self.trace@.len(),
            forall|i: int|
                0 <= i < self.trace@.len() ==> (#[trigger] received_at@[i]).len()
                    == self.trace@[i].len(),
            now.len() == self.trace@.len(),
            fits(latest_trace(received_at@, B::bound_spec())),
            old(flow).next_clock_id < usize::MAX,
        ensures
            r.wf(),
            r.location == self.location,
            is_timeout_plan(
                r.ir_node,
                self.ir_node,
                B::bound_spec(),
                O::ordering_spec(),
                R::retries_spec(),
                duration.code.code@,
                (Tick { id: old(flow).next_clock_id, l: self.location }),
            ),
            *final(flow) == (FlowBuilder {
                next_clock_id: (old(flow).next_clock_id + 1) as usize,
                ..*old(flow)
            }),
            forall|i: int|
                0 <= i < r.trace@.len() ==> (#[trigger] r.trace@[i]).len() == 1 && (
                r.trace@[i][0] is Some <==> timed_out(
                    flat(latest_trace(received_at@, B::bound_spec()))[version_shown(
                        latest_trace(received_at@, B::bound_spec()),
                        nondet@,
                        i,
                    )],
                    now@[i],
                    duration.value,
                )),
    {
        proof {
            L::is_outside();
        }
        let ghost versions = latest_trace(received_at@, B::bound_spec());
        let tick = self.location.tick(flow);
        let ordered: Stream<T, L, B, TotalOrder, ExactlyOnce> = self.assume_retries(
            nondet.dup(),
        ).assume_ordering(NonDet::none());
        let trace = follow_latest(received_at, B::bound_kind());
        assert(trace@ =~= versions);
        let latest_received: Singleton<Option<u64>, L, B> = Singleton::new(
            ordered.location,
            HydroOp::Fold {
                init: DebugExpr { code: "|| None".to_owned() },
                acc: DebugExpr {
                    code: "|latest, _| { *latest = Some(Instant::now()); }".to_owned(),
                },
                input: Box::new(ordered.ir_node),
            },
            trace,
        );
        let shown = latest_received.snapshot(&tick, nondet);
        let ghost s = shown.trace@;
        let timed = look_at(shown, now);
        let ghost w = timed.trace@;
        let limit: u64 = duration.value;
        let decide = |v: (Option<u64>, u64)| -> (r: Option<()>)
            ensures
                r is Some <==> timed_out(v.0, v.1, limit),
            { check_timeout(v.0, v.1, limit) };
        let code = text_of_parts(
            "move |latest_received| { if let Some(latest_received) = latest_received { if Instant::now().duration_since(latest_received) > ",
            duration.code.code.as_str(),
            " { Some(()) } else { None } } else { Some(()) } }",
        );
        let decided = timed.filter_map(Quoted { code: DebugExpr { code }, value: decide });
        proof {
            assert forall|i: int| 0 <= i < decided.trace@.len() implies (
            #[trigger] decided.trace@[i]).len() == 1 && (decided.trace@[i][0] is Some
                <==> timed_out(
                flat(versions)[version_shown(versions, nondet@, i)],
                now@[i],
                duration.value,
            )) by {
                assert(w[i] == seq![(s[i][0], now@[i])]);
                assert(decided.trace@[i].len() == w[i].len());
                assert(decide.ensures((w[i][0],), decided.trace@[i][0]));
                assert(s[i] == seq![flat(versions)[version_shown(versions, nondet@, i)]]);
            }
        }
        decided.latest()
    }
}

/// The value, together with the time at which each tick looks at it.
fn look_at<T: Dup, L: DynLocation>(
    value: Singleton<T, Tick<L>, Bounded>,
    now: &Vec<u64>,
) -> (r: Singleton<(T, u64), Tick<L>, Bounded>)
    requires
        value.wf(),
        now.len() == value.trace@.len(),
    ensures
        r.wf(),
        r.location == value.location,
        r.ir_node == value.ir_node,
        forall|i: int|
            0 <= i < r.trace@.len() ==> #[trigger] r.trace@[i] == seq![
                (value.trace@[i][0], now@[i]),
            ],
{
    let n: usize = value.trace.len();
    let mut trace: Trace<(T, u64)> = Trace::new();
    for i in 0..n
        invariant
            n == value.trace@.len(),
            now.len() == n,
            value.wf(),
            trace@.len() == i,
            forall|k: int|
                0 <= k < i ==> #[trigger] trace@[k] == seq![(value.trace@[k][0], now@[k])],
    {
        let round = value.trace.round(i);
        assert(value.trace@[i as int].len() == 1);
        let mut one: Vec<(T, u64)> = Vec::new();
        one.push((round[0].dup(), now[i]));
        assert(one@ =~= seq![(value.trace@[i as int][0], now@[i as int])]);
        trace.push(one);
    }
    Singleton { location: value.location, ir_node: value.ir_node, trace, markers: PhantomData }
}

/// A timeout is over if nothing has come yet, or if more than the duration has passed since the
/// last arrival.
pub proof fn law_timed_out(t: u64, now: u64, duration: u64)
    ensures
        timed_out(None, now, duration),
        timed_out(Some(t), now, duration) <==> t + duration < now,
{
}

/// Before anything has come there is no last arrival. After that the last arrival is always the
/// latest one. A stream that is complete after the first round shows only the final one.
pub proof fn law_latest_arrival(times: Seq<Seq<u64>>, i: int)
    requires
        0 <= i < times.len(),
    ensures
        latest_trace(times, BoundKind::Unbounded).len() == times.len(),
        latest_trace(times, BoundKind::Unbounded).take(i + 1).flatten() == seq![None::<u64>]
            + times.take(i + 1).flatten().map_values(|t: u64| Some(t)),
        latest_trace(times, BoundKind::Bounded).take(i + 1).flatten() == seq![
            if times[0].len() == 0 {
                None::<u64>
            } else {
                Some(times[0].last())
            },
        ],
    decreases i,
{
    let open = latest_trace(times, BoundKind::Unbounded);
    let closed = latest_trace(times, BoundKind::Bounded);
    crate::seqs::lemma_take_next(times, i);
    crate::seqs::lemma_take_next(open, i);
    crate::seqs::lemma_take_next(closed, i);
    lemma_flatten_next(times.take(i), times[i]);
    lemma_flatten_next(open.take(i), open[i]);
    lemma_flatten_next(closed.take(i), closed[i]);
    let some = |t: u64| Some(t);
    if i > 0 {
        law_latest_arrival(times, i - 1);
        assert(closed.take(i + 1).flatten() =~= closed.take(i).flatten());
    } else {
        assert(times.take(0) =~= Seq::empty());
        assert(open.take(0) =~= Seq::empty());
        assert(closed.take(0) =~= Seq::empty());
        assert(times.take(1).flatten() =~= times[0]);
        assert(closed.take(1).flatten() =~= closed[0]);
    }
    assert(open.take(i + 1).flatten() =~= seq![None::<u64>] + times.take(
        i + 1,
    ).flatten().map_values(some));
}

/// The batches of a stream hold its elements, each once, and none before it arrives. If the stream
/// is ordered they hold them in its order.
pub proof fn law_batches<T, O: StreamOrdering>(t: Seq<Seq<T>>, choices: Seq<usize>, i: int)
    requires
        0 <= i <= t.len(),
    ensures
        ({
            let r = Seq::new(t.len(), |k: int| batch_of::<T, O>(t, choices, k));
            &&& r.flatten().to_multiset() == t.flatten().to_multiset()
            &&& O::ordering_spec() == StreamOrder::TotalOrder ==> r.flatten() == t.flatten()
            &&& O::ordering_spec() == StreamOrder::TotalOrder ==> r.take(i).flatten().is_prefix_of(
                t.take(i).flatten(),
            )
            &&& O::ordering_spec() != StreamOrder::TotalOrder ==> r.take(
                i,
            ).flatten().to_multiset().subset_of(t.take(i).flatten().to_multiset())
        }),
{
    let r = Seq::new(t.len(), |k: int| batch_of::<T, O>(t, choices, k));
    law_before_concatenates(t, i);
    law_before_concatenates(r, i);
    if O::ordering_spec() == StreamOrder::TotalOrder {
        law_batches_keep_order(t, r, choices);
        assert(before(r, i).is_prefix_of(before(t, i)));
    } else {
        law_batches_keep_elements(t, r, choices);
        assert(before(r, i).to_multiset().subset_of(before(t, i).to_multiset()));
    }
}

} // verus!
