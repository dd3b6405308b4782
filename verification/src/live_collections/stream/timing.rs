//! Moving streams between ticks, atomic contexts and the outside, and out of the program.
use super::markers::{ExactlyOnce, NoOrder, Retries, StreamOrdering, TotalOrder};
use super::Stream;
use crate::compile::builder::FlowBuilder;
use crate::compile::ir::{DebugExpr, HydroOp, HydroRoot, StreamOrder};
use crate::datum::Dup;
use crate::live_collections::batch_atomic::BatchAtomic;
use crate::live_collections::boundedness::{Bounded, Boundedness, Unbounded};
use crate::live_collections::quoted::Quoted;
use crate::location::dynamic::{same_location, DynLocation};
use crate::location::tick::{Atomic, NoAtomic, NoTick, Tick};
use crate::nondet::NonDet;
use crate::trace::choice::{
    law_batches_keep_elements, law_batches_keep_order, ordered_batch, unordered_batch,
};
use crate::trace::laws::{law_before_concatenates, lemma_flatten_next};
use crate::trace::order::is_permutation;
use crate::trace::possible::law_no_choices_no_delay;
use crate::trace::{before, fits, flat, Trace};
use vstd::prelude::*;
use vstd::seq_lib::lemma_multiset_commutative;

verus! {

impl<T, L: DynLocation, B: Boundedness, O: StreamOrdering, R: Retries> Stream<
    T,
    Atomic<L>,
    B,
    O,
    R,
> {
    /// The batch of elements that is atomically processed in each tick. It is exactly what
    /// arrives in that round, so there is nothing to choose.
    pub fn batch_atomic(self, nondet: NonDet) -> (r: Stream<T, Tick<L>, Bounded, O, R>)
        requires
            self.wf(),
        ensures
            r.is_built(self.location.tick, HydroOp::Batch { inner: Box::new(self.ir_node) }),
            r.trace == self.trace,
    {
        Stream::new(
            self.location.tick,
            HydroOp::Batch { inner: Box::new(self.ir_node) },
            self.trace,
        )
    }

    /// Yields the elements back into a top-level, asynchronous context.
    pub fn end_atomic(self) -> (r: Stream<T, L, B, O, R>) where L: NoTick
        requires
            self.wf(),
        ensures
            r.is_built(self.location.tick.l, HydroOp::EndAtomic { inner: Box::new(self.ir_node) }),
            r.trace == self.trace,
    {
        Stream::new(
            self.location.tick.l,
            HydroOp::EndAtomic { inner: Box::new(self.ir_node) },
            self.trace,
        )
    }
}

impl<T, L: DynLocation, O: StreamOrdering, R: Retries> BatchAtomic for Stream<
    T,
    Atomic<L>,
    Unbounded,
    O,
    R,
> {
    type Batched = Stream<T, Tick<L>, Bounded, O, R>;

    open spec fn batch_ok(self) -> bool {
        self.wf()
    }

    open spec fn is_batched(self, r: Stream<T, Tick<L>, Bounded, O, R>) -> bool {
        r.is_built(self.location.tick, HydroOp::Batch { inner: Box::new(self.ir_node) }) && r.trace
            == self.trace
    }

    fn batched_atomic(self) -> (r: Stream<T, Tick<L>, Bounded, O, R>) {
        self.batch_atomic(NonDet::none())
    }
}

impl<T, L: DynLocation, B: Boundedness, O: StreamOrdering, R: Retries> Stream<T, L, B, O, R> {
    /// Shifts this stream into an atomic context, whose downstream logic is executed before
    /// any outputs are yielded.
    pub fn atomic(self, tick: &Tick<L>) -> (r: Stream<T, Atomic<L>, B, O, R>) where L: NoTick
        requires
            self.wf(),
            tick.l.horizon_spec() == self.location.horizon_spec(),
        ensures
            r.is_built(
                (Atomic { tick: *tick }),
                HydroOp::BeginAtomic { inner: Box::new(self.ir_node) },
            ),
            r.trace == self.trace,
    {
        proof {
            L::is_outside();
        }
        Stream::new(
            Atomic { tick: tick.dup() },
            HydroOp::BeginAtomic { inner: Box::new(self.ir_node) },
            self.trace,
        )
    }

    /// The elements, batched by the given tick. The choices decide how many of the waiting
    /// elements each batch leaves for later; the last batch takes them all. If the elements
    /// are ordered, batches are contiguous and keep the order.
    pub fn batch(self, tick: &Tick<L>, nondet: NonDet) -> (r: Stream<T, Tick<L>, Bounded, O, R>)
        requires
            self.wf(),
            same_location(tick.l, self.location),
            fits(self.trace@),
        ensures
            r.is_built(*tick, HydroOp::Batch { inner: Box::new(self.ir_node) }),
            forall|i: int|
                0 <= i < r.trace@.len() ==> #[trigger] r.trace@[i] == (if O::ordering_spec()
                    == StreamOrder::TotalOrder {
                    ordered_batch(self.trace@, nondet@, i)
                } else {
                    unordered_batch(self.trace@, nondet@, i)
                }),
            O::ordering_spec() == StreamOrder::TotalOrder ==> r.trace@.flatten()
                == self.trace@.flatten(),
            O::ordering_spec() == StreamOrder::TotalOrder ==> forall|i: int|
                0 <= i <= r.trace@.len() ==> (#[trigger] r.trace@.take(i)).flatten().is_prefix_of(
                    self.trace@.take(i).flatten(),
                ),
            r.trace@.flatten().to_multiset() == self.trace@.flatten().to_multiset(),
            forall|i: int|
                0 <= i <= r.trace@.len() ==> (#[trigger] r.trace@.take(
                    i,
                )).flatten().to_multiset().subset_of(self.trace@.take(i).flatten().to_multiset()),
            nondet@.len() == 0 ==> r.trace@ == self.trace@,
    {
        let trace = match O::ordering_kind() {
            StreamOrder::TotalOrder => self.trace.batch_ordered(&nondet),
            StreamOrder::NoOrder => self.trace.batch_unordered(&nondet),
        };
        proof {
            let (t, r, ordered) = (
                self.trace@,
                trace@,
                O::ordering_spec() == StreamOrder::TotalOrder,
            );
            law_before_concatenates(t, 0);
            law_before_concatenates(r, 0);
            if ordered {
                law_batches_keep_order(t, r, nondet@);
            } else {
                law_batches_keep_elements(t, r, nondet@);
            }
            assert forall|i: int| 0 <= i <= r.len() implies (#[trigger] r.take(
                i,
            )).flatten().to_multiset().subset_of(t.take(i).flatten().to_multiset()) && (ordered
                ==> r.take(i).flatten().is_prefix_of(t.take(i).flatten())) by {
                law_before_concatenates(t, i);
                law_before_concatenates(r, i);
                if ordered {
                    assert(before(r, i).is_prefix_of(before(t, i)));
                    lemma_prefix_subset(before(r, i), before(t, i));
                } else {
                    assert(before(r, i).to_multiset().subset_of(before(t, i).to_multiset()));
                }
            }
            if nondet@.len() == 0 {
                assert(nondet@ =~= Seq::empty());
                assert forall|i: int| 0 <= i < r.len() implies #[trigger] r[i] == t[i] by {
                    law_no_choices_no_delay(t, i);
                }
                assert(r =~= t);
            }
        }
        Stream::new(tick.dup(), HydroOp::Batch { inner: Box::new(self.ir_node) }, trace)
    }
}

impl<T, L: DynLocation, O: StreamOrdering, R: Retries> Stream<T, Tick<L>, Bounded, O, R> {
    /// Yields the batches outside the tick as an unbounded stream: the elements of all ticks,
    /// one batch after the other.
    pub fn all_ticks(self) -> (r: Stream<T, L, Unbounded, O, R>)
        requires
            self.wf(),
        ensures
            r.is_built(self.location.l, HydroOp::YieldConcat { inner: Box::new(self.ir_node) }),
            r.trace == self.trace,
    {
        Stream::new(
            self.location.l,
            HydroOp::YieldConcat { inner: Box::new(self.ir_node) },
            self.trace,
        )
    }

    /// Like [`Stream::all_ticks`], but synchronously with the tick.
    pub fn all_ticks_atomic(self) -> (r: Stream<T, Atomic<L>, Unbounded, O, R>)
        requires
            self.wf(),
        ensures
            r.is_built(
                (Atomic { tick: self.location }),
                HydroOp::YieldConcat { inner: Box::new(self.ir_node) },
            ),
            r.trace == self.trace,
    {
        Stream::new(
            Atomic { tick: self.location },
            HydroOp::YieldConcat { inner: Box::new(self.ir_node) },
            self.trace,
        )
    }

    /// Transforms the stream in "stateful" mode, where stateful operators retain their memory
    /// across ticks rather than resetting across batches of input.
    pub fn across_ticks<
        Out: BatchAtomic,
        F: FnOnce(Stream<T, Atomic<L>, Unbounded, O, R>) -> Out,
    >(self, thunk: F) -> (r: Out::Batched)
        requires
            self.wf(),
            forall|s: Stream<T, Atomic<L>, Unbounded, O, R>|
                s.is_built(
                    (Atomic { tick: self.location }),
                    HydroOp::YieldConcat { inner: Box::new(self.ir_node) },
                ) && s.trace == self.trace ==> #[trigger] thunk.requires((s,)),
            forall|s: Stream<T, Atomic<L>, Unbounded, O, R>, out: Out|
                s.is_built(
                    (Atomic { tick: self.location }),
                    HydroOp::YieldConcat { inner: Box::new(self.ir_node) },
                ) && s.trace == self.trace && #[trigger] thunk.ensures((s,), out)
                    ==> out.batch_ok(),
        ensures
            exists|s: Stream<T, Atomic<L>, Unbounded, O, R>, out: Out|
                s.is_built(
                    (Atomic { tick: self.location }),
                    HydroOp::YieldConcat { inner: Box::new(self.ir_node) },
                ) && s.trace == self.trace && #[trigger] thunk.ensures((s,), out)
                    && out.is_batched(r),
    {
        let atomic = self.all_ticks_atomic();
        let ghost s = atomic;
        let out = thunk(atomic);
        assert(thunk.ensures((s,), out));
        out.batched_atomic()
    }

    /// Shifts the elements to the next tick. The first tick has none.
    pub fn defer_tick(self) -> (r: Stream<T, Tick<L>, Bounded, O, R>)
        requires
            self.wf(),
        ensures
            r.is_built(self.location, HydroOp::DeferTick { input: Box::new(self.ir_node) }),
            r.trace@[0].len() == 0,
            forall|i: int|
                0 < i < r.trace@.len() ==> #[trigger] r.trace@[i] == self.trace@[i - 1],
    {
        let trace = self.trace.defer();
        Stream::new(self.location, HydroOp::DeferTick { input: Box::new(self.ir_node) }, trace)
    }
}

impl<T, L: NoTick, B: Boundedness> Stream<T, L, B, TotalOrder, ExactlyOnce> {
    /// Executes the closure for every element in this stream, in order.
    pub fn for_each<F: Fn(T)>(self, flow: &mut FlowBuilder, f: Quoted<F>)
        requires
            self.wf(),
            forall|i: int, j: int|
                0 <= i < self.trace@.len() && 0 <= j < self.trace@[i].len() ==> f.value.requires(
                    (#[trigger] self.trace@[i][j],),
                ),
        ensures
            final(flow).same_counters(*old(flow)),
            final(flow).roots@ == old(flow).roots@.push(
                HydroRoot::ForEach { f: f.code, input: Box::new(self.ir_node) },
            ),
    {
        let g = &f.value;
        let ghost t = self.trace@;
        for round in it: self.trace.rounds
            invariant
                it.seq().len() == t.len(),
                forall|i: int| 0 <= i < t.len() ==> (#[trigger] it.seq()[i])@ == t[i],
                forall|i: int, j: int|
                    0 <= i < t.len() && 0 <= j < t[i].len() ==> g.requires((#[trigger] t[i][j],)),
        {
            let ghost k = it.index();
            for x in it2: round
                invariant
                    0 <= k < t.len(),
                    it2.seq() == t[k],
                    forall|j: int| 0 <= j < t[k].len() ==> g.requires((#[trigger] t[k][j],)),
            {
                assert(x == t[k][it2.index()]);
                g(x);
            }
        }
        flow.push_root(HydroRoot::ForEach { f: f.code, input: Box::new(self.ir_node) });
    }

    /// Sends all elements of this stream to a sink.
    pub fn dest_sink(self, flow: &mut FlowBuilder, sink: DebugExpr)
        requires
            self.wf(),
        ensures
            final(flow).same_counters(*old(flow)),
            final(flow).roots@ == old(flow).roots@.push(
                HydroRoot::DestSink { sink, input: Box::new(self.ir_node) },
            ),
    {
        flow.push_root(HydroRoot::DestSink { sink, input: Box::new(self.ir_node) });
    }
}

/// A value that is available some rounds after it was asked for.
pub struct Deferred<T> {
    pub value: T,
    pub delay: usize,
}

/// When the value of an element is available: the element's round plus its delay.
pub open spec fn ready_round<T>(t: Seq<Seq<Deferred<T>>>, i: int, j: int) -> int {
    i + t[i][j].delay
}

/// The values of the first `j` elements of a round that become available in round `k`.
pub open spec fn ready_in_round<T>(t: Seq<Seq<Deferred<T>>>, k: int, i: int, j: int) -> Seq<T>
    decreases j,
{
    if j <= 0 {
        Seq::empty()
    } else {
        let rest = ready_in_round(t, k, i, j - 1);
        if ready_round(t, i, j - 1) == k {
            rest.push(t[i][j - 1].value)
        } else {
            rest
        }
    }
}

/// The values of the elements before round `i` that become available in round `k`.
pub open spec fn ready_before<T>(t: Seq<Seq<Deferred<T>>>, k: int, i: int) -> Seq<T>
    decreases i,
{
    if i <= 0 {
        Seq::empty()
    } else {
        ready_before(t, k, i - 1) + ready_in_round(t, k, i - 1, t[i - 1].len() as int)
    }
}

/// The values of the first `j` elements of a round that are available before round `k`.
pub open spec fn due_in_round<T>(t: Seq<Seq<Deferred<T>>>, k: int, i: int, j: int) -> Seq<T>
    decreases j,
{
    if j <= 0 {
        Seq::empty()
    } else {
        let rest = due_in_round(t, k, i, j - 1);
        if ready_round(t, i, j - 1) < k {
            rest.push(t[i][j - 1].value)
        } else {
            rest
        }
    }
}

/// The values of the elements before round `i` that are available before round `k`.
pub open spec fn due_before<T>(t: Seq<Seq<Deferred<T>>>, k: int, i: int) -> Seq<T>
    decreases i,
{
    if i <= 0 {
        Seq::empty()
    } else {
        due_before(t, k, i - 1) + due_in_round(t, k, i - 1, t[i - 1].len() as int)
    }
}

proof fn lemma_due_in_round<T>(t: Seq<Seq<Deferred<T>>>, k: int, i: int, j: int)
    ensures
        due_in_round(t, k + 1, i, j).to_multiset() == due_in_round(t, k, i, j).to_multiset().add(
            ready_in_round(t, k, i, j).to_multiset(),
        ),
    decreases j,
{
    broadcast use vstd::seq_lib::group_to_multiset_ensures;

    if j > 0 {
        lemma_due_in_round(t, k, i, j - 1);
    }
    assert(due_in_round(t, k + 1, i, j).to_multiset() =~= due_in_round(
        t,
        k,
        i,
        j,
    ).to_multiset().add(ready_in_round(t, k, i, j).to_multiset()));
}

proof fn lemma_due_before<T>(t: Seq<Seq<Deferred<T>>>, k: int, i: int)
    ensures
        due_before(t, k + 1, i).to_multiset() == due_before(t, k, i).to_multiset().add(
            ready_before(t, k, i).to_multiset(),
        ),
    decreases i,
{
    broadcast use vstd::seq_lib::group_to_multiset_ensures;

    if i > 0 {
        let n = t[i - 1].len() as int;
        lemma_due_before(t, k, i - 1);
        lemma_due_in_round(t, k, i - 1, n);
        lemma_multiset_commutative(due_before(t, k + 1, i - 1), due_in_round(t, k + 1, i - 1, n));
        lemma_multiset_commutative(due_before(t, k, i - 1), due_in_round(t, k, i - 1, n));
        lemma_multiset_commutative(ready_before(t, k, i - 1), ready_in_round(t, k, i - 1, n));
    }
    assert(due_before(t, k + 1, i).to_multiset() =~= due_before(t, k, i).to_multiset().add(
        ready_before(t, k, i).to_multiset(),
    ));
}

proof fn lemma_nothing_due_in_round<T>(t: Seq<Seq<Deferred<T>>>, i: int, j: int)
    requires
        i >= 0,
    ensures
        due_in_round(t, 0, i, j) == Seq::<T>::empty(),
    decreases j,
{
    if j > 0 {
        lemma_nothing_due_in_round(t, i, j - 1);
    }
}

proof fn lemma_nothing_due<T>(t: Seq<Seq<Deferred<T>>>, i: int)
    ensures
        due_before(t, 0, i) == Seq::<T>::empty(),
    decreases i,
{
    if i > 0 {
        lemma_nothing_due(t, i - 1);
        lemma_nothing_due_in_round(t, i - 1, t[i - 1].len() as int);
        assert(due_before(t, 0, i) =~= Seq::<T>::empty());
    }
}

/// Resolving without an order loses nothing and repeats nothing: by the start of any round,
/// exactly the values that are available by then have come out.
pub proof fn law_resolve_keeps_values<T>(t: Seq<Seq<Deferred<T>>>, r: Seq<Seq<T>>, k: int)
    requires
        0 <= k <= r.len(),
        forall|a: int|
            0 <= a < r.len() ==> #[trigger] r[a] == ready_before(t, a, t.len() as int),
    ensures
        is_permutation(before(r, k), due_before(t, k, t.len() as int)),
    decreases k,
{
    broadcast use vstd::seq_lib::group_to_multiset_ensures;

    let n = t.len() as int;
    if k > 0 {
        law_resolve_keeps_values(t, r, k - 1);
        lemma_due_before(t, k - 1, n);
        lemma_multiset_commutative(before(r, k - 1), r[k - 1]);
        assert(r[k - 1] == ready_before(t, k - 1, n));
    } else {
        lemma_nothing_due(t, n);
        assert(before(r, 0) =~= due_before(t, 0, n));
    }
}

/// The elements of a round, each with the number of the round.
pub open spec fn stamped<T>(t: Seq<Seq<Deferred<T>>>) -> Seq<Seq<(int, Deferred<T>)>> {
    Seq::new(t.len(), |i: int| t[i].map_values(|d: Deferred<T>| (i, d)))
}

/// How far one gets in a list, from place `m` on, when everything has to be available in round
/// `k`.
pub open spec fn advance<T>(s: Seq<(int, Deferred<T>)>, m: int, k: int) -> int
    decreases s.len() - m,
{
    if 0 <= m < s.len() && s[m].0 + s[m].1.delay <= k {
        advance(s, m + 1, k)
    } else {
        m
    }
}

/// How many elements have been resolved by the end of a round, when each waits for those
/// before it.
pub open spec fn resolved_by<T>(s: Seq<(int, Deferred<T>)>, k: int) -> int
    decreases k + 1,
{
    if k < 0 {
        0
    } else {
        advance(s, resolved_by(s, k - 1), k)
    }
}

/// The values of all elements, in order.
pub open spec fn values_of<T>(s: Seq<(int, Deferred<T>)>) -> Seq<T> {
    s.map_values(|e: (int, Deferred<T>)| e.1.value)
}

proof fn lemma_advance<T>(s: Seq<(int, Deferred<T>)>, m: int, k: int)
    requires
        0 <= m <= s.len(),
    ensures
        m <= advance(s, m, k) <= s.len(),
    decreases s.len() - m,
{
    if m < s.len() && s[m].0 + s[m].1.delay <= k {
        lemma_advance(s, m + 1, k);
    }
}

proof fn lemma_resolved_by<T>(s: Seq<(int, Deferred<T>)>, k: int)
    requires
        k >= -1,
    ensures
        0 <= resolved_by(s, k) <= s.len(),
        k >= 0 ==> resolved_by(s, k - 1) <= resolved_by(s, k),
    decreases k + 1,
{
    if k >= 0 {
        lemma_resolved_by(s, k - 1);
        lemma_advance(s, resolved_by(s, k - 1), k);
    }
}

/// Resolving in order keeps the order: what has come out by the end of any round are the
/// values of the first elements.
pub proof fn law_resolve_keeps_order<T>(
    s: Seq<(int, Deferred<T>)>,
    r: Seq<Seq<T>>,
    k: int,
)
    requires
        0 <= k <= r.len(),
        forall|i: int|
            0 <= i < r.len() ==> #[trigger] r[i] == values_of(s).subrange(
                resolved_by(s, i - 1),
                resolved_by(s, i),
            ),
    ensures
        before(r, k).is_prefix_of(values_of(s)),
        before(r, k) == values_of(s).take(resolved_by(s, k - 1)),
    decreases k,
{
    lemma_resolved_by(s, k - 1);
    if k > 0 {
        law_resolve_keeps_order(s, r, k - 1);
        lemma_resolved_by(s, k - 2);
        assert(r[k - 1] == values_of(s).subrange(resolved_by(s, k - 2), resolved_by(s, k - 1)));
    }
    assert(before(r, k) =~= values_of(s).take(resolved_by(s, k - 1)));
}

impl<T: Dup, L: NoTick + NoAtomic, B: Boundedness, O: StreamOrdering, R: Retries> Stream<
    Deferred<T>,
    L,
    B,
    O,
    R,
> {
    /// Produces the values of the elements as they become available, regardless of the order
    /// of the elements.
    pub fn resolve_futures(self) -> (r: Stream<T, L, Unbounded, NoOrder, R>)
        requires
            self.wf(),
        ensures
            r.is_built(self.location, HydroOp::ResolveFutures { input: Box::new(self.ir_node) }),
            forall|k: int|
                0 <= k < r.trace@.len() ==> #[trigger] r.trace@[k] == ready_before(
                    self.trace@,
                    k,
                    self.trace@.len() as int,
                ),
    {
        let ghost t = self.trace@;
        let n: usize = self.trace.len();
        let mut trace: Trace<T> = Trace::new();
        for k in 0..n
            invariant
                t == self.trace@,
                n == t.len(),
                trace@.len() == k,
                forall|a: int|
                    0 <= a < k ==> #[trigger] trace@[a] == ready_before(t, a, n as int),
        {
            let mut out: Vec<T> = Vec::new();
            for i in 0..n
                invariant
                    t == self.trace@,
                    n == t.len(),
                    k < n,
                    out@ == ready_before(t, k as int, i as int),
            {
                let round = self.trace.round(i);
                let ghost done = out@;
                for j in 0..round.len()
                    invariant
                        t == self.trace@,
                        i < n,
                        k < n,
                        n == t.len(),
                        round@ == t[i as int],
                        out@ =~= done + ready_in_round(t, k as int, i as int, j as int),
                {
                    if i <= k && round[j].delay == k - i {
                        out.push(round[j].value.dup());
                    }
                }
            }
            trace.push(out);
        }
        Stream::new(
            self.location,
            HydroOp::ResolveFutures { input: Box::new(self.ir_node) },
            trace,
        )
    }

    /// Produces the values of the elements in the order of the elements.
    pub fn resolve_futures_ordered(self) -> (r: Stream<T, L, Unbounded, O, R>)
        requires
            self.wf(),
        ensures
            r.is_built(
                self.location,
                HydroOp::ResolveFuturesOrdered { input: Box::new(self.ir_node) },
            ),
            forall|k: int|
                0 <= k < r.trace@.len() ==> #[trigger] r.trace@[k] == values_of(
                    flat(stamped(self.trace@)),
                ).subrange(
                    resolved_by(flat(stamped(self.trace@)), k - 1),
                    resolved_by(flat(stamped(self.trace@)), k),
                ),
    {
        let ghost t = self.trace@;
        let ghost s = flat(stamped(t));
        let n: usize = self.trace.len();
        let mut all: Vec<(usize, usize, T)> = Vec::new();
        for i in 0..n
            invariant
                t == self.trace@,
                n == t.len(),
                all@.len() == before(stamped(t), i as int).len(),
                forall|m: int| 0 <= m < all@.len() ==> is_entry(
                    #[trigger] all@[m],
                    before(stamped(t), i as int)[m],
                ),
        {
            let round = self.trace.round(i);
            let ghost done = before(stamped(t), i as int);
            for j in 0..round.len()
                invariant
                    t == self.trace@,
                    i < n,
                    n == t.len(),
                    round@ == t[i as int],
                    done == before(stamped(t), i as int),
                    all@.len() == done.len() + j,
                    forall|m: int| 0 <= m < all@.len() ==> is_entry(
                        #[trigger] all@[m],
                        (done + stamped(t)[i as int])[m],
                    ),
            {
                all.push((i, round[j].delay, round[j].value.dup()));
            }
        }
        let mut trace: Trace<T> = Trace::new();
        let mut m: usize = 0;
        for k in 0..n
            invariant
                s == flat(stamped(t)),
                n == t.len(),
                all@.len() == s.len(),
                forall|a: int| 0 <= a < all@.len() ==> is_entry(#[trigger] all@[a], s[a]),
                m == resolved_by(s, k - 1),
                m <= all@.len(),
                trace@.len() == k,
                forall|a: int|
                    0 <= a < k ==> #[trigger] trace@[a] == values_of(s).subrange(
                        resolved_by(s, a - 1),
                        resolved_by(s, a),
                    ),
        {
            let mut out: Vec<T> = Vec::new();
            let ghost from = m as int;
            while m < all.len() && all[m].0 <= k && all[m].1 <= k - all[m].0
                invariant
                    s == flat(stamped(t)),
                    all@.len() == s.len(),
                    forall|a: int| 0 <= a < all@.len() ==> is_entry(#[trigger] all@[a], s[a]),
                    0 <= from <= m <= all@.len(),
                    resolved_by(s, k as int) == advance(s, m as int, k as int),
                    out@ =~= values_of(s).subrange(from, m as int),
                decreases all@.len() - m,
            {
                assert(is_entry(all@[m as int], s[m as int]));
                out.push(all[m].2.dup());
                m += 1;
            }
            proof {
                if m < all@.len() {
                    assert(is_entry(all@[m as int], s[m as int]));
                }
                assert(advance(s, m as int, k as int) == m);
            }
            trace.push(out);
        }
        Stream::new(
            self.location,
            HydroOp::ResolveFuturesOrdered { input: Box::new(self.ir_node) },
            trace,
        )
    }
}

/// Whether a record describes an element.
pub open spec fn is_entry<T>(record: (usize, usize, T), e: (int, Deferred<T>)) -> bool {
    record.0 == e.0 && record.1 == e.1.delay && record.2 == e.1.value
}

proof fn lemma_prefix_subset<T>(a: Seq<T>, b: Seq<T>)
    requires
        a.is_prefix_of(b),
    ensures
        a.to_multiset().subset_of(b.to_multiset()),
{
    broadcast use vstd::seq_lib::group_to_multiset_ensures;

    let rest = b.skip(a.len() as int);
    assert(a + rest =~= b);
    lemma_multiset_commutative(a, rest);
}

/// A value becomes available as many rounds after its own as its delay says, neither earlier nor
/// later; values that become available in the same round keep their order.
pub proof fn law_ready<T>(t: Seq<Seq<Deferred<T>>>, k: int, i: int)
    requires
        0 <= i <= t.len(),
    ensures
        ready_before(t, k, i) == Seq::new(
            i as nat,
            |a: int|
                t[a].filter(|d: Deferred<T>| a + d.delay == k).map_values(
                    |d: Deferred<T>| d.value,
                ),
        ).flatten(),
    decreases i,
{
    let rounds = |n: int| Seq::new(
        n as nat,
        |a: int|
            t[a].filter(|d: Deferred<T>| a + d.delay == k).map_values(|d: Deferred<T>| d.value),
    );
    if i > 0 {
        law_ready(t, k, i - 1);
        lemma_ready_in_round(t, k, i - 1, t[i - 1].len() as int);
        assert(t[i - 1].take(t[i - 1].len() as int) =~= t[i - 1]);
        assert(rounds(i) =~= rounds(i - 1).push(rounds(i)[i - 1]));
        lemma_flatten_next(rounds(i - 1), rounds(i)[i - 1]);
    } else {
        assert(rounds(0) =~= Seq::empty());
    }
}

proof fn lemma_ready_in_round<T>(t: Seq<Seq<Deferred<T>>>, k: int, a: int, j: int)
    requires
        0 <= a < t.len(),
        0 <= j <= t[a].len(),
    ensures
        ready_in_round(t, k, a, j) == t[a].take(j).filter(
            |d: Deferred<T>| a + d.delay == k,
        ).map_values(|d: Deferred<T>| d.value),
    decreases j,
{
    reveal(Seq::filter);
    let p = |d: Deferred<T>| a + d.delay == k;
    let v = |d: Deferred<T>| d.value;
    if j > 0 {
        lemma_ready_in_round(t, k, a, j - 1);
        let init = t[a].take(j - 1);
        let x = t[a][j - 1];
        assert(t[a].take(j).drop_last() =~= init);
        assert(t[a].take(j).last() == x);
        if p(x) {
            assert(t[a].take(j).filter(p).map_values(v) =~= init.filter(p).map_values(v).push(v(x)));
        } else {
            assert(t[a].take(j).filter(p) == init.filter(p));
        }
    } else {
        assert(t[a].take(0).filter(p).map_values(v) =~= Seq::empty());
    }
}

/// If each value waits for those before it, then by the end of a round all values are resolved up
/// to the first one that is not available yet, and no further.
pub proof fn law_resolved_in_order<T>(s: Seq<(int, Deferred<T>)>, k: int)
    requires
        k >= 0,
    ensures
        0 <= resolved_by(s, k) <= s.len(),
        forall|a: int| 0 <= a < resolved_by(s, k) ==> (#[trigger] s[a]).0 + s[a].1.delay <= k,
        resolved_by(s, k) < s.len() ==> s[resolved_by(s, k)].0 + s[resolved_by(s, k)].1.delay > k,
    decreases k,
{
    if k > 0 {
        law_resolved_in_order(s, k - 1);
    } else {
        assert(resolved_by(s, -1) == 0);
    }
    let from = resolved_by(s, k - 1);
    lemma_advance_far(s, from, k);
}

proof fn lemma_advance_far<T>(s: Seq<(int, Deferred<T>)>, m: int, k: int)
    requires
        0 <= m <= s.len(),
    ensures
        m <= advance(s, m, k) <= s.len(),
        forall|a: int| m <= a < advance(s, m, k) ==> (#[trigger] s[a]).0 + s[a].1.delay <= k,
        advance(s, m, k) < s.len() ==> s[advance(s, m, k)].0 + s[advance(s, m, k)].1.delay > k,
    decreases s.len() - m,
{
    if m < s.len() && s[m].0 + s[m].1.delay <= k {
        lemma_advance_far(s, m + 1, k);
    }
}

/// Each element is stamped with its own round, and its value is what is told of it.
pub proof fn law_stamped<T>(t: Seq<Seq<Deferred<T>>>, i: int, j: int)
    requires
        0 <= i < t.len(),
        0 <= j < t[i].len(),
    ensures
        stamped(t).len() == t.len(),
        stamped(t)[i].len() == t[i].len(),
        stamped(t)[i][j] == (i, t[i][j]),
        values_of(stamped(t)[i])[j] == t[i][j].value,
{
}

} // verus!
