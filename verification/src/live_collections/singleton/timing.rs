//! Moving singletons between ticks, atomic contexts and the outside, and sampling them.
use super::{one_each, Singleton};
use crate::compile::builder::FlowBuilder;
use crate::compile::ir::{
    node_spec, ordered_kind, BoundKind, CollectionKind, HydroNode, HydroOp,
};
use crate::datum::Dup;
use crate::live_collections::batch_atomic::BatchAtomic;
use crate::live_collections::boundedness::{Bounded, Boundedness, Unbounded};
use crate::live_collections::stream::{AtLeastOnce, ExactlyOnce, Stream, TotalOrder};
use crate::location::dynamic::{same_location, DynLocation};
use crate::location::tick::{Atomic, NoTick, Tick};
use crate::nondet::NonDet;
use crate::trace::choice::{current, law_snapshots_move_forward, version_shown};
use crate::trace::{before, fits, flat, only_first_round};
use vstd::prelude::*;

verus! {

impl<T, L: DynLocation, B: Boundedness> Singleton<T, Atomic<L>, B> {
    /// The value as of the end of each round of the atomic context. All such snapshots show
    /// the same value in the same tick, so there is nothing to choose.
    pub fn snapshot_atomic(self, nondet: NonDet) -> (r: Singleton<T, Tick<L>, Bounded>) where
        T: Dup,

        requires
            self.wf(),
        ensures
            r.is_built(self.location.tick, HydroOp::Batch { inner: Box::new(self.ir_node) }),
            forall|i: int|
                0 <= i < r.trace@.len() ==> #[trigger] r.trace@[i] == seq![
                    current(self.trace@, i),
                ],
    {
        let trace = one_each(self.trace.currents());
        Singleton::new(
            self.location.tick,
            HydroOp::Batch { inner: Box::new(self.ir_node) },
            trace,
        )
    }

    /// Returns this value back into a top-level, asynchronous context.
    pub fn end_atomic(self) -> (r: Singleton<T, L, B>) where L: NoTick
        requires
            self.wf(),
        ensures
            r.is_built(self.location.tick.l, HydroOp::EndAtomic { inner: Box::new(self.ir_node) }),
            r.trace == self.trace,
    {
        proof {
            L::is_outside();
        }
        Singleton::new(
            self.location.tick.l,
            HydroOp::EndAtomic { inner: Box::new(self.ir_node) },
            self.trace,
        )
    }
}

impl<T: Dup, L: DynLocation> BatchAtomic for Singleton<T, Atomic<L>, Unbounded> {
    type Batched = Singleton<T, Tick<L>, Bounded>;

    open spec fn batch_ok(self) -> bool {
        self.wf()
    }

    open spec fn is_batched(self, r: Singleton<T, Tick<L>, Bounded>) -> bool {
        &&& r.is_built(self.location.tick, HydroOp::Batch { inner: Box::new(self.ir_node) })
        &&& forall|i: int|
            0 <= i < r.trace@.len() ==> #[trigger] r.trace@[i] == seq![current(self.trace@, i)]
    }

    fn batched_atomic(self) -> (r: Singleton<T, Tick<L>, Bounded>) {
        self.snapshot_atomic(NonDet::none())
    }
}

impl<T, L: DynLocation, B: Boundedness> Singleton<T, L, B> {
    /// Shifts this value into an atomic context, whose readers all see the same version of
    /// it.
    pub fn atomic(self, tick: &Tick<L>) -> (r: Singleton<T, Atomic<L>, B>) where L: NoTick
        requires
            self.wf(),
            tick.l.horizon_spec() == self.location.horizon_spec(),
        ensures
            r.is_built(
                (Atomic { tick: *tick }),
                HydroOp::BeginAtomic { inner: Box::new(self.ir_node) },
            ),
            r.trace == self.trace,
    {
        proof {
            L::is_outside();
        }
        Singleton::new(
            Atomic { tick: tick.dup() },
            HydroOp::BeginAtomic { inner: Box::new(self.ir_node) },
            self.trace,
        )
    }

    /// A snapshot of the value as of each tick. The choices decide how old it is; it is never
    /// older than the last one, and the last is the newest.
    pub fn snapshot(self, tick: &Tick<L>, nondet: NonDet) -> (r: Singleton<T, Tick<L>, Bounded>)
        where T: Dup
        requires
            self.wf(),
            same_location(tick.l, self.location),
            fits(self.trace@),
        ensures
            r.is_built(*tick, HydroOp::Batch { inner: Box::new(self.ir_node) }),
            forall|i: int|
                0 <= i < r.trace@.len() ==> #[trigger] r.trace@[i] == seq![
                    flat(self.trace@)[version_shown(self.trace@, nondet@, i)],
                ],
    {
        let trace = self.trace.snapshot(&nondet);
        Singleton::new(tick.dup(), HydroOp::Batch { inner: Box::new(self.ir_node) }, trace)
    }

    /// Eagerly samples the value: one snapshot for each iteration of a new clock, in an
    /// order that follows the data that contributed to the value.
    pub fn sample_eager(self, flow: &mut FlowBuilder, nondet: NonDet) -> (r: Stream<
        T,
        L,
        Unbounded,
        TotalOrder,
        AtLeastOnce,
    >) where L: NoTick, T: Dup
        requires
            self.wf(),
            fits(self.trace@),
            old(flow).next_clock_id < usize::MAX,
        ensures
            r.wf(),
            r.location == self.location,
            r.ir_node.metadata.tag is None,
            is_sample_plan(
                r.ir_node.op,
                snapshot_node(
                    self.ir_node,
                    (Tick { id: old(flow).next_clock_id, l: self.location }),
                ),
                (Tick { id: old(flow).next_clock_id, l: self.location }),
            ),
            *final(flow) == (FlowBuilder {
                next_clock_id: (old(flow).next_clock_id + 1) as usize,
                ..*old(flow)
            }),
            forall|i: int|
                0 <= i < r.trace@.len() ==> #[trigger] r.trace@[i] == seq![
                    flat(self.trace@)[version_shown(self.trace@, nondet@, i)],
                ],
    {
        let tick = flow.next_tick(&self.location);
        self.snapshot(&tick, nondet).into_stream().all_ticks().weaken_retries()
    }
}

/// The plan that takes a value per tick out of a tick, as a stream whose elements may be
/// repeated.
pub open spec fn is_sample_plan<L: DynLocation>(
    op: HydroOp,
    inside: HydroNode,
    tick: Tick<L>,
) -> bool {
    let listed = node_spec(
        HydroOp::Cast { inner: Box::new(inside) },
        tick.id_spec(),
        ordered_kind(BoundKind::Bounded),
    );
    let outside = node_spec(
        HydroOp::YieldConcat { inner: Box::new(listed) },
        tick.l.id_spec(),
        ordered_kind(BoundKind::Unbounded),
    );
    op == (HydroOp::Cast { inner: Box::new(outside) })
}

/// The node of the snapshots of a value.
pub open spec fn snapshot_node<L: DynLocation>(source: HydroNode, tick: Tick<L>) -> HydroNode {
    node_spec(
        HydroOp::Batch { inner: Box::new(source) },
        tick.id_spec(),
        CollectionKind::Singleton { bound: BoundKind::Bounded },
    )
}

impl<T, L: DynLocation> Singleton<T, L, Bounded> {
    /// Clones this bounded value into a tick. There is only a single version of it, so there
    /// is nothing to choose.
    pub fn clone_into_tick(self, tick: &Tick<L>) -> (r: Singleton<T, Tick<L>, Bounded>) where
        T: Dup,

        requires
            self.wf(),
            same_location(tick.l, self.location),
            fits(self.trace@),
        ensures
            r.is_built(*tick, HydroOp::Batch { inner: Box::new(self.ir_node) }),
            forall|i: int|
                0 <= i < r.trace@.len() ==> #[trigger] r.trace@[i] == seq![
                    if L::is_top_level_spec() {
                        self.trace@[0][0]
                    } else {
                        self.trace@[i][0]
                    },
                ],
    {
        let ghost t = self.trace@;
        let r = self.snapshot(tick, NonDet::none());
        proof {
            assert forall|i: int| 0 <= i < r.trace@.len() implies #[trigger] r.trace@[i] == seq![
                if L::is_top_level_spec() {
                    t[0][0]
                } else {
                    t[i][0]
                },
            ] by {
                law_snapshots_move_forward(t, Seq::empty(), i);
                if L::is_top_level_spec() {
                    lemma_single_version(t, t.len() as int);
                    lemma_single_version(t, i + 1);
                } else {
                    lemma_one_per_round(t, t.len() as int);
                    lemma_one_per_round(t, i + 1);
                }
            }
        }
        r
    }

    /// A stream with the value as its only element.
    pub fn into_stream(self) -> (r: Stream<T, L, Bounded, TotalOrder, ExactlyOnce>)
        requires
            self.wf(),
        ensures
            r.is_built(self.location, HydroOp::Cast { inner: Box::new(self.ir_node) }),
            r.trace == self.trace,
    {
        Stream::new(
            self.location,
            HydroOp::Cast { inner: Box::new(self.ir_node) },
            self.trace,
        )
    }

    /// The same value, as one that could still change. It is cloned into each iteration of a
    /// new clock, and the outside follows it.
    pub fn into_unbounded(self, flow: &mut FlowBuilder) -> (r: Singleton<T, L, Unbounded>) where
        L: NoTick,
        T: Dup,

        requires
            self.wf(),
            fits(self.trace@),
            old(flow).next_clock_id < usize::MAX,
        ensures
            r.is_built(
                self.location,
                HydroOp::YieldConcat {
                    inner: Box::new(
                        snapshot_node(
                            self.ir_node,
                            (Tick { id: old(flow).next_clock_id, l: self.location }),
                        ),
                    ),
                },
            ),
            *final(flow) == (FlowBuilder {
                next_clock_id: (old(flow).next_clock_id + 1) as usize,
                ..*old(flow)
            }),
            forall|i: int|
                0 <= i < r.trace@.len() ==> #[trigger] r.trace@[i] == seq![self.trace@[0][0]],
    {
        proof {
            L::is_outside();
        }
        let tick = flow.next_tick(&self.location);
        self.clone_into_tick(&tick).latest()
    }
}

proof fn lemma_single_version<T>(t: Seq<Seq<T>>, n: int)
    requires
        1 <= n <= t.len(),
        t[0].len() == 1,
        only_first_round(t),
    ensures
        before(t, n) == t[0],
    decreases n,
{
    reveal_with_fuel(before, 2);
    if n > 1 {
        lemma_single_version(t, n - 1);
        assert(t[n - 1].len() == 0);
    }
    assert(before(t, n) =~= t[0]);
}

proof fn lemma_one_per_round<T>(t: Seq<Seq<T>>, n: int)
    requires
        0 <= n <= t.len(),
        forall|i: int| 0 <= i < t.len() ==> (#[trigger] t[i]).len() == 1,
    ensures
        before(t, n).len() == n,
        forall|i: int| 0 <= i < n ==> before(t, n)[i] == #[trigger] t[i][0],
    decreases n,
{
    if n > 0 {
        lemma_one_per_round(t, n - 1);
        assert(t[n - 1].len() == 1);
    }
}

impl<T, L: DynLocation> Singleton<T, Tick<L>, Bounded> {
    /// Yields the value of each tick as an element of a stream outside the tick.
    pub fn all_ticks(self) -> (r: Stream<T, L, Unbounded, TotalOrder, ExactlyOnce>)
        requires
            self.wf(),
        ensures
            r.is_built(
                self.location.l,
                HydroOp::YieldConcat {
                    inner: Box::new(
                        node_spec(
                            HydroOp::Cast { inner: Box::new(self.ir_node) },
                            self.location.id_spec(),
                            ordered_kind(BoundKind::Bounded),
                        ),
                    ),
                },
            ),
            r.trace == self.trace,
    {
        self.into_stream().all_ticks()
    }

    /// Like [`Singleton::all_ticks`], but synchronously with the tick.
    pub fn all_ticks_atomic(self) -> (r: Stream<T, Atomic<L>, Unbounded, TotalOrder, ExactlyOnce>)
        requires
            self.wf(),
        ensures
            r.is_built(
                (Atomic { tick: self.location }),
                HydroOp::YieldConcat {
                    inner: Box::new(
                        node_spec(
                            HydroOp::Cast { inner: Box::new(self.ir_node) },
                            self.location.id_spec(),
                            ordered_kind(BoundKind::Bounded),
                        ),
                    ),
                },
            ),
            r.trace == self.trace,
    {
        self.into_stream().all_ticks_atomic()
    }

    /// Yields this value outside the tick, where it follows the value inside.
    pub fn latest(self) -> (r: Singleton<T, L, Unbounded>)
        requires
            self.wf(),
        ensures
            r.is_built(self.location.l, HydroOp::YieldConcat { inner: Box::new(self.ir_node) }),
            r.trace == self.trace,
    {
        Singleton::new(
            self.location.l,
            HydroOp::YieldConcat { inner: Box::new(self.ir_node) },
            self.trace,
        )
    }

    /// Like [`Singleton::latest`], but synchronously with the tick.
    pub fn latest_atomic(self) -> (r: Singleton<T, Atomic<L>, Unbounded>)
        requires
            self.wf(),
        ensures
            r.is_built(
                (Atomic { tick: self.location }),
                HydroOp::YieldConcat { inner: Box::new(self.ir_node) },
            ),
            r.trace == self.trace,
    {
        Singleton::new(
            Atomic { tick: self.location },
            HydroOp::YieldConcat { inner: Box::new(self.ir_node) },
            self.trace,
        )
    }
}

} // verus!
