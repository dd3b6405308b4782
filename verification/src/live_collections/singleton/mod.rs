//! Singletons: values that change while the program runs.
use crate::compile::builder::FlowBuilder;
use crate::compile::ir::{is_at, node_spec, BoundKind, CollectionKind, HydroNode, HydroOp};
use crate::datum::Dup;
use crate::live_collections::boundedness::{Bounded, Boundedness, Unbounded};
use crate::live_collections::optional::{
    if_none, if_some, is_absence_node, is_map_node, maps_option, Optional,
};
use crate::live_collections::quoted::Quoted;
use crate::live_collections::stream::combine::lemma_current_mapped;
use crate::live_collections::stream::transform::{items_of, lemma_flatten};
use crate::live_collections::stream::{ExactlyOnce, NoOrder, Stream, TotalOrder};
use crate::location::dynamic::{same_location, DynLocation, LocationId};
use crate::location::tick::Tick;
use crate::trace::choice::current;
use crate::trace::{before, is_flat_mapped, is_mapped, only_first_round, Trace};
use core::marker::PhantomData;
use std::rc::Rc;
use vstd::prelude::*;

pub mod timing;

verus! {

/// Whether a trace can be that of a changing value at the location. Inside a tick there is
/// exactly one value per round. Outside, there is a value from the first round on, each round
/// tells the values that it takes then, and a bounded value never changes.
pub open spec fn value_trace_ok<T, L: DynLocation, B: Boundedness>(
    location: L,
    t: Seq<Seq<T>>,
) -> bool {
    &&& t.len() == location.horizon_spec()
    &&& t.len() >= 1
    &&& if L::is_top_level_spec() {
        &&& t[0].len() > 0
        &&& B::bound_spec() == BoundKind::Bounded ==> t[0].len() == 1 && only_first_round(t)
    } else {
        forall|i: int| 0 <= i < t.len() ==> (#[trigger] t[i]).len() == 1
    }
}

/// A single value that can asynchronously change over time.
///
/// If the singleton is bounded, the value is frozen and will not change. But if it is
/// unbounded, the value will asynchronously change over time.
pub struct Singleton<Type, Loc, Bound> {
    pub location: Loc,
    /// The plan that yields this value.
    pub ir_node: HydroNode,
    /// The values that it takes in a run, round by round.
    pub trace: Trace<Type>,
    pub markers: PhantomData<Bound>,
}

impl<T, L: DynLocation, B: Boundedness> Singleton<T, L, B> {
    pub open spec fn kind_spec() -> CollectionKind {
        CollectionKind::Singleton { bound: B::bound_spec() }
    }

    /// The plan and the trace fit to the location and to the boundedness.
    pub open spec fn wf(self) -> bool {
        &&& self.ir_node.metadata.location_id == self.location.id_spec()
        &&& self.ir_node.metadata.collection_kind == Self::kind_spec()
        &&& value_trace_ok::<T, L, B>(self.location, self.trace@)
    }

    /// Whether this is the value that the operation yields at the location.
    pub open spec fn is_built(self, location: L, op: HydroOp) -> bool {
        &&& self.wf()
        &&& self.location == location
        &&& self.ir_node == node_spec(op, location.id_spec(), Self::kind_spec())
    }

    pub fn collection_kind() -> (r: CollectionKind)
        ensures
            r == Self::kind_spec(),
    {
        CollectionKind::Singleton { bound: B::bound_kind() }
    }

    /// The value that the operation yields at the location.
    pub fn new(location: L, op: HydroOp, trace: Trace<T>) -> (r: Self)
        requires
            value_trace_ok::<T, L, B>(location, trace@),
        ensures
            r.is_built(location, op),
            r.trace == trace,
    {
        let ir_node = HydroNode::new(op, location.location_id(), Self::collection_kind());
        Singleton { location, ir_node, trace, markers: PhantomData }
    }

    /// Returns the location where this value is being materialized.
    pub fn location(&self) -> (r: &L)
        ensures
            *r == self.location,
    {
        &self.location
    }

    /// Gives the node of this value a name.
    pub fn ir_node_named(self, name: &str) -> (r: Self)
        requires
            self.wf(),
        ensures
            r.wf(),
            r.location == self.location,
            r.trace == self.trace,
            r.ir_node.op == self.ir_node.op,
            r.ir_node.metadata.tag matches Some(t) && t@ == name@,
    {
        let mut node = self.ir_node;
        node.metadata.tag = Some(name.to_owned());
        Singleton { location: self.location, ir_node: node, trace: self.trace, markers: PhantomData }
    }

    /// A second handle of the same value. Both then share one node of the plan.
    pub fn clone(&mut self) -> (r: Self) where T: Dup
        requires
            old(self).wf(),
        ensures
            r.wf(),
            final(self).wf(),
            r.location == old(self).location,
            final(self).location == old(self).location,
            r.trace@ == old(self).trace@,
            final(self).trace == old(self).trace,
            r.ir_node == final(self).ir_node,
            old(self).ir_node.op is Tee ==> final(self).ir_node == old(self).ir_node,
            !(old(self).ir_node.op is Tee) ==> final(self).ir_node == node_spec(
                HydroOp::Tee { shared: Rc::new(old(self).ir_node) },
                old(self).location.id_spec(),
                Self::kind_spec(),
            ),
    {
        let is_tee = match &self.ir_node.op {
            HydroOp::Tee { .. } => true,
            _ => false,
        };
        if !is_tee {
            let mut node = HydroNode::new(
                HydroOp::CycleSource { ident: String::new() },
                self.location.location_id(),
                Self::collection_kind(),
            );
            std::mem::swap(&mut node, &mut self.ir_node);
            self.ir_node = HydroNode::new(
                HydroOp::Tee { shared: Rc::new(node) },
                self.location.location_id(),
                Self::collection_kind(),
            );
        }
        let shared = match &self.ir_node.op {
            HydroOp::Tee { shared } => HydroOp::Tee { shared: shared.clone() },
            _ => HydroOp::CycleSource { ident: String::new() },
        };
        Singleton {
            location: self.location.dup(),
            ir_node: HydroNode { op: shared, metadata: self.ir_node.metadata.dup() },
            trace: self.trace.dup(),
            markers: PhantomData,
        }
    }
}

/// Whether `r` is the value if it satisfies `f`, and else none.
pub open spec fn filters_value<T, F: Fn(&T) -> bool>(f: F, v: T, r: Option<T>) -> bool {
    match r {
        Some(x) => x == v && f.ensures((&v,), true),
        None => f.ensures((&v,), false),
    }
}

/// Whether each value of one trace goes with the value at the same place of the other.
pub open spec fn is_mapped_trace<T, U>(
    t: Seq<Seq<T>>,
    r: Seq<Seq<U>>,
    rel: spec_fn(T, U) -> bool,
) -> bool {
    &&& r.len() == t.len()
    &&& forall|i: int| 0 <= i < t.len() ==> (#[trigger] r[i]).len() == t[i].len()
    &&& forall|i: int, j: int|
        0 <= i < t.len() && 0 <= j < t[i].len() ==> rel(t[i][j], #[trigger] r[i][j])
}

impl<T, L: DynLocation, B: Boundedness> Singleton<T, L, B> {
    /// Applies `f` to the value, continuously as it is updated.
    pub fn map<U, F: Fn(T) -> U>(self, f: Quoted<F>) -> (r: Singleton<U, L, B>)
        requires
            self.wf(),
            forall|i: int, j: int|
                0 <= i < self.trace@.len() && 0 <= j < self.trace@[i].len() ==> f.value.requires(
                    (#[trigger] self.trace@[i][j],),
                ),
        ensures
            r.is_built(
                self.location,
                HydroOp::MapEach { f: f.code, input: Box::new(self.ir_node) },
            ),
            is_mapped_trace(self.trace@, r.trace@, |x: T, y: U| f.value.ensures((x,), y)),
    {
        let ghost t = self.trace@;
        let trace = self.trace.map(&f.value);
        proof {
            assert forall|i: int| 0 <= i < t.len() implies (#[trigger] trace@[i]).len()
                == t[i].len() by {
                assert(is_mapped(f.value, t[i], trace@[i]));
            }
            assert forall|i: int, j: int|
                0 <= i < t.len() && 0 <= j < t[i].len() implies f.value.ensures(
                (t[i][j],),
                #[trigger] trace@[i][j],
            ) by {
                assert(is_mapped(f.value, t[i], trace@[i]));
            }
        }
        Singleton::new(
            self.location,
            HydroOp::MapEach { f: f.code, input: Box::new(self.ir_node) },
            trace,
        )
    }

    /// The value if it satisfies `f`, and else nothing.
    pub fn filter<F: Fn(&T) -> bool>(self, f: Quoted<F>) -> (r: Optional<T, L, B>)
        requires
            self.wf(),
            forall|i: int, j: int|
                0 <= i < self.trace@.len() && 0 <= j < self.trace@[i].len() ==> f.value.requires(
                    (&#[trigger] self.trace@[i][j],),
                ),
        ensures
            r.is_built(
                self.location,
                HydroOp::Filter { f: f.code, input: Box::new(self.ir_node) },
            ),
            is_mapped_trace(
                self.trace@,
                r.trace@,
                |x: T, y: Option<T>| filters_value(f.value, x, y),
            ),
    {
        let ghost t = self.trace@;
        let g = &f.value;
        let ghost accepts = |v: T| f.value.requires((&v,));
        let h = |v: T| -> (r: Option<T>)
            requires
                accepts(v),
            ensures
                filters_value(*g, v, r),
            {
                if g(&v) {
                    Some(v)
                } else {
                    None
                }
            };
        let trace = self.trace.map(&h);
        proof {
            assert forall|i: int| 0 <= i < t.len() implies (#[trigger] trace@[i]).len()
                == t[i].len() by {
                assert(is_mapped(h, t[i], trace@[i]));
            }
            assert forall|i: int, j: int|
                0 <= i < t.len() && 0 <= j < t[i].len() implies filters_value(
                f.value,
                t[i][j],
                #[trigger] trace@[i][j],
            ) by {
                assert(is_mapped(h, t[i], trace@[i]));
                assert(h.ensures((t[i][j],), trace@[i][j]));
            }
        }
        Optional::new(
            self.location,
            HydroOp::Filter { f: f.code, input: Box::new(self.ir_node) },
            trace,
        )
    }

    /// The value that `f` gives, if it gives one.
    pub fn filter_map<U, F: Fn(T) -> Option<U>>(self, f: Quoted<F>) -> (r: Optional<U, L, B>)
        requires
            self.wf(),
            forall|i: int, j: int|
                0 <= i < self.trace@.len() && 0 <= j < self.trace@[i].len() ==> f.value.requires(
                    (#[trigger] self.trace@[i][j],),
                ),
        ensures
            r.is_built(
                self.location,
                HydroOp::FilterMap { f: f.code, input: Box::new(self.ir_node) },
            ),
            is_mapped_trace(self.trace@, r.trace@, |x: T, y: Option<U>| f.value.ensures((x,), y)),
    {
        let ghost t = self.trace@;
        let trace = self.trace.map(&f.value);
        proof {
            assert forall|i: int| 0 <= i < t.len() implies (#[trigger] trace@[i]).len()
                == t[i].len() by {
                assert(is_mapped(f.value, t[i], trace@[i]));
            }
            assert forall|i: int, j: int|
                0 <= i < t.len() && 0 <= j < t[i].len() implies f.value.ensures(
                (t[i][j],),
                #[trigger] trace@[i][j],
            ) by {
                assert(is_mapped(f.value, t[i], trace@[i]));
            }
        }
        Optional::new(
            self.location,
            HydroOp::FilterMap { f: f.code, input: Box::new(self.ir_node) },
            trace,
        )
    }

    /// A value that is always there.
    pub fn into_optional(self) -> (r: Optional<T, L, B>)
        requires
            self.wf(),
        ensures
            r.is_built(self.location, HydroOp::Cast { inner: Box::new(self.ir_node) }),
            is_mapped_trace(self.trace@, r.trace@, |x: T, y: Option<T>| y == Some(x)),
    {
        let ghost t = self.trace@;
        let h = |v: T| -> (r: Option<T>)
            ensures
                r == Some(v),
            { Some(v) };
        let trace = self.trace.map(&h);
        proof {
            assert forall|i: int| 0 <= i < t.len() implies (#[trigger] trace@[i]).len()
                == t[i].len() by {
                assert(is_mapped(h, t[i], trace@[i]));
            }
            assert forall|i: int, j: int|
                0 <= i < t.len() && 0 <= j < t[i].len() implies #[trigger] trace@[i][j] == Some(
                t[i][j],
            ) by {
                assert(is_mapped(h, t[i], trace@[i]));
                assert(h.ensures((t[i][j],), trace@[i][j]));
            }
        }
        Optional::new(self.location, HydroOp::Cast { inner: Box::new(self.ir_node) }, trace)
    }
}

/// A trace with one value per round.
pub fn one_each<T>(values: Vec<T>) -> (r: Trace<T>)
    ensures
        r@.len() == values@.len(),
        forall|i: int| 0 <= i < r@.len() ==> #[trigger] r@[i] == seq![values@[i]],
{
    let ghost vs = values@;
    let mut r: Trace<T> = Trace::new();
    for v in it: values
        invariant
            it.seq() == vs,
            r@.len() == it.index(),
            forall|i: int| 0 <= i < r@.len() ==> #[trigger] r@[i] == seq![vs[i]],
    {
        let mut one: Vec<T> = Vec::new();
        one.push(v);
        assert(one@ =~= seq![vs[it.index()]]);
        r.push(one);
    }
    r
}

impl<T, L: DynLocation, B: Boundedness> Singleton<T, L, B> {
    /// Applies `f` to the value and lists the items that it gives, in order.
    pub fn flat_map_ordered<U, F: Fn(T) -> Vec<U>>(self, f: Quoted<F>) -> (r: Stream<
        U,
        L,
        B,
        TotalOrder,
        ExactlyOnce,
    >)
        requires
            self.wf(),
            forall|i: int, j: int|
                0 <= i < self.trace@.len() && 0 <= j < self.trace@[i].len() ==> f.value.requires(
                    (#[trigger] self.trace@[i][j],),
                ),
        ensures
            r.is_built(
                self.location,
                HydroOp::FlatMap { f: f.code, input: Box::new(self.ir_node) },
            ),
            forall|i: int|
                0 <= i < r.trace@.len() ==> is_flat_mapped(
                    f.value,
                    self.trace@[i],
                    #[trigger] r.trace@[i],
                ),
    {
        let trace = self.trace.flat_map(&f.value);
        Stream::new(
            self.location,
            HydroOp::FlatMap { f: f.code, input: Box::new(self.ir_node) },
            trace,
        )
    }

    /// Like [`Singleton::flat_map_ordered`], but the items may come in any order.
    pub fn flat_map_unordered<U, F: Fn(T) -> Vec<U>>(self, f: Quoted<F>) -> (r: Stream<
        U,
        L,
        B,
        NoOrder,
        ExactlyOnce,
    >)
        requires
            self.wf(),
            forall|i: int, j: int|
                0 <= i < self.trace@.len() && 0 <= j < self.trace@[i].len() ==> f.value.requires(
                    (#[trigger] self.trace@[i][j],),
                ),
        ensures
            r.is_built(
                self.location,
                HydroOp::FlatMap { f: f.code, input: Box::new(self.ir_node) },
            ),
            forall|i: int|
                0 <= i < r.trace@.len() ==> is_flat_mapped(
                    f.value,
                    self.trace@[i],
                    #[trigger] r.trace@[i],
                ),
    {
        let trace = self.trace.flat_map(&f.value);
        Stream::new(
            self.location,
            HydroOp::FlatMap { f: f.code, input: Box::new(self.ir_node) },
            trace,
        )
    }
}

impl<U, L: DynLocation, B: Boundedness> Singleton<Vec<U>, L, B> {
    /// Lists the items of the value, in order.
    pub fn flatten_ordered(self) -> (r: Stream<U, L, B, TotalOrder, ExactlyOnce>)
        requires
            self.wf(),
        ensures
            r.wf(),
            r.location == self.location,
            r.ir_node.metadata.tag is None,
            r.ir_node.op matches HydroOp::FlatMap { f, input } && f.code@ == "|x| x"@ && *input
                == self.ir_node,
            forall|i: int|
                0 <= i < r.trace@.len() ==> #[trigger] r.trace@[i] == items_of(self.trace@[i]),
    {
        let f = |x: Vec<U>| -> (r: Vec<U>)
            ensures
                r == x,
            { x };
        let ghost t = self.trace@;
        let r = self.flat_map_ordered(Quoted::new("|x| x", f));
        proof {
            assert forall|i: int| 0 <= i < r.trace@.len() implies #[trigger] r.trace@[i]
                == items_of(t[i]) by {
                lemma_flatten(f, t[i], r.trace@[i]);
            }
        }
        r
    }

    /// Like [`Singleton::flatten_ordered`], but the items may come in any order.
    pub fn flatten_unordered(self) -> (r: Stream<U, L, B, NoOrder, ExactlyOnce>)
        requires
            self.wf(),
        ensures
            r.wf(),
            r.location == self.location,
            r.ir_node.metadata.tag is None,
            r.ir_node.op matches HydroOp::FlatMap { f, input } && f.code@ == "|x| x"@ && *input
                == self.ir_node,
            forall|i: int|
                0 <= i < r.trace@.len() ==> #[trigger] r.trace@[i] == items_of(self.trace@[i]),
    {
        let f = |x: Vec<U>| -> (r: Vec<U>)
            ensures
                r == x,
            { x };
        let ghost t = self.trace@;
        let r = self.flat_map_unordered(Quoted::new("|x| x", f));
        proof {
            assert forall|i: int| 0 <= i < r.trace@.len() implies #[trigger] r.trace@[i]
                == items_of(t[i]) by {
                lemma_flatten(f, t[i], r.trace@[i]);
            }
        }
        r
    }
}

/// The plan of two values that are combined inside a tick and then yielded outside of it.
pub open spec fn is_zip_through_tick<L: DynLocation>(
    node: HydroNode,
    left: HydroNode,
    right: HydroNode,
    tick: Tick<L>,
) -> bool {
    node == node_spec(
        HydroOp::YieldConcat {
            inner: Box::new(
                node_spec(
                    HydroOp::CrossSingleton {
                        left: Box::new(
                            node_spec(
                                HydroOp::Batch { inner: Box::new(left) },
                                tick.id_spec(),
                                CollectionKind::Singleton { bound: BoundKind::Bounded },
                            ),
                        ),
                        right: Box::new(
                            node_spec(
                                HydroOp::Batch { inner: Box::new(right) },
                                tick.id_spec(),
                                CollectionKind::Optional { bound: BoundKind::Bounded },
                            ),
                        ),
                    },
                    tick.id_spec(),
                    CollectionKind::Singleton { bound: BoundKind::Bounded },
                ),
            ),
        },
        tick.l.id_spec(),
        CollectionKind::Optional { bound: BoundKind::Unbounded },
    )
}

fn zip_through_tick<L: DynLocation>(left: HydroNode, right: HydroNode, tick: &Tick<L>) -> (r:
    HydroNode)
    ensures
        is_zip_through_tick(r, left, right, *tick),
{
    let a = HydroNode::new(
        HydroOp::Batch { inner: Box::new(left) },
        tick.location_id(),
        CollectionKind::Singleton { bound: BoundKind::Bounded },
    );
    let b = HydroNode::new(
        HydroOp::Batch { inner: Box::new(right) },
        tick.location_id(),
        CollectionKind::Optional { bound: BoundKind::Bounded },
    );
    let crossed = HydroNode::new(
        HydroOp::CrossSingleton { left: Box::new(a), right: Box::new(b) },
        tick.location_id(),
        CollectionKind::Singleton { bound: BoundKind::Bounded },
    );
    HydroNode::new(
        HydroOp::YieldConcat { inner: Box::new(crossed) },
        tick.l.location_id(),
        CollectionKind::Optional { bound: BoundKind::Unbounded },
    )
}

/// The plan of two values that are combined where they are.
pub open spec fn is_zip_in_place(
    node: HydroNode,
    left: HydroNode,
    right: HydroNode,
    id: LocationId,
    bound: BoundKind,
) -> bool {
    node == node_spec(
        HydroOp::CrossSingleton { left: Box::new(left), right: Box::new(right) },
        id,
        CollectionKind::Optional { bound },
    )
}

/// The clocks after a zip: outside of ticks it takes a new one.
pub open spec fn zip_flow(top_level: bool, before: FlowBuilder, after: FlowBuilder) -> bool {
    after == (FlowBuilder {
        next_clock_id: (before.next_clock_id + if top_level {
            1int
        } else {
            0
        }) as usize,
        ..before
    })
}

/// Whether each round shows the combination of the two current values; a bounded value
/// outside of ticks only shows it once.
pub open spec fn is_zipped<A, B, C>(
    once: bool,
    a: Seq<Seq<A>>,
    b: Seq<Seq<B>>,
    r: Seq<Seq<C>>,
    combine: spec_fn(A, B) -> C,
) -> bool {
    &&& r.len() == a.len()
    &&& forall|i: int|
        0 <= i < r.len() ==> #[trigger] r[i] == (if once && i > 0 {
            Seq::empty()
        } else {
            seq![combine(current(a, i), current(b, i))]
        })
}

/// The combinations of two lists of values, one per round.
fn zip_rounds<A: Dup, B: Dup>(a: Vec<A>, b: Vec<B>, once: bool) -> (r: Trace<(A, B)>)
    requires
        a.len() == b.len(),
    ensures
        r@.len() == a@.len(),
        forall|i: int|
            0 <= i < r@.len() ==> #[trigger] r@[i] == (if once && i > 0 {
                Seq::empty()
            } else {
                seq![(a@[i], b@[i])]
            }),
{
    let mut r: Trace<(A, B)> = Trace::new();
    for i in 0..a.len()
        invariant
            a.len() == b.len(),
            r@.len() == i,
            forall|k: int|
                0 <= k < r@.len() ==> #[trigger] r@[k] == (if once && k > 0 {
                    Seq::empty()
                } else {
                    seq![(a@[k], b@[k])]
                }),
    {
        let mut one: Vec<(A, B)> = Vec::new();
        if !(once && i > 0) {
            one.push((a[i].dup(), b[i].dup()));
        }
        assert(one@ =~= (if once && i > 0 {
            Seq::empty()
        } else {
            seq![(a@[i as int], b@[i as int])]
        }));
        r.push(one);
    }
    r
}

impl<T: Dup, L: DynLocation, B: Boundedness> Singleton<T, L, B> {
    /// Combines this singleton with another one by tupling their values.
    pub fn zip<U: Dup>(self, flow: &mut FlowBuilder, other: Singleton<U, L, B>) -> (r: Singleton<
        (T, U),
        L,
        B,
    >)
        requires
            self.wf(),
            other.wf(),
            same_location(self.location, other.location),
            L::is_top_level_spec() ==> old(flow).next_clock_id < usize::MAX,
        ensures
            r.wf(),
            r.location == self.location,
            r.ir_node.metadata.tag is None,
            r.ir_node.op matches HydroOp::Cast { inner } && (if L::is_top_level_spec() {
                is_zip_through_tick(
                    *inner,
                    self.ir_node,
                    other.ir_node,
                    (Tick { id: old(flow).next_clock_id, l: self.location }),
                )
            } else {
                is_zip_in_place(
                    *inner,
                    self.ir_node,
                    other.ir_node,
                    self.location.id_spec(),
                    B::bound_spec(),
                )
            }),
            zip_flow(L::is_top_level_spec(), *old(flow), *final(flow)),
            is_zipped(
                L::is_top_level_spec() && B::bound_spec() == BoundKind::Bounded,
                self.trace@,
                other.trace@,
                r.trace@,
                |x: T, y: U| (x, y),
            ),
    {
        let once = L::is_top_level() && B::bound_kind() == BoundKind::Bounded;
        let trace = zip_rounds(self.trace.currents(), other.trace.currents(), once);
        let inner = if L::is_top_level() {
            let tick = flow.next_tick(&self.location);
            zip_through_tick(self.ir_node, other.ir_node, &tick)
        } else {
            HydroNode::new(
                HydroOp::CrossSingleton {
                    left: Box::new(self.ir_node),
                    right: Box::new(other.ir_node),
                },
                self.location.location_id(),
                CollectionKind::Optional { bound: B::bound_kind() },
            )
        };
        Singleton::new(self.location, HydroOp::Cast { inner: Box::new(inner) }, trace)
    }

    /// Combines this singleton with an [`Optional`]: the result has a value only if the
    /// optional has one.
    pub fn zip_optional<U: Dup>(self, flow: &mut FlowBuilder, other: Optional<U, L, B>) -> (r:
        Optional<(T, U), L, B>)
        requires
            self.wf(),
            other.wf(),
            same_location(self.location, other.location),
            L::is_top_level_spec() ==> old(flow).next_clock_id < usize::MAX,
        ensures
            r.wf(),
            r.location == self.location,
            r.ir_node.metadata.tag is None,
            if L::is_top_level_spec() {
                r.ir_node.op matches HydroOp::Cast { inner } && is_zip_through_tick(
                    *inner,
                    self.ir_node,
                    other.ir_node,
                    (Tick { id: old(flow).next_clock_id, l: self.location }),
                )
            } else {
                is_zip_in_place(
                    r.ir_node,
                    self.ir_node,
                    other.ir_node,
                    self.location.id_spec(),
                    B::bound_spec(),
                )
            },
            zip_flow(L::is_top_level_spec(), *old(flow), *final(flow)),
            is_zipped(
                L::is_top_level_spec() && B::bound_spec() == BoundKind::Bounded,
                self.trace@,
                other.trace@,
                r.trace@,
                |x: T, y: Option<U>| with_value(x, y),
            ),
    {
        let ghost a = self.trace@;
        let ghost b = other.trace@;
        let once = L::is_top_level() && B::bound_kind() == BoundKind::Bounded;
        let both = zip_rounds(self.trace.currents(), other.trace.currents(), once);
        let ghost p = both@;
        let join = |v: (T, Option<U>)| -> (r: Option<(T, U)>)
            ensures
                r == with_value(v.0, v.1),
            {
                match v.1 {
                    Some(y) => Some((v.0, y)),
                    None => None,
                }
            };
        let trace = both.map(&join);
        proof {
            assert forall|i: int| 0 <= i < trace@.len() implies #[trigger] trace@[i] == (if once
                && i > 0 {
                Seq::empty()
            } else {
                seq![with_value(current(a, i), current(b, i))]
            }) by {
                assert(is_mapped(join, p[i], trace@[i]));
                if !(once && i > 0) {
                    assert(join.ensures((p[i][0],), trace@[i][0]));
                    assert(trace@[i] =~= seq![with_value(current(a, i), current(b, i))]);
                } else {
                    assert(trace@[i] =~= Seq::empty());
                }
            }
        }
        if L::is_top_level() {
            let tick = flow.next_tick(&self.location);
            let inner = zip_through_tick(self.ir_node, other.ir_node, &tick);
            Optional::new(self.location, HydroOp::Cast { inner: Box::new(inner) }, trace)
        } else {
            Optional::new(
                self.location,
                HydroOp::CrossSingleton {
                    left: Box::new(self.ir_node),
                    right: Box::new(other.ir_node),
                },
                trace,
            )
        }
    }
}

/// A value paired with another one that may be absent.
pub open spec fn with_value<T, U>(x: T, y: Option<U>) -> Option<(T, U)> {
    match y {
        Some(y) => Some((x, y)),
        None => None,
    }
}

/// Whether the node passes on the value of the source where the signal has one.
pub open spec fn is_signal_plan<L: DynLocation, B: Boundedness>(
    node: HydroNode,
    source: HydroNode,
    signal: HydroNode,
    tick: Tick<L>,
) -> bool {
    let kind = CollectionKind::Optional { bound: B::bound_spec() };
    &&& is_at(node, tick.l.id_spec(), kind)
    &&& node.op matches HydroOp::MapEach { f, input } && {
        &&& f.code@ == "|(d, _signal)| d"@
        &&& if L::is_top_level_spec() {
            &&& is_at(*input, tick.l.id_spec(), kind)
            &&& input.op matches HydroOp::Cast { inner } && is_zip_through_tick(
                *inner,
                source,
                signal,
                tick,
            )
        } else {
            is_zip_in_place(*input, source, signal, tick.l.id_spec(), B::bound_spec())
        }
    }
}

impl<T: Dup, L: DynLocation, B: Boundedness> Singleton<T, L, B> {
    /// Passes this value through if `signal` has a value, otherwise the output has none.
    pub fn filter_if_some<U>(self, flow: &mut FlowBuilder, signal: Optional<U, L, B>) -> (r:
        Optional<T, L, B>)
        requires
            self.wf(),
            signal.wf(),
            same_location(self.location, signal.location),
            L::is_top_level_spec() ==> old(flow).next_clock_id < usize::MAX,
        ensures
            r.wf(),
            r.location == self.location,
            exists|on: HydroNode| #[trigger]
                is_map_node(
                    on,
                    signal.location.id_spec(),
                    Optional::<(), L, B>::kind_spec(),
                    "|_u| ()"@,
                    signal.ir_node,
                ) && is_signal_plan::<L, B>(
                    r.ir_node,
                    self.ir_node,
                    on,
                    (Tick { id: old(flow).next_clock_id, l: self.location }),
                ),
            zip_flow(L::is_top_level_spec(), *old(flow), *final(flow)),
            is_zipped(
                L::is_top_level_spec() && B::bound_spec() == BoundKind::Bounded,
                self.trace@,
                signal.trace@,
                r.trace@,
                |x: T, y: Option<U>| if_some(x, y),
            ),
    {
        let ghost t = self.trace@;
        let ghost s = signal.trace@;
        let ghost once = L::is_top_level_spec() && B::bound_spec() == BoundKind::Bounded;
        let unit = |_u: U| -> (r: ()) { () };
        let on = signal.map(Quoted::new("|_u| ()", unit));
        let ghost o = on.trace@;
        let ghost on_node = on.ir_node;
        let zipped = self.zip_optional(flow, on);
        let ghost z = zipped.trace@;
        let first = |p: (T, ())| -> (r: T)
            ensures
                r == p.0,
            { p.0 };
        let r = zipped.map(Quoted::new("|(d, _signal)| d", first));
        proof {
            assert(is_map_node(
                on_node,
                signal.location.id_spec(),
                Optional::<(), L, B>::kind_spec(),
                "|_u| ()"@,
                signal.ir_node,
            ));
            assert forall|i: int| 0 <= i < r.trace@.len() implies #[trigger] r.trace@[i] == (if once
                && i > 0 {
                Seq::empty()
            } else {
                seq![if_some(current(t, i), current(s, i))]
            }) by {
                lemma_current_mapped(
                    s,
                    o,
                    |v: Option<U>, w: Option<()>| maps_option(unit, v, w),
                    i,
                );
                assert(z[i] == (if once && i > 0 {
                    Seq::empty()
                } else {
                    seq![with_value(current(t, i), current(o, i))]
                }));
                assert(r.trace@[i].len() == z[i].len());
                if !(once && i > 0) {
                    assert(maps_option(first, z[i][0], r.trace@[i][0]));
                    assert(r.trace@[i] =~= seq![if_some(current(t, i), current(s, i))]);
                } else {
                    assert(r.trace@[i] =~= Seq::empty());
                }
            }
        }
        r
    }

    /// Passes this value through if `other` has no value, otherwise the output has none.
    pub fn filter_if_none<U>(self, flow: &mut FlowBuilder, other: Optional<U, L, B>) -> (r:
        Optional<T, L, B>)
        requires
            self.wf(),
            other.wf(),
            same_location(self.location, other.location),
            L::is_top_level_spec() ==> old(flow).next_clock_id < usize::MAX,
        ensures
            r.wf(),
            r.location == self.location,
            exists|on: HydroNode, off: HydroNode| #[trigger]
                is_map_node(
                    on,
                    other.location.id_spec(),
                    Optional::<(), L, B>::kind_spec(),
                    "|_u| ()"@,
                    off,
                ) && is_absence_node(
                    off,
                    other.location.id_spec(),
                    B::bound_spec(),
                    other.ir_node,
                ) && is_signal_plan::<L, B>(
                    r.ir_node,
                    self.ir_node,
                    on,
                    (Tick { id: old(flow).next_clock_id, l: self.location }),
                ),
            zip_flow(L::is_top_level_spec(), *old(flow), *final(flow)),
            is_zipped(
                L::is_top_level_spec() && B::bound_spec() == BoundKind::Bounded,
                self.trace@,
                other.trace@,
                r.trace@,
                |x: T, y: Option<U>| if_none(x, y),
            ),
    {
        let ghost t = self.trace@;
        let ghost s = other.trace@;
        let off = other.absence();
        let ghost o = off.trace@;
        let r = self.filter_if_some(flow, off);
        proof {
            assert forall|i: int| 0 <= i < r.trace@.len() implies if_some(
                current(t, i),
                #[trigger] current(o, i),
            ) == if_none(current(t, i), current(s, i)) by {
                lemma_current_mapped(
                    s,
                    o,
                    |v: Option<U>, w: Option<Option<()>>| w is Some <==> v is None,
                    i,
                );
            }
        }
        r
    }
}

/// A filter with a closure that computes a test keeps a value exactly if it passes.
pub proof fn law_filtered_value<T, F: Fn(&T) -> bool>(
    f: F,
    p: spec_fn(T) -> bool,
    v: T,
    r: Option<T>,
)
    requires
        forall|x: T, b: bool| #[trigger] f.ensures((&x,), b) ==> b == p(x),
        filters_value(f, v, r),
    ensures
        p(v) ==> r == Some(v),
        !p(v) ==> r is None,
{
}

/// Two values are together exactly if the second one is there.
pub proof fn law_with_value<T, U>(x: T, y: U)
    ensures
        with_value(x, Some(y)) == Some((x, y)),
        with_value(x, None::<U>) is None,
{
}

/// Two values that are zipped are combined in each round as they stand by then: each one with the
/// last version that it has got in this round or an earlier one. A value that is shown once is
/// shown in the first round.
pub proof fn law_zipped<A, B, C>(
    once: bool,
    a: Seq<Seq<A>>,
    b: Seq<Seq<B>>,
    r: Seq<Seq<C>>,
    combine: spec_fn(A, B) -> C,
    i: int,
)
    requires
        is_zipped(once, a, b, r, combine),
        a.len() == b.len(),
        0 <= i < r.len(),
        a[0].len() > 0,
        b[0].len() > 0,
    ensures
        r.len() == a.len(),
        !once || i == 0 ==> r[i] == seq![
            combine(a.take(i + 1).flatten().last(), b.take(i + 1).flatten().last()),
        ],
        once && i > 0 ==> r[i] == Seq::<C>::empty(),
{
    crate::trace::laws::law_before_concatenates(a, i + 1);
    crate::trace::laws::law_before_concatenates(b, i + 1);
    assert(r[i] == if once && i > 0 {
        Seq::empty()
    } else {
        seq![combine(current(a, i), current(b, i))]
    });
}

} // verus!
