//! Optionals: values that may be absent.
use super::batch_atomic::BatchAtomic;
use super::boundedness::{Bounded, Boundedness, Unbounded};
use super::quoted::Quoted;
use super::singleton::{filters_value, is_mapped_trace, one_each, value_trace_ok, Singleton};
use super::stream::{ExactlyOnce, Stream, TotalOrder};
use crate::compile::ir::{
    is_at, node_spec, BoundKind, CollectionKind, DebugExpr, HydroNode, HydroOp,
};
use crate::datum::Dup;
use crate::location::dynamic::{same_location, DynLocation, LocationId};
use crate::location::tick::{Atomic, Tick};
use crate::nondet::NonDet;
use crate::trace::choice::{current, version_shown};
use crate::trace::{fits, flat, is_filter_mapped, is_mapped, Trace};
use core::marker::PhantomData;
use std::rc::Rc;
use vstd::prelude::*;

verus! {

/// A value that can asynchronously change over time, and that may be absent.
pub struct Optional<Type, Loc, Bound> {
    pub location: Loc,
    /// The plan that yields this value.
    pub ir_node: HydroNode,
    /// The values that it takes in a run, round by round.
    pub trace: Trace<Option<Type>>,
    pub markers: PhantomData<Bound>,
}

impl<T, L: DynLocation, B: Boundedness> Optional<T, L, B> {
    pub open spec fn kind_spec() -> CollectionKind {
        CollectionKind::Optional { bound: B::bound_spec() }
    }

    /// The plan and the trace fit to the location and to the boundedness.
    pub open spec fn wf(self) -> bool {
        &&& self.ir_node.metadata.location_id == self.location.id_spec()
        &&& self.ir_node.metadata.collection_kind == Self::kind_spec()
        &&& value_trace_ok::<Option<T>, L, B>(self.location, self.trace@)
    }

    /// Whether this is the value that the operation yields at the location.
    pub open spec fn is_built(self, location: L, op: HydroOp) -> bool {
        &&& self.wf()
        &&& self.location == location
        &&& self.ir_node == node_spec(op, location.id_spec(), Self::kind_spec())
    }

    pub fn collection_kind() -> (r: CollectionKind)
        ensures
            r == Self::kind_spec(),
    {
        CollectionKind::Optional { bound: B::bound_kind() }
    }

    /// The value that the operation yields at the location.
    pub fn new(location: L, op: HydroOp, trace: Trace<Option<T>>) -> (r: Self)
        requires
            value_trace_ok::<Option<T>, L, B>(location, trace@),
        ensures
            r.is_built(location, op),
            r.trace == trace,
    {
        let ir_node = HydroNode::new(op, location.location_id(), Self::collection_kind());
        Optional { location, ir_node, trace, markers: PhantomData }
    }

    /// Returns the location where this value is being materialized.
    pub fn location(&self) -> (r: &L)
        ensures
            *r == self.location,
    {
        &self.location
    }

    /// Gives the node of this value a name.
    pub fn ir_node_named(self, name: &str) -> (r: Self)
        requires
            self.wf(),
        ensures
            r.wf(),
            r.location == self.location,
            r.trace == self.trace,
            r.ir_node.op == self.ir_node.op,
            r.ir_node.metadata.tag matches Some(t) && t@ == name@,
    {
        let mut node = self.ir_node;
        node.metadata.tag = Some(name.to_owned());
        Optional { location: self.location, ir_node: node, trace: self.trace, markers: PhantomData }
    }

    /// A second handle of the same value. Both then share one node of the plan.
    pub fn clone(&mut self) -> (r: Self) where T: Dup
        requires
            old(self).wf(),
        ensures
            r.wf(),
            final(self).wf(),
            r.location == old(self).location,
            final(self).location == old(self).location,
            r.trace@ == old(self).trace@,
            final(self).trace == old(self).trace,
            r.ir_node == final(self).ir_node,
            old(self).ir_node.op is Tee ==> final(self).ir_node == old(self).ir_node,
            !(old(self).ir_node.op is Tee) ==> final(self).ir_node == node_spec(
                HydroOp::Tee { shared: Rc::new(old(self).ir_node) },
                old(self).location.id_spec(),
                Self::kind_spec(),
            ),
    {
        let is_tee = match &self.ir_node.op {
            HydroOp::Tee { .. } => true,
            _ => false,
        };
        if !is_tee {
            let mut node = HydroNode::new(
                HydroOp::CycleSource { ident: String::new() },
                self.location.location_id(),
                Self::collection_kind(),
            );
            std::mem::swap(&mut node, &mut self.ir_node);
            self.ir_node = HydroNode::new(
                HydroOp::Tee { shared: Rc::new(node) },
                self.location.location_id(),
                Self::collection_kind(),
            );
        }
        let shared = match &self.ir_node.op {
            HydroOp::Tee { shared } => HydroOp::Tee { shared: shared.clone() },
            _ => HydroOp::CycleSource { ident: String::new() },
        };
        Optional {
            location: self.location.dup(),
            ir_node: HydroNode { op: shared, metadata: self.ir_node.metadata.dup() },
            trace: self.trace.dup(),
            markers: PhantomData,
        }
    }
}

/// Whether `r` is what `f` makes of the value, if there is one.
pub open spec fn maps_option<T, U, F: Fn(T) -> U>(f: F, v: Option<T>, r: Option<U>) -> bool {
    match v {
        Some(x) => r matches Some(y) && f.ensures((x,), y),
        None => r is None,
    }
}

impl<T, L: DynLocation, B: Boundedness> Optional<T, L, B> {
    /// Applies `f` to the value, if there is one, continuously as it is updated.
    pub fn map<U, F: Fn(T) -> U>(self, f: Quoted<F>) -> (r: Optional<U, L, B>)
        requires
            self.wf(),
            forall|i: int, j: int|
                0 <= i < self.trace@.len() && 0 <= j < self.trace@[i].len() && (#[trigger]
                self.trace@[i][j]) is Some ==> f.value.requires((self.trace@[i][j]->0,)),
        ensures
            r.is_built(
                self.location,
                HydroOp::MapEach { f: f.code, input: Box::new(self.ir_node) },
            ),
            is_mapped_trace(
                self.trace@,
                r.trace@,
                |v: Option<T>, w: Option<U>| maps_option(f.value, v, w),
            ),
    {
        let g = &f.value;
        let ghost accepts = |x: T| f.value.requires((x,));
        let h = |v: Option<T>| -> (r: Option<U>)
            requires
                v matches Some(x) ==> accepts(x),
            ensures
                maps_option(*g, v, r),
            {
                match v {
                    Some(x) => Some(g(x)),
                    None => None,
                }
            };
        let ghost t = self.trace@;
        let trace = self.trace.map(&h);
        proof {
            assert forall|i: int| 0 <= i < t.len() implies (#[trigger] trace@[i]).len()
                == t[i].len() by {
                assert(is_mapped(h, t[i], trace@[i]));
            }
            assert forall|i: int, j: int|
                0 <= i < t.len() && 0 <= j < t[i].len() implies maps_option(
                f.value,
                t[i][j],
                #[trigger] trace@[i][j],
            ) by {
                assert(is_mapped(h, t[i], trace@[i]));
                assert(h.ensures((t[i][j],), trace@[i][j]));
            }
        }
        Optional::new(
            self.location,
            HydroOp::MapEach { f: f.code, input: Box::new(self.ir_node) },
            trace,
        )
    }

    /// The value as an [`Option`]: a singleton that is `None` where this is absent.
    pub fn into_singleton(self) -> (r: Singleton<Option<T>, L, B>)
        requires
            self.wf(),
        ensures
            r.wf(),
            r.location == self.location,
            r.ir_node.metadata.tag is None,
            r.ir_node.op matches HydroOp::ChainFirst { first, second } && {
                &&& is_map_node(
                    *first,
                    self.location.id_spec(),
                    Self::kind_spec(),
                    "|v| Some(v)"@,
                    self.ir_node,
                )
                &&& is_at(
                    *second,
                    self.location.id_spec(),
                    Singleton::<Option<T>, L, B>::kind_spec(),
                )
                &&& second.op matches HydroOp::SingletonSource { value } && value.code@ == "None"@
            },
            r.trace == self.trace,
    {
        let some = HydroNode::new(
            HydroOp::MapEach {
                f: DebugExpr { code: "|v| Some(v)".to_owned() },
                input: Box::new(self.ir_node),
            },
            self.location.location_id(),
            Self::collection_kind(),
        );
        let none = HydroNode::new(
            HydroOp::SingletonSource { value: DebugExpr { code: "None".to_owned() } },
            self.location.location_id(),
            Singleton::<Option<T>, L, B>::collection_kind(),
        );
        Singleton::new(
            self.location,
            HydroOp::ChainFirst { first: Box::new(some), second: Box::new(none) },
            self.trace,
        )
    }
}

/// Whether the node applies the code to each element of the source.
pub open spec fn is_map_node(
    node: HydroNode,
    location_id: LocationId,
    kind: CollectionKind,
    code: Seq<char>,
    source: HydroNode,
) -> bool {
    &&& is_at(node, location_id, kind)
    &&& node.op matches HydroOp::MapEach { f, input } && f.code@ == code && *input == source
}

/// Whether the node yields a value exactly if the source has none.
pub open spec fn is_absence_node(
    node: HydroNode,
    location_id: LocationId,
    bound: BoundKind,
    source: HydroNode,
) -> bool {
    let there = CollectionKind::Optional { bound };
    let either = CollectionKind::Singleton { bound };
    &&& is_at(node, location_id, there)
    &&& node.op matches HydroOp::Filter { f, input } && {
        &&& f.code@ == "|o| o.is_none()"@
        &&& is_at(*input, location_id, either)
        &&& input.op matches HydroOp::ChainFirst { first, second } && {
            &&& is_at(*first, location_id, there)
            &&& first.op matches HydroOp::MapEach { f, input } && f.code@ == "|v| Some(v)"@
                && is_map_node(*input, location_id, there, "|_| ()"@, source)
            &&& is_at(*second, location_id, either)
            &&& second.op matches HydroOp::SingletonSource { value } && value.code@ == "None"@
        }
    }
}

/// The value of the first, if the second is there.
pub open spec fn if_some<T, U>(x: T, y: Option<U>) -> Option<T> {
    if y is Some {
        Some(x)
    } else {
        None
    }
}

/// The value of the first, if the second is not there.
pub open spec fn if_none<T, U>(x: T, y: Option<U>) -> Option<T> {
    if y is None {
        Some(x)
    } else {
        None
    }
}

impl<T, L: DynLocation, B: Boundedness> Optional<T, L, B> {
    /// A unit value exactly where this has none.
    pub fn absence(self) -> (r: Optional<Option<()>, L, B>)
        requires
            self.wf(),
        ensures
            r.wf(),
            r.location == self.location,
            is_absence_node(
                r.ir_node,
                self.location.id_spec(),
                B::bound_spec(),
                self.ir_node,
            ),
            is_mapped_trace(
                self.trace@,
                r.trace@,
                |v: Option<T>, w: Option<Option<()>>| w is Some <==> v is None,
            ),
    {
        let ghost s = self.trace@;
        let unit = |_u: T| -> (r: ()) { () };
        let on = self.map(Quoted::new("|_| ()", unit));
        let ghost o = on.trace@;
        let absent = |v: &Option<()>| -> (r: bool)
            ensures
                r == (*v is None),
            {
                match v {
                    Some(_) => false,
                    None => true,
                }
            };
        let r = on.into_singleton().filter(Quoted::new("|o| o.is_none()", absent));
        proof {
            assert forall|i: int, j: int| 0 <= i < s.len() && 0 <= j < s[i].len() implies (
            #[trigger] r.trace@[i][j] is Some <==> s[i][j] is None) by {
                assert(maps_option(unit, s[i][j], o[i][j]));
                assert(filters_value(absent, o[i][j], r.trace@[i][j]));
            }
        }
        r
    }
}

impl<T, L: DynLocation> Optional<T, L, Bounded> {
    /// A stream with the value as its only element, or without elements.
    pub fn into_stream(self) -> (r: Stream<T, L, Bounded, TotalOrder, ExactlyOnce>)
        requires
            self.wf(),
        ensures
            r.is_built(self.location, HydroOp::Cast { inner: Box::new(self.ir_node) }),
            forall|i: int|
                0 <= i < r.trace@.len() ==> #[trigger] r.trace@[i] == present(self.trace@[i]),
    {
        let ghost t = self.trace@;
        let keep = |v: Option<T>| -> (r: Option<T>)
            ensures
                r == v,
            { v };
        let trace = self.trace.filter_map(&keep);
        proof {
            assert forall|i: int| 0 <= i < trace@.len() implies #[trigger] trace@[i] == present(
                t[i],
            ) by {
                lemma_present(keep, t[i], trace@[i]);
            }
        }
        Stream::new(self.location, HydroOp::Cast { inner: Box::new(self.ir_node) }, trace)
    }
}

/// The values that are there.
pub open spec fn present<T>(s: Seq<Option<T>>) -> Seq<T>
    decreases s.len(),
{
    if s.len() == 0 {
        Seq::empty()
    } else {
        match s.last() {
            Some(x) => present(s.drop_last()).push(x),
            None => present(s.drop_last()),
        }
    }
}

proof fn lemma_present<T, F: Fn(Option<T>) -> Option<T>>(f: F, s: Seq<Option<T>>, r: Seq<T>)
    requires
        forall|a: Option<T>, b: Option<T>| #[trigger] f.ensures((a,), b) ==> b == a,
        is_filter_mapped(f, s, r),
    ensures
        r == present(s),
    decreases s.len(),
{
    if s.len() > 0 {
        if s.last() is Some {
            lemma_present(f, s.drop_last(), r.drop_last());
            assert(r =~= r.drop_last().push(r.last()));
        } else {
            lemma_present(f, s.drop_last(), r);
        }
    } else {
        assert(r =~= Seq::empty());
    }
}

impl<T: Dup, L: DynLocation, B: Boundedness> Optional<T, L, B> {
    /// A snapshot of the value as of each tick. The choices decide how old it is; it is never
    /// older than the last one, and the last is the newest.
    pub fn snapshot(self, tick: &Tick<L>, nondet: NonDet) -> (r: Optional<T, Tick<L>, Bounded>)
        requires
            self.wf(),
            same_location(tick.l, self.location),
            fits(self.trace@),
        ensures
            r.is_built(*tick, HydroOp::Batch { inner: Box::new(self.ir_node) }),
            forall|i: int|
                0 <= i < r.trace@.len() ==> #[trigger] r.trace@[i] == seq![
                    flat(self.trace@)[version_shown(self.trace@, nondet@, i)],
                ],
    {
        let trace = self.trace.snapshot(&nondet);
        Optional::new(tick.dup(), HydroOp::Batch { inner: Box::new(self.ir_node) }, trace)
    }
}

impl<T, L: DynLocation> Optional<T, Tick<L>, Bounded> {
    /// Yields the value of each tick, where there is one, as an element of a stream outside
    /// the tick.
    pub fn all_ticks(self) -> (r: Stream<T, L, Unbounded, TotalOrder, ExactlyOnce>)
        requires
            self.wf(),
        ensures
            r.wf(),
            r.location == self.location.l,
            r.ir_node.metadata.tag is None,
            r.ir_node.op matches HydroOp::YieldConcat { inner } && *inner == node_spec(
                HydroOp::Cast { inner: Box::new(self.ir_node) },
                self.location.id_spec(),
                Stream::<T, Tick<L>, Bounded, TotalOrder, ExactlyOnce>::kind_spec(),
            ),
            forall|i: int|
                0 <= i < r.trace@.len() ==> #[trigger] r.trace@[i] == present(self.trace@[i]),
    {
        self.into_stream().all_ticks()
    }

    /// Yields this value outside the tick, where it follows the value inside.
    pub fn latest(self) -> (r: Optional<T, L, Unbounded>)
        requires
            self.wf(),
        ensures
            r.is_built(self.location.l, HydroOp::YieldConcat { inner: Box::new(self.ir_node) }),
            r.trace == self.trace,
    {
        Optional::new(
            self.location.l,
            HydroOp::YieldConcat { inner: Box::new(self.ir_node) },
            self.trace,
        )
    }
}

impl<T: Dup, L: DynLocation> Optional<T, Atomic<L>, Unbounded> {
    /// The value as of the end of each round of the atomic context.
    pub fn snapshot_atomic(self, nondet: NonDet) -> (r: Optional<T, Tick<L>, Bounded>)
        requires
            self.wf(),
        ensures
            r.is_built(self.location.tick, HydroOp::Batch { inner: Box::new(self.ir_node) }),
            forall|i: int|
                0 <= i < r.trace@.len() ==> #[trigger] r.trace@[i] == seq![
                    current(self.trace@, i),
                ],
    {
        let trace = one_each(self.trace.currents());
        Optional::new(
            self.location.tick,
            HydroOp::Batch { inner: Box::new(self.ir_node) },
            trace,
        )
    }
}

impl<T: Dup, L: DynLocation> BatchAtomic for Optional<T, Atomic<L>, Unbounded> {
    type Batched = Optional<T, Tick<L>, Bounded>;

    open spec fn batch_ok(self) -> bool {
        self.wf()
    }

    open spec fn is_batched(self, r: Optional<T, Tick<L>, Bounded>) -> bool {
        &&& r.is_built(self.location.tick, HydroOp::Batch { inner: Box::new(self.ir_node) })
        &&& forall|i: int|
            0 <= i < r.trace@.len() ==> #[trigger] r.trace@[i] == seq![current(self.trace@, i)]
    }

    fn batched_atomic(self) -> (r: Optional<T, Tick<L>, Bounded>) {
        self.snapshot_atomic(NonDet::none())
    }
}

/// The values that are there are those of the places that have one, in order.
pub proof fn law_present<T>(s: Seq<Option<T>>)
    ensures
        present(s) == s.filter(|x: Option<T>| x is Some).map_values(|x: Option<T>| x->0),
    decreases s.len(),
{
    reveal(Seq::filter);
    let p = |x: Option<T>| x is Some;
    let v = |x: Option<T>| x->0;
    if s.len() > 0 {
        let init = s.drop_last();
        law_present(init);
        if p(s.last()) {
            assert(s.filter(p).map_values(v) =~= init.filter(p).map_values(v).push(v(s.last())));
        } else {
            assert(s.filter(p) == init.filter(p));
        }
    } else {
        assert(s.filter(p).map_values(v) =~= Seq::empty());
    }
}

/// A value passes a signal exactly if the signal is there, and passes the absence of one exactly
/// if it is not; so it passes one of the two, and is the same value then.
pub proof fn law_signals<T, U>(x: T, y: U)
    ensures
        if_some(x, Some(y)) == Some(x),
        if_some(x, None::<U>) is None,
        if_none(x, Some(y)) is None,
        if_none(x, None::<U>) == Some(x),
{
}

/// What a closure that computes a function makes of a value that may be absent.
pub proof fn law_map_optional<T, U, F: Fn(T) -> U>(
    f: F,
    g: spec_fn(T) -> U,
    v: Option<T>,
    r: Option<U>,
)
    requires
        forall|x: T, y: U| #[trigger] f.ensures((x,), y) ==> y == g(x),
        maps_option(f, v, r),
    ensures
        v is None ==> r is None,
        v is Some ==> r == Some(g(v->0)),
{
}

} // verus!
