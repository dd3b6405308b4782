//! Collections that are used before they are defined.
use crate::compile::builder::{cycle_ident, FlowBuilder};
use crate::compile::ir::{node_spec, HydroNode, HydroOp, HydroRoot, StreamOrder};
use crate::live_collections::boundedness::{Bounded, Boundedness};
use crate::live_collections::keyed_stream::KeyedStream;
use crate::live_collections::optional::Optional;
use crate::live_collections::singleton::{value_trace_ok, Singleton};
use crate::live_collections::stream::{Retries, Stream, StreamOrdering};
use crate::location::dynamic::{same_location, DynLocation, LocationId};
use crate::location::tick::Tick;
use crate::trace::laws::law_before_concatenates;
use crate::trace::{before, flat, Trace};
use core::marker::PhantomData;
use vstd::prelude::*;

verus! {

/// A collection that can be completed: it is sent back to the node that stands for it.
pub trait ReceiverComplete: Sized {
    spec fn complete_ok(self) -> bool;

    spec fn complete_node(self) -> HydroNode;

    /// Where this collection is materialized.
    spec fn complete_location(self) -> LocationId;

    /// Sends this collection back to the node with the given name, which must be at the same
    /// location.
    fn complete(self, flow: &mut FlowBuilder, ident: String, expected_location: &LocationId)
        requires
            self.complete_ok(),
            self.complete_location() == *expected_location,
        ensures
            final(flow).same_counters(*old(flow)),
            final(flow).roots@ == old(flow).roots@.push(
                HydroRoot::CycleSink { ident, input: Box::new(self.complete_node()) },
            ),
    ;
}

/// A collection that can be used before it is defined.
pub trait CycleCollection: ReceiverComplete {
    type Location: DynLocation;

    type Item;

    /// Whether such a collection can have the trace.
    spec fn source_ok(location: Self::Location, t: Seq<Seq<Self::Item>>) -> bool;

    spec fn is_source(
        self,
        ident: String,
        location: Self::Location,
        trace: Trace<Self::Item>,
    ) -> bool;

    /// What the collection yields.
    spec fn yields(self) -> Seq<Seq<Self::Item>>;

    /// Whether the placeholder can yield `received` where the collection with which it is
    /// completed yields `sent`.
    spec fn comes_back(sent: Seq<Seq<Self::Item>>, received: Seq<Seq<Self::Item>>) -> bool;

    /// The collection that stands for the one with the given name. Its trace is what comes back
    /// of the collection with which it is completed.
    fn create_source(ident: String, location: Self::Location, trace: Trace<Self::Item>) -> (r: Self)
        requires
            Self::source_ok(location, trace@),
        ensures
            r.is_source(ident, location, trace),
    ;
}

/// Whether `received` is what was sent, in the same order, each element in the round in which
/// it was sent or in a later one.
pub open spec fn arrives_in_order<T>(sent: Seq<Seq<T>>, received: Seq<Seq<T>>) -> bool {
    &&& sent.len() == received.len()
    &&& flat(received) == flat(sent)
    &&& forall|i: int|
        0 <= i <= sent.len() ==> (#[trigger] before(received, i)).len() <= before(sent, i).len()
}

/// Whether `received` is what was sent, in any order, each element in the round in which it was
/// sent or in a later one.
pub open spec fn arrives<T>(sent: Seq<Seq<T>>, received: Seq<Seq<T>>) -> bool {
    &&& sent.len() == received.len()
    &&& flat(received).to_multiset() == flat(sent).to_multiset()
    &&& forall|i: int|
        0 <= i <= sent.len() ==> (#[trigger] before(received, i)).to_multiset().subset_of(
            before(sent, i).to_multiset(),
        )
}

/// A stream that is sent back within a tick comes back in that tick. Outside ticks it can take
/// its time, and it keeps its order if it has one.
pub open spec fn stream_comes_back<T, L: DynLocation, O: StreamOrdering>(
    sent: Seq<Seq<T>>,
    received: Seq<Seq<T>>,
) -> bool {
    if !L::is_top_level_spec() {
        received == sent
    } else if O::ordering_spec() == StreamOrder::TotalOrder {
        arrives_in_order(sent, received)
    } else {
        arrives(sent, received)
    }
}

/// The values of a key, in their order.
pub open spec fn values_of<K, V>(s: Seq<(K, V)>, k: K) -> Seq<(K, V)> {
    s.filter(|x: (K, V)| x.0 == k)
}

/// A keyed stream comes back as a stream does, but only the values of one key keep their order.
pub open spec fn keyed_comes_back<K, V, L: DynLocation, O: StreamOrdering>(
    sent: Seq<Seq<(K, V)>>,
    received: Seq<Seq<(K, V)>>,
) -> bool {
    if !L::is_top_level_spec() {
        received == sent
    } else {
        &&& arrives(sent, received)
        &&& O::ordering_spec() == StreamOrder::TotalOrder ==> forall|k: K|
            values_of(flat(received), k) == #[trigger] values_of(flat(sent), k)
    }
}

/// What comes back of a stream is what was sent, all of it and nothing else. If the stream is
/// ordered, it comes back in its order.
pub proof fn law_forward_reference<T, L: DynLocation, O: StreamOrdering>(
    sent: Seq<Seq<T>>,
    received: Seq<Seq<T>>,
)
    requires
        stream_comes_back::<T, L, O>(sent, received),
    ensures
        flat(received).to_multiset() == flat(sent).to_multiset(),
        O::ordering_spec() == StreamOrder::TotalOrder ==> flat(received) == flat(sent),
        received.len() == sent.len(),
        !L::is_top_level_spec() ==> received == sent,
        forall|i: int|
            0 <= i <= sent.len() ==> (#[trigger] received.take(i)).flatten().len() <= sent.take(
                i,
            ).flatten().len(),
{
    assert forall|i: int| 0 <= i <= sent.len() implies (#[trigger] received.take(i)).flatten().len()
        <= sent.take(i).flatten().len() by {
        law_before_concatenates(sent, i);
        law_before_concatenates(received, i);
        assert(before(received, i).len() <= before(sent, i).len()) by {
            broadcast use vstd::seq_lib::group_to_multiset_ensures;

            if L::is_top_level_spec() && O::ordering_spec() != StreamOrder::TotalOrder {
                let (x, y) = (before(received, i).to_multiset(), before(sent, i).to_multiset());
                assert(x.subset_of(y));
                assert(y =~= x.add(y.sub(x)));
                assert(y.len() == x.len() + y.sub(x).len());
                vstd::seq_lib::to_multiset_len(before(received, i));
                vstd::seq_lib::to_multiset_len(before(sent, i));
            }
            if L::is_top_level_spec() && O::ordering_spec() == StreamOrder::TotalOrder {
                assert(arrives_in_order(sent, received));
            }
        }
    }
}

/// What comes back of a keyed stream is what was sent, all of it and nothing else, and if the
/// stream is ordered then the entries of each key come back in their order.
pub proof fn law_keyed_forward_reference<K, V, L: DynLocation, O: StreamOrdering>(
    sent: Seq<Seq<(K, V)>>,
    received: Seq<Seq<(K, V)>>,
    k: K,
)
    requires
        keyed_comes_back::<K, V, L, O>(sent, received),
    ensures
        received.len() == sent.len(),
        received.flatten().to_multiset() == sent.flatten().to_multiset(),
        O::ordering_spec() == StreamOrder::TotalOrder ==> received.flatten().filter(
            |x: (K, V)| x.0 == k,
        ) == sent.flatten().filter(|x: (K, V)| x.0 == k),
{
    law_before_concatenates(sent, 0);
    law_before_concatenates(received, 0);
    assert(O::ordering_spec() == StreamOrder::TotalOrder ==> values_of(flat(received), k)
        == values_of(flat(sent), k));
}

/// A handle to complete a forward reference to a collection of type `S`. If the placeholder can
/// be looked at before that, `expected` is what it yields.
pub struct ForwardHandle<S: CycleCollection> {
    pub ident: String,
    pub expected_location: LocationId,
    pub collection: PhantomData<S>,
    pub expected: Ghost<Option<Seq<Seq<S::Item>>>>,
}

impl<S: CycleCollection> ForwardHandle<S> {
    /// Completes the forward reference with the actual collection, which must be the one that
    /// the placeholder has yielded.
    pub fn complete(self, flow: &mut FlowBuilder, stream: S)
        requires
            stream.complete_ok(),
            stream.complete_location() == self.expected_location,
            self.expected@ matches Some(received) ==> S::comes_back(stream.yields(), received),
        ensures
            final(flow).same_counters(*old(flow)),
            final(flow).roots@ == old(flow).roots@.push(
                HydroRoot::CycleSink { ident: self.ident, input: Box::new(stream.complete_node()) },
            ),
    {
        stream.complete(flow, self.ident, &self.expected_location)
    }

    /// The same handle, where the placeholder is only sent on and nobody looks at it.
    pub(crate) fn for_output(self) -> (r: Self)
        ensures
            r.ident == self.ident,
            r.expected_location == self.expected_location,
            r.expected@ is None,
    {
        ForwardHandle {
            ident: self.ident,
            expected_location: self.expected_location,
            collection: PhantomData,
            expected: Ghost(None),
        }
    }
}

impl<T, L: DynLocation, B: Boundedness, O: StreamOrdering, R: Retries> ReceiverComplete for Stream<
    T,
    L,
    B,
    O,
    R,
> {
    open spec fn complete_ok(self) -> bool {
        self.wf()
    }

    open spec fn complete_node(self) -> HydroNode {
        self.ir_node
    }

    open spec fn complete_location(self) -> LocationId {
        self.location.id_spec()
    }

    fn complete(self, flow: &mut FlowBuilder, ident: String, expected_location: &LocationId) {
        flow.push_root(HydroRoot::CycleSink { ident, input: Box::new(self.ir_node) });
    }
}

impl<T, L: DynLocation, B: Boundedness, O: StreamOrdering, R: Retries> CycleCollection for Stream<
    T,
    L,
    B,
    O,
    R,
> {
    type Location = L;

    type Item = T;

    open spec fn yields(self) -> Seq<Seq<T>> {
        self.trace@
    }

    open spec fn comes_back(sent: Seq<Seq<T>>, received: Seq<Seq<T>>) -> bool {
        stream_comes_back::<T, L, O>(sent, received)
    }

    open spec fn source_ok(location: L, t: Seq<Seq<T>>) -> bool {
        Self::trace_ok(location, t)
    }

    open spec fn is_source(self, ident: String, location: L, trace: Trace<T>) -> bool {
        self.is_built(location, HydroOp::CycleSource { ident }) && self.trace == trace
    }

    fn create_source(ident: String, location: L, trace: Trace<T>) -> (r: Self) {
        Stream::new(location, HydroOp::CycleSource { ident }, trace)
    }
}

impl<K, V, L: DynLocation, B: Boundedness, O: StreamOrdering, R: Retries> ReceiverComplete for
    KeyedStream<K, V, L, B, O, R> {
    open spec fn complete_ok(self) -> bool {
        self.wf()
    }

    open spec fn complete_node(self) -> HydroNode {
        self.ir_node
    }

    open spec fn complete_location(self) -> LocationId {
        self.location.id_spec()
    }

    fn complete(self, flow: &mut FlowBuilder, ident: String, expected_location: &LocationId) {
        flow.push_root(HydroRoot::CycleSink { ident, input: Box::new(self.ir_node) });
    }
}

impl<K, V, L: DynLocation, B: Boundedness, O: StreamOrdering, R: Retries> CycleCollection for
    KeyedStream<K, V, L, B, O, R> {
    type Location = L;

    type Item = (K, V);

    open spec fn yields(self) -> Seq<Seq<(K, V)>> {
        self.trace@
    }

    open spec fn comes_back(sent: Seq<Seq<(K, V)>>, received: Seq<Seq<(K, V)>>) -> bool {
        keyed_comes_back::<K, V, L, O>(sent, received)
    }

    open spec fn source_ok(location: L, t: Seq<Seq<(K, V)>>) -> bool {
        Self::trace_ok(location, t)
    }

    open spec fn is_source(self, ident: String, location: L, trace: Trace<(K, V)>) -> bool {
        self.is_built(location, HydroOp::CycleSource { ident }) && self.trace == trace
    }

    fn create_source(ident: String, location: L, trace: Trace<(K, V)>) -> (r: Self) {
        KeyedStream::new(location, HydroOp::CycleSource { ident }, trace)
    }
}

impl<T, L: DynLocation, B: Boundedness> ReceiverComplete for Singleton<T, L, B> {
    open spec fn complete_ok(self) -> bool {
        self.wf()
    }

    open spec fn complete_node(self) -> HydroNode {
        self.ir_node
    }

    open spec fn complete_location(self) -> LocationId {
        self.location.id_spec()
    }

    fn complete(self, flow: &mut FlowBuilder, ident: String, expected_location: &LocationId) {
        flow.push_root(HydroRoot::CycleSink { ident, input: Box::new(self.ir_node) });
    }
}

impl<T, L: DynLocation, B: Boundedness> CycleCollection for Singleton<T, L, B> {
    type Location = L;

    type Item = T;

    open spec fn yields(self) -> Seq<Seq<T>> {
        self.trace@
    }

    open spec fn comes_back(sent: Seq<Seq<T>>, received: Seq<Seq<T>>) -> bool {
        if L::is_top_level_spec() {
            arrives_in_order(sent, received)
        } else {
            received == sent
        }
    }

    open spec fn source_ok(location: L, t: Seq<Seq<T>>) -> bool {
        value_trace_ok::<T, L, B>(location, t)
    }

    open spec fn is_source(self, ident: String, location: L, trace: Trace<T>) -> bool {
        self.is_built(location, HydroOp::CycleSource { ident }) && self.trace == trace
    }

    fn create_source(ident: String, location: L, trace: Trace<T>) -> (r: Self) {
        Singleton::new(location, HydroOp::CycleSource { ident }, trace)
    }
}

/// The node of the value that the cycle had in the last tick.
pub open spec fn from_previous_tick<T, L: DynLocation>(
    ident: String,
    location: Tick<L>,
) -> HydroNode {
    node_spec(
        HydroOp::DeferTick {
            input: Box::new(
                node_spec(
                    HydroOp::CycleSource { ident },
                    location.id_spec(),
                    Singleton::<T, Tick<L>, Bounded>::kind_spec(),
                ),
            ),
        },
        location.id_spec(),
        Optional::<T, Tick<L>, Bounded>::kind_spec(),
    )
}

/// The operation that takes the value of the last tick, and before that the initial one.
pub open spec fn with_initial<T, L: DynLocation>(
    ident: String,
    initial: Singleton<T, Tick<L>, Bounded>,
    location: Tick<L>,
) -> HydroOp {
    let otherwise = node_spec(
        HydroOp::Cast { inner: Box::new(initial.ir_node) },
        initial.location.id_spec(),
        Optional::<T, Tick<L>, Bounded>::kind_spec(),
    );
    let either = node_spec(
        HydroOp::ChainFirst {
            first: Box::new(from_previous_tick::<T, L>(ident, location)),
            second: Box::new(otherwise),
        },
        location.id_spec(),
        Optional::<T, Tick<L>, Bounded>::kind_spec(),
    );
    HydroOp::Cast { inner: Box::new(either) }
}

impl<T, L: DynLocation> Singleton<T, Tick<L>, Bounded> {
    /// The value that the cycle with the given name had in the last tick, and the initial
    /// value in the first tick. `later` is what the cycle is completed with.
    pub fn create_source_with_initial(
        ident: String,
        initial: Self,
        location: Tick<L>,
        later: Trace<T>,
    ) -> (r: Self)
        requires
            initial.wf(),
            same_location(initial.location, location),
            value_trace_ok::<T, Tick<L>, Bounded>(location, later@),
        ensures
            r.is_built(location, with_initial(ident, initial, location)),
            r.trace@[0] == initial.trace@[0],
            forall|i: int| 0 < i < r.trace@.len() ==> #[trigger] r.trace@[i] == later@[i - 1],
    {
        let deferred = HydroNode::new(
            HydroOp::DeferTick {
                input: Box::new(
                    HydroNode::new(
                        HydroOp::CycleSource { ident },
                        location.location_id(),
                        Self::collection_kind(),
                    ),
                ),
            },
            location.location_id(),
            Optional::<T, Tick<L>, Bounded>::collection_kind(),
        );
        let otherwise = HydroNode::new(
            HydroOp::Cast { inner: Box::new(initial.ir_node) },
            initial.location.location_id(),
            Optional::<T, Tick<L>, Bounded>::collection_kind(),
        );
        let either = HydroNode::new(
            HydroOp::ChainFirst { first: Box::new(deferred), second: Box::new(otherwise) },
            location.location_id(),
            Optional::<T, Tick<L>, Bounded>::collection_kind(),
        );
        let trace = initial.trace.then_deferred(later);
        Singleton::new(location, HydroOp::Cast { inner: Box::new(either) }, trace)
    }
}

impl<L: DynLocation> Tick<L> {
    /// Creates a cycle from one tick to the next that starts with the given value. Returns a
    /// handle that must be completed with the value of each tick, and the value of the tick
    /// before. `later` is what the cycle is completed with.
    pub fn cycle_with_initial<T>(
        &self,
        flow: &mut FlowBuilder,
        initial: Singleton<T, Tick<L>, Bounded>,
        later: Trace<T>,
    ) -> (r: (
        ForwardHandle<Singleton<T, Tick<L>, Bounded>>,
        Singleton<T, Tick<L>, Bounded>,
    ))
        requires
            initial.wf(),
            same_location(initial.location, *self),
            value_trace_ok::<T, Tick<L>, Bounded>(*self, later@),
            old(flow).next_cycle_id < usize::MAX,
        ensures
            r.0.ident@ == cycle_ident(old(flow).next_cycle_id),
            r.0.expected_location == self.id_spec(),
            r.0.expected@ == Some(later@),
            r.1.is_built(*self, with_initial(r.0.ident, initial, *self)),
            r.1.trace@[0] == initial.trace@[0],
            forall|i: int| 0 < i < r.1.trace@.len() ==> #[trigger] r.1.trace@[i] == later@[i - 1],
            *final(flow) == (FlowBuilder {
                next_cycle_id: (old(flow).next_cycle_id + 1) as usize,
                ..*old(flow)
            }),
    {
        let ident = flow.next_cycle();
        let handle = ForwardHandle {
            ident: ident.clone(),
            expected_location: self.location_id(),
            collection: PhantomData,
            expected: Ghost(Some(later@)),
        };
        (handle, Singleton::create_source_with_initial(ident, initial, self.dup(), later))
    }
}

} // verus!
