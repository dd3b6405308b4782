//! Keyed singletons: a value for each of a set of keys.
use super::boundedness::{Boundedness, Unbounded};
use super::keyed_stream::keys_of;
use super::optional::is_map_node;
use super::quoted::Quoted;
use super::stream::{ExactlyOnce, NoOrder, Stream};
use crate::compile::ir::{node_spec, BoundKind, CollectionKind, HydroNode, HydroOp};
use crate::location::dynamic::DynLocation;
use crate::trace::{is_mapped, only_first_round, Trace};
use core::marker::PhantomData;
use vstd::prelude::*;

verus! {

/// A value of type `Value` for each of a set of keys of type `Key`.
pub struct KeyedSingleton<Key, Value, Loc, Bound = Unbounded> {
    pub location: Loc,
    /// The plan that yields this keyed singleton.
    pub ir_node: HydroNode,
    /// The entries in a run. A round lists each of its keys once.
    pub trace: Trace<(Key, Value)>,
    pub markers: PhantomData<Bound>,
}

impl<K, V, L: DynLocation, B: Boundedness> KeyedSingleton<K, V, L, B> {
    pub open spec fn kind_spec() -> CollectionKind {
        CollectionKind::KeyedSingleton { bound: B::bound_spec() }
    }

    /// Whether a trace can be that of a keyed singleton at the location.
    pub open spec fn trace_ok(location: L, t: Seq<Seq<(K, V)>>) -> bool {
        &&& t.len() == location.horizon_spec()
        &&& t.len() >= 1
        &&& L::is_top_level_spec() && B::bound_spec() == BoundKind::Bounded ==> only_first_round(t)
        &&& forall|i: int| 0 <= i < t.len() ==> (#[trigger] keys_of(t[i])).no_duplicates()
    }

    /// The plan and the trace fit to the location and to the guarantees.
    pub open spec fn wf(self) -> bool {
        &&& self.ir_node.metadata.location_id == self.location.id_spec()
        &&& self.ir_node.metadata.collection_kind == Self::kind_spec()
        &&& Self::trace_ok(self.location, self.trace@)
    }

    /// Whether this is the keyed singleton that the operation yields at the location.
    pub open spec fn is_built(self, location: L, op: HydroOp) -> bool {
        &&& self.wf()
        &&& self.location == location
        &&& self.ir_node == node_spec(op, location.id_spec(), Self::kind_spec())
    }

    pub fn collection_kind() -> (r: CollectionKind)
        ensures
            r == Self::kind_spec(),
    {
        CollectionKind::KeyedSingleton { bound: B::bound_kind() }
    }

    /// The keyed singleton that the operation yields at the location.
    pub fn new(location: L, op: HydroOp, trace: Trace<(K, V)>) -> (r: Self)
        requires
            Self::trace_ok(location, trace@),
        ensures
            r.is_built(location, op),
            r.trace == trace,
    {
        let ir_node = HydroNode::new(op, location.location_id(), Self::collection_kind());
        KeyedSingleton { location, ir_node, trace, markers: PhantomData }
    }

    /// The entries, in no particular order.
    pub fn entries(self) -> (r: Stream<(K, V), L, B, NoOrder, ExactlyOnce>)
        requires
            self.wf(),
        ensures
            r.is_built(self.location, HydroOp::Cast { inner: Box::new(self.ir_node) }),
            r.trace == self.trace,
    {
        Stream::new(self.location, HydroOp::Cast { inner: Box::new(self.ir_node) }, self.trace)
    }

    /// The keys, in no particular order.
    pub fn keys(self) -> (r: Stream<K, L, B, NoOrder, ExactlyOnce>)
        requires
            self.wf(),
        ensures
            r.wf(),
            r.location == self.location,
            is_map_node(
                r.ir_node,
                self.location.id_spec(),
                Stream::<K, L, B, NoOrder, ExactlyOnce>::kind_spec(),
                "|(k, _)| k"@,
                node_spec(
                    HydroOp::Cast { inner: Box::new(self.ir_node) },
                    self.location.id_spec(),
                    Stream::<(K, V), L, B, NoOrder, ExactlyOnce>::kind_spec(),
                ),
            ),
            forall|i: int|
                0 <= i < r.trace@.len() ==> #[trigger] r.trace@[i] == keys_of(self.trace@[i]),
    {
        let ghost t = self.trace@;
        let key = |e: (K, V)| -> (r: K)
            ensures
                r == e.0,
            { e.0 };
        let r = self.entries().map(Quoted::new("|(k, _)| k", key));
        proof {
            assert forall|i: int| 0 <= i < r.trace@.len() implies #[trigger] r.trace@[i] == keys_of(
                t[i],
            ) by {
                assert(is_mapped(key, t[i], r.trace@[i]));
                assert forall|j: int| 0 <= j < t[i].len() implies r.trace@[i][j] == t[i][j].0 by {
                    assert(key.ensures((t[i][j],), r.trace@[i][j]));
                }
                assert(r.trace@[i] =~= keys_of(t[i]));
            }
        }
        r
    }
}

} // verus!
