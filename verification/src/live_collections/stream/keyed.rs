//! Grouping the elements of a stream by keys.
use super::combine::lemma_no_pairs;
use super::markers::{ExactlyOnce, NoOrder, Retries, StreamOrdering, TotalOrder};
use super::Stream;
use crate::compile::ir::{
    is_at, node_spec, BoundKind, CollectionKind, HydroNode, HydroOp, StreamOrder, StreamRetry,
};
use crate::datum::{Datum, Dup};
use crate::live_collections::boundedness::{Bounded, Boundedness};
use crate::live_collections::keyed_singleton::KeyedSingleton;
use crate::live_collections::keyed_stream::{keys_of, KeyedStream};
use crate::live_collections::optional::is_map_node;
use crate::location::dynamic::{same_location, DynLocation, LocationId};
use crate::location::tick::Tick;
use crate::nondet::NonDet;
use crate::trace::combine::{new_pairs, pairs};
use crate::trace::{memory, only_first_round};
use crate::trace::stateful::fresh;
use vstd::prelude::*;

verus! {

impl<K, V, L: DynLocation, B: Boundedness, O: StreamOrdering, R: Retries> Stream<
    (K, V),
    L,
    B,
    O,
    R,
> {
    /// Groups the second element of each tuple by the first one.
    pub fn into_keyed(self) -> (r: KeyedStream<K, V, L, B, O, R>)
        requires
            self.wf(),
        ensures
            r.is_built(self.location, HydroOp::Cast { inner: Box::new(self.ir_node) }),
            r.trace == self.trace,
    {
        KeyedStream::new(
            self.location,
            HydroOp::Cast { inner: Box::new(self.ir_node) },
            self.trace,
        )
    }
}

/// Whether the node lists the distinct keys of the entries that the source yields.
pub open spec fn is_keys_plan<L: DynLocation, O: StreamOrdering, R: Retries>(
    node: HydroNode,
    source: HydroNode,
    tick: Tick<L>,
) -> bool {
    &&& is_at(node, tick.id_spec(), keys_kind(BoundKind::Bounded))
    &&& node.op matches HydroOp::MapEach { f, input } && f.code@ == "|(k, _)| k"@ && is_at(
        *input,
        tick.id_spec(),
        keys_kind(BoundKind::Bounded),
    ) && (input.op matches HydroOp::Cast { inner } && is_at(
        *inner,
        tick.id_spec(),
        CollectionKind::KeyedSingleton { bound: BoundKind::Bounded },
    ) && (inner.op matches HydroOp::FoldKeyed { init, acc, input } && init.code@ == "|| ()"@
        && acc.code@ == "|_, _| {}"@ && *input == node_spec(
        HydroOp::Cast { inner: Box::new(source) },
        tick.id_spec(),
        CollectionKind::KeyedStream {
            bound: BoundKind::Bounded,
            value_order: O::ordering_spec(),
            value_retry: R::retries_spec(),
        },
    )))
}

/// What a list of keys is: each occurs once, in no particular order.
pub open spec fn keys_kind(bound: BoundKind) -> CollectionKind {
    CollectionKind::Stream {
        bound,
        order: StreamOrder::NoOrder,
        retry: StreamRetry::ExactlyOnce,
    }
}

impl<K: Datum, V, L: DynLocation, O: StreamOrdering, R: Retries> Stream<
    (K, V),
    Tick<L>,
    Bounded,
    O,
    R,
> {
    /// The unique keys of each tick.
    pub fn keys(self) -> (r: Stream<K, Tick<L>, Bounded, NoOrder, ExactlyOnce>)
        requires
            self.wf(),
        ensures
            r.wf(),
            r.location == self.location,
            is_keys_plan::<L, O, R>(r.ir_node, self.ir_node, self.location),
            forall|i: int|
                0 <= i < r.trace@.len() ==> #[trigger] r.trace@[i] == fresh(
                    keys_of(self.trace@[i]),
                    Seq::empty(),
                ),
    {
        let ghost t = self.trace@;
        let units = self.into_keyed().fold_units();
        let ghost u = units.trace@;
        let r = units.keys();
        proof {
            assert forall|i: int| 0 <= i < r.trace@.len() implies #[trigger] r.trace@[i] == fresh(
                keys_of(t[i]),
                Seq::empty(),
            ) by {
                assert(r.trace@[i] == keys_of(u[i]));
            }
        }
        r
    }
}

/// Whether the node lists the keys of the keyed singleton, so that their order and
/// repetitions cannot be observed.
pub open spec fn is_trusted_keys<R: Retries>(
    node: HydroNode,
    location_id: LocationId,
    keys: HydroNode,
) -> bool {
    &&& is_at(
        node,
        location_id,
        CollectionKind::Stream {
            bound: BoundKind::Bounded,
            order: StreamOrder::TotalOrder,
            retry: R::retries_spec(),
        },
    )
    &&& node.op matches HydroOp::ObserveNonDet { inner, trusted } && trusted && (
    if R::retries_spec() == StreamRetry::ExactlyOnce {
        lists_keys(*inner, location_id, keys)
    } else {
        is_at(
            *inner,
            location_id,
            CollectionKind::Stream {
                bound: BoundKind::Bounded,
                order: StreamOrder::NoOrder,
                retry: R::retries_spec(),
            },
        ) && (inner.op matches HydroOp::Cast { inner } && lists_keys(*inner, location_id, keys))
    })
}

/// Whether the node lists the keys of the keyed singleton.
pub open spec fn lists_keys(node: HydroNode, location_id: LocationId, keys: HydroNode) -> bool {
    is_map_node(
        node,
        location_id,
        keys_kind(BoundKind::Bounded),
        "|(k, _)| k"@,
        node_spec(
            HydroOp::Cast { inner: Box::new(keys) },
            location_id,
            keys_kind(BoundKind::Bounded),
        ),
    )
}

impl<T: Dup, L: DynLocation, O: StreamOrdering, R: Retries> Stream<T, L, Bounded, O, R> {
    /// A keyed stream with the same keys as `keys`, whose values are, for *each* key, the
    /// elements of this stream.
    pub fn repeat_with_keys<K: Dup, V2>(self, keys: KeyedSingleton<K, V2, L, Bounded>) -> (r:
        KeyedStream<K, T, L, Bounded, O, R>)
        requires
            self.wf(),
            keys.wf(),
            same_location(keys.location, self.location),
        ensures
            r.wf(),
            r.location == keys.location,
            r.ir_node.metadata.tag is None,
            r.ir_node.op matches HydroOp::Cast { inner } && is_at(
                *inner,
                keys.location.id_spec(),
                Self::kind_spec(),
            ) && (inner.op matches HydroOp::CrossProduct { left, right } && is_trusted_keys::<R>(
                *left,
                keys.location.id_spec(),
                keys.ir_node,
            ) && *right == self.ir_node),
            forall|i: int|
                0 <= i < r.trace@.len() ==> #[trigger] r.trace@[i] == pairs(
                    keys_of(keys.trace@[i]),
                    self.trace@[i],
                ),
    {
        let ghost t = self.trace@;
        let ghost k = keys.trace@;
        let names = keys.keys().assume_retries::<R>(NonDet::none()).assume_ordering_trusted::<
            TotalOrder,
        >();
        let ghost n = names.trace@;
        let r = names.nested_loop::<T, O, O>(self).into_keyed();
        proof {
            assert forall|i: int| 0 <= i < r.trace@.len() implies #[trigger] r.trace@[i] == pairs(
                keys_of(k[i]),
                t[i],
            ) by {
                assert(n[i] == keys_of(k[i]));
                assert(r.trace@[i] == new_pairs(
                    memory(n, i, L::is_top_level_spec()),
                    n[i],
                    memory(t, i, L::is_top_level_spec()),
                    t[i],
                ));
                if L::is_top_level_spec() {
                    lemma_complete_at_first(n, t, i);
                } else {
                    assert(Seq::empty() + t[i] =~= t[i]);
                    assert(pairs(Seq::<K>::empty(), t[i]) =~= Seq::empty());
                    assert(Seq::empty() + pairs(n[i], t[i]) =~= pairs(n[i], t[i]));
                }
            }
        }
        r
    }
}

proof fn lemma_complete_at_first<K, T>(n: Seq<Seq<K>>, t: Seq<Seq<T>>, i: int)
    requires
        only_first_round(n),
        only_first_round(t),
        n.len() == t.len(),
        0 <= i < n.len(),
    ensures
        new_pairs(memory(n, i, true), n[i], memory(t, i, true), t[i]) == pairs(n[i], t[i]),
{
    if i == 0 {
        assert(memory(n, 0, true) =~= Seq::empty());
        assert(memory(t, 0, true) + t[0] =~= t[0]);
        assert(pairs(memory(n, 0, true), t[0]) =~= Seq::empty());
        assert(Seq::empty() + pairs(n[0], t[0]) =~= pairs(n[0], t[0]));
    } else {
        assert(n[i].len() == 0 && t[i].len() == 0);
        lemma_no_pairs(memory(n, i, true), n[i], memory(t, i, true), t[i]);
        assert(pairs(n[i], t[i]) =~= Seq::empty());
    }
}

} // verus!
