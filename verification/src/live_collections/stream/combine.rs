//! Operators that combine a stream with another collection.
use super::markers::{
    ExactlyOnce, MinOrder, MinRetries, NoOrder, Retries, StreamOrdering, TotalOrder,
};
use super::laws::{law_enumerate_over_time, law_join_is_complete, law_product_is_complete};
use super::Stream;
use crate::compile::ir::{is_at, BoundKind, HydroOp};
use crate::datum::{Datum, Dup};
use crate::live_collections::boundedness::{Bounded, Boundedness, Unbounded};
use crate::live_collections::optional::{is_absence_node, is_map_node, maps_option, Optional};
use crate::live_collections::quoted::Quoted;
use crate::live_collections::singleton::is_mapped_trace;
use crate::location::dynamic::{same_location, DynLocation};
use crate::location::tick::NoTick;
use crate::nondet::NonDet;
use crate::trace::choice::{current, is_interleaving, law_merge_keeps_streams, merged};
use crate::trace::combine::{
    gated, joined_pairs, new_matches, new_pairs, pairs, tag_all, without, without_keys,
};
use crate::trace::laws::{law_before_concatenates, law_without, law_without_keys};
use crate::trace::order::{is_permutation, is_sorted, Ranked};
use crate::trace::stateful::{fresh, law_fresh_occurs_once};
use crate::trace::{before, flat, is_mapped, memory};
use vstd::prelude::*;

verus! {

/// The last value of a mapped trace is what the last value maps to.
pub proof fn lemma_current_mapped<T, U>(
    t: Seq<Seq<T>>,
    r: Seq<Seq<U>>,
    rel: spec_fn(T, U) -> bool,
    i: int,
)
    requires
        is_mapped_trace(t, r, rel),
        0 <= i < t.len(),
        t[0].len() > 0,
    ensures
        before(r, i + 1).len() == before(t, i + 1).len(),
        before(t, i + 1).len() > 0,
        rel(current(t, i), current(r, i)),
    decreases i,
{
    reveal_with_fuel(before, 2);
    if i > 0 {
        lemma_current_mapped(t, r, rel, i - 1);
    }
    assert(r[i].len() == t[i].len());
    if t[i].len() > 0 {
        let j = t[i].len() - 1;
        assert(rel(t[i][j], r[i][j]));
        assert(current(t, i) == t[i][j]);
        assert(current(r, i) == r[i][j]);
    } else {
        assert(before(t, i + 1) =~= before(t, i));
        assert(before(r, i + 1) =~= before(r, i));
    }
}

impl<T, L: DynLocation, B: Boundedness, O: StreamOrdering, R: Retries> Stream<T, L, B, O, R> {
    /// Maps each element to a tuple of it and the value of `other`. If `other` has no value,
    /// nothing is produced.
    pub fn cross_singleton<O2: Dup>(self, other: Optional<O2, L, Bounded>) -> (r: Stream<
        (T, O2),
        L,
        B,
        O,
        R,
    >)
        requires
            self.wf(),
            other.wf(),
            same_location(self.location, other.location),
        ensures
            r.is_built(
                self.location,
                HydroOp::CrossSingleton {
                    left: Box::new(self.ir_node),
                    right: Box::new(other.ir_node),
                },
            ),
            forall|i: int|
                0 <= i < r.trace@.len() ==> #[trigger] r.trace@[i] == tag_all(
                    self.trace@[i],
                    current(other.trace@, i),
                ),
    {
        let values = other.trace.currents();
        let trace = self.trace.tag(&values);
        Stream::new(
            self.location,
            HydroOp::CrossSingleton {
                left: Box::new(self.ir_node),
                right: Box::new(other.ir_node),
            },
            trace,
        )
    }

    /// Passes this stream through if `signal` has a value, otherwise the output is empty.
    pub fn filter_if_some<U>(self, signal: Optional<U, L, Bounded>) -> (r: Stream<T, L, B, O, R>)
        requires
            self.wf(),
            signal.wf(),
            same_location(self.location, signal.location),
        ensures
            r.wf(),
            r.location == self.location,
            r.ir_node.metadata.tag is None,
            r.ir_node.op matches HydroOp::MapEach { f, input } && {
                &&& f.code@ == "|(d, _signal)| d"@
                &&& is_at(*input, self.location.id_spec(), Self::kind_spec())
                &&& input.op matches HydroOp::CrossSingleton { left, right } && *left
                    == self.ir_node && is_map_node(
                    *right,
                    signal.location.id_spec(),
                    Optional::<(), L, Bounded>::kind_spec(),
                    "|_u| ()"@,
                    signal.ir_node,
                )
            },
            forall|i: int|
                0 <= i < r.trace@.len() ==> #[trigger] r.trace@[i] == gated(
                    self.trace@[i],
                    current(signal.trace@, i) is Some,
                ),
    {
        let ghost t = self.trace@;
        let ghost s = signal.trace@;
        let unit = |_u: U| -> (r: ()) { () };
        let on = signal.map(Quoted::new("|_u| ()", unit));
        let ghost o = on.trace@;
        let crossed = self.cross_singleton(on);
        let ghost c = crossed.trace@;
        let first = |p: (T, ())| -> (r: T)
            ensures
                r == p.0,
            { p.0 };
        let r = crossed.map(Quoted::new("|(d, _signal)| d", first));
        proof {
            assert forall|i: int| 0 <= i < r.trace@.len() implies #[trigger] r.trace@[i] == gated(
                t[i],
                current(s, i) is Some,
            ) by {
                lemma_current_mapped(
                    s,
                    o,
                    |v: Option<U>, w: Option<()>| maps_option(unit, v, w),
                    i,
                );
                assert(is_mapped(first, c[i], r.trace@[i]));
                assert(c[i] == tag_all(t[i], current(o, i)));
                assert forall|j: int| 0 <= j < c[i].len() implies r.trace@[i][j] == c[i][j].0 by {
                    assert(first.ensures((c[i][j],), r.trace@[i][j]));
                }
                assert(r.trace@[i] =~= gated(t[i], current(s, i) is Some));
            }
        }
        r
    }

    /// Passes this stream through if `other` has no value, otherwise the output is empty.
    pub fn filter_if_none<U>(self, other: Optional<U, L, Bounded>) -> (r: Stream<T, L, B, O, R>)
        requires
            self.wf(),
            other.wf(),
            same_location(self.location, other.location),
        ensures
            r.wf(),
            r.location == self.location,
            r.ir_node.metadata.tag is None,
            r.ir_node.op matches HydroOp::MapEach { f, input } && {
                &&& f.code@ == "|(d, _signal)| d"@
                &&& is_at(*input, self.location.id_spec(), Self::kind_spec())
                &&& input.op matches HydroOp::CrossSingleton { left, right } && *left
                    == self.ir_node && is_at(
                    *right,
                    other.location.id_spec(),
                    Optional::<(), L, Bounded>::kind_spec(),
                ) && (right.op matches HydroOp::MapEach { f, input } && f.code@ == "|_u| ()"@
                    && is_absence_node(
                    *input,
                    other.location.id_spec(),
                    BoundKind::Bounded,
                    other.ir_node,
                ))
            },
            forall|i: int|
                0 <= i < r.trace@.len() ==> #[trigger] r.trace@[i] == gated(
                    self.trace@[i],
                    current(other.trace@, i) is None,
                ),
    {
        let ghost t = self.trace@;
        let ghost s = other.trace@;
        let off = other.absence();
        let ghost p = off.trace@;
        let r = self.filter_if_some(off);
        proof {
            assert forall|i: int| 0 <= i < r.trace@.len() implies #[trigger] r.trace@[i] == gated(
                t[i],
                current(s, i) is None,
            ) by {
                lemma_current_mapped(
                    s,
                    p,
                    |v: Option<U>, w: Option<Option<()>>| w is Some <==> v is None,
                    i,
                );
            }
        }
        r
    }

    /// Forms the cross-product of the items in the two streams: all pairs, in no particular
    /// order. Outside of ticks, earlier elements are remembered.
    pub fn cross_product<T2: Dup, O2: StreamOrdering>(
        self,
        other: Stream<T2, L, B, O2, R>,
    ) -> (r: Stream<(T, T2), L, B, NoOrder, R>) where T: Dup
        requires
            self.wf(),
            other.wf(),
            same_location(self.location, other.location),
        ensures
            r.is_built(
                self.location,
                HydroOp::CrossProduct {
                    left: Box::new(self.ir_node),
                    right: Box::new(other.ir_node),
                },
            ),
            forall|i: int|
                0 <= i < r.trace@.len() ==> #[trigger] r.trace@[i] == new_pairs(
                    memory(self.trace@, i, L::is_top_level_spec()),
                    self.trace@[i],
                    memory(other.trace@, i, L::is_top_level_spec()),
                    other.trace@[i],
                ),
            L::is_top_level_spec() ==> forall|i: int|
                0 <= i <= r.trace@.len() ==> is_permutation(
                    (#[trigger] r.trace@.take(i)).flatten(),
                    pairs(self.trace@.take(i).flatten(), other.trace@.take(i).flatten()),
                ),
            !L::is_top_level_spec() ==> forall|i: int|
                0 <= i < r.trace@.len() ==> #[trigger] r.trace@[i] == pairs(
                    self.trace@[i],
                    other.trace@[i],
                ),
    {
        let trace = self.trace.product(&other.trace, L::is_top_level());
        proof {
            lemma_pairs_told(self.trace@, other.trace@, trace@, L::is_top_level_spec());
            if L::is_top_level_spec() && B::bound_spec() == BoundKind::Bounded {
                assert forall|i: int| 0 < i < trace@.len() implies (#[trigger] trace@[i]).len()
                    == 0 by {
                    lemma_no_pairs(
                        memory(self.trace@, i, true),
                        self.trace@[i],
                        memory(other.trace@, i, true),
                        other.trace@[i],
                    );
                }
            }
        }
        Stream::new(
            self.location,
            HydroOp::CrossProduct {
                left: Box::new(self.ir_node),
                right: Box::new(other.ir_node),
            },
            trace,
        )
    }

    /// Outputs everything in this stream that is *not* contained in the `other` stream, which
    /// is complete before anything is produced.
    pub fn filter_not_in<O2: StreamOrdering>(self, other: Stream<T, L, Bounded, O2, R>) -> (r: Self)
        where T: Datum
        requires
            self.wf(),
            other.wf(),
            same_location(self.location, other.location),
        ensures
            r.is_built(
                self.location,
                HydroOp::Difference { pos: Box::new(self.ir_node), neg: Box::new(other.ir_node) },
            ),
            forall|i: int|
                0 <= i < r.trace@.len() ==> #[trigger] r.trace@[i] == without(
                    self.trace@[i],
                    memory(other.trace@, i, L::is_top_level_spec()) + other.trace@[i],
                ),
            L::is_top_level_spec() ==> forall|i: int, x: T|
                0 <= i < r.trace@.len() ==> #[trigger] r.trace@[i].to_multiset().count(x) == (
                if other.trace@.take(i + 1).flatten().contains(x) {
                    0
                } else {
                    self.trace@[i].to_multiset().count(x)
                }),
            !L::is_top_level_spec() ==> forall|i: int, x: T|
                0 <= i < r.trace@.len() ==> #[trigger] r.trace@[i].to_multiset().count(x) == (
                if other.trace@[i].contains(x) {
                    0
                } else {
                    self.trace@[i].to_multiset().count(x)
                }),
    {
        let trace = self.trace.difference(&other.trace, L::is_top_level());
        proof {
            assert forall|i: int| 0 <= i < trace@.len() implies #[trigger] trace@[i] == without(
                self.trace@[i],
                if L::is_top_level_spec() {
                    other.trace@.take(i + 1).flatten()
                } else {
                    other.trace@[i]
                },
            ) by {
                law_before_concatenates(other.trace@, i + 1);
                assert(memory(other.trace@, i, false) + other.trace@[i] =~= other.trace@[i]);
            }
            assert forall|i: int, x: T|
                0 <= i < trace@.len() implies #[trigger] trace@[i].to_multiset().count(x) == (
            if (if L::is_top_level_spec() {
                other.trace@.take(i + 1).flatten()
            } else {
                other.trace@[i]
            }).contains(x) {
                0
            } else {
                self.trace@[i].to_multiset().count(x)
            }) by {
                law_without(
                    self.trace@[i],
                    if L::is_top_level_spec() {
                        other.trace@.take(i + 1).flatten()
                    } else {
                        other.trace@[i]
                    },
                );
            }
        }
        Stream::new(
            self.location,
            HydroOp::Difference { pos: Box::new(self.ir_node), neg: Box::new(other.ir_node) },
            trace,
        )
    }
}

/// The pairs of a run, told by the elements of both sides.
proof fn lemma_pairs_told<T, U>(a: Seq<Seq<T>>, b: Seq<Seq<U>>, r: Seq<Seq<(T, U)>>, keep: bool)
    requires
        r.len() == a.len() == b.len(),
        forall|i: int|
            0 <= i < r.len() ==> #[trigger] r[i] == new_pairs(
                memory(a, i, keep),
                a[i],
                memory(b, i, keep),
                b[i],
            ),
    ensures
        keep ==> forall|i: int|
            0 <= i <= r.len() ==> is_permutation(
                (#[trigger] r.take(i)).flatten(),
                pairs(a.take(i).flatten(), b.take(i).flatten()),
            ),
        !keep ==> forall|i: int| 0 <= i < r.len() ==> #[trigger] r[i] == pairs(a[i], b[i]),
{
    if keep {
        law_product_is_complete(a, b, r);
    } else {
        assert forall|i: int| 0 <= i < r.len() implies #[trigger] r[i] == pairs(a[i], b[i]) by {
            assert(pairs(Seq::<T>::empty(), b[i]) =~= Seq::empty());
            assert(Seq::<U>::empty() + b[i] =~= b[i]);
            assert(Seq::<(T, U)>::empty() + pairs(a[i], b[i]) =~= pairs(a[i], b[i]));
        }
    }
}

/// The matches of a run, told by the entries of both sides.
proof fn lemma_matches_told<K, V, W>(
    a: Seq<Seq<(K, V)>>,
    b: Seq<Seq<(K, W)>>,
    r: Seq<Seq<(K, (V, W))>>,
    keep: bool,
)
    requires
        r.len() == a.len() == b.len(),
        forall|i: int|
            0 <= i < r.len() ==> #[trigger] r[i] == new_matches(
                memory(a, i, keep),
                a[i],
                memory(b, i, keep),
                b[i],
            ),
    ensures
        keep ==> forall|i: int|
            0 <= i <= r.len() ==> is_permutation(
                (#[trigger] r.take(i)).flatten(),
                joined_pairs(a.take(i).flatten(), b.take(i).flatten()),
            ),
        !keep ==> forall|i: int| 0 <= i < r.len() ==> #[trigger] r[i] == joined_pairs(a[i], b[i]),
{
    if keep {
        law_join_is_complete(a, b, r);
    } else {
        assert forall|i: int| 0 <= i < r.len() implies #[trigger] r[i] == joined_pairs(
            a[i],
            b[i],
        ) by {
            assert(joined_pairs(Seq::<(K, V)>::empty(), b[i]) =~= Seq::empty());
            assert(Seq::<(K, W)>::empty() + b[i] =~= b[i]);
            assert(Seq::<(K, (V, W))>::empty() + joined_pairs(a[i], b[i]) =~= joined_pairs(
                a[i],
                b[i],
            ));
        }
    }
}

/// Without new elements there are no new pairs.
pub proof fn lemma_no_pairs<T, U>(seen_a: Seq<T>, a: Seq<T>, seen_b: Seq<U>, b: Seq<U>)
    requires
        a.len() == 0,
        b.len() == 0,
    ensures
        new_pairs(seen_a, a, seen_b, b).len() == 0,
    decreases seen_a.len(),
{
    if seen_a.len() > 0 {
        lemma_no_pairs(seen_a.drop_last(), a, seen_b, b);
    }
}

/// Without new entries there are no new matches.
proof fn lemma_no_matches<K, V, W>(
    seen_a: Seq<(K, V)>,
    a: Seq<(K, V)>,
    seen_b: Seq<(K, W)>,
    b: Seq<(K, W)>,
)
    requires
        a.len() == 0,
        b.len() == 0,
    ensures
        new_matches(seen_a, a, seen_b, b).len() == 0,
    decreases seen_a.len(),
{
    if seen_a.len() > 0 {
        lemma_no_matches(seen_a.drop_last(), a, seen_b, b);
    }
}

impl<T, L: DynLocation, B: Boundedness> Stream<T, L, B, TotalOrder, ExactlyOnce> {
    /// Maps each element `x` of the stream to `(i, x)`, where `i` is the index of the element.
    pub fn enumerate(self) -> (r: Stream<(usize, T), L, B, TotalOrder, ExactlyOnce>)
        requires
            self.wf(),
            flat(self.trace@).len() <= usize::MAX,
        ensures
            r.is_built(self.location, HydroOp::Enumerate { input: Box::new(self.ir_node) }),
            forall|i: int|
                0 <= i < r.trace@.len() ==> #[trigger] r.trace@[i]
                    == crate::trace::stateful::numbered(
                    self.trace@[i],
                    memory(self.trace@, i, L::is_top_level_spec()).len(),
                ),
            L::is_top_level_spec() ==> r.trace@.flatten().len() == self.trace@.flatten().len()
                && forall|j: int|
                0 <= j < r.trace@.flatten().len() ==> #[trigger] r.trace@.flatten()[j] == (
                    j as usize,
                    self.trace@.flatten()[j],
                ),
            !L::is_top_level_spec() ==> forall|i: int, j: int|
                0 <= i < r.trace@.len() && 0 <= j < self.trace@[i].len()
                    ==> #[trigger] r.trace@[i][j] == (j as usize, self.trace@[i][j]),
    {
        let trace = self.trace.enumerate(L::is_top_level());
        proof {
            if L::is_top_level_spec() {
                law_enumerate_over_time(self.trace@, trace@);
            } else {
                assert forall|i: int, j: int|
                    0 <= i < trace@.len() && 0 <= j
                        < self.trace@[i].len() implies #[trigger] trace@[i][j] == (
                    j as usize,
                    self.trace@[i][j],
                ) by {
                    assert(trace@[i] == crate::trace::stateful::numbered(self.trace@[i], 0));
                }
            }
        }
        Stream::new(self.location, HydroOp::Enumerate { input: Box::new(self.ir_node) }, trace)
    }
}

impl<T, L: NoTick, O: StreamOrdering, R: Retries> Stream<T, L, Unbounded, O, R> {
    /// Interleaves the elements of the two streams, in no particular order.
    pub fn interleave<O2: StreamOrdering, R2: Retries>(
        self,
        other: Stream<T, L, Unbounded, O2, R2>,
    ) -> (r: Stream<T, L, Unbounded, NoOrder, <R as MinRetries<R2>>::Min>) where R: MinRetries<R2>
        requires
            self.wf(),
            other.wf(),
            same_location(self.location, other.location),
        ensures
            r.is_built(
                self.location,
                HydroOp::Chain { first: Box::new(self.ir_node), second: Box::new(other.ir_node) },
            ),
            forall|i: int|
                0 <= i < r.trace@.len() ==> #[trigger] r.trace@[i] == self.trace@[i]
                    + other.trace@[i],
    {
        let trace = self.trace.chain(other.trace);
        Stream::new(
            self.location,
            HydroOp::Chain { first: Box::new(self.ir_node), second: Box::new(other.ir_node) },
            trace,
        )
    }
}

impl<T, L: NoTick, R: Retries> Stream<T, L, Unbounded, TotalOrder, R> {
    /// Combines the elements of the two streams, preserving the relative order of elements
    /// within each. The choices decide how they are interleaved.
    pub fn merge_ordered<R2: Retries>(
        self,
        other: Stream<T, L, Unbounded, TotalOrder, R2>,
        nondet: NonDet,
    ) -> (r: Stream<T, L, Unbounded, TotalOrder, <R as MinRetries<R2>>::Min>) where
        R: MinRetries<R2>,
        T: Dup,

        requires
            self.wf(),
            other.wf(),
            same_location(self.location, other.location),
            flat(self.trace@).len() + flat(other.trace@).len() <= usize::MAX,
        ensures
            r.is_built(
                self.location,
                HydroOp::Chain { first: Box::new(self.ir_node), second: Box::new(other.ir_node) },
            ),
            forall|i: int|
                0 <= i < r.trace@.len() ==> #[trigger] r.trace@[i] == merged(
                    self.trace@[i],
                    other.trace@[i],
                    nondet@,
                    (before(self.trace@, i).len() + before(other.trace@, i).len()) as int,
                ),
            is_interleaving(flat(self.trace@), flat(other.trace@), flat(r.trace@)),
    {
        let trace = self.trace.merge(&other.trace, &nondet);
        proof {
            law_merge_keeps_streams(self.trace@, other.trace@, trace@, nondet@);
        }
        Stream::new(
            self.location,
            HydroOp::Chain { first: Box::new(self.ir_node), second: Box::new(other.ir_node) },
            trace,
        )
    }
}

impl<T, L: DynLocation, O: StreamOrdering, R: Retries> Stream<T, L, Bounded, O, R> {
    /// Emits the elements in sorted order.
    pub fn sort(self) -> (r: Stream<T, L, Bounded, TotalOrder, R>) where T: Ranked
        requires
            self.wf(),
        ensures
            r.is_built(self.location, HydroOp::Sort { input: Box::new(self.ir_node) }),
            forall|i: int|
                0 <= i < r.trace@.len() ==> is_sorted(#[trigger] r.trace@[i]) && is_permutation(
                    r.trace@[i],
                    self.trace@[i],
                ),
    {
        let trace = self.trace.sort();
        proof {
            assert forall|i: int| 0 <= i < trace@.len() implies (#[trigger] trace@[i]).len()
                == self.trace@[i].len() by {
                vstd::seq_lib::to_multiset_len(trace@[i]);
                vstd::seq_lib::to_multiset_len(self.trace@[i]);
            }
        }
        Stream::new(self.location, HydroOp::Sort { input: Box::new(self.ir_node) }, trace)
    }

    /// First emits the elements of this stream, and then those of the other.
    pub fn chain<O2: StreamOrdering, R2: Retries, B2: Boundedness>(
        self,
        other: Stream<T, L, B2, O2, R2>,
    ) -> (r: Stream<T, L, B2, <O as MinOrder<O2>>::Min, <R as MinRetries<R2>>::Min>) where
        O: MinOrder<O2>,
        R: MinRetries<R2>,

        requires
            self.wf(),
            other.wf(),
            same_location(self.location, other.location),
        ensures
            r.is_built(
                self.location,
                HydroOp::Chain { first: Box::new(self.ir_node), second: Box::new(other.ir_node) },
            ),
            forall|i: int|
                0 <= i < r.trace@.len() ==> #[trigger] r.trace@[i] == self.trace@[i]
                    + other.trace@[i],
    {
        let trace = self.trace.chain(other.trace);
        Stream::new(
            self.location,
            HydroOp::Chain { first: Box::new(self.ir_node), second: Box::new(other.ir_node) },
            trace,
        )
    }

    /// Forms the cross-product in the order of a nested loop, so that the output is ordered
    /// when the inputs are.
    pub fn cross_product_nested_loop<T2: Dup, O2: StreamOrdering + MinOrder<O>>(
        self,
        other: Stream<T2, L, Bounded, O2, R>,
    ) -> (r: Stream<(T, T2), L, Bounded, <O2 as MinOrder<O>>::Min, R>) where T: Dup
        requires
            self.wf(),
            other.wf(),
            same_location(self.location, other.location),
        ensures
            r.is_built(
                self.location,
                HydroOp::CrossProduct {
                    left: Box::new(self.ir_node),
                    right: Box::new(other.ir_node),
                },
            ),
            forall|i: int|
                0 <= i < r.trace@.len() ==> #[trigger] r.trace@[i] == new_pairs(
                    memory(self.trace@, i, L::is_top_level_spec()),
                    self.trace@[i],
                    memory(other.trace@, i, L::is_top_level_spec()),
                    other.trace@[i],
                ),
    {
        self.nested_loop::<T2, O2, <O2 as MinOrder<O>>::Min>(other)
    }

    /// The cross-product in the order of a nested loop, with the ordering guarantee `O3`.
    pub(crate) fn nested_loop<T2: Dup, O2: StreamOrdering, O3: StreamOrdering>(
        self,
        other: Stream<T2, L, Bounded, O2, R>,
    ) -> (r: Stream<(T, T2), L, Bounded, O3, R>) where T: Dup
        requires
            self.wf(),
            other.wf(),
            same_location(self.location, other.location),
        ensures
            r.is_built(
                self.location,
                HydroOp::CrossProduct {
                    left: Box::new(self.ir_node),
                    right: Box::new(other.ir_node),
                },
            ),
            forall|i: int|
                0 <= i < r.trace@.len() ==> #[trigger] r.trace@[i] == new_pairs(
                    memory(self.trace@, i, L::is_top_level_spec()),
                    self.trace@[i],
                    memory(other.trace@, i, L::is_top_level_spec()),
                    other.trace@[i],
                ),
            L::is_top_level_spec() ==> forall|i: int|
                0 <= i <= r.trace@.len() ==> is_permutation(
                    (#[trigger] r.trace@.take(i)).flatten(),
                    pairs(self.trace@.take(i).flatten(), other.trace@.take(i).flatten()),
                ),
            !L::is_top_level_spec() ==> forall|i: int|
                0 <= i < r.trace@.len() ==> #[trigger] r.trace@[i] == pairs(
                    self.trace@[i],
                    other.trace@[i],
                ),
    {
        let trace = self.trace.product(&other.trace, L::is_top_level());
        proof {
            lemma_pairs_told(self.trace@, other.trace@, trace@, L::is_top_level_spec());
            if L::is_top_level_spec() {
                assert forall|i: int| 0 < i < trace@.len() implies (#[trigger] trace@[i]).len()
                    == 0 by {
                    lemma_no_pairs(
                        memory(self.trace@, i, true),
                        self.trace@[i],
                        memory(other.trace@, i, true),
                        other.trace@[i],
                    );
                }
            }
        }
        Stream::new(
            self.location,
            HydroOp::CrossProduct {
                left: Box::new(self.ir_node),
                right: Box::new(other.ir_node),
            },
            trace,
        )
    }
}

impl<K: Datum, V1: Dup, L: DynLocation, B: Boundedness, O: StreamOrdering, R: Retries> Stream<
    (K, V1),
    L,
    B,
    O,
    R,
> {
    /// Given two streams of pairs `(K, V1)` and `(K, V2)`, produces nested pairs
    /// `(K, (V1, V2))` by equi-joining them on the key.
    pub fn join<V2: Dup, O2: StreamOrdering, R2: Retries>(
        self,
        n: Stream<(K, V2), L, B, O2, R2>,
    ) -> (r: Stream<(K, (V1, V2)), L, B, NoOrder, <R as MinRetries<R2>>::Min>) where
        R: MinRetries<R2>,

        requires
            self.wf(),
            n.wf(),
            same_location(self.location, n.location),
        ensures
            r.is_built(
                self.location,
                HydroOp::Join { left: Box::new(self.ir_node), right: Box::new(n.ir_node) },
            ),
            forall|i: int|
                0 <= i < r.trace@.len() ==> #[trigger] r.trace@[i] == new_matches(
                    memory(self.trace@, i, L::is_top_level_spec()),
                    self.trace@[i],
                    memory(n.trace@, i, L::is_top_level_spec()),
                    n.trace@[i],
                ),
            L::is_top_level_spec() ==> forall|i: int|
                0 <= i <= r.trace@.len() ==> is_permutation(
                    (#[trigger] r.trace@.take(i)).flatten(),
                    joined_pairs(self.trace@.take(i).flatten(), n.trace@.take(i).flatten()),
                ),
            !L::is_top_level_spec() ==> forall|i: int|
                0 <= i < r.trace@.len() ==> #[trigger] r.trace@[i] == joined_pairs(
                    self.trace@[i],
                    n.trace@[i],
                ),
    {
        let trace = self.trace.join(&n.trace, L::is_top_level());
        proof {
            lemma_matches_told(self.trace@, n.trace@, trace@, L::is_top_level_spec());
            if L::is_top_level_spec() && B::bound_spec() == BoundKind::Bounded {
                assert forall|i: int| 0 < i < trace@.len() implies (#[trigger] trace@[i]).len()
                    == 0 by {
                    lemma_no_matches(
                        memory(self.trace@, i, true),
                        self.trace@[i],
                        memory(n.trace@, i, true),
                        n.trace@[i],
                    );
                }
            }
        }
        Stream::new(
            self.location,
            HydroOp::Join { left: Box::new(self.ir_node), right: Box::new(n.ir_node) },
            trace,
        )
    }

    /// Given a bounded stream of keys, returns the unique items of this stream whose keys are
    /// not among them.
    pub fn anti_join<O2: StreamOrdering, R2: Retries>(
        self,
        n: Stream<K, L, Bounded, O2, R2>,
    ) -> (r: Stream<(K, V1), L, B, O, R>) where V1: Datum
        requires
            self.wf(),
            n.wf(),
            same_location(self.location, n.location),
        ensures
            r.is_built(
                self.location,
                HydroOp::AntiJoin { pos: Box::new(self.ir_node), neg: Box::new(n.ir_node) },
            ),
            forall|i: int|
                0 <= i < r.trace@.len() ==> #[trigger] r.trace@[i] == fresh(
                    unmatched(self.trace@, n.trace@, L::is_top_level_spec())[i],
                    memory(
                        unmatched(self.trace@, n.trace@, L::is_top_level_spec()),
                        i,
                        L::is_top_level_spec(),
                    ),
                ),
            forall|i: int| 0 <= i < r.trace@.len() ==> (#[trigger] r.trace@[i]).no_duplicates(),
            L::is_top_level_spec() ==> forall|i: int, e: (K, V1)|
                0 <= i < r.trace@.len() ==> (#[trigger] r.trace@[i].contains(e) <==> is_unmatched(
                    self.trace@,
                    n.trace@,
                    i,
                    e,
                ) && forall|k: int|
                    0 <= k < i ==> !#[trigger] is_unmatched(self.trace@, n.trace@, k, e)),
            !L::is_top_level_spec() ==> forall|i: int, e: (K, V1)|
                0 <= i < r.trace@.len() ==> (#[trigger] r.trace@[i].contains(e)
                    <==> self.trace@[i].contains(e) && !n.trace@[i].contains(e.0)),
    {
        let kept = self.trace.difference_keys(&n.trace, L::is_top_level());
        proof {
            assert(kept@ =~= unmatched(self.trace@, n.trace@, L::is_top_level_spec()));
        }
        let trace = kept.unique(L::is_top_level());
        proof {
            let (pos, neg, r) = (self.trace@, n.trace@, trace@);
            assert forall|i: int| 0 <= i < r.len() implies (#[trigger] r[i]).no_duplicates() && (
            L::is_top_level_spec() ==> forall|e: (K, V1)| #[trigger]
                r[i].contains(e) <==> is_unmatched(pos, neg, i, e) && forall|k: int|
                    0 <= k < i ==> !#[trigger] is_unmatched(pos, neg, k, e)) && (
            !L::is_top_level_spec() ==> forall|e: (K, V1)| #[trigger]
                r[i].contains(e) <==> pos[i].contains(e) && !neg[i].contains(e.0)) by {
                if L::is_top_level_spec() {
                    law_anti_join_over_time(pos, neg, r, i);
                } else {
                    law_anti_join_in_ticks(pos, neg, r, i);
                }
            }
        }
        Stream::new(
            self.location,
            HydroOp::AntiJoin { pos: Box::new(self.ir_node), neg: Box::new(n.ir_node) },
            trace,
        )
    }
}

/// In each round, the entries whose keys are not among those known by then.
pub open spec fn unmatched<K, V>(pos: Seq<Seq<(K, V)>>, neg: Seq<Seq<K>>, keep: bool) -> Seq<
    Seq<(K, V)>,
> {
    Seq::new(
        pos.len(),
        |i: int| without_keys(pos[i], memory(neg, i, keep) + neg[i]),
    )
}

/// In a tick, an anti-join yields each entry of the round whose key is not among the keys of the
/// round, once.
pub proof fn law_anti_join_in_ticks<K, V>(
    pos: Seq<Seq<(K, V)>>,
    neg: Seq<Seq<K>>,
    r: Seq<Seq<(K, V)>>,
    i: int,
)
    requires
        pos.len() == neg.len(),
        r.len() == pos.len(),
        0 <= i < pos.len(),
        r[i] == fresh(unmatched(pos, neg, false)[i], memory(unmatched(pos, neg, false), i, false)),
    ensures
        r[i].no_duplicates(),
        forall|e: (K, V)| #[trigger]
            r[i].contains(e) <==> pos[i].contains(e) && !neg[i].contains(e.0),
{
    let kept = unmatched(pos, neg, false)[i];
    let none = Seq::<(K, V)>::empty();
    assert(memory(neg, i, false) + neg[i] =~= neg[i]);
    law_fresh_occurs_once(kept, none);
    law_without_keys(pos[i], neg[i]);
}

/// Outside of ticks, an anti-join yields an entry once, in the first round in which it comes while
/// its key is not among those that have come by then.
pub proof fn law_anti_join_over_time<K, V>(
    pos: Seq<Seq<(K, V)>>,
    neg: Seq<Seq<K>>,
    r: Seq<Seq<(K, V)>>,
    i: int,
)
    requires
        pos.len() == neg.len(),
        r.len() == pos.len(),
        0 <= i < pos.len(),
        r[i] == fresh(unmatched(pos, neg, true)[i], memory(unmatched(pos, neg, true), i, true)),
    ensures
        r[i].no_duplicates(),
        forall|e: (K, V)| #[trigger]
            r[i].contains(e) <==> is_unmatched(pos, neg, i, e) && forall|k: int|
                0 <= k < i ==> !#[trigger] is_unmatched(pos, neg, k, e),
{
    let all = unmatched(pos, neg, true);
    let seen = memory(all, i, true);
    law_fresh_occurs_once(all[i], seen);
    assert forall|e: (K, V)| #[trigger]
        r[i].contains(e) <==> is_unmatched(pos, neg, i, e) && forall|k: int|
            0 <= k < i ==> !#[trigger] is_unmatched(pos, neg, k, e) by {
        lemma_unmatched_round(pos, neg, i, e);
        lemma_unmatched_before(pos, neg, i, e);
    }
}

/// Whether an entry comes in a round while its key is not among those that have come by then.
pub open spec fn is_unmatched<K, V>(
    pos: Seq<Seq<(K, V)>>,
    neg: Seq<Seq<K>>,
    k: int,
    e: (K, V),
) -> bool {
    pos[k].contains(e) && !neg.take(k + 1).flatten().contains(e.0)
}

proof fn lemma_unmatched_round<K, V>(
    pos: Seq<Seq<(K, V)>>,
    neg: Seq<Seq<K>>,
    k: int,
    e: (K, V),
)
    requires
        pos.len() == neg.len(),
        0 <= k < pos.len(),
    ensures
        unmatched(pos, neg, true)[k].contains(e) <==> is_unmatched(pos, neg, k, e),
{
    law_before_concatenates(neg, k + 1);
    assert(memory(neg, k, true) + neg[k] == before(neg, k + 1));
    law_without_keys(pos[k], before(neg, k + 1));
}

proof fn lemma_unmatched_before<K, V>(
    pos: Seq<Seq<(K, V)>>,
    neg: Seq<Seq<K>>,
    i: int,
    e: (K, V),
)
    requires
        pos.len() == neg.len(),
        0 <= i <= pos.len(),
    ensures
        before(unmatched(pos, neg, true), i).contains(e) <==> exists|k: int|
            0 <= k < i && #[trigger] is_unmatched(pos, neg, k, e),
    decreases i,
{
    if i > 0 {
        lemma_unmatched_before(pos, neg, i - 1, e);
        lemma_unmatched_round(pos, neg, i - 1, e);
        let x = before(unmatched(pos, neg, true), i - 1);
        let y = unmatched(pos, neg, true)[i - 1];
        assert((x + y).contains(e) <==> x.contains(e) || y.contains(e)) by {
            if x.contains(e) {
                let j = choose|j: int| 0 <= j < x.len() && x[j] == e;
                assert((x + y)[j] == e);
            }
            if y.contains(e) {
                let j = choose|j: int| 0 <= j < y.len() && y[j] == e;
                assert((x + y)[x.len() + j] == e);
            }
        }
    }
}

} // verus!
