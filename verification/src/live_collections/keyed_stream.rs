//! Keyed streams: for each key, a sequence of values that grows while the program runs.
use super::boundedness::{Bounded, Boundedness, Unbounded};
use super::keyed_singleton::KeyedSingleton;
use super::quoted::Quoted;
use super::stream::{
    ExactlyOnce, NoOrder, Retries, Stream, StreamOrdering, TotalOrder, WeakerOrderingThan,
};
use crate::compile::ir::{node_spec, BoundKind, CollectionKind, DebugExpr, HydroNode, HydroOp};
use crate::datum::Datum;
use crate::location::dynamic::DynLocation;
use crate::location::tick::Tick;
use crate::trace::stateful::{fresh, law_fresh_occurs_once};
use crate::trace::{is_mapped, only_first_round, Trace};
use core::marker::PhantomData;
use vstd::prelude::*;
use vstd::string::StringExecFns;

verus! {

/// Streaming elements of type `Value`, grouped by a key of type `Key`.
///
/// The guarantees about order and repetitions are about the values of one key; the keys
/// themselves have no order.
pub struct KeyedStream<
    Key,
    Value,
    Loc,
    Bound = Unbounded,
    Order = TotalOrder,
    Retry = ExactlyOnce,
> {
    pub location: Loc,
    /// The plan that yields this keyed stream.
    pub ir_node: HydroNode,
    /// The entries that arrive in a run, round by round.
    pub trace: Trace<(Key, Value)>,
    pub markers: PhantomData<(Bound, Order, Retry)>,
}

/// The keys of a list of entries, in order.
pub open spec fn keys_of<K, V>(s: Seq<(K, V)>) -> Seq<K> {
    s.map_values(|e: (K, V)| e.0)
}

/// Whether each entry keeps its key and has a value that `f` makes of the old one.
pub open spec fn is_value_mapped<K, V, U, F: Fn(V) -> U>(
    f: F,
    s: Seq<(K, V)>,
    r: Seq<(K, U)>,
) -> bool {
    &&& r.len() == s.len()
    &&& forall|j: int|
        0 <= j < s.len() ==> (#[trigger] r[j]).0 == s[j].0 && f.ensures((s[j].1,), r[j].1)
}

impl<K, V, L: DynLocation, B: Boundedness, O: StreamOrdering, R: Retries> KeyedStream<
    K,
    V,
    L,
    B,
    O,
    R,
> {
    pub open spec fn kind_spec() -> CollectionKind {
        CollectionKind::KeyedStream {
            bound: B::bound_spec(),
            value_order: O::ordering_spec(),
            value_retry: R::retries_spec(),
        }
    }

    /// Whether a trace can be that of such a keyed stream at the location.
    pub open spec fn trace_ok(location: L, t: Seq<Seq<(K, V)>>) -> bool {
        &&& t.len() == location.horizon_spec()
        &&& t.len() >= 1
        &&& L::is_top_level_spec() && B::bound_spec() == BoundKind::Bounded ==> only_first_round(t)
    }

    /// The plan and the trace fit to the location and to the guarantees.
    pub open spec fn wf(self) -> bool {
        &&& self.ir_node.metadata.location_id == self.location.id_spec()
        &&& self.ir_node.metadata.collection_kind == Self::kind_spec()
        &&& Self::trace_ok(self.location, self.trace@)
    }

    /// Whether this is the keyed stream that the operation yields at the location.
    pub open spec fn is_built(self, location: L, op: HydroOp) -> bool {
        &&& self.wf()
        &&& self.location == location
        &&& self.ir_node == node_spec(op, location.id_spec(), Self::kind_spec())
    }

    pub fn collection_kind() -> (r: CollectionKind)
        ensures
            r == Self::kind_spec(),
    {
        CollectionKind::KeyedStream {
            bound: B::bound_kind(),
            value_order: O::ordering_kind(),
            value_retry: R::retries_kind(),
        }
    }

    /// The keyed stream that the operation yields at the location.
    pub fn new(location: L, op: HydroOp, trace: Trace<(K, V)>) -> (r: Self)
        requires
            Self::trace_ok(location, trace@),
        ensures
            r.is_built(location, op),
            r.trace == trace,
    {
        let ir_node = HydroNode::new(op, location.location_id(), Self::collection_kind());
        KeyedStream { location, ir_node, trace, markers: PhantomData }
    }

    /// Flattens the keyed stream into a stream of its entries, in no particular order.
    pub fn entries(self) -> (r: Stream<(K, V), L, B, NoOrder, R>)
        requires
            self.wf(),
        ensures
            r.is_built(self.location, HydroOp::Cast { inner: Box::new(self.ir_node) }),
            r.trace == self.trace,
    {
        Stream::new(self.location, HydroOp::Cast { inner: Box::new(self.ir_node) }, self.trace)
    }

    /// Applies `f` to each value. The keys stay as they are.
    pub fn map<U, F: Fn(V) -> U>(self, f: Quoted<F>) -> (r: KeyedStream<K, U, L, B, O, R>)
        requires
            self.wf(),
            forall|i: int, j: int|
                0 <= i < self.trace@.len() && 0 <= j < self.trace@[i].len() ==> f.value.requires(
                    ((#[trigger] self.trace@[i][j]).1,),
                ),
        ensures
            r.wf(),
            r.location == self.location,
            r.ir_node.metadata.tag is None,
            r.ir_node.op matches HydroOp::MapEach { f: g, input } && g.code@ == on_values(
                f.code.code@,
            ) && *input == self.ir_node,
            forall|i: int|
                0 <= i < r.trace@.len() ==> is_value_mapped(
                    f.value,
                    self.trace@[i],
                    #[trigger] r.trace@[i],
                ),
    {
        let ghost t = self.trace@;
        let g = &f.value;
        let ghost accepts = |v: V| f.value.requires((v,));
        let h = |e: (K, V)| -> (r: (K, U))
            requires
                accepts(e.1),
            ensures
                r.0 == e.0,
                (*g).ensures((e.1,), r.1),
            { (e.0, g(e.1)) };
        let trace = self.trace.map(&h);
        proof {
            assert forall|i: int| 0 <= i < trace@.len() implies is_value_mapped(
                f.value,
                t[i],
                #[trigger] trace@[i],
            ) by {
                assert(is_mapped(h, t[i], trace@[i]));
                assert forall|j: int| 0 <= j < t[i].len() implies (#[trigger] trace@[i][j]).0
                    == t[i][j].0 && f.value.ensures((t[i][j].1,), trace@[i][j].1) by {
                    assert(h.ensures((t[i][j],), trace@[i][j]));
                }
            }
            assert forall|i: int| 0 <= i < trace@.len() implies (#[trigger] trace@[i]).len()
                == t[i].len() by {
                assert(is_value_mapped(f.value, t[i], trace@[i]));
            }
        }
        let mut code: String = "{ let orig = ".to_owned();
        code.append(f.code.code.as_str());
        code.append("; move |(k, v)| (k, orig(v)) }");
        KeyedStream::new(
            self.location,
            HydroOp::MapEach { f: DebugExpr { code }, input: Box::new(self.ir_node) },
            trace,
        )
    }

    /// Weakens the ordering guarantee to `O2`. The entries stay as they are.
    pub fn weaken_ordering<O2: WeakerOrderingThan<O>>(self) -> (r: KeyedStream<K, V, L, B, O2, R>)
        requires
            self.wf(),
        ensures
            r.wf(),
            r.location == self.location,
            r.trace == self.trace,
            if O::ordering_spec() == O2::ordering_spec() {
                r.ir_node == self.ir_node
            } else {
                r.is_built(self.location, HydroOp::Cast { inner: Box::new(self.ir_node) })
            },
    {
        proof {
            O2::is_weaker();
        }
        if O::ordering_kind() == O2::ordering_kind() {
            KeyedStream {
                location: self.location,
                ir_node: self.ir_node,
                trace: self.trace,
                markers: PhantomData,
            }
        } else {
            KeyedStream::new(
                self.location,
                HydroOp::Cast { inner: Box::new(self.ir_node) },
                self.trace,
            )
        }
    }
}

/// The code that applies the given code to the value of an entry.
pub open spec fn on_values(code: Seq<char>) -> Seq<char> {
    "{ let orig = "@ + code + "; move |(k, v)| (k, orig(v)) }"@
}

impl<K: Datum, V, L: DynLocation, O: StreamOrdering, R: Retries> KeyedStream<
    K,
    V,
    Tick<L>,
    Bounded,
    O,
    R,
> {
    /// The keys that occur in each tick, each with a unit value. The values are ignored, so
    /// neither their order nor repetitions matter.
    pub fn fold_units(self) -> (r: KeyedSingleton<K, (), Tick<L>, Bounded>)
        requires
            self.wf(),
        ensures
            r.wf(),
            r.location == self.location,
            r.ir_node.metadata.tag is None,
            r.ir_node.op matches HydroOp::FoldKeyed { init, acc, input } && init.code@ == "|| ()"@
                && acc.code@ == "|_, _| {}"@ && *input == self.ir_node,
            forall|i: int|
                0 <= i < r.trace@.len() ==> #[trigger] keys_of(r.trace@[i]) == fresh(
                    keys_of(self.trace@[i]),
                    Seq::empty(),
                ),
    {
        let ghost t = self.trace@;
        let key = |e: (K, V)| -> (r: K)
            ensures
                r == e.0,
            { e.0 };
        let keys = self.trace.map(&key);
        let ghost ks = keys@;
        let distinct = keys.unique(false);
        let ghost ds = distinct@;
        let unit = |k: K| -> (r: (K, ()))
            ensures
                r.0 == k,
            { (k, ()) };
        let trace = distinct.map(&unit);
        proof {
            assert forall|i: int| 0 <= i < trace@.len() implies #[trigger] keys_of(trace@[i])
                == fresh(keys_of(t[i]), Seq::empty()) by {
                assert(is_mapped(key, t[i], ks[i]));
                assert forall|j: int| 0 <= j < ks[i].len() implies ks[i][j] == t[i][j].0 by {
                    assert(key.ensures((t[i][j],), ks[i][j]));
                }
                assert(ks[i] =~= keys_of(t[i]));
                assert(ds[i] == fresh(ks[i], Seq::empty()));
                assert(is_mapped(unit, ds[i], trace@[i]));
                assert forall|j: int| 0 <= j < ds[i].len() implies trace@[i][j].0 == ds[i][j] by {
                    assert(unit.ensures((ds[i][j],), trace@[i][j]));
                }
                assert(keys_of(trace@[i]) =~= ds[i]);
            }
            assert forall|i: int| 0 <= i < trace@.len() implies (#[trigger] keys_of(
                trace@[i],
            )).no_duplicates() by {
                law_fresh_occurs_once(keys_of(t[i]), Seq::empty());
            }
        }
        KeyedSingleton::new(
            self.location,
            HydroOp::FoldKeyed {
                init: DebugExpr { code: "|| ()".to_owned() },
                acc: DebugExpr { code: "|_, _| {}".to_owned() },
                input: Box::new(self.ir_node),
            },
            trace,
        )
    }
}

/// The keys of entries stay in order, one for each entry.
pub proof fn law_keys_of<K, V>(s: Seq<(K, V)>)
    ensures
        keys_of(s).len() == s.len(),
        forall|i: int| 0 <= i < s.len() ==> #[trigger] keys_of(s)[i] == s[i].0,
{
}

/// Mapping the values of entries with a closure that computes a function leaves the keys and the
/// order as they are.
pub proof fn law_map_values<K, V, U, F: Fn(V) -> U>(
    f: F,
    g: spec_fn(V) -> U,
    s: Seq<(K, V)>,
    r: Seq<(K, U)>,
)
    requires
        forall|x: V, y: U| #[trigger] f.ensures((x,), y) ==> y == g(x),
        is_value_mapped(f, s, r),
    ensures
        r == s.map_values(|e: (K, V)| (e.0, g(e.1))),
{
    assert forall|j: int| 0 <= j < s.len() implies #[trigger] r[j] == (s[j].0, g(s[j].1)) by {
        assert(f.ensures((s[j].1,), r[j].1));
    }
    assert(r =~= s.map_values(|e: (K, V)| (e.0, g(e.1))));
}

} // verus!
