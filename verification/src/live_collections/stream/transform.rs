//! Operators that work on the elements of one stream.
use super::markers::{
    AtLeastOnce, ExactlyOnce, NoOrder, Retries, StreamOrdering, TotalOrder, WeakerOrderingThan,
    WeakerRetryThan,
};
use super::laws::law_unique_over_time;
use super::Stream;
use crate::compile::ir::{BoundKind, HydroOp, StreamOrder, StreamRetry};
use crate::datum::{Datum, Dup};
use crate::live_collections::boundedness::{Bounded, Boundedness, Unbounded};
use crate::live_collections::quoted::Quoted;
use crate::location::dynamic::DynLocation;
use crate::nondet::NonDet;
use crate::trace::choice::shuffled;
use crate::trace::stateful::{fresh, law_fresh_occurs_once};
use crate::trace::{
    before, fits, is_filter_mapped, is_filtered, is_flat_mapped, is_mapped, memory,
};
use core::marker::PhantomData;
use vstd::prelude::*;

verus! {

impl<T, L: DynLocation, B: Boundedness, O: StreamOrdering, R: Retries> Stream<T, L, B, O, R> {
    /// Produces a stream based on invoking `f` on each element.
    pub fn map<U, F: Fn(T) -> U>(self, f: Quoted<F>) -> (r: Stream<U, L, B, O, R>)
        requires
            self.wf(),
            forall|i: int, j: int|
                0 <= i < self.trace@.len() && 0 <= j < self.trace@[i].len() ==> f.value.requires(
                    (#[trigger] self.trace@[i][j],),
                ),
        ensures
            r.is_built(
                self.location,
                HydroOp::MapEach { f: f.code, input: Box::new(self.ir_node) },
            ),
            forall|i: int|
                0 <= i < r.trace@.len() ==> is_mapped(
                    f.value,
                    self.trace@[i],
                    #[trigger] r.trace@[i],
                ),
    {
        let trace = self.trace.map(&f.value);
        Stream::new(
            self.location,
            HydroOp::MapEach { f: f.code, input: Box::new(self.ir_node) },
            trace,
        )
    }

    /// Produces the items that `f` gives for each element, one by one, in the order of the
    /// elements.
    pub fn flat_map_ordered<U, F: Fn(T) -> Vec<U>>(self, f: Quoted<F>) -> (r: Stream<
        U,
        L,
        B,
        O,
        R,
    >)
        requires
            self.wf(),
            forall|i: int, j: int|
                0 <= i < self.trace@.len() && 0 <= j < self.trace@[i].len() ==> f.value.requires(
                    (#[trigger] self.trace@[i][j],),
                ),
        ensures
            r.is_built(
                self.location,
                HydroOp::FlatMap { f: f.code, input: Box::new(self.ir_node) },
            ),
            forall|i: int|
                0 <= i < r.trace@.len() ==> is_flat_mapped(
                    f.value,
                    self.trace@[i],
                    #[trigger] r.trace@[i],
                ),
    {
        let trace = self.trace.flat_map(&f.value);
        Stream::new(
            self.location,
            HydroOp::FlatMap { f: f.code, input: Box::new(self.ir_node) },
            trace,
        )
    }

    /// Like [`Stream::flat_map_ordered`], but the items of an element may come in any
    /// order.
    pub fn flat_map_unordered<U, F: Fn(T) -> Vec<U>>(self, f: Quoted<F>) -> (r: Stream<
        U,
        L,
        B,
        NoOrder,
        R,
    >)
        requires
            self.wf(),
            forall|i: int, j: int|
                0 <= i < self.trace@.len() && 0 <= j < self.trace@[i].len() ==> f.value.requires(
                    (#[trigger] self.trace@[i][j],),
                ),
        ensures
            r.is_built(
                self.location,
                HydroOp::FlatMap { f: f.code, input: Box::new(self.ir_node) },
            ),
            forall|i: int|
                0 <= i < r.trace@.len() ==> is_flat_mapped(
                    f.value,
                    self.trace@[i],
                    #[trigger] r.trace@[i],
                ),
    {
        let trace = self.trace.flat_map(&f.value);
        Stream::new(
            self.location,
            HydroOp::FlatMap { f: f.code, input: Box::new(self.ir_node) },
            trace,
        )
    }

    /// Keeps only the elements that satisfy `f`, in their order.
    pub fn filter<F: Fn(&T) -> bool>(self, f: Quoted<F>) -> (r: Self)
        requires
            self.wf(),
            forall|i: int, j: int|
                0 <= i < self.trace@.len() && 0 <= j < self.trace@[i].len() ==> f.value.requires(
                    (&#[trigger] self.trace@[i][j],),
                ),
        ensures
            r.is_built(
                self.location,
                HydroOp::Filter { f: f.code, input: Box::new(self.ir_node) },
            ),
            forall|i: int|
                0 <= i < r.trace@.len() ==> is_filtered(
                    f.value,
                    self.trace@[i],
                    #[trigger] r.trace@[i],
                ),
    {
        let trace = self.trace.filter(&f.value);
        Stream::new(
            self.location,
            HydroOp::Filter { f: f.code, input: Box::new(self.ir_node) },
            trace,
        )
    }

    /// Yields only the values that `f` gives for the elements.
    pub fn filter_map<U, F: Fn(T) -> Option<U>>(self, f: Quoted<F>) -> (r: Stream<U, L, B, O, R>)
        requires
            self.wf(),
            forall|i: int, j: int|
                0 <= i < self.trace@.len() && 0 <= j < self.trace@[i].len() ==> f.value.requires(
                    (#[trigger] self.trace@[i][j],),
                ),
        ensures
            r.is_built(
                self.location,
                HydroOp::FilterMap { f: f.code, input: Box::new(self.ir_node) },
            ),
            forall|i: int|
                0 <= i < r.trace@.len() ==> is_filter_mapped(
                    f.value,
                    self.trace@[i],
                    #[trigger] r.trace@[i],
                ),
    {
        let trace = self.trace.filter_map(&f.value);
        Stream::new(
            self.location,
            HydroOp::FilterMap { f: f.code, input: Box::new(self.ir_node) },
            trace,
        )
    }

    /// Calls `f` on each element without modifying the stream.
    pub fn inspect<F: Fn(&T)>(self, f: Quoted<F>) -> (r: Self)
        requires
            self.wf(),
            forall|i: int, j: int|
                0 <= i < self.trace@.len() && 0 <= j < self.trace@[i].len() ==> f.value.requires(
                    (&#[trigger] self.trace@[i][j],),
                ),
        ensures
            r.is_built(
                self.location,
                HydroOp::Inspect { f: f.code, input: Box::new(self.ir_node) },
            ),
            r.trace == self.trace,
    {
        self.trace.inspect(&f.value);
        Stream::new(
            self.location,
            HydroOp::Inspect { f: f.code, input: Box::new(self.ir_node) },
            self.trace,
        )
    }

    /// Filters out duplicate occurrences: the output contains each value once. Outside of
    /// ticks, this remembers all earlier elements.
    pub fn unique(self) -> (r: Stream<T, L, B, O, ExactlyOnce>) where T: Datum
        requires
            self.wf(),
        ensures
            r.is_built(self.location, HydroOp::Unique { input: Box::new(self.ir_node) }),
            forall|i: int|
                0 <= i < r.trace@.len() ==> #[trigger] r.trace@[i] == fresh(
                    self.trace@[i],
                    memory(self.trace@, i, L::is_top_level_spec()),
                ),
            L::is_top_level_spec() ==> r.trace@.flatten().no_duplicates(),
            L::is_top_level_spec() ==> forall|i: int, x: T|
                0 <= i <= r.trace@.len() ==> (#[trigger] r.trace@.take(i).flatten().contains(x)
                    <==> self.trace@.take(i).flatten().contains(x)),
            !L::is_top_level_spec() ==> forall|i: int|
                0 <= i < r.trace@.len() ==> (#[trigger] r.trace@[i]).no_duplicates(),
            !L::is_top_level_spec() ==> forall|i: int, x: T|
                0 <= i < r.trace@.len() ==> (#[trigger] r.trace@[i].contains(x)
                    <==> self.trace@[i].contains(x)),
    {
        let trace = self.trace.unique(L::is_top_level());
        proof {
            if L::is_top_level_spec() {
                law_unique_over_time(self.trace@, trace@);
            } else {
                assert forall|i: int| 0 <= i < trace@.len() implies (
                #[trigger] trace@[i]).no_duplicates() && forall|x: T| #[trigger]
                    trace@[i].contains(x) <==> self.trace@[i].contains(x) by {
                    law_fresh_occurs_once(self.trace@[i], Seq::empty());
                }
            }
        }
        Stream::new(self.location, HydroOp::Unique { input: Box::new(self.ir_node) }, trace)
    }

    /// Casts the stream to a type with a different ordering guarantee.
    ///
    /// A weaker guarantee can always be given. Where the elements had no order, the choices
    /// decide in which order the elements of each round come.
    pub fn assume_ordering<O2: StreamOrdering>(self, nondet: NonDet) -> (r: Stream<T, L, B, O2, R>)
        requires
            self.wf(),
            O::ordering_spec() != O2::ordering_spec() && O2::ordering_spec()
                == StreamOrder::TotalOrder ==> fits(self.trace@),
        ensures
            r.wf(),
            r.location == self.location,
            if O::ordering_spec() == O2::ordering_spec() {
                r.ir_node == self.ir_node && r.trace == self.trace
            } else if O2::ordering_spec() == StreamOrder::NoOrder {
                r.is_built(self.location, HydroOp::Cast { inner: Box::new(self.ir_node) })
                    && r.trace == self.trace
            } else {
                &&& r.is_built(
                    self.location,
                    HydroOp::ObserveNonDet { inner: Box::new(self.ir_node), trusted: false },
                )
                &&& forall|i: int|
                    0 <= i < r.trace@.len() ==> #[trigger] r.trace@[i] == shuffled(
                        self.trace@[i],
                        nondet@,
                        before(self.trace@, i).len() as int,
                    )
            },
    {
        if O::ordering_kind() == O2::ordering_kind() {
            Stream {
                location: self.location,
                ir_node: self.ir_node,
                trace: self.trace,
                markers: PhantomData,
            }
        } else if O2::ordering_kind() == StreamOrder::NoOrder {
            Stream::new(
                self.location,
                HydroOp::Cast { inner: Box::new(self.ir_node) },
                self.trace,
            )
        } else {
            let ghost t = self.trace@;
            let trace = self.trace.shuffle(&nondet);
            proof {
                assert forall|i: int| 0 <= i < trace@.len() implies (#[trigger] trace@[i]).len()
                    == t[i].len() by {
                    crate::trace::choice::law_shuffle_keeps_elements(
                        t[i],
                        nondet@,
                        before(t, i).len() as int,
                    );
                }
            }
            Stream::new(
                self.location,
                HydroOp::ObserveNonDet { inner: Box::new(self.ir_node), trusted: false },
                trace,
            )
        }
    }

    /// Like [`Stream::assume_ordering`], where the order cannot be observed.
    pub fn assume_ordering_trusted<O2: StreamOrdering>(self) -> (r: Stream<T, L, B, O2, R>)
        requires
            self.wf(),
        ensures
            r.wf(),
            r.location == self.location,
            r.trace == self.trace,
            if O::ordering_spec() == O2::ordering_spec() {
                r.ir_node == self.ir_node
            } else if O2::ordering_spec() == StreamOrder::NoOrder {
                r.is_built(self.location, HydroOp::Cast { inner: Box::new(self.ir_node) })
            } else {
                r.is_built(
                    self.location,
                    HydroOp::ObserveNonDet { inner: Box::new(self.ir_node), trusted: true },
                )
            },
    {
        if O::ordering_kind() == O2::ordering_kind() {
            Stream {
                location: self.location,
                ir_node: self.ir_node,
                trace: self.trace,
                markers: PhantomData,
            }
        } else if O2::ordering_kind() == StreamOrder::NoOrder {
            Stream::new(
                self.location,
                HydroOp::Cast { inner: Box::new(self.ir_node) },
                self.trace,
            )
        } else {
            Stream::new(
                self.location,
                HydroOp::ObserveNonDet { inner: Box::new(self.ir_node), trusted: true },
                self.trace,
            )
        }
    }

    /// Like [`Stream::assume_ordering_trusted`], but only for a bounded stream, whose
    /// intermediate states are not revealed; else like [`Stream::assume_ordering`].
    pub fn assume_ordering_trusted_bounded<O2: StreamOrdering>(self, nondet: NonDet) -> (r: Stream<
        T,
        L,
        B,
        O2,
        R,
    >)
        requires
            self.wf(),
            B::bound_spec() == BoundKind::Unbounded && O::ordering_spec() != O2::ordering_spec()
                && O2::ordering_spec() == StreamOrder::TotalOrder ==> fits(self.trace@),
        ensures
            r.wf(),
            r.location == self.location,
            O::ordering_spec() == O2::ordering_spec() ==> r.ir_node == self.ir_node && r.trace
                == self.trace,
            O::ordering_spec() != O2::ordering_spec() && O2::ordering_spec()
                == StreamOrder::NoOrder ==> r.is_built(
                self.location,
                HydroOp::Cast { inner: Box::new(self.ir_node) },
            ) && r.trace == self.trace,
            O::ordering_spec() != O2::ordering_spec() && O2::ordering_spec()
                == StreamOrder::TotalOrder ==> r.is_built(
                self.location,
                HydroOp::ObserveNonDet {
                    inner: Box::new(self.ir_node),
                    trusted: B::bound_spec() == BoundKind::Bounded,
                },
            ),
            O::ordering_spec() != O2::ordering_spec() && O2::ordering_spec()
                == StreamOrder::TotalOrder ==> forall|i: int|
                0 <= i < r.trace@.len() ==> #[trigger] r.trace@[i] == (if B::bound_spec()
                    == BoundKind::Bounded {
                    self.trace@[i]
                } else {
                    shuffled(self.trace@[i], nondet@, before(self.trace@, i).len() as int)
                }),
    {
        match B::bound_kind() {
            BoundKind::Bounded => self.assume_ordering_trusted(),
            BoundKind::Unbounded => self.assume_ordering(nondet),
        }
    }

    /// Weakens the ordering guarantee to `O2`. The elements stay as they are.
    pub fn weaken_ordering<O2: WeakerOrderingThan<O>>(self) -> (r: Stream<T, L, B, O2, R>)
        requires
            self.wf(),
        ensures
            r.wf(),
            r.location == self.location,
            r.trace == self.trace,
            if O::ordering_spec() == O2::ordering_spec() {
                r.ir_node == self.ir_node
            } else {
                r.is_built(self.location, HydroOp::Cast { inner: Box::new(self.ir_node) })
            },
    {
        proof {
            O2::is_weaker();
        }
        self.assume_ordering::<O2>(NonDet::none())
    }

    /// Weakens the ordering guarantee to [`NoOrder`].
    pub fn weakest_ordering(self) -> (r: Stream<T, L, B, NoOrder, R>)
        requires
            self.wf(),
        ensures
            r.wf(),
            r.location == self.location,
            r.trace == self.trace,
            if O::ordering_spec() == StreamOrder::NoOrder {
                r.ir_node == self.ir_node
            } else {
                r.is_built(self.location, HydroOp::Cast { inner: Box::new(self.ir_node) })
            },
    {
        self.weaken_ordering::<NoOrder>()
    }

    /// Casts the stream to a type with a different retry guarantee. The trace of a stream
    /// already tells each repetition, so it stays as it is.
    pub fn assume_retries<R2: Retries>(self, nondet: NonDet) -> (r: Stream<T, L, B, O, R2>)
        requires
            self.wf(),
        ensures
            r.wf(),
            r.location == self.location,
            r.trace == self.trace,
            if R::retries_spec() == R2::retries_spec() {
                r.ir_node == self.ir_node
            } else if R2::retries_spec() == StreamRetry::AtLeastOnce {
                r.is_built(self.location, HydroOp::Cast { inner: Box::new(self.ir_node) })
            } else {
                r.is_built(
                    self.location,
                    HydroOp::ObserveNonDet { inner: Box::new(self.ir_node), trusted: false },
                )
            },
    {
        if R::retries_kind() == R2::retries_kind() {
            Stream {
                location: self.location,
                ir_node: self.ir_node,
                trace: self.trace,
                markers: PhantomData,
            }
        } else if R2::retries_kind() == StreamRetry::AtLeastOnce {
            Stream::new(
                self.location,
                HydroOp::Cast { inner: Box::new(self.ir_node) },
                self.trace,
            )
        } else {
            Stream::new(
                self.location,
                HydroOp::ObserveNonDet { inner: Box::new(self.ir_node), trusted: false },
                self.trace,
            )
        }
    }

    /// Like [`Stream::assume_retries`], where repetitions cannot be observed.
    pub fn assume_retries_trusted<R2: Retries>(self) -> (r: Stream<T, L, B, O, R2>)
        requires
            self.wf(),
        ensures
            r.wf(),
            r.location == self.location,
            r.trace == self.trace,
            if R::retries_spec() == R2::retries_spec() {
                r.ir_node == self.ir_node
            } else if R2::retries_spec() == StreamRetry::AtLeastOnce {
                r.is_built(self.location, HydroOp::Cast { inner: Box::new(self.ir_node) })
            } else {
                r.is_built(
                    self.location,
                    HydroOp::ObserveNonDet { inner: Box::new(self.ir_node), trusted: true },
                )
            },
    {
        if R::retries_kind() == R2::retries_kind() {
            Stream {
                location: self.location,
                ir_node: self.ir_node,
                trace: self.trace,
                markers: PhantomData,
            }
        } else if R2::retries_kind() == StreamRetry::AtLeastOnce {
            Stream::new(
                self.location,
                HydroOp::Cast { inner: Box::new(self.ir_node) },
                self.trace,
            )
        } else {
            Stream::new(
                self.location,
                HydroOp::ObserveNonDet { inner: Box::new(self.ir_node), trusted: true },
                self.trace,
            )
        }
    }

    /// Weakens the retry guarantee to `R2`. The elements stay as they are.
    pub fn weaken_retries<R2: WeakerRetryThan<R>>(self) -> (r: Stream<T, L, B, O, R2>)
        requires
            self.wf(),
        ensures
            r.wf(),
            r.location == self.location,
            r.trace == self.trace,
            if R::retries_spec() == R2::retries_spec() {
                r.ir_node == self.ir_node
            } else {
                r.is_built(self.location, HydroOp::Cast { inner: Box::new(self.ir_node) })
            },
    {
        proof {
            R2::is_weaker();
        }
        self.assume_retries::<R2>(NonDet::none())
    }

    /// Weakens the retry guarantee to [`AtLeastOnce`].
    pub fn weakest_retries(self) -> (r: Stream<T, L, B, O, AtLeastOnce>)
        requires
            self.wf(),
        ensures
            r.wf(),
            r.location == self.location,
            r.trace == self.trace,
            if R::retries_spec() == StreamRetry::AtLeastOnce {
                r.ir_node == self.ir_node
            } else {
                r.is_built(self.location, HydroOp::Cast { inner: Box::new(self.ir_node) })
            },
    {
        self.weaken_retries::<AtLeastOnce>()
    }
}

impl<U, L: DynLocation, B: Boundedness, O: StreamOrdering, R: Retries> Stream<
    Vec<U>,
    L,
    B,
    O,
    R,
> {
    /// Produces the items of each element, one by one.
    pub fn flatten_ordered(self) -> (r: Stream<U, L, B, O, R>)
        requires
            self.wf(),
        ensures
            r.wf(),
            r.location == self.location,
            r.ir_node.metadata.tag is None,
            r.ir_node.op matches HydroOp::FlatMap { f, input } && f.code@ == "|d| d"@ && *input
                == self.ir_node,
            forall|i: int|
                0 <= i < r.trace@.len() ==> #[trigger] r.trace@[i] == items_of(self.trace@[i]),
    {
        let f = |d: Vec<U>| -> (r: Vec<U>)
            ensures
                r == d,
            { d };
        let ghost t = self.trace@;
        let r = self.flat_map_ordered(Quoted::new("|d| d", f));
        proof {
            assert forall|i: int| 0 <= i < r.trace@.len() implies #[trigger] r.trace@[i]
                == items_of(t[i]) by {
                lemma_flatten(f, t[i], r.trace@[i]);
            }
        }
        r
    }

    /// Like [`Stream::flatten_ordered`], but the items of an element may come in any order.
    pub fn flatten_unordered(self) -> (r: Stream<U, L, B, NoOrder, R>)
        requires
            self.wf(),
        ensures
            r.wf(),
            r.location == self.location,
            r.ir_node.metadata.tag is None,
            r.ir_node.op matches HydroOp::FlatMap { f, input } && f.code@ == "|d| d"@ && *input
                == self.ir_node,
            forall|i: int|
                0 <= i < r.trace@.len() ==> #[trigger] r.trace@[i] == items_of(self.trace@[i]),
    {
        let f = |d: Vec<U>| -> (r: Vec<U>)
            ensures
                r == d,
            { d };
        let ghost t = self.trace@;
        let r = self.flat_map_unordered(Quoted::new("|d| d", f));
        proof {
            assert forall|i: int| 0 <= i < r.trace@.len() implies #[trigger] r.trace@[i]
                == items_of(t[i]) by {
                lemma_flatten(f, t[i], r.trace@[i]);
            }
        }
        r
    }
}

/// The items of all lists, in order.
pub open spec fn items_of<U>(s: Seq<Vec<U>>) -> Seq<U>
    decreases s.len(),
{
    if s.len() == 0 {
        Seq::empty()
    } else {
        items_of(s.drop_last()) + s.last()@
    }
}

/// Listing the items of each list as they are gives all items in order.
pub proof fn lemma_flatten<U, F: Fn(Vec<U>) -> Vec<U>>(f: F, s: Seq<Vec<U>>, r: Seq<U>)
    requires
        forall|d: Vec<U>, e: Vec<U>| #[trigger] f.ensures((d,), e) ==> e == d,
        is_flat_mapped(f, s, r),
    ensures
        r == items_of(s),
    decreases s.len(),
{
    if s.len() > 0 {
        let n = r.len() - s.last()@.len();
        lemma_flatten(f, s.drop_last(), r.take(n));
        assert(r =~= r.take(n) + r.skip(n));
    } else {
        assert(r =~= items_of(s));
    }
}

impl<T, L: DynLocation, O: StreamOrdering, R: Retries> Stream<T, L, Bounded, O, R> {
    /// A bounded stream is also an unbounded one.
    pub fn into_unbounded(self) -> (r: Stream<T, L, Unbounded, O, R>)
        requires
            self.wf(),
        ensures
            r.is_built(self.location, HydroOp::Cast { inner: Box::new(self.ir_node) }),
            r.trace == self.trace,
    {
        Stream::new(self.location, HydroOp::Cast { inner: Box::new(self.ir_node) }, self.trace)
    }
}

impl<'t, T: Dup, L: DynLocation, B: Boundedness, O: StreamOrdering, R: Retries> Stream<
    &'t T,
    L,
    B,
    O,
    R,
> {
    /// Copies each element of the stream.
    pub fn cloned(self) -> (r: Stream<T, L, B, O, R>)
        requires
            self.wf(),
        ensures
            r.wf(),
            r.location == self.location,
            r.ir_node.metadata.tag is None,
            r.ir_node.op matches HydroOp::MapEach { f, input } && f.code@ == "|d| d.clone()"@
                && *input == self.ir_node,
            forall|i: int|
                0 <= i < r.trace@.len() ==> #[trigger] r.trace@[i] == self.trace@[i].map_values(
                    |d: &T| *d,
                ),
    {
        let f = |d: &'t T| -> (r: T)
            ensures
                r == *d,
            { d.dup() };
        let ghost t = self.trace@;
        let r = self.map(Quoted::new("|d| d.clone()", f));
        proof {
            assert forall|i: int| 0 <= i < r.trace@.len() implies #[trigger] r.trace@[i]
                == t[i].map_values(|d: &T| *d) by {
                assert(is_mapped(f, t[i], r.trace@[i]));
                assert forall|j: int| 0 <= j < t[i].len() implies r.trace@[i][j] == *t[i][j] by {
                    assert(f.ensures((t[i][j],), r.trace@[i][j]));
                }
                assert(r.trace@[i] =~= t[i].map_values(|d: &T| *d));
            }
        }
        r
    }
}

/// The items of lists are those of the first list, then those of the second one, and so on.
pub proof fn law_items<U>(s: Seq<Vec<U>>)
    ensures
        items_of(s) == s.map_values(|v: Vec<U>| v@).flatten(),
    decreases s.len(),
{
    let lists = s.map_values(|v: Vec<U>| v@);
    if s.len() > 0 {
        let init = s.drop_last();
        law_items(init);
        assert(lists =~= init.map_values(|v: Vec<U>| v@).push(s.last()@));
        crate::trace::laws::lemma_flatten_next(init.map_values(|v: Vec<U>| v@), s.last()@);
    } else {
        assert(lists =~= Seq::empty());
    }
}

} // verus!
