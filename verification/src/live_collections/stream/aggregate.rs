//! Operators that accumulate the elements of a stream.
use super::markers::{ExactlyOnce, Retries, StreamOrdering, TotalOrder};
use super::Stream;
use crate::compile::ir::{
    node_spec, BoundKind, CollectionKind, HydroNode, HydroOp, StreamOrder, StreamRetry,
};
use crate::datum::Dup;
use crate::live_collections::boundedness::Boundedness;
use crate::live_collections::optional::Optional;
use crate::live_collections::quoted::Quoted;
use crate::live_collections::singleton::Singleton;
use crate::location::dynamic::{DynLocation, LocationId};
use crate::nondet::NonDet;
use crate::trace::order::{is_max, is_min, lemma_max_step, lemma_min_step, Ranked};
use crate::trace::stateful::{
    can_fold, can_reduce, can_scan, folds_to, is_fold_run, is_reduce_run, is_running_fold,
    is_running_reduce, is_running_scan, reduce_step, reduces_to, scans_to, states_in,
};
use crate::trace::{before, copy_list, fits, flat, only_first_round, Trace};
use vstd::prelude::*;

verus! {

/// Whether it does not matter in which order two elements are combined.
pub open spec fn is_commutative<A, T, F: Fn(A, T) -> A>(comb: F) -> bool {
    forall|a: A, x: T, y: T, b: A, c: A, d: A, e: A|
        #![trigger comb.ensures((a, x), b), comb.ensures((b, y), c), comb.ensures((a, y), d), comb.ensures((d, x), e)]
        comb.ensures((a, x), b) && comb.ensures((b, y), c) && comb.ensures((a, y), d)
            && comb.ensures((d, x), e) ==> c == e
}

/// Whether it does not matter how often an element is combined.
pub open spec fn is_idempotent<A, T, F: Fn(A, T) -> A>(comb: F) -> bool {
    forall|a: A, x: T, b: A, c: A|
        #![trigger comb.ensures((a, x), b), comb.ensures((b, x), c)]
        comb.ensures((a, x), b) && comb.ensures((b, x), c) ==> c == b
}

/// Whether this is the node of a stream after it was cast to exactly one occurrence of each
/// element and to a total order. A cast that is not needed leaves the node as it is; one that
/// is needed is marked as trusted where it cannot be observed.
pub open spec fn is_made_deterministic(
    node: HydroNode,
    input: HydroNode,
    location_id: LocationId,
    bound: BoundKind,
    order: StreamOrder,
    retry: StreamRetry,
    order_trusted: bool,
    retry_trusted: bool,
) -> bool {
    let once = if retry == StreamRetry::ExactlyOnce {
        input
    } else {
        node_spec(
            HydroOp::ObserveNonDet { inner: Box::new(input), trusted: retry_trusted },
            location_id,
            CollectionKind::Stream { bound, order, retry: StreamRetry::ExactlyOnce },
        )
    };
    node == if order == StreamOrder::TotalOrder {
        once
    } else {
        node_spec(
            HydroOp::ObserveNonDet { inner: Box::new(once), trusted: order_trusted },
            location_id,
            CollectionKind::Stream {
                bound,
                order: StreamOrder::TotalOrder,
                retry: StreamRetry::ExactlyOnce,
            },
        )
    }
}

/// What a fold over a stream yields. Inside a tick: one value per round. Outside: one value
/// if the stream is bounded, else all values on the way.
pub open spec fn is_fold_of<A, T, I: Fn() -> A, F: Fn(A, T) -> A>(
    top_level: bool,
    bound: BoundKind,
    init: I,
    comb: F,
    t: Seq<Seq<T>>,
    r: Seq<Seq<A>>,
) -> bool {
    if !top_level {
        r.len() == t.len() && forall|i: int|
            0 <= i < r.len() ==> (#[trigger] r[i]).len() == 1 && folds_to(init, comb, t[i], r[i][0])
    } else if bound == BoundKind::Bounded {
        r.len() == t.len() && r[0].len() == 1 && only_first_round(r) && folds_to(
            init,
            comb,
            t[0],
            r[0][0],
        )
    } else {
        is_running_fold(init, comb, t, r)
    }
}

/// Whether the combiner accepts all that comes up in a fold over a stream.
pub open spec fn accepts_fold<A, T, I: Fn() -> A, F: Fn(A, T) -> A>(
    top_level: bool,
    bound: BoundKind,
    init: I,
    comb: F,
    t: Seq<Seq<T>>,
) -> bool {
    if top_level && bound == BoundKind::Unbounded {
        can_fold(init, comb, flat(t))
    } else {
        forall|i: int| 0 <= i < t.len() ==> can_fold(init, comb, #[trigger] t[i])
    }
}

/// What reducing a stream yields, in the same way.
pub open spec fn is_reduce_of<T, F: Fn(T, T) -> T>(
    top_level: bool,
    bound: BoundKind,
    f: F,
    t: Seq<Seq<T>>,
    r: Seq<Seq<Option<T>>>,
) -> bool {
    if !top_level {
        r.len() == t.len() && forall|i: int|
            0 <= i < r.len() ==> (#[trigger] r[i]).len() == 1 && reduces_to(f, t[i], r[i][0])
    } else if bound == BoundKind::Bounded {
        r.len() == t.len() && r[0].len() == 1 && only_first_round(r) && reduces_to(
            f,
            t[0],
            r[0][0],
        )
    } else {
        is_running_reduce(f, t, r)
    }
}

/// Whether the combiner accepts all that comes up when a stream is reduced.
pub open spec fn accepts_reduce<T, F: Fn(T, T) -> T>(
    top_level: bool,
    bound: BoundKind,
    f: F,
    t: Seq<Seq<T>>,
) -> bool {
    if top_level && bound == BoundKind::Unbounded {
        can_reduce(f, flat(t))
    } else {
        forall|i: int| 0 <= i < t.len() ==> can_reduce(f, #[trigger] t[i])
    }
}

/// A trace of which only the first round is kept.
fn keep_first<T>(trace: Trace<T>) -> (r: Trace<T>)
    requires
        trace@.len() >= 1,
    ensures
        r@.len() == trace@.len(),
        r@[0] == trace@[0],
        only_first_round(r@),
{
    let ghost t = trace@;
    let mut r: Trace<T> = Trace::new();
    for round in it: trace.rounds
        invariant
            it.seq().len() == t.len(),
            forall|i: int| 0 <= i < t.len() ==> (#[trigger] it.seq()[i])@ == t[i],
            r@.len() == it.index(),
            r@.len() > 0 ==> r@[0] == t[0],
            only_first_round(r@),
    {
        if r.len() == 0 {
            r.push(round);
        } else {
            r.push(Vec::new());
        }
    }
    r
}

impl<T, L: DynLocation, B: Boundedness, O: StreamOrdering, R: Retries> Stream<T, L, B, O, R> {
    /// Combines the elements into a [`Singleton`], by starting with the value of `init` and
    /// then applying `comb` to each element.
    ///
    /// If the elements have no order, `comb` has to be commutative; if they may repeat, it
    /// has to be idempotent.
    pub fn fold<A: Dup, I: Fn() -> A, F: Fn(A, T) -> A>(
        self,
        init: Quoted<I>,
        comb: Quoted<F>,
    ) -> (r: Singleton<A, L, B>)
        requires
            self.wf(),
            O::ordering_spec() == StreamOrder::NoOrder ==> fits(self.trace@),
            accepts_fold(
                L::is_top_level_spec(),
                B::bound_spec(),
                init.value,
                comb.value,
                self.trace@,
            ),
            O::ordering_spec() == StreamOrder::NoOrder ==> is_commutative(comb.value),
            R::retries_spec() == StreamRetry::AtLeastOnce ==> is_idempotent(comb.value),
        ensures
            r.wf(),
            r.location == self.location,
            r.ir_node.metadata.tag is None,
            r.ir_node.op matches HydroOp::Fold { init: i, acc, input } && i == init.code && acc
                == comb.code && is_made_deterministic(
                *input,
                self.ir_node,
                self.location.id_spec(),
                B::bound_spec(),
                O::ordering_spec(),
                R::retries_spec(),
                false,
                false,
            ),
            is_fold_of(
                L::is_top_level_spec(),
                B::bound_spec(),
                init.value,
                comb.value,
                self.trace@,
                r.trace@,
            ),
    {
        let ghost t = self.trace@;
        let ordered: Stream<T, L, B, TotalOrder, ExactlyOnce> = self.assume_retries(
            NonDet::none(),
        ).assume_ordering(NonDet::none());
        let ghost s = ordered.trace@;
        proof {
            if O::ordering_spec() == StreamOrder::NoOrder {
                assert forall|i: int| 0 <= i < t.len() implies #[trigger] s[i] == t[i] by {
                    lemma_no_choices(t[i], before(t, i).len() as int);
                }
            }
            assert(s =~= t);
        }
        let trace = if L::is_top_level() {
            match B::bound_kind() {
                BoundKind::Bounded => keep_first(ordered.trace.fold_each(&init.value, &comb.value)),
                BoundKind::Unbounded => {
                    let running = ordered.trace.fold_running(&init.value, &comb.value);
                    proof {
                        lemma_running_has_first(init.value, comb.value, s, running@);
                    }
                    running
                },
            }
        } else {
            ordered.trace.fold_each(&init.value, &comb.value)
        };
        Singleton::new(
            ordered.location,
            HydroOp::Fold {
                init: init.code,
                acc: comb.code,
                input: Box::new(ordered.ir_node),
            },
            trace,
        )
    }
}

/// Without choices, nothing is reordered.
pub proof fn lemma_no_choices<T>(s: Seq<T>, from: int)
    requires
        from >= 0,
    ensures
        crate::trace::choice::shuffled(s, Seq::empty(), from) == s,
    decreases s.len(),
{
    lemma_pick_no_choices(s, s.len(), from);
    assert(s.take(s.len() as int) =~= s);
}

proof fn lemma_pick_no_choices<T>(s: Seq<T>, n: nat, from: int)
    requires
        n <= s.len(),
        from >= 0,
    ensures
        crate::trace::choice::pick(s, n, Seq::empty(), from).0 == s.take(n as int),
    decreases n,
{
    if n > 0 {
        assert(crate::nondet::choose_spec(Seq::empty(), from, s.len()) == 0) by {
            vstd::arithmetic::div_mod::lemma_small_mod(0, s.len());
        }
        lemma_pick_no_choices(s.remove(0), (n - 1) as nat, from + 1);
        assert(seq![s[0]] + s.remove(0).take(n - 1) =~= s.take(n as int));
    } else {
        assert(s.take(0) =~= Seq::empty());
    }
}

/// A running fold has its initial value in the first round.
proof fn lemma_running_has_first<A, T, I: Fn() -> A, F: Fn(A, T) -> A>(
    init: I,
    comb: F,
    t: Seq<Seq<T>>,
    r: Seq<Seq<A>>,
)
    requires
        is_running_fold(init, comb, t, r),
        t.len() > 0,
    ensures
        r[0].len() > 0,
{
    let states = choose|states: Seq<A>| #[trigger] is_fold_run(init, comb, flat(t), states) && forall|
        i: int,
    |
        0 <= i < t.len() ==> #[trigger] r[i] == states_in(states, t, i);
    crate::trace::lemma_before_grows(t, 1, t.len() as int);
    assert(r[0] == states_in(states, t, 0));
}

/// Reducing starts without a result in the first round.
proof fn lemma_running_reduce_has_first<T, F: Fn(T, T) -> T>(
    f: F,
    t: Seq<Seq<T>>,
    r: Seq<Seq<Option<T>>>,
)
    requires
        is_running_reduce(f, t, r),
        t.len() > 0,
    ensures
        r[0].len() > 0,
{
    let states = choose|states: Seq<Option<T>>| #[trigger] is_reduce_run(f, flat(t), states)
        && forall|i: int| 0 <= i < t.len() ==> #[trigger] r[i] == states_in(states, t, i);
    crate::trace::lemma_before_grows(t, 1, t.len() as int);
    assert(r[0] == states_in(states, t, 0));
}

impl<T: Dup, L: DynLocation, B: Boundedness, O: StreamOrdering, R: Retries> Stream<
    T,
    L,
    B,
    O,
    R,
> {
    /// Combines the elements into an [`Optional`], by starting with the first element and
    /// then applying `comb` to each further one. It is empty until the first element arrives.
    ///
    /// If the elements have no order, `comb` has to be commutative; if they may repeat, it
    /// has to be idempotent.
    pub fn reduce<F: Fn(T, T) -> T>(self, comb: Quoted<F>) -> (r: Optional<T, L, B>)
        requires
            self.wf(),
            O::ordering_spec() == StreamOrder::NoOrder ==> fits(self.trace@),
            accepts_reduce(L::is_top_level_spec(), B::bound_spec(), comb.value, self.trace@),
            O::ordering_spec() == StreamOrder::NoOrder ==> is_commutative(comb.value),
            R::retries_spec() == StreamRetry::AtLeastOnce ==> is_idempotent(comb.value),
        ensures
            r.wf(),
            r.location == self.location,
            r.ir_node.metadata.tag is None,
            r.ir_node.op matches HydroOp::Reduce { f, input } && f == comb.code
                && is_made_deterministic(
                *input,
                self.ir_node,
                self.location.id_spec(),
                B::bound_spec(),
                O::ordering_spec(),
                R::retries_spec(),
                false,
                false,
            ),
            is_reduce_of(
                L::is_top_level_spec(),
                B::bound_spec(),
                comb.value,
                self.trace@,
                r.trace@,
            ),
    {
        let ghost t = self.trace@;
        let ordered: Stream<T, L, B, TotalOrder, ExactlyOnce> = self.assume_retries(
            NonDet::none(),
        ).assume_ordering(NonDet::none());
        let ghost s = ordered.trace@;
        proof {
            if O::ordering_spec() == StreamOrder::NoOrder {
                assert forall|i: int| 0 <= i < t.len() implies #[trigger] s[i] == t[i] by {
                    lemma_no_choices(t[i], before(t, i).len() as int);
                }
            }
            assert(s =~= t);
        }
        let trace = if L::is_top_level() {
            match B::bound_kind() {
                BoundKind::Bounded => keep_first(ordered.trace.reduce_each(&comb.value)),
                BoundKind::Unbounded => {
                    let running = ordered.trace.reduce_running(&comb.value);
                    proof {
                        lemma_running_reduce_has_first(comb.value, s, running@);
                    }
                    running
                },
            }
        } else {
            ordered.trace.reduce_each(&comb.value)
        };
        Optional::new(
            ordered.location,
            HydroOp::Reduce { f: comb.code, input: Box::new(ordered.ir_node) },
            trace,
        )
    }
}

/// Whether each value that is yielded goes with the elements that it accounts for.
pub open spec fn accounts_for<T, A>(
    top_level: bool,
    bound: BoundKind,
    t: Seq<Seq<T>>,
    r: Seq<Seq<A>>,
    rel: spec_fn(Seq<T>, A) -> bool,
) -> bool {
    &&& r.len() == t.len()
    &&& if !top_level {
        forall|i: int| 0 <= i < r.len() ==> (#[trigger] r[i]).len() == 1 && rel(t[i], r[i][0])
    } else if bound == BoundKind::Bounded {
        r[0].len() == 1 && only_first_round(r) && rel(t[0], r[0][0])
    } else {
        &&& forall|i: int|
            0 <= i < r.len() ==> (#[trigger] r[i]).len() == t[i].len() + if i == 0 {
                1int
            } else {
                0
            }
        &&& forall|i: int, j: int|
            0 <= i < r.len() && 0 <= j < r[i].len() ==> rel(
                flat(t).take(crate::trace::stateful::states_from(t, i) + j),
                #[trigger] r[i][j],
            )
    }
}

/// If each step keeps the relation, every result of a reduction has it.
pub proof fn lemma_reduce_accounts<T, F: Fn(T, T) -> T>(
    top_level: bool,
    bound: BoundKind,
    f: F,
    t: Seq<Seq<T>>,
    r: Seq<Seq<Option<T>>>,
    rel: spec_fn(Seq<T>, Option<T>) -> bool,
)
    requires
        t.len() > 0,
        is_reduce_of(top_level, bound, f, t, r),
        rel(Seq::empty(), None),
        forall|s: Seq<T>, m: Option<T>, x: T, n: Option<T>| #[trigger]
            rel(s, m) && #[trigger] reduce_step(f, m, x, n) ==> rel(s.push(x), n),
    ensures
        accounts_for(top_level, bound, t, r, rel),
{
    if !top_level {
        assert forall|i: int| 0 <= i < r.len() implies (#[trigger] r[i]).len() == 1 && rel(
            t[i],
            r[i][0],
        ) by {
            let states = choose|states: Seq<Option<T>>| #[trigger] is_reduce_run(f, t[i], states)
                && states.last() == r[i][0];
            lemma_reduce_run_rel(f, t[i], states, rel, t[i].len() as int);
            assert(t[i].take(t[i].len() as int) =~= t[i]);
        }
    } else if bound == BoundKind::Bounded {
        let states = choose|states: Seq<Option<T>>| #[trigger] is_reduce_run(f, t[0], states)
            && states.last() == r[0][0];
        lemma_reduce_run_rel(f, t[0], states, rel, t[0].len() as int);
        assert(t[0].take(t[0].len() as int) =~= t[0]);
    } else {
        let states = choose|states: Seq<Option<T>>| #[trigger] is_reduce_run(f, flat(t), states)
            && forall|i: int| 0 <= i < t.len() ==> #[trigger] r[i] == states_in(states, t, i);
        assert forall|i: int| 0 <= i < r.len() implies (#[trigger] r[i]).len() == t[i].len()
            + if i == 0 {
            1int
        } else {
            0
        } by {
            reveal_with_fuel(before, 2);
            crate::trace::lemma_before_grows(t, i + 1, t.len() as int);
            assert(r[i] == states_in(states, t, i));
        }
        assert forall|i: int, j: int| 0 <= i < r.len() && 0 <= j < r[i].len() implies rel(
            flat(t).take(crate::trace::stateful::states_from(t, i) + j),
            #[trigger] r[i][j],
        ) by {
            crate::trace::lemma_before_grows(t, i + 1, t.len() as int);
            assert(r[i] == states_in(states, t, i));
            lemma_reduce_run_rel(
                f,
                flat(t),
                states,
                rel,
                crate::trace::stateful::states_from(t, i) + j,
            );
        }
    }
}

proof fn lemma_reduce_run_rel<T, F: Fn(T, T) -> T>(
    f: F,
    s: Seq<T>,
    states: Seq<Option<T>>,
    rel: spec_fn(Seq<T>, Option<T>) -> bool,
    k: int,
)
    requires
        is_reduce_run(f, s, states),
        0 <= k <= s.len(),
        rel(Seq::empty(), None),
        forall|s: Seq<T>, m: Option<T>, x: T, n: Option<T>| #[trigger]
            rel(s, m) && #[trigger] reduce_step(f, m, x, n) ==> rel(s.push(x), n),
    ensures
        rel(s.take(k), states[k]),
    decreases k,
{
    if k == 0 {
        assert(s.take(0) =~= Seq::empty());
    } else {
        lemma_reduce_run_rel(f, s, states, rel, k - 1);
        assert(reduce_step(f, states[k - 1], s[k - 1], states[k - 1 + 1]));
        crate::seqs::lemma_take_next(s, k - 1);
    }
}

/// If each step keeps the relation, every result of a fold has it.
pub proof fn lemma_fold_accounts<A, T, I: Fn() -> A, F: Fn(A, T) -> A>(
    top_level: bool,
    bound: BoundKind,
    init: I,
    comb: F,
    t: Seq<Seq<T>>,
    r: Seq<Seq<A>>,
    rel: spec_fn(Seq<T>, A) -> bool,
)
    requires
        t.len() > 0,
        is_fold_of(top_level, bound, init, comb, t, r),
        forall|a: A| #[trigger] init.ensures((), a) ==> rel(Seq::empty(), a),
        forall|s: Seq<T>, m: A, x: T, n: A| #[trigger]
            rel(s, m) && #[trigger] comb.ensures((m, x), n) ==> rel(s.push(x), n),
    ensures
        accounts_for(top_level, bound, t, r, rel),
{
    if !top_level {
        assert forall|i: int| 0 <= i < r.len() implies (#[trigger] r[i]).len() == 1 && rel(
            t[i],
            r[i][0],
        ) by {
            let states = choose|states: Seq<A>| #[trigger] is_fold_run(init, comb, t[i], states)
                && states.last() == r[i][0];
            lemma_fold_run_rel(init, comb, t[i], states, rel, t[i].len() as int);
            assert(t[i].take(t[i].len() as int) =~= t[i]);
        }
    } else if bound == BoundKind::Bounded {
        let states = choose|states: Seq<A>| #[trigger] is_fold_run(init, comb, t[0], states)
            && states.last() == r[0][0];
        lemma_fold_run_rel(init, comb, t[0], states, rel, t[0].len() as int);
        assert(t[0].take(t[0].len() as int) =~= t[0]);
    } else {
        let states = choose|states: Seq<A>| #[trigger] is_fold_run(init, comb, flat(t), states)
            && forall|i: int| 0 <= i < t.len() ==> #[trigger] r[i] == states_in(states, t, i);
        assert forall|i: int| 0 <= i < r.len() implies (#[trigger] r[i]).len() == t[i].len()
            + if i == 0 {
            1int
        } else {
            0
        } by {
            reveal_with_fuel(before, 2);
            crate::trace::lemma_before_grows(t, i + 1, t.len() as int);
            assert(r[i] == states_in(states, t, i));
        }
        assert forall|i: int, j: int| 0 <= i < r.len() && 0 <= j < r[i].len() implies rel(
            flat(t).take(crate::trace::stateful::states_from(t, i) + j),
            #[trigger] r[i][j],
        ) by {
            crate::trace::lemma_before_grows(t, i + 1, t.len() as int);
            assert(r[i] == states_in(states, t, i));
            lemma_fold_run_rel(
                init,
                comb,
                flat(t),
                states,
                rel,
                crate::trace::stateful::states_from(t, i) + j,
            );
        }
    }
}

proof fn lemma_fold_run_rel<A, T, I: Fn() -> A, F: Fn(A, T) -> A>(
    init: I,
    comb: F,
    s: Seq<T>,
    states: Seq<A>,
    rel: spec_fn(Seq<T>, A) -> bool,
    k: int,
)
    requires
        is_fold_run(init, comb, s, states),
        0 <= k <= s.len(),
        forall|a: A| #[trigger] init.ensures((), a) ==> rel(Seq::empty(), a),
        forall|s: Seq<T>, m: A, x: T, n: A| #[trigger]
            rel(s, m) && #[trigger] comb.ensures((m, x), n) ==> rel(s.push(x), n),
    ensures
        rel(s.take(k), states[k]),
    decreases k,
{
    if k == 0 {
        assert(s.take(0) =~= Seq::empty());
    } else {
        lemma_fold_run_rel(init, comb, s, states, rel, k - 1);
        assert(comb.ensures((states[k - 1], s[k - 1]), states[k - 1 + 1]));
        crate::seqs::lemma_take_next(s, k - 1);
    }
}

impl<T: Ranked, L: DynLocation, B: Boundedness, O: StreamOrdering, R: Retries> Stream<
    T,
    L,
    B,
    O,
    R,
> {
    /// Computes the maximum element as an [`Optional`], which is empty until the first element
    /// arrives.
    pub fn max(self) -> (r: Optional<T, L, B>)
        requires
            self.wf(),
            O::ordering_spec() == StreamOrder::NoOrder ==> fits(self.trace@),
        ensures
            r.wf(),
            r.location == self.location,
            r.ir_node.metadata.tag is None,
            r.ir_node.op matches HydroOp::Reduce { f, input } && f.code@
                == "|curr, new| { if new > *curr { *curr = new; } }"@ && is_made_deterministic(
                *input,
                self.ir_node,
                self.location.id_spec(),
                B::bound_spec(),
                O::ordering_spec(),
                R::retries_spec(),
                B::bound_spec() == BoundKind::Bounded,
                true,
            ),
            accounts_for(
                L::is_top_level_spec(),
                B::bound_spec(),
                self.trace@,
                r.trace@,
                |s: Seq<T>, m: Option<T>| is_max(s, m),
            ),
    {
        let ghost t = self.trace@;
        let ordered: Stream<T, L, B, TotalOrder, ExactlyOnce> = self.assume_retries_trusted::<
            ExactlyOnce,
        >().assume_ordering_trusted_bounded(NonDet::none());
        proof {
            lemma_same_order(t, ordered.trace@);
        }
        let later = |curr: T, new: T| -> (r: T)
            ensures
                r == (if new.up_to(curr) {
                    curr
                } else {
                    new
                }),
            {
                if new.is_up_to(&curr) {
                    curr
                } else {
                    new
                }
            };
        let r = ordered.reduce(
            Quoted::new("|curr, new| { if new > *curr { *curr = new; } }", later),
        );
        proof {
            let rel = |s: Seq<T>, m: Option<T>| is_max(s, m);
            assert forall|s: Seq<T>, m: Option<T>, x: T, n: Option<T>| #[trigger]
                rel(s, m) && #[trigger] reduce_step(later, m, x, n) implies rel(s.push(x), n) by {
                lemma_max_step(s, m, x, n);
            }
            lemma_reduce_accounts(
                L::is_top_level_spec(),
                B::bound_spec(),
                later,
                t,
                r.trace@,
                rel,
            );
        }
        r
    }

    /// Computes the minimum element as an [`Optional`], which is empty until the first element
    /// arrives.
    pub fn min(self) -> (r: Optional<T, L, B>)
        requires
            self.wf(),
            O::ordering_spec() == StreamOrder::NoOrder ==> fits(self.trace@),
        ensures
            r.wf(),
            r.location == self.location,
            r.ir_node.metadata.tag is None,
            r.ir_node.op matches HydroOp::Reduce { f, input } && f.code@
                == "|curr, new| { if new < *curr { *curr = new; } }"@ && is_made_deterministic(
                *input,
                self.ir_node,
                self.location.id_spec(),
                B::bound_spec(),
                O::ordering_spec(),
                R::retries_spec(),
                B::bound_spec() == BoundKind::Bounded,
                true,
            ),
            accounts_for(
                L::is_top_level_spec(),
                B::bound_spec(),
                self.trace@,
                r.trace@,
                |s: Seq<T>, m: Option<T>| is_min(s, m),
            ),
    {
        let ghost t = self.trace@;
        let ordered: Stream<T, L, B, TotalOrder, ExactlyOnce> = self.assume_retries_trusted::<
            ExactlyOnce,
        >().assume_ordering_trusted_bounded(NonDet::none());
        proof {
            lemma_same_order(t, ordered.trace@);
        }
        let earlier = |curr: T, new: T| -> (r: T)
            ensures
                r == (if curr.up_to(new) {
                    curr
                } else {
                    new
                }),
            {
                if curr.is_up_to(&new) {
                    curr
                } else {
                    new
                }
            };
        let r = ordered.reduce(
            Quoted::new("|curr, new| { if new < *curr { *curr = new; } }", earlier),
        );
        proof {
            let rel = |s: Seq<T>, m: Option<T>| is_min(s, m);
            assert forall|s: Seq<T>, m: Option<T>, x: T, n: Option<T>| #[trigger]
                rel(s, m) && #[trigger] reduce_step(earlier, m, x, n) implies rel(
                s.push(x),
                n,
            ) by {
                lemma_min_step(s, m, x, n);
            }
            lemma_reduce_accounts(
                L::is_top_level_spec(),
                B::bound_spec(),
                earlier,
                t,
                r.trace@,
                rel,
            );
        }
        r
    }
}

/// A trace whose rounds are each in natural order is the same trace.
proof fn lemma_same_order<T>(t: Seq<Seq<T>>, s: Seq<Seq<T>>)
    requires
        s.len() == t.len(),
        s == t || forall|i: int|
            0 <= i < s.len() ==> #[trigger] s[i] == t[i] || s[i]
                == crate::trace::choice::shuffled(
                t[i],
                Seq::empty(),
                before(t, i).len() as int,
            ),
    ensures
        s == t,
{
    if s != t {
        assert forall|i: int| 0 <= i < s.len() implies #[trigger] s[i] == t[i] by {
            lemma_no_choices(t[i], before(t, i).len() as int);
        }
        assert(s =~= t);
    }
}

impl<T, L: DynLocation, B: Boundedness, O: StreamOrdering> Stream<T, L, B, O, ExactlyOnce> {
    /// Computes the number of elements in the stream as a [`Singleton`].
    pub fn count(self) -> (r: Singleton<usize, L, B>)
        requires
            self.wf(),
            fits(self.trace@),
        ensures
            r.wf(),
            r.location == self.location,
            r.ir_node.metadata.tag is None,
            r.ir_node.op matches HydroOp::Fold { init, acc, input } && init.code@ == "|| 0usize"@
                && acc.code@ == "|count, _| *count += 1"@ && is_made_deterministic(
                *input,
                self.ir_node,
                self.location.id_spec(),
                B::bound_spec(),
                O::ordering_spec(),
                StreamRetry::ExactlyOnce,
                true,
                true,
            ),
            accounts_for(
                L::is_top_level_spec(),
                B::bound_spec(),
                self.trace@,
                r.trace@,
                |s: Seq<T>, n: usize| s.len() <= usize::MAX ==> n == s.len(),
            ),
    {
        let ghost t = self.trace@;
        let ordered: Stream<T, L, B, TotalOrder, ExactlyOnce> = self.assume_ordering_trusted();
        let zero = || -> (r: usize)
            ensures
                r == 0,
            { 0usize };
        let next = |count: usize, _x: T| -> (r: usize)
            ensures
                count < usize::MAX ==> r == count + 1,
            {
                if count < usize::MAX {
                    count + 1
                } else {
                    count
                }
            };
        let r = ordered.fold(
            Quoted::new("|| 0usize", zero),
            Quoted::new("|count, _| *count += 1", next),
        );
        proof {
            let rel = |s: Seq<T>, n: usize| s.len() <= usize::MAX ==> n == s.len();
            assert forall|s: Seq<T>, m: usize, x: T, n: usize| #[trigger]
                rel(s, m) && #[trigger] next.ensures((m, x), n) implies rel(s.push(x), n) by {}
            lemma_fold_accounts(
                L::is_top_level_spec(),
                B::bound_spec(),
                zero,
                next,
                t,
                r.trace@,
                rel,
            );
        }
        r
    }
}

/// The first element of a list, if it has one.
pub open spec fn first_of<T>(s: Seq<T>) -> Option<T> {
    if s.len() == 0 {
        None
    } else {
        Some(s[0])
    }
}

/// The last element of a list, if it has one.
pub open spec fn last_of<T>(s: Seq<T>) -> Option<T> {
    if s.len() == 0 {
        None
    } else {
        Some(s.last())
    }
}

impl<T: Dup, L: DynLocation, B: Boundedness, R: Retries> Stream<T, L, B, TotalOrder, R> {
    /// Computes the first element in the stream as an [`Optional`], which is empty until the
    /// first element arrives.
    pub fn first(self) -> (r: Optional<T, L, B>)
        requires
            self.wf(),
        ensures
            r.wf(),
            r.location == self.location,
            r.ir_node.metadata.tag is None,
            r.ir_node.op matches HydroOp::Reduce { f, input } && f.code@ == "|_, _| {}"@
                && is_made_deterministic(
                *input,
                self.ir_node,
                self.location.id_spec(),
                B::bound_spec(),
                StreamOrder::TotalOrder,
                R::retries_spec(),
                true,
                true,
            ),
            accounts_for(
                L::is_top_level_spec(),
                B::bound_spec(),
                self.trace@,
                r.trace@,
                |s: Seq<T>, m: Option<T>| m == first_of(s),
            ),
    {
        let ghost t = self.trace@;
        let once: Stream<T, L, B, TotalOrder, ExactlyOnce> = self.assume_retries_trusted();
        let keep = |curr: T, _new: T| -> (r: T)
            ensures
                r == curr,
            { curr };
        let r = once.reduce(Quoted::new("|_, _| {}", keep));
        proof {
            let rel = |s: Seq<T>, m: Option<T>| m == first_of(s);
            assert forall|s: Seq<T>, m: Option<T>, x: T, n: Option<T>| #[trigger]
                rel(s, m) && #[trigger] reduce_step(keep, m, x, n) implies rel(s.push(x), n) by {}
            lemma_reduce_accounts(L::is_top_level_spec(), B::bound_spec(), keep, t, r.trace@, rel);
        }
        r
    }

    /// Computes the last element in the stream as an [`Optional`], which is empty until an
    /// element arrives.
    pub fn last(self) -> (r: Optional<T, L, B>)
        requires
            self.wf(),
        ensures
            r.wf(),
            r.location == self.location,
            r.ir_node.metadata.tag is None,
            r.ir_node.op matches HydroOp::Reduce { f, input } && f.code@
                == "|curr, new| *curr = new"@ && is_made_deterministic(
                *input,
                self.ir_node,
                self.location.id_spec(),
                B::bound_spec(),
                StreamOrder::TotalOrder,
                R::retries_spec(),
                true,
                true,
            ),
            accounts_for(
                L::is_top_level_spec(),
                B::bound_spec(),
                self.trace@,
                r.trace@,
                |s: Seq<T>, m: Option<T>| m == last_of(s),
            ),
    {
        let ghost t = self.trace@;
        let once: Stream<T, L, B, TotalOrder, ExactlyOnce> = self.assume_retries_trusted();
        let replace = |_curr: T, new: T| -> (r: T)
            ensures
                r == new,
            { new };
        let r = once.reduce(Quoted::new("|curr, new| *curr = new", replace));
        proof {
            let rel = |s: Seq<T>, m: Option<T>| m == last_of(s);
            assert forall|s: Seq<T>, m: Option<T>, x: T, n: Option<T>| #[trigger]
                rel(s, m) && #[trigger] reduce_step(replace, m, x, n) implies rel(
                s.push(x),
                n,
            ) by {}
            lemma_reduce_accounts(
                L::is_top_level_spec(),
                B::bound_spec(),
                replace,
                t,
                r.trace@,
                rel,
            );
        }
        r
    }
}

/// What a scan over a stream yields: in each round by itself inside a tick, over all elements
/// outside.
pub open spec fn is_scan_of<A, T, U, I: Fn() -> A, F: Fn(A, T) -> (A, Option<U>)>(
    top_level: bool,
    init: I,
    f: F,
    t: Seq<Seq<T>>,
    r: Seq<Seq<U>>,
) -> bool {
    if top_level {
        is_running_scan(init, f, t, r)
    } else {
        r.len() == t.len() && forall|i: int|
            0 <= i < r.len() ==> scans_to(init, f, t[i], #[trigger] r[i])
    }
}

/// Whether `f` accepts all that comes up in a scan over a stream.
pub open spec fn accepts_scan<A, T, U, I: Fn() -> A, F: Fn(A, T) -> (A, Option<U>)>(
    top_level: bool,
    init: I,
    f: F,
    t: Seq<Seq<T>>,
) -> bool {
    if top_level {
        can_scan(init, f, flat(t))
    } else {
        forall|i: int| 0 <= i < t.len() ==> can_scan(init, f, #[trigger] t[i])
    }
}

impl<T, L: DynLocation, B: Boundedness> Stream<T, L, B, TotalOrder, ExactlyOnce> {
    /// Applies `f` to each element, maintaining an accumulator, and emits each result. The
    /// stream ends where `f` gives none.
    pub fn scan<A, U, I: Fn() -> A, F: Fn(A, T) -> (A, Option<U>)>(
        self,
        init: Quoted<I>,
        f: Quoted<F>,
    ) -> (r: Stream<U, L, B, TotalOrder, ExactlyOnce>)
        requires
            self.wf(),
            accepts_scan(L::is_top_level_spec(), init.value, f.value, self.trace@),
        ensures
            r.is_built(
                self.location,
                HydroOp::Scan { init: init.code, acc: f.code, input: Box::new(self.ir_node) },
            ),
            is_scan_of(L::is_top_level_spec(), init.value, f.value, self.trace@, r.trace@),
    {
        let ghost t = self.trace@;
        let trace = if L::is_top_level() {
            let running = self.trace.scan_running(&init.value, &f.value);
            proof {
                if B::bound_spec() == BoundKind::Bounded {
                    assert forall|i: int| 0 < i < running@.len() implies (
                    #[trigger] running@[i]).len() == 0 by {
                        assert(running@[i] == crate::trace::stateful::outputs_in(
                            flat(running@),
                            t,
                            i,
                        ));
                        assert(before(t, i + 1) =~= before(t, i) + t[i]);
                    }
                }
            }
            running
        } else {
            let each = self.trace.scan_each(&init.value, &f.value);
            each
        };
        Stream::new(
            self.location,
            HydroOp::Scan { init: init.code, acc: f.code, input: Box::new(self.ir_node) },
            trace,
        )
    }

    /// Collects all the elements of this stream into a single [`Vec`].
    pub fn collect_vec(self) -> (r: Singleton<Vec<T>, L, B>) where T: Dup
        requires
            self.wf(),
        ensures
            r.wf(),
            r.location == self.location,
            r.ir_node.metadata.tag is None,
            r.ir_node.op matches HydroOp::Fold { init, acc, input } && init.code@ == "|| vec![]"@
                && acc.code@ == "|acc, v| { acc.push(v); }"@ && *input == self.ir_node,
            accounts_for(
                L::is_top_level_spec(),
                B::bound_spec(),
                self.trace@,
                r.trace@,
                |s: Seq<T>, v: Vec<T>| v@ == s,
            ),
    {
        let ghost t = self.trace@;
        let ghost rel = |s: Seq<T>, v: Vec<T>| v@ == s;
        let running = L::is_top_level() && B::bound_kind() == BoundKind::Unbounded;
        let n: usize = self.trace.len();
        let mut trace: Trace<Vec<T>> = Trace::new();
        let mut seen: Vec<T> = Vec::new();
        for i in 0..n
            invariant
                t == self.trace@,
                n == t.len(),
                rel == (|s: Seq<T>, v: Vec<T>| v@ == s),
                trace@.len() == i,
                running ==> seen@ == before(t, i as int),
                running ==> forall|k: int|
                    0 <= k < i ==> (#[trigger] trace@[k]).len() == t[k].len() + if k == 0 {
                        1int
                    } else {
                        0
                    },
                running ==> forall|k: int, j: int|
                    0 <= k < i && 0 <= j < trace@[k].len() ==> rel(
                        flat(t).take(crate::trace::stateful::states_from(t, k) + j),
                        #[trigger] trace@[k][j],
                    ),
                !running ==> forall|k: int|
                    0 <= k < i ==> (#[trigger] trace@[k]).len() == 1 && rel(t[k], trace@[k][0]),
        {
            let round = self.trace.round(i);
            let mut out: Vec<Vec<T>> = Vec::new();
            if running {
                let ghost start = before(t, i as int);
                if i == 0 {
                    out.push(Vec::new());
                }
                proof {
                    assert(flat(t).take(0) =~= Seq::empty());
                }
                for j in 0..round.len()
                    invariant
                        i < n,
                        n == t.len(),
                        round@ == t[i as int],
                        start == before(t, i as int),
                        seen@ == start + round@.take(j as int),
                        rel == (|s: Seq<T>, v: Vec<T>| v@ == s),
                        out@.len() == j + if i == 0 {
                            1int
                        } else {
                            0
                        },
                        forall|l: int|
                            0 <= l < out@.len() ==> rel(
                                flat(t).take(
                                    crate::trace::stateful::states_from(t, i as int) + l,
                                ),
                                #[trigger] out@[l],
                            ),
                {
                    proof {
                        crate::seqs::lemma_take_next(round@, j as int);
                    }
                    seen.push(round[j].dup());
                    assert(seen@ =~= start + round@.take(j + 1));
                    out.push(copy_list(&seen));
                    proof {
                        crate::trace::choice::lemma_before_take(t, i + 1, n as int);
                        assert(before(t, i + 1) == start + round@);
                        let k = start.len() + j + 1;
                        assert(flat(t).take(k) =~= flat(t).take(
                            before(t, i + 1).len() as int,
                        ).take(k));
                        assert(seen@ =~= flat(t).take(k));
                    }
                }
                assert(round@.take(round.len() as int) =~= round@);
            } else {
                out.push(copy_list(round));
            }
            trace.push(out);
        }
        let result = if L::is_top_level() && B::bound_kind() == BoundKind::Bounded {
            keep_first(trace)
        } else {
            trace
        };
        Singleton::new(
            self.location,
            HydroOp::Fold {
                init: crate::compile::ir::DebugExpr { code: "|| vec![]".to_owned() },
                acc: crate::compile::ir::DebugExpr {
                    code: "|acc, v| { acc.push(v); }".to_owned(),
                },
                input: Box::new(self.ir_node),
            },
            result,
        )
    }
}

} // verus!
