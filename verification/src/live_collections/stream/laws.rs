//! What holds of operators over a whole run.
use super::aggregate::{
    accounts_for, first_of, is_commutative, is_fold_of, is_idempotent, is_reduce_of, is_scan_of,
    last_of,
};
use crate::compile::ir::BoundKind;
use crate::trace::choice::{law_batches_keep_order, ordered_batch};
use crate::trace::combine::{
    gated, joined_pairs, matches_with, new_matches, new_pairs, pairs, pairs_with,
};
use crate::trace::laws::law_before_concatenates;
use crate::trace::order::is_permutation;
use crate::trace::stateful::{
    at_most, folds_to, fresh, is_fold_run, is_reduce_run, is_scan_run, law_fresh_occurs_once, numbered,
    outputs_in, reduce_step, reduces_to, scans_to, states_from, states_in,
};
use crate::trace::{before, flat, lemma_before_grows, only_first_round};
use vstd::prelude::*;
use vstd::seq_lib::{
    commutative_foldl, lemma_fold_left_permutation, lemma_multiset_commutative,
};

verus! {

/// Whether a closure computes a function.
pub open spec fn computes<A, T, F: Fn(A, T) -> A>(comb: F, g: spec_fn(A, T) -> A) -> bool {
    forall|a: A, x: T, b: A| #[trigger] comb.ensures((a, x), b) <==> b == g(a, x)
}

proof fn lemma_fold_value<A, T, I: Fn() -> A, F: Fn(A, T) -> A>(
    init: I,
    comb: F,
    g: spec_fn(A, T) -> A,
    s: Seq<T>,
    states: Seq<A>,
    j: int,
)
    requires
        computes(comb, g),
        is_fold_run(init, comb, s, states),
        0 <= j <= s.len(),
    ensures
        states[j] == s.take(j).fold_left(states[0], g),
    decreases j,
{
    if j > 0 {
        lemma_fold_value(init, comb, g, s, states, j - 1);
        crate::seqs::lemma_take_next(s, j - 1);
        assert(comb.ensures((states[j - 1], s[j - 1]), states[j - 1 + 1]));
    }
}

proof fn lemma_fold_result<A, T, I: Fn() -> A, F: Fn(A, T) -> A>(
    init: I,
    comb: F,
    g: spec_fn(A, T) -> A,
    start: A,
    s: Seq<T>,
    a: A,
)
    requires
        computes(comb, g),
        forall|v: A| #[trigger] init.ensures((), v) ==> v == start,
        folds_to(init, comb, s, a),
    ensures
        a == s.fold_left(start, g),
{
    let states = choose|states: Seq<A>| #[trigger]
        is_fold_run(init, comb, s, states) && states.last() == a;
    lemma_fold_value(init, comb, g, s, states, s.len() as int);
    assert(s.take(s.len() as int) =~= s);
}

/// A fold with a commutative closure gives the same result in whichever order the elements
/// come.
pub proof fn law_fold_ignores_order<A, T, I: Fn() -> A, F: Fn(A, T) -> A>(
    init: I,
    comb: F,
    g: spec_fn(A, T) -> A,
    start: A,
    s: Seq<T>,
    p: Seq<T>,
    a: A,
    b: A,
)
    requires
        computes(comb, g),
        is_commutative(comb),
        forall|v: A| #[trigger] init.ensures((), v) ==> v == start,
        is_permutation(s, p),
        folds_to(init, comb, s, a),
        folds_to(init, comb, p, b),
    ensures
        a == b,
{
    assert(commutative_foldl(g)) by {
        assert forall|x: T, y: T, v: A| #[trigger] g(g(v, x), y) == g(g(v, y), x) by {
            assert(comb.ensures((v, x), g(v, x)));
            assert(comb.ensures((g(v, x), y), g(g(v, x), y)));
            assert(comb.ensures((v, y), g(v, y)));
            assert(comb.ensures((g(v, y), x), g(g(v, y), x)));
        }
    }
    lemma_fold_result(init, comb, g, start, s, a);
    lemma_fold_result(init, comb, g, start, p, b);
    lemma_fold_left_permutation(s, p, g, start);
}

proof fn lemma_fold_repeat<A, T>(g: spec_fn(A, T) -> A, start: A, s: Seq<T>, i: int)
    requires
        0 <= i < s.len(),
        forall|a: A, x: T| #[trigger] g(g(a, x), x) == g(a, x),
    ensures
        s.insert(i, s[i]).fold_left(start, g) == s.fold_left(start, g),
    decreases s.len(),
{
    let twice = s.insert(i, s[i]);
    if i == s.len() - 1 {
        assert(twice.drop_last() =~= s);
    } else {
        lemma_fold_repeat(g, start, s.drop_last(), i);
        assert(twice.drop_last() =~= s.drop_last().insert(i, s[i]));
    }
}

/// A fold with an idempotent closure gives the same result if an element is repeated.
pub proof fn law_fold_ignores_repeats<A, T, I: Fn() -> A, F: Fn(A, T) -> A>(
    init: I,
    comb: F,
    g: spec_fn(A, T) -> A,
    start: A,
    s: Seq<T>,
    i: int,
    a: A,
    b: A,
)
    requires
        computes(comb, g),
        is_idempotent(comb),
        forall|v: A| #[trigger] init.ensures((), v) ==> v == start,
        0 <= i < s.len(),
        folds_to(init, comb, s, a),
        folds_to(init, comb, s.insert(i, s[i]), b),
    ensures
        a == b,
{
    assert forall|v: A, x: T| #[trigger] g(g(v, x), x) == g(v, x) by {
        assert(comb.ensures((v, x), g(v, x)));
        assert(comb.ensures((g(v, x), x), g(g(v, x), x)));
    }
    lemma_fold_result(init, comb, g, start, s, a);
    lemma_fold_result(init, comb, g, start, s.insert(i, s[i]), b);
    lemma_fold_repeat(g, start, s, i);
}

proof fn lemma_fresh_split<T>(a: Seq<T>, b: Seq<T>, seen: Seq<T>)
    ensures
        fresh(a + b, seen) == fresh(a, seen) + fresh(b, seen + a),
    decreases b.len(),
{
    if b.len() == 0 {
        assert(a + b =~= a);
        assert(fresh(a, seen) + fresh(b, seen + a) =~= fresh(a, seen));
    } else {
        let init = b.drop_last();
        let x = b.last();
        lemma_fresh_split(a, init, seen);
        assert((a + b).drop_last() =~= a + init);
        assert((a + init).contains(x) <==> a.contains(x) || init.contains(x)) by {
            if a.contains(x) {
                let j = choose|j: int| 0 <= j < a.len() && a[j] == x;
                assert((a + init)[j] == x);
            }
            if init.contains(x) {
                let j = choose|j: int| 0 <= j < init.len() && init[j] == x;
                assert((a + init)[a.len() + j] == x);
            }
        }
        assert((seen + a).contains(x) <==> seen.contains(x) || a.contains(x)) by {
            if seen.contains(x) {
                let j = choose|j: int| 0 <= j < seen.len() && seen[j] == x;
                assert((seen + a)[j] == x);
            }
            if a.contains(x) {
                let j = choose|j: int| 0 <= j < a.len() && a[j] == x;
                assert((seen + a)[seen.len() + j] == x);
            }
        }
        assert(fresh(a + b, seen) =~= fresh(a, seen) + fresh(b, seen + a));
    }
}

proof fn lemma_unique_before<T>(t: Seq<Seq<T>>, r: Seq<Seq<T>>, i: int)
    requires
        r.len() == t.len(),
        0 <= i <= t.len(),
        forall|k: int| 0 <= k < r.len() ==> #[trigger] r[k] == fresh(t[k], before(t, k)),
    ensures
        before(r, i) == fresh(before(t, i), Seq::empty()),
    decreases i,
{
    if i > 0 {
        lemma_unique_before(t, r, i - 1);
        lemma_fresh_split(before(t, i - 1), t[i - 1], Seq::empty());
        assert(Seq::<T>::empty() + before(t, i - 1) =~= before(t, i - 1));
        assert(r[i - 1] == fresh(t[i - 1], before(t, i - 1)));
    }
}

/// Outside of ticks, a stream without duplicates holds each value once, in the order in which
/// they first came, however they are spread over time.
pub proof fn law_unique_over_time<T>(t: Seq<Seq<T>>, r: Seq<Seq<T>>)
    requires
        r.len() == t.len(),
        forall|k: int| 0 <= k < r.len() ==> #[trigger] r[k] == fresh(t[k], before(t, k)),
    ensures
        flat(r) == fresh(flat(t), Seq::empty()),
        r.flatten().no_duplicates(),
        forall|i: int, x: T|
            0 <= i <= r.len() ==> (#[trigger] r.take(i).flatten().contains(x) <==> t.take(
                i,
            ).flatten().contains(x)),
{
    lemma_unique_before(t, r, t.len() as int);
    law_before_concatenates(r, 0);
    law_fresh_occurs_once(flat(t), Seq::empty());
    assert forall|i: int, x: T| 0 <= i <= r.len() implies (#[trigger] r.take(
        i,
    ).flatten().contains(x) <==> t.take(i).flatten().contains(x)) by {
        lemma_unique_before(t, r, i);
        law_before_concatenates(t, i);
        law_before_concatenates(r, i);
        law_fresh_occurs_once(before(t, i), Seq::empty());
    }
}

proof fn lemma_numbered_before<T>(t: Seq<Seq<T>>, r: Seq<Seq<(usize, T)>>, i: int)
    requires
        r.len() == t.len(),
        0 <= i <= t.len(),
        forall|k: int| 0 <= k < r.len() ==> #[trigger] r[k] == numbered(t[k], before(t, k).len()),
    ensures
        before(r, i) == numbered(before(t, i), 0),
    decreases i,
{
    if i > 0 {
        lemma_numbered_before(t, r, i - 1);
        assert(r[i - 1] == numbered(t[i - 1], before(t, i - 1).len()));
        assert(before(r, i) =~= numbered(before(t, i), 0));
    } else {
        assert(before(r, 0) =~= numbered(before(t, 0), 0));
    }
}

/// Outside of ticks, elements are numbered by their place in the whole stream.
pub proof fn law_enumerate_over_time<T>(t: Seq<Seq<T>>, r: Seq<Seq<(usize, T)>>)
    requires
        r.len() == t.len(),
        forall|k: int| 0 <= k < r.len() ==> #[trigger] r[k] == numbered(t[k], before(t, k).len()),
    ensures
        flat(r) == numbered(flat(t), 0),
        r.flatten().len() == t.flatten().len(),
        forall|j: int|
            0 <= j < r.flatten().len() ==> #[trigger] r.flatten()[j] == (
                j as usize,
                t.flatten()[j],
            ),
{
    lemma_numbered_before(t, r, t.len() as int);
    law_before_concatenates(t, 0);
    law_before_concatenates(r, 0);
}

proof fn lemma_pairs_first<T, U>(a: Seq<T>, x: Seq<T>, b: Seq<U>)
    ensures
        pairs(a + x, b) == pairs(a, b) + pairs(x, b),
    decreases x.len(),
{
    if x.len() == 0 {
        assert(a + x =~= a);
        assert(pairs(a, b) + pairs(x, b) =~= pairs(a, b));
    } else {
        lemma_pairs_first(a, x.drop_last(), b);
        assert((a + x).drop_last() =~= a + x.drop_last());
        assert(pairs(a + x, b) =~= pairs(a, b) + pairs(x, b));
    }
}

proof fn lemma_pairs_second<T, U>(a: Seq<T>, b: Seq<U>, y: Seq<U>)
    ensures
        pairs(a, b + y).to_multiset() == pairs(a, b).to_multiset().add(
            pairs(a, y).to_multiset(),
        ),
    decreases a.len(),
{
    broadcast use vstd::seq_lib::group_to_multiset_ensures;

    if a.len() > 0 {
        let init = a.drop_last();
        let x = a.last();
        lemma_pairs_second(init, b, y);
        assert(pairs_with(x, b + y) =~= pairs_with(x, b) + pairs_with(x, y));
        lemma_multiset_commutative(pairs_with(x, b), pairs_with(x, y));
        lemma_multiset_commutative(pairs(init, b + y), pairs_with(x, b + y));
        lemma_multiset_commutative(pairs(init, b), pairs_with(x, b));
        lemma_multiset_commutative(pairs(init, y), pairs_with(x, y));
    }
    assert(pairs(a, b + y).to_multiset() =~= pairs(a, b).to_multiset().add(
        pairs(a, y).to_multiset(),
    ));
}

proof fn lemma_product_before<T, U>(
    a: Seq<Seq<T>>,
    b: Seq<Seq<U>>,
    r: Seq<Seq<(T, U)>>,
    i: int,
)
    requires
        r.len() == a.len() == b.len(),
        0 <= i <= a.len(),
        forall|k: int|
            0 <= k < r.len() ==> #[trigger] r[k] == new_pairs(
                before(a, k),
                a[k],
                before(b, k),
                b[k],
            ),
    ensures
        before(r, i).to_multiset() == pairs(before(a, i), before(b, i)).to_multiset(),
    decreases i,
{
    broadcast use vstd::seq_lib::group_to_multiset_ensures;

    if i > 0 {
        let (sa, sb) = (before(a, i - 1), before(b, i - 1));
        let (x, y) = (a[i - 1], b[i - 1]);
        lemma_product_before(a, b, r, i - 1);
        assert(r[i - 1] == pairs(sa, y) + pairs(x, sb + y));
        lemma_multiset_commutative(before(r, i - 1), r[i - 1]);
        lemma_multiset_commutative(pairs(sa, y), pairs(x, sb + y));
        lemma_pairs_first(sa, x, sb + y);
        lemma_multiset_commutative(pairs(sa, sb + y), pairs(x, sb + y));
        lemma_pairs_second(sa, sb, y);
        assert(before(r, i).to_multiset() =~= pairs(sa + x, sb + y).to_multiset());
    } else {
        assert(before(r, 0) =~= pairs(before(a, 0), before(b, 0)));
    }
}

/// Outside of ticks, a cross-product yields every pair of elements, each as often as it
/// occurs, however the elements are spread over time.
pub proof fn law_product_is_complete<T, U>(
    a: Seq<Seq<T>>,
    b: Seq<Seq<U>>,
    r: Seq<Seq<(T, U)>>,
)
    requires
        r.len() == a.len() == b.len(),
        forall|k: int|
            0 <= k < r.len() ==> #[trigger] r[k] == new_pairs(
                before(a, k),
                a[k],
                before(b, k),
                b[k],
            ),
    ensures
        is_permutation(flat(r), pairs(flat(a), flat(b))),
        forall|i: int|
            0 <= i <= r.len() ==> is_permutation(
                (#[trigger] r.take(i)).flatten(),
                pairs(a.take(i).flatten(), b.take(i).flatten()),
            ),
{
    lemma_product_before(a, b, r, a.len() as int);
    assert forall|i: int| 0 <= i <= r.len() implies is_permutation(
        (#[trigger] r.take(i)).flatten(),
        pairs(a.take(i).flatten(), b.take(i).flatten()),
    ) by {
        lemma_product_before(a, b, r, i);
        law_before_concatenates(a, i);
        law_before_concatenates(b, i);
        law_before_concatenates(r, i);
    }
}

proof fn lemma_matches_first<K, V, W>(a: Seq<(K, V)>, x: Seq<(K, V)>, b: Seq<(K, W)>)
    ensures
        joined_pairs(a + x, b) == joined_pairs(a, b) + joined_pairs(x, b),
    decreases x.len(),
{
    if x.len() == 0 {
        assert(a + x =~= a);
        assert(joined_pairs(a, b) + joined_pairs(x, b) =~= joined_pairs(a, b));
    } else {
        lemma_matches_first(a, x.drop_last(), b);
        assert((a + x).drop_last() =~= a + x.drop_last());
        assert(joined_pairs(a + x, b) =~= joined_pairs(a, b) + joined_pairs(x, b));
    }
}

proof fn lemma_matches_with_split<K, V, W>(x: (K, V), b: Seq<(K, W)>, y: Seq<(K, W)>)
    ensures
        matches_with(x, b + y) == matches_with(x, b) + matches_with(x, y),
    decreases y.len(),
{
    if y.len() == 0 {
        assert(b + y =~= b);
        assert(matches_with(x, b) + matches_with(x, y) =~= matches_with(x, b));
    } else {
        lemma_matches_with_split(x, b, y.drop_last());
        assert((b + y).drop_last() =~= b + y.drop_last());
        assert(matches_with(x, b + y) =~= matches_with(x, b) + matches_with(x, y));
    }
}

proof fn lemma_matches_second<K, V, W>(a: Seq<(K, V)>, b: Seq<(K, W)>, y: Seq<(K, W)>)
    ensures
        joined_pairs(a, b + y).to_multiset() == joined_pairs(a, b).to_multiset().add(
            joined_pairs(a, y).to_multiset(),
        ),
    decreases a.len(),
{
    broadcast use vstd::seq_lib::group_to_multiset_ensures;

    if a.len() > 0 {
        let init = a.drop_last();
        let x = a.last();
        lemma_matches_second(init, b, y);
        lemma_matches_with_split(x, b, y);
        lemma_multiset_commutative(matches_with(x, b), matches_with(x, y));
        lemma_multiset_commutative(joined_pairs(init, b + y), matches_with(x, b + y));
        lemma_multiset_commutative(joined_pairs(init, b), matches_with(x, b));
        lemma_multiset_commutative(joined_pairs(init, y), matches_with(x, y));
    }
    assert(joined_pairs(a, b + y).to_multiset() =~= joined_pairs(a, b).to_multiset().add(
        joined_pairs(a, y).to_multiset(),
    ));
}

proof fn lemma_join_before<K, V, W>(
    a: Seq<Seq<(K, V)>>,
    b: Seq<Seq<(K, W)>>,
    r: Seq<Seq<(K, (V, W))>>,
    i: int,
)
    requires
        r.len() == a.len() == b.len(),
        0 <= i <= a.len(),
        forall|k: int|
            0 <= k < r.len() ==> #[trigger] r[k] == new_matches(
                before(a, k),
                a[k],
                before(b, k),
                b[k],
            ),
    ensures
        before(r, i).to_multiset() == joined_pairs(before(a, i), before(b, i)).to_multiset(),
    decreases i,
{
    broadcast use vstd::seq_lib::group_to_multiset_ensures;

    if i > 0 {
        let (sa, sb) = (before(a, i - 1), before(b, i - 1));
        let (x, y) = (a[i - 1], b[i - 1]);
        lemma_join_before(a, b, r, i - 1);
        assert(r[i - 1] == joined_pairs(sa, y) + joined_pairs(x, sb + y));
        lemma_multiset_commutative(before(r, i - 1), r[i - 1]);
        lemma_multiset_commutative(joined_pairs(sa, y), joined_pairs(x, sb + y));
        lemma_matches_first(sa, x, sb + y);
        lemma_multiset_commutative(joined_pairs(sa, sb + y), joined_pairs(x, sb + y));
        lemma_matches_second(sa, sb, y);
        assert(before(r, i).to_multiset() =~= joined_pairs(sa + x, sb + y).to_multiset());
    } else {
        assert(before(r, 0) =~= joined_pairs(before(a, 0), before(b, 0)));
    }
}

/// Outside of ticks, a join yields every pair of entries with equal keys, each as often as it
/// occurs, however the entries are spread over time.
pub proof fn law_join_is_complete<K, V, W>(
    a: Seq<Seq<(K, V)>>,
    b: Seq<Seq<(K, W)>>,
    r: Seq<Seq<(K, (V, W))>>,
)
    requires
        r.len() == a.len() == b.len(),
        forall|k: int|
            0 <= k < r.len() ==> #[trigger] r[k] == new_matches(
                before(a, k),
                a[k],
                before(b, k),
                b[k],
            ),
    ensures
        is_permutation(flat(r), joined_pairs(flat(a), flat(b))),
        forall|i: int|
            0 <= i <= r.len() ==> is_permutation(
                (#[trigger] r.take(i)).flatten(),
                joined_pairs(a.take(i).flatten(), b.take(i).flatten()),
            ),
{
    lemma_join_before(a, b, r, a.len() as int);
    assert forall|i: int| 0 <= i <= r.len() implies is_permutation(
        (#[trigger] r.take(i)).flatten(),
        joined_pairs(a.take(i).flatten(), b.take(i).flatten()),
    ) by {
        lemma_join_before(a, b, r, i);
        law_before_concatenates(a, i);
        law_before_concatenates(b, i);
        law_before_concatenates(r, i);
    }
}

/// Whether `r` is what is left of `s` when some elements are skipped.
pub open spec fn is_subsequence<T>(r: Seq<T>, s: Seq<T>) -> bool
    decreases s.len(),
{
    if s.len() == 0 {
        r.len() == 0
    } else {
        is_subsequence(r, s.drop_last()) || (r.len() > 0 && r.last() == s.last() && is_subsequence(
            r.drop_last(),
            s.drop_last(),
        ))
    }
}

proof fn lemma_subsequence_more<T>(r: Seq<T>, s: Seq<T>, x: Seq<T>)
    requires
        is_subsequence(r, s),
    ensures
        is_subsequence(r, s + x),
        is_subsequence(r + x, s + x),
    decreases x.len(),
{
    if x.len() == 0 {
        assert(s + x =~= s);
        assert(r + x =~= r);
    } else {
        lemma_subsequence_more(r, s, x.drop_last());
        assert((s + x).drop_last() =~= s + x.drop_last());
        assert((r + x).drop_last() =~= r + x.drop_last());
    }
}

proof fn lemma_sampled_before<T>(b: Seq<Seq<T>>, r: Seq<Seq<T>>, on: Seq<bool>, i: int)
    requires
        r.len() == b.len(),
        0 <= i <= b.len(),
        forall|k: int| 0 <= k < r.len() ==> #[trigger] r[k] == gated(b[k], on[k]),
    ensures
        is_subsequence(before(r, i), before(b, i)),
    decreases i,
{
    if i > 0 {
        lemma_sampled_before(b, r, on, i - 1);
        lemma_subsequence_more(before(r, i - 1), before(b, i - 1), b[i - 1]);
        assert(r[i - 1] == gated(b[i - 1], on[i - 1]));
        if !on[i - 1] {
            assert(before(r, i) =~= before(r, i - 1));
        }
    }
}

/// Sampling an ordered stream keeps the order of the elements; some are skipped.
pub proof fn law_samples_keep_order<T>(
    t: Seq<Seq<T>>,
    choices: Seq<usize>,
    on: Seq<bool>,
    r: Seq<Seq<T>>,
)
    requires
        r.len() == t.len(),
        forall|k: int|
            0 <= k < r.len() ==> #[trigger] r[k] == gated(ordered_batch(t, choices, k), on[k]),
    ensures
        is_subsequence(flat(r), flat(t)),
{
    let b = Seq::new(t.len(), |k: int| ordered_batch(t, choices, k));
    assert forall|k: int| 0 <= k < r.len() implies #[trigger] r[k] == gated(b[k], on[k]) by {}
    lemma_sampled_before(b, r, on, t.len() as int);
    law_batches_keep_order(t, b, choices);
}

proof fn lemma_states_before<A, T>(states: Seq<A>, t: Seq<Seq<T>>, r: Seq<Seq<A>>, i: int)
    requires
        states.len() == flat(t).len() + 1,
        r.len() == t.len(),
        forall|k: int| 0 <= k < t.len() ==> #[trigger] r[k] == states_in(states, t, k),
        0 <= i <= t.len(),
    ensures
        before(r, i) == states.take(states_from(t, i)),
    decreases i,
{
    if i > 0 {
        lemma_states_before(states, t, r, i - 1);
        lemma_before_grows(t, i, t.len() as int);
        lemma_before_grows(t, i - 1, i);
        assert(r[i - 1] == states_in(states, t, i - 1));
        assert(before(r, i) =~= states.take(states_from(t, i)));
    } else {
        assert(before(r, 0) =~= states.take(0));
    }
}

/// What a fold with a closure that computes a function yields. Inside a tick: what all elements of
/// the round fold to. Outside, if the stream is bounded: what all elements fold to, once. Outside,
/// if it is not: what the first elements fold to, for each number of them, starting with none.
pub proof fn law_fold<A, T, I: Fn() -> A, F: Fn(A, T) -> A>(
    top_level: bool,
    bound: BoundKind,
    init: I,
    comb: F,
    g: spec_fn(A, T) -> A,
    start: A,
    t: Seq<Seq<T>>,
    r: Seq<Seq<A>>,
)
    requires
        computes(comb, g),
        forall|v: A| #[trigger] init.ensures((), v) ==> v == start,
        t.len() >= 1,
        is_fold_of(top_level, bound, init, comb, t, r),
    ensures
        r.len() == t.len(),
        !top_level ==> forall|i: int|
            0 <= i < r.len() ==> #[trigger] r[i] == seq![t[i].fold_left(start, g)],
        top_level && bound == BoundKind::Bounded ==> r.flatten() == seq![t[0].fold_left(start, g)]
            && r[0].len() == 1,
        top_level && bound == BoundKind::Unbounded ==> r.flatten() == Seq::new(
            t.flatten().len() + 1,
            |n: int| t.flatten().take(n).fold_left(start, g),
        ),
        top_level && bound == BoundKind::Unbounded ==> forall|i: int|
            0 <= i < r.len() ==> (#[trigger] r[i]).len() == t[i].len() + (if i == 0 {
                1int
            } else {
                0
            }),
{
    law_before_concatenates(t, 0);
    law_before_concatenates(r, 0);
    if !top_level {
        assert forall|i: int| 0 <= i < r.len() implies #[trigger] r[i] == seq![
            t[i].fold_left(start, g),
        ] by {
            lemma_fold_result(init, comb, g, start, t[i], r[i][0]);
        }
    } else if bound == BoundKind::Bounded {
        lemma_fold_result(init, comb, g, start, t[0], r[0][0]);
        lemma_only_first(r);
        assert(r.flatten() =~= seq![t[0].fold_left(start, g)]);
    } else {
        let all = t.flatten();
        let states = choose|states: Seq<A>| #[trigger]
            is_fold_run(init, comb, flat(t), states) && forall|i: int|
                0 <= i < t.len() ==> #[trigger] r[i] == states_in(states, t, i);
        lemma_states_before(states, t, r, t.len() as int);
        assert(states.take(states.len() as int) =~= states);
        assert forall|n: int| 0 <= n < states.len() implies #[trigger] states[n] == all.take(
            n,
        ).fold_left(start, g) by {
            lemma_fold_value(init, comb, g, all, states, n);
        }
        assert forall|i: int| 0 <= i < r.len() implies (#[trigger] r[i]).len() == t[i].len() + (
        if i == 0 {
            1int
        } else {
            0
        }) by {
            lemma_before_grows(t, i + 1, t.len() as int);
            lemma_before_grows(t, i, i + 1);
            assert(r[i] == states_in(states, t, i));
        }
    }
}

proof fn lemma_only_first<A>(r: Seq<Seq<A>>)
    requires
        r.len() >= 1,
        only_first_round(r),
    ensures
        r.flatten() == r[0],
{
    law_before_concatenates(r, 0);
    lemma_nothing_after_first(r, r.len() as int);
}

proof fn lemma_nothing_after_first<A>(r: Seq<Seq<A>>, i: int)
    requires
        only_first_round(r),
        1 <= i <= r.len(),
    ensures
        before(r, i) == r[0],
    decreases i,
{
    if i > 1 {
        lemma_nothing_after_first(r, i - 1);
        assert(r[i - 1].len() == 0);
        assert(before(r, i) =~= r[0]);
    } else {
        assert(before(r, 1) == before(r, 0) + r[0]);
        assert(before(r, 1) =~= r[0]);
    }
}

proof fn lemma_reduce_value<T, F: Fn(T, T) -> T>(
    f: F,
    g: spec_fn(T, T) -> T,
    s: Seq<T>,
    states: Seq<Option<T>>,
    j: int,
)
    requires
        computes(f, g),
        is_reduce_run(f, s, states),
        0 <= j <= s.len(),
    ensures
        j == 0 ==> states[j] is None,
        j > 0 ==> states[j] == Some(s.subrange(1, j).fold_left(s[0], g)),
    decreases j,
{
    if j > 0 {
        lemma_reduce_value(f, g, s, states, j - 1);
        assert(reduce_step(f, states[j - 1], s[j - 1], states[j - 1 + 1]));
        if j > 1 {
            assert(s.subrange(1, j).drop_last() =~= s.subrange(1, j - 1));
            assert(s.subrange(1, j).last() == s[j - 1]);
        } else {
            assert(s.subrange(1, 1) =~= Seq::empty());
        }
    }
}

/// What reducing a list with a function comes to: nothing for an empty list, otherwise the first
/// element combined with each later one in order.
pub open spec fn combined<T>(s: Seq<T>, g: spec_fn(T, T) -> T) -> Option<T> {
    if s.len() == 0 {
        None
    } else {
        Some(s.skip(1).fold_left(s[0], g))
    }
}

proof fn lemma_reduce_result<T, F: Fn(T, T) -> T>(
    f: F,
    g: spec_fn(T, T) -> T,
    s: Seq<T>,
    a: Option<T>,
)
    requires
        computes(f, g),
        reduces_to(f, s, a),
    ensures
        a == combined(s, g),
{
    let states = choose|states: Seq<Option<T>>| #[trigger]
        is_reduce_run(f, s, states) && states.last() == a;
    lemma_reduce_value(f, g, s, states, s.len() as int);
    if s.len() > 0 {
        assert(s.subrange(1, s.len() as int) =~= s.skip(1));
    }
}

/// What reducing with a closure that computes a function yields, for the same rounds as a fold.
pub proof fn law_reduce<T, F: Fn(T, T) -> T>(
    top_level: bool,
    bound: BoundKind,
    f: F,
    g: spec_fn(T, T) -> T,
    t: Seq<Seq<T>>,
    r: Seq<Seq<Option<T>>>,
)
    requires
        computes(f, g),
        t.len() >= 1,
        is_reduce_of(top_level, bound, f, t, r),
    ensures
        r.len() == t.len(),
        !top_level ==> forall|i: int|
            0 <= i < r.len() ==> #[trigger] r[i] == seq![combined(t[i], g)],
        top_level && bound == BoundKind::Bounded ==> r.flatten() == seq![combined(t[0], g)]
            && r[0].len() == 1,
        top_level && bound == BoundKind::Unbounded ==> r.flatten() == Seq::new(
            t.flatten().len() + 1,
            |n: int| combined(t.flatten().take(n), g),
        ),
        top_level && bound == BoundKind::Unbounded ==> forall|i: int|
            0 <= i < r.len() ==> (#[trigger] r[i]).len() == t[i].len() + (if i == 0 {
                1int
            } else {
                0
            }),
{
    law_before_concatenates(t, 0);
    law_before_concatenates(r, 0);
    if !top_level {
        assert forall|i: int| 0 <= i < r.len() implies #[trigger] r[i] == seq![
            combined(t[i], g),
        ] by {
            lemma_reduce_result(f, g, t[i], r[i][0]);
        }
    } else if bound == BoundKind::Bounded {
        lemma_reduce_result(f, g, t[0], r[0][0]);
        lemma_only_first(r);
        assert(r.flatten() =~= seq![combined(t[0], g)]);
    } else {
        let all = t.flatten();
        let states = choose|states: Seq<Option<T>>| #[trigger]
            is_reduce_run(f, flat(t), states) && forall|i: int|
                0 <= i < t.len() ==> #[trigger] r[i] == states_in(states, t, i);
        lemma_states_before(states, t, r, t.len() as int);
        assert(states.take(states.len() as int) =~= states);
        assert forall|n: int| 0 <= n < states.len() implies #[trigger] states[n] == combined(
            all.take(n),
            g,
        ) by {
            lemma_reduce_value(f, g, all, states, n);
            if n > 0 {
                assert(all.take(n).skip(1) =~= all.subrange(1, n));
            }
        }
        assert forall|i: int| 0 <= i < r.len() implies (#[trigger] r[i]).len() == t[i].len() + (
        if i == 0 {
            1int
        } else {
            0
        }) by {
            lemma_before_grows(t, i + 1, t.len() as int);
            lemma_before_grows(t, i, i + 1);
            assert(r[i] == states_in(states, t, i));
        }
    }
}

/// Whether each value that a stream yields goes with the right elements. Inside a tick: one value
/// per round, for the elements of the round. Outside, if the stream is bounded: one value, for all
/// its elements. Outside, if it is not: one value for no element, and one after each further
/// element for those that have come.
pub proof fn law_accounted<T, A>(
    top_level: bool,
    bound: BoundKind,
    t: Seq<Seq<T>>,
    r: Seq<Seq<A>>,
    rel: spec_fn(Seq<T>, A) -> bool,
)
    requires
        t.len() >= 1,
        accounts_for(top_level, bound, t, r, rel),
    ensures
        r.len() == t.len(),
        !top_level ==> forall|i: int|
            0 <= i < r.len() ==> (#[trigger] r[i]).len() == 1 && rel(t[i], r[i][0]),
        top_level && bound == BoundKind::Bounded ==> r[0].len() == 1 && r.flatten().len() == 1
            && rel(t[0], r.flatten()[0]),
        top_level && bound == BoundKind::Unbounded ==> r.flatten().len() == t.flatten().len() + 1
            && forall|n: int|
            0 <= n < r.flatten().len() ==> rel(t.flatten().take(n), #[trigger] r.flatten()[n]),
{
    law_before_concatenates(t, 0);
    law_before_concatenates(r, 0);
    if top_level && bound == BoundKind::Bounded {
        lemma_only_first(r);
    }
    if top_level && bound == BoundKind::Unbounded {
        lemma_accounted_before(t, r, rel, t.len() as int);
    }
}

proof fn lemma_accounted_before<T, A>(
    t: Seq<Seq<T>>,
    r: Seq<Seq<A>>,
    rel: spec_fn(Seq<T>, A) -> bool,
    i: int,
)
    requires
        accounts_for(true, BoundKind::Unbounded, t, r, rel),
        0 <= i <= t.len(),
    ensures
        before(r, i).len() == states_from(t, i),
        forall|n: int|
            0 <= n < before(r, i).len() ==> rel(flat(t).take(n), #[trigger] before(r, i)[n]),
    decreases i,
{
    if i > 0 {
        lemma_accounted_before(t, r, rel, i - 1);
        let known = before(r, i - 1);
        assert(before(t, i) == before(t, i - 1) + t[i - 1]);
        assert(before(t, 0).len() == 0);
        assert(r[i - 1].len() == t[i - 1].len() + if i == 1 {
            1int
        } else {
            0
        });
        assert forall|n: int| 0 <= n < before(r, i).len() implies rel(
            flat(t).take(n),
            #[trigger] before(r, i)[n],
        ) by {
            if n < known.len() {
                assert(before(r, i)[n] == known[n]);
            } else {
                assert(before(r, i)[n] == r[i - 1][n - known.len()]);
            }
        }
    }
}

/// The first and the last element of a list are there exactly if the list is not empty.
pub proof fn law_ends<T>(s: Seq<T>)
    ensures
        first_of(s) is None <==> s.len() == 0,
        last_of(s) is None <==> s.len() == 0,
        s.len() > 0 ==> s == seq![first_of(s)->0] + s.skip(1),
        s.len() > 0 ==> s == s.take(s.len() - 1).push(last_of(s)->0),
{
    if s.len() > 0 {
        assert(s =~= seq![s[0]] + s.skip(1));
        assert(s =~= s.take(s.len() - 1).push(s.last()));
    }
}

/// The state in which a scan takes the elements after the first `n`.
pub open spec fn scan_state<A, T, U>(
    h: spec_fn(A, T) -> (A, Option<U>),
    start: A,
    s: Seq<T>,
    n: int,
) -> A {
    s.take(n).fold_left(start, |a: A, x: T| h(a, x).0)
}

proof fn lemma_scan_state<A, T, U, I: Fn() -> A, F: Fn(A, T) -> (A, Option<U>)>(
    init: I,
    f: F,
    h: spec_fn(A, T) -> (A, Option<U>),
    start: A,
    s: Seq<T>,
    states: Seq<A>,
    outs: Seq<U>,
    j: int,
)
    requires
        forall|a: A, x: T, b: (A, Option<U>)| #[trigger] f.ensures((a, x), b) ==> b == h(a, x),
        forall|v: A| #[trigger] init.ensures((), v) ==> v == start,
        is_scan_run(init, f, s, states, outs),
        0 <= j <= outs.len(),
    ensures
        states[j] == scan_state(h, start, s, j),
    decreases j,
{
    if j > 0 {
        lemma_scan_state(init, f, h, start, s, states, outs, j - 1);
        assert(f.ensures((states[j - 1], s[j - 1]), (states[j - 1 + 1], Some(outs[j - 1]))));
        crate::seqs::lemma_take_next(s, j - 1);
        assert(s.take(j).drop_last() =~= s.take(j - 1));
        assert(s.take(j).last() == s[j - 1]);
    } else {
        assert(s.take(0) =~= Seq::empty());
    }
}

/// A scan with a closure that computes a function hands each element to it, with the state that
/// the elements before it have led to, and yields what comes out. It ends before the first
/// element for which nothing comes out, and nowhere else.
pub proof fn law_scan<A, T, U, I: Fn() -> A, F: Fn(A, T) -> (A, Option<U>)>(
    init: I,
    f: F,
    h: spec_fn(A, T) -> (A, Option<U>),
    start: A,
    s: Seq<T>,
    outs: Seq<U>,
)
    requires
        forall|a: A, x: T, b: (A, Option<U>)| #[trigger] f.ensures((a, x), b) ==> b == h(a, x),
        forall|v: A| #[trigger] init.ensures((), v) ==> v == start,
        scans_to(init, f, s, outs),
    ensures
        outs.len() <= s.len(),
        forall|j: int|
            0 <= j < outs.len() ==> h(scan_state(h, start, s, j), s[j]).1 == Some(
                #[trigger] outs[j],
            ),
        outs.len() < s.len() ==> h(
            scan_state(h, start, s, outs.len() as int),
            s[outs.len() as int],
        ).1 is None,
{
    let states = choose|states: Seq<A>| #[trigger] is_scan_run(init, f, s, states, outs);
    assert forall|j: int| 0 <= j < outs.len() implies h(scan_state(h, start, s, j), s[j]).1 == Some(
        #[trigger] outs[j],
    ) by {
        lemma_scan_state(init, f, h, start, s, states, outs, j);
    }
    lemma_scan_state(init, f, h, start, s, states, outs, outs.len() as int);
}

/// Outside of ticks, a scan goes on from round to round: its outputs are those of one scan over
/// all elements, and each comes in the round of its element.
pub proof fn law_scan_over_time<A, T, U, I: Fn() -> A, F: Fn(A, T) -> (A, Option<U>)>(
    init: I,
    f: F,
    t: Seq<Seq<T>>,
    r: Seq<Seq<U>>,
)
    requires
        is_scan_of(true, init, f, t, r),
    ensures
        r.len() == t.len(),
        scans_to(init, f, t.flatten(), r.flatten()),
        forall|i: int|
            0 <= i <= t.len() ==> (#[trigger] r.take(i)).flatten().len() == if t.take(
                i,
            ).flatten().len() <= r.flatten().len() {
                t.take(i).flatten().len()
            } else {
                r.flatten().len()
            },
{
    law_before_concatenates(t, 0);
    law_before_concatenates(r, 0);
    assert forall|i: int| 0 <= i <= t.len() implies (#[trigger] r.take(i)).flatten().len() == if t.take(
        i,
    ).flatten().len() <= r.flatten().len() {
        t.take(i).flatten().len()
    } else {
        r.flatten().len()
    } by {
        law_before_concatenates(t, i);
        law_before_concatenates(r, i);
        lemma_outputs_before(t, r, i);
    }
}

proof fn lemma_outputs_before<T, U>(t: Seq<Seq<T>>, r: Seq<Seq<U>>, i: int)
    requires
        r.len() == t.len(),
        flat(r).len() <= flat(t).len(),
        forall|k: int| 0 <= k < t.len() ==> #[trigger] r[k] == outputs_in(flat(r), t, k),
        0 <= i <= t.len(),
    ensures
        before(r, i).len() == at_most(before(t, i).len() as int, flat(r).len() as int),
    decreases i,
{
    if i > 0 {
        lemma_outputs_before(t, r, i - 1);
        lemma_before_grows(t, i - 1, i);
        assert(r[i - 1] == outputs_in(flat(r), t, i - 1));
    }
}

/// Inside a tick, each round is scanned by itself.
pub proof fn law_scan_in_ticks<A, T, U, I: Fn() -> A, F: Fn(A, T) -> (A, Option<U>)>(
    init: I,
    f: F,
    t: Seq<Seq<T>>,
    r: Seq<Seq<U>>,
)
    requires
        is_scan_of(false, init, f, t, r),
    ensures
        r.len() == t.len(),
        forall|i: int| 0 <= i < r.len() ==> scans_to(init, f, t[i], #[trigger] r[i]),
{
}

} // verus!
