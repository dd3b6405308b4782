//! What the steps of operators come to, in terms of the elements alone.
use super::combine::{
    gated, joined_pairs, matches_with, new_matches, new_pairs, pairs, pairs_with, tag_all,
    without, without_keys,
};
use super::order::{is_max, is_min, is_permutation, is_sorted, Ranked};
use super::stateful::{fresh, numbered};
use super::{
    before, flat, is_filter_mapped, is_filtered, is_flat_mapped, is_mapped, memory,
    only_first_round,
};
use crate::seqs::{lemma_contains_push, lemma_take_next};
use vstd::prelude::*;

verus! {

/// A list of lists grows at its end.
pub proof fn lemma_flatten_next<T>(t: Seq<Seq<T>>, x: Seq<T>)
    ensures
        t.push(x).flatten() == t.flatten() + x,
{
    t.push(x).lemma_flatten_and_flatten_alt_are_equivalent();
    t.lemma_flatten_and_flatten_alt_are_equivalent();
    assert(t.push(x).drop_last() =~= t);
}

/// What lies before a round is what the rounds before it hold, one after the other; all rounds
/// together hold all elements.
pub proof fn law_before_concatenates<T>(t: Seq<Seq<T>>, i: int)
    requires
        0 <= i <= t.len(),
    ensures
        before(t, i) == t.take(i).flatten(),
        flat(t) == t.flatten(),
{
    lemma_before_flatten(t, i);
    lemma_before_flatten(t, t.len() as int);
    assert(t.take(t.len() as int) =~= t);
}

proof fn lemma_before_flatten<T>(t: Seq<Seq<T>>, i: int)
    requires
        0 <= i <= t.len(),
    ensures
        before(t, i) == t.take(i).flatten(),
    decreases i,
{
    if i > 0 {
        lemma_before_flatten(t, i - 1);
        lemma_take_next(t, i - 1);
        lemma_flatten_next(t.take(i - 1), t[i - 1]);
    } else {
        assert(t.take(0) =~= Seq::empty());
    }
}

/// An operator that keeps its state remembers all earlier elements; one that starts anew in
/// each round remembers none.
pub proof fn law_memory<T>(t: Seq<Seq<T>>, i: int)
    requires
        0 <= i <= t.len(),
    ensures
        memory(t, i, true) == t.take(i).flatten(),
        memory(t, i, false) == Seq::<T>::empty(),
        only_first_round(t) <==> forall|k: int| 0 < k < t.len() ==> (#[trigger] t[k]).len() == 0,
{
    law_before_concatenates(t, i);
}

/// Mapping with a closure that computes a function applies it to each element, in order.
pub proof fn law_map<T, U, F: Fn(T) -> U>(f: F, g: spec_fn(T) -> U, s: Seq<T>, r: Seq<U>)
    requires
        forall|x: T, y: U| #[trigger] f.ensures((x,), y) ==> y == g(x),
        is_mapped(f, s, r),
    ensures
        r == s.map_values(g),
{
    assert(r =~= s.map_values(g));
}

/// Filtering with a closure that decides a property keeps exactly the elements that have it,
/// in order.
pub proof fn law_filter<T, F: Fn(&T) -> bool>(f: F, p: spec_fn(T) -> bool, s: Seq<T>, r: Seq<T>)
    requires
        forall|x: T, y: bool| #[trigger] f.ensures((&x,), y) ==> y == p(x),
        is_filtered(f, s, r),
    ensures
        r == s.filter(p),
    decreases s.len(),
{
    reveal(Seq::filter);
    if s.len() > 0 {
        if f.ensures((&s.last(),), true) && r.len() > 0 && r.last() == s.last() && is_filtered(
            f,
            s.drop_last(),
            r.drop_last(),
        ) {
            law_filter(f, p, s.drop_last(), r.drop_last());
            assert(r =~= r.drop_last().push(r.last()));
        } else {
            law_filter(f, p, s.drop_last(), r);
        }
    } else {
        assert(r =~= s);
    }
}

/// Filtering and mapping at once yields what the function gives, in order, without the elements
/// for which it gives nothing.
pub proof fn law_filter_map<T, U, F: Fn(T) -> Option<U>>(
    f: F,
    g: spec_fn(T) -> Option<U>,
    s: Seq<T>,
    r: Seq<U>,
)
    requires
        forall|x: T, y: Option<U>| #[trigger] f.ensures((x,), y) ==> y == g(x),
        is_filter_mapped(f, s, r),
    ensures
        r == s.filter(|x: T| g(x) is Some).map_values(|x: T| g(x)->0),
    decreases s.len(),
{
    reveal(Seq::filter);
    let p = |x: T| g(x) is Some;
    let v = |x: T| g(x)->0;
    if s.len() > 0 {
        let init = s.drop_last();
        if r.len() > 0 && f.ensures((s.last(),), Some(r.last())) && is_filter_mapped(
            f,
            init,
            r.drop_last(),
        ) {
            law_filter_map(f, g, init, r.drop_last());
            assert(g(s.last()) == Some(r.last()));
            assert(s.filter(p) == init.filter(p).push(s.last()));
            assert(r.drop_last() == init.filter(p).map_values(v));
            assert(s.filter(p).map_values(v) =~= init.filter(p).map_values(v).push(v(s.last())));
            assert(r =~= r.drop_last().push(r.last()));
        } else {
            assert(f.ensures((s.last(),), None::<U>));
            law_filter_map(f, g, init, r);
            assert(s.filter(p) == init.filter(p));
        }
    } else {
        assert(r =~= s.filter(p).map_values(v));
    }
}

/// Mapping each element to several yields them one after the other.
pub proof fn law_flat_map<T, U, F: Fn(T) -> Vec<U>>(
    f: F,
    g: spec_fn(T) -> Seq<U>,
    s: Seq<T>,
    r: Seq<U>,
)
    requires
        forall|x: T, y: Vec<U>| #[trigger] f.ensures((x,), y) ==> y@ == g(x),
        is_flat_mapped(f, s, r),
    ensures
        r == s.map_values(g).flatten(),
    decreases s.len(),
{
    if s.len() > 0 {
        let items = choose|items: Vec<U>|
            {
                let n = r.len() - items@.len();
                &&& #[trigger] f.ensures((s.last(),), items)
                &&& n >= 0
                &&& items@ == r.skip(n)
                &&& is_flat_mapped(f, s.drop_last(), r.take(n))
            };
        let n = r.len() - items@.len();
        law_flat_map(f, g, s.drop_last(), r.take(n));
        assert(s.map_values(g) =~= s.drop_last().map_values(g).push(g(s.last())));
        lemma_flatten_next(s.drop_last().map_values(g), g(s.last()));
        assert(r =~= r.take(n) + r.skip(n));
    } else {
        assert(s.map_values(g) =~= Seq::empty());
        assert(r =~= Seq::empty());
    }
}

/// With a value, each element is paired with it; without one there is nothing. An open way lets
/// everything through, a closed one nothing.
pub proof fn law_tag_all<T, V>(s: Seq<T>, v: V)
    ensures
        tag_all(s, Some(v)).len() == s.len(),
        forall|i: int| 0 <= i < s.len() ==> #[trigger] tag_all(s, Some(v))[i] == (s[i], v),
        tag_all(s, None::<V>).len() == 0,
        gated(s, true) == s,
        gated(s, false).len() == 0,
{
}

/// All pairs: for each element of the first list, in order, its pairs with all elements of the
/// second one, in order.
pub proof fn law_pairs<T, U>(a: Seq<T>, b: Seq<U>)
    ensures
        pairs(a, b) == a.map_values(|x: T| b.map_values(|y: U| (x, y))).flatten(),
        forall|x: T, y: U| #[trigger]
            pairs(a, b).contains((x, y)) <==> a.contains(x) && b.contains(y),
        pairs(a, b).len() == a.len() * b.len(),
    decreases a.len(),
{
    let g = |x: T| b.map_values(|y: U| (x, y));
    if a.len() > 0 {
        let init = a.drop_last();
        law_pairs(init, b);
        assert(a.map_values(g) =~= init.map_values(g).push(g(a.last())));
        lemma_flatten_next(init.map_values(g), g(a.last()));
        assert(pairs_with(a.last(), b) =~= g(a.last()));
        assert(init.len() * b.len() + b.len() == a.len() * b.len()) by (nonlinear_arith)
            requires
                init.len() + 1 == a.len(),
        ;
        assert(a =~= init.push(a.last()));
        lemma_contains_push(init, a.last());
        let more = pairs_with(a.last(), b);
        assert forall|x: T, y: U| #[trigger] pairs(a, b).contains((x, y)) <==> a.contains(x)
            && b.contains(y) by {
            let all = pairs(init, b) + more;
            if all.contains((x, y)) {
                let i = choose|i: int| 0 <= i < all.len() && all[i] == (x, y);
                if i < pairs(init, b).len() {
                    assert(pairs(init, b)[i] == (x, y));
                    assert(pairs(init, b).contains((x, y)));
                } else {
                    assert(more[i - pairs(init, b).len()] == (x, y));
                    assert(b[i - pairs(init, b).len()] == y);
                }
            }
            if init.contains(x) && b.contains(y) {
                assert(pairs(init, b).contains((x, y)));
                let i = choose|i: int| 0 <= i < pairs(init, b).len() && pairs(init, b)[i] == (x, y);
                assert(all[i] == (x, y));
            }
            if x == a.last() && b.contains(y) {
                let j = choose|j: int| 0 <= j < b.len() && b[j] == y;
                assert(more[j] == (x, y));
                assert(all[pairs(init, b).len() + j] == (x, y));
            }
        }
    } else {
        assert(a.map_values(g) =~= Seq::empty());
        assert(a.len() * b.len() == 0) by (nonlinear_arith)
            requires
                a.len() == 0,
        ;
    }
}

/// All pairs of entries with equal keys: for each entry of the first list, in order, its pairs
/// with all entries of the second one that have its key, in order.
pub proof fn law_joined_pairs<K, V, W>(a: Seq<(K, V)>, b: Seq<(K, W)>)
    ensures
        joined_pairs(a, b) == a.map_values(
            |x: (K, V)|
                b.filter(|y: (K, W)| y.0 == x.0).map_values(|y: (K, W)| (x.0, (x.1, y.1))),
        ).flatten(),
        forall|k: K, v: V, w: W| #[trigger]
            joined_pairs(a, b).contains((k, (v, w))) <==> a.contains((k, v)) && b.contains((k, w)),
    decreases a.len(),
{
    let g = |x: (K, V)|
        b.filter(|y: (K, W)| y.0 == x.0).map_values(|y: (K, W)| (x.0, (x.1, y.1)));
    if a.len() > 0 {
        let init = a.drop_last();
        let x = a.last();
        law_joined_pairs(init, b);
        lemma_matches_with(x, b);
        assert(a.map_values(g) =~= init.map_values(g).push(g(x)));
        lemma_flatten_next(init.map_values(g), g(x));
        let more = matches_with(x, b);
        assert(a =~= init.push(x));
        lemma_contains_push(init, x);
        let old = joined_pairs(init, b);
        let all = old + more;
        assert forall|k: K, v: V, w: W| #[trigger]
            joined_pairs(a, b).contains((k, (v, w))) <==> a.contains((k, v)) && b.contains((k, w)) by {
            if all.contains((k, (v, w))) {
                let i = choose|i: int| 0 <= i < all.len() && all[i] == (k, (v, w));
                if i < old.len() {
                    assert(old[i] == (k, (v, w)));
                    assert(old.contains((k, (v, w))));
                } else {
                    assert(more[i - old.len()] == (k, (v, w)));
                    assert(more.contains((k, (v, w))));
                }
            }
            if init.contains((k, v)) && b.contains((k, w)) {
                assert(old.contains((k, (v, w))));
                let i = choose|i: int| 0 <= i < old.len() && old[i] == (k, (v, w));
                assert(all[i] == (k, (v, w)));
            }
            if x == (k, v) && b.contains((k, w)) {
                assert(more.contains((k, (v, w))));
                let i = choose|i: int| 0 <= i < more.len() && more[i] == (k, (v, w));
                assert(all[old.len() + i] == (k, (v, w)));
            }
        }
    } else {
        assert(a.map_values(g) =~= Seq::empty());
    }
}

proof fn lemma_matches_with<K, V, W>(x: (K, V), b: Seq<(K, W)>)
    ensures
        matches_with(x, b) == b.filter(|y: (K, W)| y.0 == x.0).map_values(
            |y: (K, W)| (x.0, (x.1, y.1)),
        ),
        forall|k: K, v: V, w: W| #[trigger]
            matches_with(x, b).contains((k, (v, w))) <==> x == (k, v) && b.contains((k, w)),
    decreases b.len(),
{
    reveal(Seq::filter);
    let p = |y: (K, W)| y.0 == x.0;
    let m = |y: (K, W)| (x.0, (x.1, y.1));
    if b.len() > 0 {
        let init = b.drop_last();
        let y = b.last();
        lemma_matches_with(x, init);
        assert(b =~= init.push(y));
        lemma_contains_push(init, y);
        lemma_contains_push(matches_with(x, init), (x.0, (x.1, y.1)));
        if y.0 == x.0 {
            assert(b.filter(p) == init.filter(p).push(y));
            assert(matches_with(x, b) =~= b.filter(p).map_values(m));
        }
        assert forall|k: K, v: V, w: W| #[trigger]
            matches_with(x, b).contains((k, (v, w))) <==> x == (k, v) && b.contains((k, w)) by {
            assert(matches_with(x, init).contains((k, (v, w))) <==> x == (k, v) && init.contains(
                (k, w),
            ));
        }
    } else {
        assert(matches_with(x, b) =~= b.filter(p).map_values(m));
    }
}

/// The pairs that become possible in a round are those of a new element with an old or a new
/// one; none of them was possible before, by place.
pub proof fn law_new_pairs<T, U>(seen_a: Seq<T>, a: Seq<T>, seen_b: Seq<U>, b: Seq<U>)
    ensures
        new_pairs(seen_a, a, seen_b, b).len() + seen_a.len() * seen_b.len() == (seen_a + a).len()
            * (seen_b + b).len(),
        forall|x: T, y: U| #[trigger]
            new_pairs(seen_a, a, seen_b, b).contains((x, y)) <==> (seen_a.contains(x)
                && b.contains(y)) || (a.contains(x) && (seen_b + b).contains(y)),
{
    law_pairs(seen_a, b);
    law_pairs(a, seen_b + b);
    let (n, m, p, q) = (seen_a.len() as int, a.len() as int, seen_b.len() as int, b.len() as int);
    assert(n * q + m * (p + q) + n * p == (n + m) * (p + q)) by (nonlinear_arith);
    let (l, r) = (pairs(seen_a, b), pairs(a, seen_b + b));
    assert forall|x: T, y: U| #[trigger]
        new_pairs(seen_a, a, seen_b, b).contains((x, y)) <==> (seen_a.contains(x) && b.contains(y))
            || (a.contains(x) && (seen_b + b).contains(y)) by {
        lemma_contains_add(l, r, (x, y));
        assert(l.contains((x, y)) <==> seen_a.contains(x) && b.contains(y));
        assert(r.contains((x, y)) <==> a.contains(x) && (seen_b + b).contains(y));
    }
}

/// The matches that become possible in a round are those of a new entry with an old or a new
/// one.
pub proof fn law_new_matches<K, V, W>(
    seen_a: Seq<(K, V)>,
    a: Seq<(K, V)>,
    seen_b: Seq<(K, W)>,
    b: Seq<(K, W)>,
)
    ensures
        forall|k: K, v: V, w: W| #[trigger]
            new_matches(seen_a, a, seen_b, b).contains((k, (v, w))) <==> (seen_a.contains((k, v))
                && b.contains((k, w))) || (a.contains((k, v)) && (seen_b + b).contains((k, w))),
{
    law_joined_pairs(seen_a, b);
    law_joined_pairs(a, seen_b + b);
    let (l, r) = (joined_pairs(seen_a, b), joined_pairs(a, seen_b + b));
    assert forall|k: K, v: V, w: W| #[trigger]
        new_matches(seen_a, a, seen_b, b).contains((k, (v, w))) <==> (seen_a.contains((k, v))
            && b.contains((k, w))) || (a.contains((k, v)) && (seen_b + b).contains((k, w))) by {
        lemma_contains_add(l, r, (k, (v, w)));
        assert(l.contains((k, (v, w))) <==> seen_a.contains((k, v)) && b.contains((k, w)));
        assert(r.contains((k, (v, w))) <==> a.contains((k, v)) && (seen_b + b).contains((k, w)));
    }
}

proof fn lemma_contains_add<T>(a: Seq<T>, b: Seq<T>, x: T)
    ensures
        (a + b).contains(x) <==> a.contains(x) || b.contains(x),
{
    if a.contains(x) {
        let i = choose|i: int| 0 <= i < a.len() && a[i] == x;
        assert((a + b)[i] == x);
    }
    if b.contains(x) {
        let i = choose|i: int| 0 <= i < b.len() && b[i] == x;
        assert((a + b)[a.len() + i] == x);
    }
    if (a + b).contains(x) {
        let i = choose|i: int| 0 <= i < (a + b).len() && (a + b)[i] == x;
        if i >= a.len() {
            assert(b[i - a.len()] == x);
        }
    }
}

/// Leaving out what another list holds keeps exactly the other elements, in order, each as often
/// as it was there.
pub proof fn law_without<T>(s: Seq<T>, neg: Seq<T>)
    ensures
        without(s, neg) == s.filter(|x: T| !neg.contains(x)),
        forall|x: T| #[trigger]
            without(s, neg).to_multiset().count(x) == (if neg.contains(x) {
                0
            } else {
                s.to_multiset().count(x)
            }),
        forall|x: T| #[trigger]
            without(s, neg).contains(x) <==> s.contains(x) && !neg.contains(x),
    decreases s.len(),
{
    broadcast use vstd::seq_lib::group_to_multiset_ensures;

    reveal(Seq::filter);
    if s.len() > 0 {
        let init = s.drop_last();
        law_without(init, neg);
        assert(s =~= init.push(s.last()));
        lemma_contains_push(init, s.last());
        lemma_contains_push(without(init, neg), s.last());
        assert forall|x: T| #[trigger]
            without(s, neg).to_multiset().count(x) == (if neg.contains(x) {
                0
            } else {
                s.to_multiset().count(x)
            }) by {
            assert(without(init, neg).to_multiset().count(x) == (if neg.contains(x) {
                0
            } else {
                init.to_multiset().count(x)
            }));
            assert(s.to_multiset() =~= init.to_multiset().insert(s.last()));
        }
        assert forall|x: T| #[trigger] without(s, neg).contains(x) <==> s.contains(x)
            && !neg.contains(x) by {
            assert(without(init, neg).contains(x) <==> init.contains(x) && !neg.contains(x));
        }
    }
}

/// Leaving out the entries whose keys another list holds keeps exactly the other entries, in
/// order, each as often as it was there.
pub proof fn law_without_keys<K, V>(s: Seq<(K, V)>, neg: Seq<K>)
    ensures
        without_keys(s, neg) == s.filter(|x: (K, V)| !neg.contains(x.0)),
        forall|x: (K, V)| #[trigger]
            without_keys(s, neg).to_multiset().count(x) == (if neg.contains(x.0) {
                0
            } else {
                s.to_multiset().count(x)
            }),
        forall|x: (K, V)| #[trigger]
            without_keys(s, neg).contains(x) <==> s.contains(x) && !neg.contains(x.0),
    decreases s.len(),
{
    broadcast use vstd::seq_lib::group_to_multiset_ensures;

    reveal(Seq::filter);
    if s.len() > 0 {
        let init = s.drop_last();
        law_without_keys(init, neg);
        assert(s =~= init.push(s.last()));
        lemma_contains_push(init, s.last());
        lemma_contains_push(without_keys(init, neg), s.last());
        assert forall|x: (K, V)| #[trigger]
            without_keys(s, neg).to_multiset().count(x) == (if neg.contains(x.0) {
                0
            } else {
                s.to_multiset().count(x)
            }) by {
            assert(without_keys(init, neg).to_multiset().count(x) == (if neg.contains(x.0) {
                0
            } else {
                init.to_multiset().count(x)
            }));
            assert(s.to_multiset() =~= init.to_multiset().insert(s.last()));
        }
        assert forall|x: (K, V)| #[trigger] without_keys(s, neg).contains(x) <==> s.contains(x)
            && !neg.contains(x.0) by {
            assert(without_keys(init, neg).contains(x) <==> init.contains(x) && !neg.contains(x.0));
        }
    }
}

/// Numbers count up from the start, one for each element, in order.
pub proof fn law_numbered<T>(s: Seq<T>, start: nat)
    requires
        start + s.len() <= usize::MAX,
    ensures
        numbered(s, start).len() == s.len(),
        forall|j: int|
            0 <= j < s.len() ==> (#[trigger] numbered(s, start)[j]).0 == start + j && numbered(
                s,
                start,
            )[j].1 == s[j],
{
}

/// What is new are the elements at the places where they occur for the first time, in order.
pub proof fn law_fresh_keeps_first<T>(s: Seq<T>, seen: Seq<T>)
    ensures
        fresh(s, seen) == Seq::new(s.len(), |i: int| i).filter(
            |i: int| !seen.contains(s[i]) && !s.take(i).contains(s[i]),
        ).map_values(|i: int| s[i]),
{
    lemma_fresh_places(s, seen, s.len() as int);
    assert(s.take(s.len() as int) =~= s);
}

proof fn lemma_fresh_places<T>(s: Seq<T>, seen: Seq<T>, n: int)
    requires
        0 <= n <= s.len(),
    ensures
        fresh(s.take(n), seen) == Seq::new(n as nat, |i: int| i).filter(
            |i: int| !seen.contains(s[i]) && !s.take(i).contains(s[i]),
        ).map_values(|i: int| s[i]),
    decreases n,
{
    reveal(Seq::filter);
    let p = |i: int| !seen.contains(s[i]) && !s.take(i).contains(s[i]);
    let v = |i: int| s[i];
    let places = Seq::new(n as nat, |i: int| i);
    if n > 0 {
        lemma_fresh_places(s, seen, n - 1);
        lemma_take_next(s, n - 1);
        let init = Seq::new((n - 1) as nat, |i: int| i);
        assert(places.drop_last() =~= init);
        assert(places.last() == n - 1);
        if p(n - 1) {
            assert(places.filter(p) == init.filter(p).push(n - 1));
            assert(places.filter(p).map_values(v) =~= init.filter(p).map_values(v).push(s[n - 1]));
        } else {
            assert(places.filter(p) == init.filter(p));
        }
    } else {
        assert(s.take(0) =~= Seq::empty());
        assert(places.filter(p).map_values(v) =~= Seq::empty());
    }
}

/// A sorted list of the same elements: each comes as often as before, and none comes after one
/// that is later in the order.
pub proof fn law_sort<T: Ranked>(s: Seq<T>, r: Seq<T>)
    requires
        is_sorted(r),
        is_permutation(r, s),
    ensures
        r.to_multiset() == s.to_multiset(),
        forall|i: int, j: int|
            0 <= i < j < r.len() ==> (#[trigger] r[i]).up_to(#[trigger] r[j]),
{
}

/// The last element in the order is among the elements, and none comes after it; the first one
/// likewise. There is one if there is any element.
pub proof fn law_extremes<T: Ranked>(s: Seq<T>, max: Option<T>, min: Option<T>)
    requires
        is_max(s, max),
        is_min(s, min),
    ensures
        max is Some <==> s.len() > 0,
        min is Some <==> s.len() > 0,
        max matches Some(m) ==> s.contains(m) && forall|x: T| #[trigger]
            s.contains(x) ==> x.up_to(m),
        min matches Some(m) ==> s.contains(m) && forall|x: T| #[trigger]
            s.contains(x) ==> m.up_to(x),
{
}

/// Numbers are ordered by their size, ballots by their numbers and then by their proposers, and
/// pairs by their first part and then by their second.
pub proof fn law_ranks(
    a: (u32, u32),
    b: (u64, u64),
    c: (usize, usize),
    d: (i32, i32),
    e: (i64, i64),
    f: (crate::paxos::Ballot, crate::paxos::Ballot),
    p: (u32, u64),
    q: (u32, u64),
)
    ensures
        a.0.up_to(a.1) <==> a.0 <= a.1,
        b.0.up_to(b.1) <==> b.0 <= b.1,
        c.0.up_to(c.1) <==> c.0 <= c.1,
        d.0.up_to(d.1) <==> d.0 <= d.1,
        e.0.up_to(e.1) <==> e.0 <= e.1,
        f.0.up_to(f.1) <==> f.0.num < f.1.num || (f.0.num == f.1.num
            && f.0.proposer_id.raw_id <= f.1.proposer_id.raw_id),
        p.up_to(q) <==> p.0 < q.0 || (p.0 == q.0 && p.1 <= q.1),
{
}

} // verus!
