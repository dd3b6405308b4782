//! Operators that remember what they have seen.
use super::{before, extend_list, flat, lemma_before_grows, list_contains, memory, Trace};
use crate::datum::{Datum, Dup};
use crate::seqs::{lemma_contains_push, lemma_take_next};
use vstd::prelude::*;

verus! {

/// The elements of `s` that are new: not among `seen`, and not earlier in `s`.
pub open spec fn fresh<T>(s: Seq<T>, seen: Seq<T>) -> Seq<T>
    decreases s.len(),
{
    if s.len() == 0 {
        Seq::empty()
    } else if seen.contains(s.last()) || s.drop_last().contains(s.last()) {
        fresh(s.drop_last(), seen)
    } else {
        fresh(s.drop_last(), seen).push(s.last())
    }
}

/// What is new occurs once, and exactly the elements that were not seen before occur.
pub proof fn law_fresh_occurs_once<T>(s: Seq<T>, seen: Seq<T>)
    ensures
        fresh(s, seen).no_duplicates(),
        forall|x: T| #[trigger] fresh(s, seen).contains(x) <==> s.contains(x) && !seen.contains(x),
    decreases s.len(),
{
    if s.len() > 0 {
        let init = s.drop_last();
        law_fresh_occurs_once(init, seen);
        assert(s =~= init.push(s.last()));
        assert(fresh(init, seen).contains(s.last()) <==> init.contains(s.last()) && !seen.contains(
            s.last(),
        ));
        assert forall|x: T| #[trigger] fresh(s, seen).contains(x) <==> s.contains(x)
            && !seen.contains(x) by {
            lemma_contains_push(init, s.last());
            lemma_contains_push(fresh(init, seen), s.last());
        }
    }
}

/// The elements of `s` with consecutive numbers.
pub open spec fn numbered<T>(s: Seq<T>, start: nat) -> Seq<(usize, T)> {
    Seq::new(s.len(), |j: int| ((start + j) as usize, s[j]))
}

impl<T: Datum> Trace<T> {
    /// The elements that have not occurred before.
    pub fn unique(&self, keep: bool) -> (r: Trace<T>)
        ensures
            r@.len() == self@.len(),
            forall|i: int|
                0 <= i < r@.len() ==> #[trigger] r@[i] == fresh(self@[i], memory(self@, i, keep)),
    {
        let n: usize = self.len();
        let mut r: Trace<T> = Trace::new();
        let mut seen: Vec<T> = Vec::new();
        for i in 0..n
            invariant
                n == self@.len(),
                seen@ == memory(self@, i as int, keep),
                r@.len() == i,
                forall|k: int|
                    0 <= k < r@.len() ==> #[trigger] r@[k] == fresh(
                        self@[k],
                        memory(self@, k, keep),
                    ),
        {
            let a = self.round(i);
            let mut out: Vec<T> = Vec::new();
            let mut earlier: Vec<T> = Vec::new();
            for j in 0..a.len()
                invariant
                    earlier@ == a@.take(j as int),
                    out@ == fresh(a@.take(j as int), seen@),
            {
                proof {
                    lemma_take_next(a@, j as int);
                }
                if !list_contains(&seen, &a[j]) && !list_contains(&earlier, &a[j]) {
                    out.push(a[j].dup());
                }
                earlier.push(a[j].dup());
            }
            assert(a@.take(a.len() as int) =~= a@);
            r.push(out);
            if keep {
                extend_list(&mut seen, a);
            }
        }
        r
    }
}

impl<T> Trace<T> {
    /// Each element with its number.
    pub fn enumerate(self, keep: bool) -> (r: Trace<(usize, T)>)
        requires
            flat(self@).len() <= usize::MAX,
        ensures
            r@.len() == self@.len(),
            forall|i: int|
                0 <= i < r@.len() ==> #[trigger] r@[i] == numbered(
                    self@[i],
                    memory(self@, i, keep).len(),
                ),
    {
        let ghost t = self@;
        let mut r: Trace<(usize, T)> = Trace::new();
        let mut count: usize = 0;
        for round in it: self.rounds
            invariant
                it.seq().len() == t.len(),
                forall|i: int| 0 <= i < t.len() ==> (#[trigger] it.seq()[i])@ == t[i],
                flat(t).len() <= usize::MAX,
                count == memory(t, it.index(), keep).len(),
                r@.len() == it.index(),
                forall|i: int|
                    0 <= i < r@.len() ==> #[trigger] r@[i] == numbered(
                        t[i],
                        memory(t, i, keep).len(),
                    ),
        {
            let ghost k = it.index();
            proof {
                lemma_before_grows(t, k + 1, t.len() as int);
            }
            let len: usize = round.len();
            let mut out: Vec<(usize, T)> = Vec::new();
            for x in it2: round
                invariant
                    0 <= k < t.len(),
                    it2.seq() == t[k],
                    count + t[k].len() <= usize::MAX,
                    out@.len() == it2.index(),
                    forall|j: int|
                        0 <= j < out@.len() ==> #[trigger] out@[j] == ((count + j) as usize, t[k][j]),
            {
                let number: usize = count + out.len();
                out.push((number, x));
            }
            assert(out@ =~= numbered(t[k], count as nat));
            r.push(out);
            if keep {
                count += len;
            }
        }
        r
    }
}

/// Whether `states` are the successive accumulators of a fold over `s`.
pub open spec fn is_fold_run<A, T, I: Fn() -> A, F: Fn(A, T) -> A>(
    init: I,
    comb: F,
    s: Seq<T>,
    states: Seq<A>,
) -> bool {
    &&& states.len() == s.len() + 1
    &&& init.ensures((), states[0])
    &&& forall|j: int| 0 <= j < s.len() ==> comb.ensures((states[j], #[trigger] s[j]), states[j + 1])
}

/// Whether a fold over `s` gives `a`.
pub open spec fn folds_to<A, T, I: Fn() -> A, F: Fn(A, T) -> A>(
    init: I,
    comb: F,
    s: Seq<T>,
    a: A,
) -> bool {
    exists|states: Seq<A>| #[trigger] is_fold_run(init, comb, s, states) && states.last() == a
}

/// Whether a fold over `s` can be carried out: `comb` accepts each element together with what
/// the elements before it may have given.
pub open spec fn can_fold<A, T, I: Fn() -> A, F: Fn(A, T) -> A>(
    init: I,
    comb: F,
    s: Seq<T>,
) -> bool {
    &&& init.requires(())
    &&& forall|n: int, a: A|
        0 <= n < s.len() && #[trigger] folds_to(init, comb, s.take(n), a) ==> comb.requires(
            (a, s[n]),
        )
}

/// Where in the run of a fold the states of a round begin: the first round begins with
/// the initial state, each other one after the states before.
pub open spec fn states_from<T>(t: Seq<Seq<T>>, i: int) -> int {
    if i == 0 {
        0
    } else {
        before(t, i).len() as int + 1
    }
}

/// The states that a fold goes through in a round.
pub open spec fn states_in<A, T>(states: Seq<A>, t: Seq<Seq<T>>, i: int) -> Seq<A> {
    states.subrange(states_from(t, i), before(t, i + 1).len() as int + 1)
}

/// Whether `r` tells, round by round, the states of a fold over all elements.
pub open spec fn is_running_fold<A, T, I: Fn() -> A, F: Fn(A, T) -> A>(
    init: I,
    comb: F,
    t: Seq<Seq<T>>,
    r: Seq<Seq<A>>,
) -> bool {
    &&& r.len() == t.len()
    &&& exists|states: Seq<A>| #[trigger] is_fold_run(init, comb, flat(t), states) && forall|i: int|
        0 <= i < t.len() ==> #[trigger] r[i] == states_in(states, t, i)
}

impl<T> Trace<T> {
    /// A fold over each round.
    pub fn fold_each<A, I: Fn() -> A, F: Fn(A, T) -> A>(self, init: &I, comb: &F) -> (r: Trace<A>)
        requires
            forall|i: int| 0 <= i < self@.len() ==> can_fold(*init, *comb, #[trigger] self@[i]),
        ensures
            r@.len() == self@.len(),
            forall|i: int|
                0 <= i < r@.len() ==> (#[trigger] r@[i]).len() == 1 && folds_to(
                    *init,
                    *comb,
                    self@[i],
                    r@[i][0],
                ),
    {
        let ghost t = self@;
        let mut r: Trace<A> = Trace::new();
        for round in it: self.rounds
            invariant
                forall|i: int| 0 <= i < t.len() ==> can_fold(*init, *comb, #[trigger] t[i]),
                it.seq().len() == t.len(),
                forall|i: int| 0 <= i < t.len() ==> (#[trigger] it.seq()[i])@ == t[i],
                r@.len() == it.index(),
                forall|i: int|
                    0 <= i < r@.len() ==> (#[trigger] r@[i]).len() == 1 && folds_to(
                        *init,
                        *comb,
                        t[i],
                        r@[i][0],
                    ),
        {
            let ghost k = it.index();
            assert(can_fold(*init, *comb, t[k]));
            let mut acc = init();
            let ghost mut states: Seq<A> = seq![acc];
            for x in it2: round
                invariant
                    0 <= k < t.len(),
                    can_fold(*init, *comb, t[k]),
                    it2.seq() == t[k],
                    is_fold_run(*init, *comb, t[k].take(it2.index()), states),
                    states.last() == acc,
            {
                let ghost n = it2.index();
                assert(folds_to(*init, *comb, t[k].take(n), acc));
                acc = comb(acc, x);
                proof {
                    let old_states = states;
                    states = states.push(acc);
                    assert forall|j: int| 0 <= j < n + 1 implies comb.ensures(
                        (states[j], #[trigger] t[k].take(n + 1)[j]),
                        states[j + 1],
                    ) by {
                        if j < n {
                            assert(t[k].take(n)[j] == t[k].take(n + 1)[j]);
                        }
                    }
                }
            }
            assert(t[k].take(t[k].len() as int) =~= t[k]);
            assert(is_fold_run(*init, *comb, t[k], states));
            let mut one: Vec<A> = Vec::new();
            one.push(acc);
            r.push(one);
        }
        r
    }

    /// A fold over all elements, with all states that it goes through.
    pub fn fold_running<A: Dup, I: Fn() -> A, F: Fn(A, T) -> A>(self, init: &I, comb: &F) -> (r:
        Trace<A>)
        requires
            can_fold(*init, *comb, flat(self@)),
        ensures
            is_running_fold(*init, *comb, self@, r@),
    {
        let ghost t = self@;
        let mut r: Trace<A> = Trace::new();
        let mut acc = init();
        let ghost mut states: Seq<A> = seq![acc];
        for round in it: self.rounds
            invariant
                can_fold(*init, *comb, flat(t)),
                it.seq().len() == t.len(),
                forall|i: int| 0 <= i < t.len() ==> (#[trigger] it.seq()[i])@ == t[i],
                r@.len() == it.index(),
                is_fold_run(*init, *comb, before(t, it.index()), states),
                states.last() == acc,
                forall|i: int| 0 <= i < r@.len() ==> #[trigger] r@[i] == states_in(states, t, i),
        {
            let ghost k = it.index();
            let ghost seen = before(t, k);
            let ghost states0 = states;
            let mut out: Vec<A> = Vec::new();
            if r.len() == 0 {
                out.push(acc.dup());
            }
            for x in it2: round
                invariant
                    can_fold(*init, *comb, flat(t)),
                    0 <= k < t.len(),
                    it2.seq() == t[k],
                    seen == before(t, k),
                    states0.len() == seen.len() + 1,
                    states.len() == seen.len() + it2.index() + 1,
                    states0 =~= states.take(states0.len() as int),
                    is_fold_run(*init, *comb, seen + t[k].take(it2.index()), states),
                    states.last() == acc,
                    out@ =~= states.skip(states_from(t, k)),
            {
                let ghost n = it2.index();
                proof {
                    super::lemma_flat_take(t, k, n);
                    assert(folds_to(*init, *comb, flat(t).take(seen.len() + n), acc));
                }
                acc = comb(acc, x);
                out.push(acc.dup());
                proof {
                    let done = seen + t[k].take(n);
                    let more = seen + t[k].take(n + 1);
                    let old_states = states;
                    states = states.push(acc);
                    lemma_take_next(t[k], n);
                    assert(more =~= done.push(x));
                    assert forall|j: int| 0 <= j < more.len() implies comb.ensures(
                        (states[j], #[trigger] more[j]),
                        states[j + 1],
                    ) by {
                        if j < done.len() {
                            assert(done[j] == more[j]);
                        }
                    }
                }
            }
            proof {
                assert(t[k].take(t[k].len() as int) =~= t[k]);
                assert(seen + t[k] == before(t, k + 1));
                assert forall|i: int| 0 <= i < r@.len() implies #[trigger] r@[i] == states_in(
                    states,
                    t,
                    i,
                ) by {
                    lemma_before_grows(t, i + 1, k);
                    assert(states_in(states, t, i) =~= states_in(states0, t, i));
                }
                assert(out@ =~= states_in(states, t, k));
            }
            r.push(out);
        }
        assert(is_fold_run(*init, *comb, flat(t), states));
        r
    }
}

/// Whether `states` are the successive results of reducing `s`: none at first, then the
/// first element, then what `f` makes of the result and the next element.
pub open spec fn is_reduce_run<T, F: Fn(T, T) -> T>(
    f: F,
    s: Seq<T>,
    states: Seq<Option<T>>,
) -> bool {
    &&& states.len() == s.len() + 1
    &&& states[0] is None
    &&& forall|j: int|
        0 <= j < s.len() ==> reduce_step(f, states[j], #[trigger] s[j], states[j + 1])
}

/// One step of reducing.
pub open spec fn reduce_step<T, F: Fn(T, T) -> T>(
    f: F,
    acc: Option<T>,
    x: T,
    next: Option<T>,
) -> bool {
    match acc {
        None => next == Some(x),
        Some(a) => next matches Some(b) && f.ensures((a, x), b),
    }
}

/// Whether reducing `s` gives `a`.
pub open spec fn reduces_to<T, F: Fn(T, T) -> T>(f: F, s: Seq<T>, a: Option<T>) -> bool {
    exists|states: Seq<Option<T>>| #[trigger] is_reduce_run(f, s, states) && states.last() == a
}

/// Whether `s` can be reduced: `f` accepts each element but the first together with what the
/// elements before it may have given.
pub open spec fn can_reduce<T, F: Fn(T, T) -> T>(f: F, s: Seq<T>) -> bool {
    forall|n: int, a: T|
        0 <= n < s.len() && #[trigger] reduces_to(f, s.take(n), Some(a)) ==> f.requires((a, s[n]))
}

/// Whether `r` tells, round by round, the results of reducing all elements.
pub open spec fn is_running_reduce<T, F: Fn(T, T) -> T>(
    f: F,
    t: Seq<Seq<T>>,
    r: Seq<Seq<Option<T>>>,
) -> bool {
    &&& r.len() == t.len()
    &&& exists|states: Seq<Option<T>>| #[trigger] is_reduce_run(f, flat(t), states) && forall|i: int|
        0 <= i < t.len() ==> #[trigger] r[i] == states_in(states, t, i)
}

/// Reducing is a fold.
proof fn lemma_can_fold_reduce<
    T,
    F: Fn(T, T) -> T,
    I: Fn() -> Option<T>,
    G: Fn(Option<T>, T) -> Option<T>,
>(f: F, init: I, comb: G, s: Seq<T>)
    requires
        can_reduce(f, s),
        init.requires(()),
        forall|r: Option<T>| init.ensures((), r) ==> r is None,
        forall|acc: Option<T>, x: T|
            (acc matches Some(a) ==> f.requires((a, x))) ==> #[trigger] comb.requires((acc, x)),
        forall|acc: Option<T>, x: T, r: Option<T>| #[trigger]
            comb.ensures((acc, x), r) ==> reduce_step(f, acc, x, r),
    ensures
        can_fold(init, comb, s),
{
    assert forall|n: int, acc: Option<T>|
        0 <= n < s.len() && #[trigger] folds_to(init, comb, s.take(n), acc) implies comb.requires(
        (acc, s[n]),
    ) by {
        let states = choose|states: Seq<Option<T>>| #[trigger]
            is_fold_run(init, comb, s.take(n), states) && states.last() == acc;
        assert(is_reduce_run(f, s.take(n), states));
        assert(reduces_to(f, s.take(n), acc));
    }
}

impl<T> Trace<T> {
    /// Reduces each round.
    pub fn reduce_each<F: Fn(T, T) -> T>(self, f: &F) -> (r: Trace<Option<T>>)
        requires
            forall|i: int| 0 <= i < self@.len() ==> can_reduce(*f, #[trigger] self@[i]),
        ensures
            r@.len() == self@.len(),
            forall|i: int|
                0 <= i < r@.len() ==> (#[trigger] r@[i]).len() == 1 && reduces_to(
                    *f,
                    self@[i],
                    r@[i][0],
                ),
    {
        let ghost t = self@;
        let init = || -> (r: Option<T>)
            ensures
                r is None,
            { None };
        let ghost accepts = |a: T, x: T| f.requires((a, x));
        let comb = |acc: Option<T>, x: T| -> (r: Option<T>)
            requires
                acc matches Some(a) ==> accepts(a, x),
            ensures
                reduce_step(*f, acc, x, r),
            {
                match acc {
                    None => Some(x),
                    Some(a) => Some(f(a, x)),
                }
            };
        proof {
            assert forall|i: int| 0 <= i < t.len() implies can_fold(init, comb, #[trigger] t[i]) by {
                lemma_can_fold_reduce(*f, init, comb, t[i]);
            }
        }
        let r = self.fold_each(&init, &comb);
        proof {
            assert forall|i: int| 0 <= i < r@.len() implies (#[trigger] r@[i]).len() == 1
                && reduces_to(*f, t[i], r@[i][0]) by {
                assert(folds_to(init, comb, t[i], r@[i][0]));
                let states = choose|states: Seq<Option<T>>| #[trigger]
                    is_fold_run(init, comb, t[i], states) && states.last() == r@[i][0];
                assert(is_reduce_run(*f, t[i], states));
            }
        }
        r
    }

    /// Reduces all elements, with all results on the way.
    pub fn reduce_running<F: Fn(T, T) -> T>(self, f: &F) -> (r: Trace<Option<T>>) where T: Dup
        requires
            can_reduce(*f, flat(self@)),
        ensures
            is_running_reduce(*f, self@, r@),
    {
        let ghost t = self@;
        let init = || -> (r: Option<T>)
            ensures
                r is None,
            { None };
        let ghost accepts = |a: T, x: T| f.requires((a, x));
        let comb = |acc: Option<T>, x: T| -> (r: Option<T>)
            requires
                acc matches Some(a) ==> accepts(a, x),
            ensures
                reduce_step(*f, acc, x, r),
            {
                match acc {
                    None => Some(x),
                    Some(a) => Some(f(a, x)),
                }
            };
        proof {
            lemma_can_fold_reduce(*f, init, comb, flat(t));
        }
        let r = self.fold_running(&init, &comb);
        proof {
            let states = choose|states: Seq<Option<T>>| #[trigger]
                is_fold_run(init, comb, flat(t), states) && forall|i: int|
                    0 <= i < t.len() ==> #[trigger] r@[i] == states_in(states, t, i);
            assert(is_reduce_run(*f, flat(t), states));
        }
        r
    }
}

/// Whether `outs` are the outputs of a scan over `s` that goes through `states`. It ends
/// at the first element for which there is no output.
pub open spec fn is_scan_run<A, T, U, I: Fn() -> A, F: Fn(A, T) -> (A, Option<U>)>(
    init: I,
    f: F,
    s: Seq<T>,
    states: Seq<A>,
    outs: Seq<U>,
) -> bool {
    &&& outs.len() <= s.len()
    &&& states.len() == outs.len() + 1
    &&& init.ensures((), states[0])
    &&& forall|j: int|
        0 <= j < outs.len() ==> f.ensures(
            (states[j], s[j]),
            (states[j + 1], Some(#[trigger] outs[j])),
        )
    &&& outs.len() < s.len() ==> exists|a: A| #[trigger]
        f.ensures((states.last(), s[outs.len() as int]), (a, None))
}

/// Whether a scan over `s` gives `outs`.
pub open spec fn scans_to<A, T, U, I: Fn() -> A, F: Fn(A, T) -> (A, Option<U>)>(
    init: I,
    f: F,
    s: Seq<T>,
    outs: Seq<U>,
) -> bool {
    exists|states: Seq<A>| #[trigger] is_scan_run(init, f, s, states, outs)
}

/// Whether a scan over `s` has come to the end of it and is in the state `a`.
pub open spec fn scan_reaches<A, T, U, I: Fn() -> A, F: Fn(A, T) -> (A, Option<U>)>(
    init: I,
    f: F,
    s: Seq<T>,
    a: A,
) -> bool {
    exists|states: Seq<A>, outs: Seq<U>| #[trigger]
        is_scan_run(init, f, s, states, outs) && outs.len() == s.len() && states.last() == a
}

/// Whether a scan over `s` can be carried out: `f` accepts each element together with the state
/// that the elements before it may have led to.
pub open spec fn can_scan<A, T, U, I: Fn() -> A, F: Fn(A, T) -> (A, Option<U>)>(
    init: I,
    f: F,
    s: Seq<T>,
) -> bool {
    &&& init.requires(())
    &&& forall|n: int, a: A|
        0 <= n < s.len() && #[trigger] scan_reaches(init, f, s.take(n), a) ==> f.requires(
            (a, s[n]),
        )
}

pub open spec fn at_most(a: int, b: int) -> int {
    if a <= b {
        a
    } else {
        b
    }
}

/// The outputs of a scan that belong to a round.
pub open spec fn outputs_in<T, U>(outs: Seq<U>, t: Seq<Seq<T>>, i: int) -> Seq<U> {
    outs.subrange(
        at_most(before(t, i).len() as int, outs.len() as int),
        at_most(before(t, i + 1).len() as int, outs.len() as int),
    )
}

/// Whether `r` tells, round by round, the outputs of a scan over all elements.
pub open spec fn is_running_scan<A, T, U, I: Fn() -> A, F: Fn(A, T) -> (A, Option<U>)>(
    init: I,
    f: F,
    t: Seq<Seq<T>>,
    r: Seq<Seq<U>>,
) -> bool {
    &&& r.len() == t.len()
    &&& scans_to(init, f, flat(t), flat(r))
    &&& forall|i: int| 0 <= i < t.len() ==> #[trigger] r[i] == outputs_in(flat(r), t, i)
}

impl<T> Trace<T> {
    /// A scan over each round.
    pub fn scan_each<A, U, I: Fn() -> A, F: Fn(A, T) -> (A, Option<U>)>(
        self,
        init: &I,
        f: &F,
    ) -> (r: Trace<U>)
        requires
            forall|i: int| 0 <= i < self@.len() ==> can_scan(*init, *f, #[trigger] self@[i]),
        ensures
            r@.len() == self@.len(),
            forall|i: int| 0 <= i < r@.len() ==> scans_to(*init, *f, self@[i], #[trigger] r@[i]),
    {
        let ghost t = self@;
        let mut r: Trace<U> = Trace::new();
        for round in it: self.rounds
            invariant
                forall|i: int| 0 <= i < t.len() ==> can_scan(*init, *f, #[trigger] t[i]),
                it.seq().len() == t.len(),
                forall|i: int| 0 <= i < t.len() ==> (#[trigger] it.seq()[i])@ == t[i],
                r@.len() == it.index(),
                forall|i: int| 0 <= i < r@.len() ==> scans_to(*init, *f, t[i], #[trigger] r@[i]),
        {
            let ghost k = it.index();
            assert(can_scan(*init, *f, t[k]));
            let mut acc = init();
            let ghost mut states: Seq<A> = seq![acc];
            let mut out: Vec<U> = Vec::new();
            let mut done = false;
            for x in it2: round
                invariant
                    can_scan(*init, *f, t[k]),
                    0 <= k < t.len(),
                    it2.seq() == t[k],
                    is_scan_run(*init, *f, t[k].take(it2.index()), states, out@),
                    done ==> out@.len() < it2.index(),
                    !done ==> out@.len() == it2.index() && states.last() == acc,
            {
                let ghost n = it2.index();
                let ghost old_states = states;
                let ghost old_out = out@;
                if !done {
                    assert(scan_reaches(*init, *f, t[k].take(n), acc));
                    let (next, y) = f(acc, x);
                    acc = next;
                    match y {
                        Some(y) => {
                            out.push(y);
                            proof {
                                states = states.push(acc);
                            }
                        },
                        None => {
                            assert(f.ensures((old_states.last(), t[k][n]), (acc, None)));
                            done = true;
                        },
                    }
                }
                proof {
                    let s = t[k].take(n + 1);
                    assert forall|j: int| 0 <= j < out@.len() implies f.ensures(
                        (states[j], s[j]),
                        (states[j + 1], Some(#[trigger] out@[j])),
                    ) by {
                        if j < old_out.len() {
                            assert(old_out[j] == out@[j]);
                            assert(t[k].take(n)[j] == s[j]);
                        }
                    }
                    if out@.len() < s.len() && old_out.len() < n {
                        assert(t[k].take(n)[old_out.len() as int] == s[out@.len() as int]);
                    }
                }
            }
            assert(t[k].take(t[k].len() as int) =~= t[k]);
            assert(is_scan_run(*init, *f, t[k], states, out@));
            r.push(out);
        }
        r
    }

    /// A scan over all elements.
    pub fn scan_running<A, U, I: Fn() -> A, F: Fn(A, T) -> (A, Option<U>)>(
        self,
        init: &I,
        f: &F,
    ) -> (r: Trace<U>)
        requires
            can_scan(*init, *f, flat(self@)),
        ensures
            is_running_scan(*init, *f, self@, r@),
    {
        let ghost t = self@;
        let mut r: Trace<U> = Trace::new();
        let mut acc = init();
        let ghost mut states: Seq<A> = seq![acc];
        let ghost mut outs: Seq<U> = Seq::empty();
        let mut done = false;
        for round in it: self.rounds
            invariant
                can_scan(*init, *f, flat(t)),
                it.seq().len() == t.len(),
                forall|i: int| 0 <= i < t.len() ==> (#[trigger] it.seq()[i])@ == t[i],
                r@.len() == it.index(),
                outs == before(r@, it.index()),
                is_scan_run(*init, *f, before(t, it.index()), states, outs),
                done ==> outs.len() < before(t, it.index()).len(),
                !done ==> outs.len() == before(t, it.index()).len() && states.last() == acc,
                forall|i: int| 0 <= i < r@.len() ==> #[trigger] r@[i] == outputs_in(outs, t, i),
        {
            let ghost k = it.index();
            let ghost seen = before(t, k);
            let ghost outs0 = outs;
            let mut out: Vec<U> = Vec::new();
            for x in it2: round
                invariant
                    can_scan(*init, *f, flat(t)),
                    0 <= k < t.len(),
                    it2.seq() == t[k],
                    seen == before(t, k),
                    outs =~= outs0 + out@,
                    outs0.len() <= seen.len(),
                    outs0.len() < seen.len() ==> done && out@.len() == 0,
                    is_scan_run(*init, *f, seen + t[k].take(it2.index()), states, outs),
                    done ==> outs.len() < seen.len() + it2.index(),
                    !done ==> outs.len() == seen.len() + it2.index() && states.last() == acc,
            {
                let ghost n = it2.index();
                let ghost old_states = states;
                let ghost old_outs = outs;
                let ghost s0 = seen + t[k].take(n);
                let ghost s = seen + t[k].take(n + 1);
                if !done {
                    proof {
                        super::lemma_flat_take(t, k, n);
                        assert(scan_reaches(*init, *f, flat(t).take(seen.len() + n), acc));
                    }
                    let (next, y) = f(acc, x);
                    acc = next;
                    match y {
                        Some(y) => {
                            out.push(y);
                            proof {
                                states = states.push(acc);
                                outs = outs.push(y);
                            }
                        },
                        None => {
                            assert(s[s0.len() as int] == x);
                            assert(f.ensures((old_states.last(), s[s0.len() as int]), (acc, None)));
                            done = true;
                        },
                    }
                }
                proof {
                    assert forall|j: int| 0 <= j < outs.len() implies f.ensures(
                        (states[j], s[j]),
                        (states[j + 1], Some(#[trigger] outs[j])),
                    ) by {
                        if j < old_outs.len() {
                            assert(old_outs[j] == outs[j]);
                            assert(s0[j] == s[j]);
                        }
                    }
                    if outs.len() < s.len() && old_outs.len() < s0.len() {
                        assert(s0[old_outs.len() as int] == s[outs.len() as int]);
                    }
                }
            }
            proof {
                assert(t[k].take(t[k].len() as int) =~= t[k]);
                assert(seen + t[k] == before(t, k + 1));
                assert forall|i: int| 0 <= i < r@.len() implies #[trigger] r@[i] == outputs_in(
                    outs,
                    t,
                    i,
                ) by {
                    lemma_before_grows(t, i, k);
                    lemma_before_grows(t, i + 1, k);
                    assert(outputs_in(outs0, t, i) =~= outputs_in(outs, t, i));
                }
                assert(out@ =~= outputs_in(outs, t, k));
            }
            let ghost r0 = r@;
            r.push(out);
            proof {
                super::lemma_before_prefix(r0, r@, k);
                assert(before(r@, k + 1) == before(r@, k) + out@);
            }
        }
        assert(flat(r@) == outs);
        r
    }
}

} // verus!
