//! What non-determinism can make of a trace.
use super::order::is_permutation;
use super::{before, fits, flat, lemma_before_grows, Trace};
use crate::datum::Dup;
use crate::nondet::{choose_spec, NonDet};
use vstd::prelude::*;

verus! {

/// Takes `n` elements out of a list, each by a choice among those that are left.
/// Returns the elements taken, in that order, and the rest.
pub open spec fn pick<T>(s: Seq<T>, n: nat, choices: Seq<usize>, from: int) -> (Seq<T>, Seq<T>)
    decreases n,
{
    if n == 0 || s.len() == 0 {
        (Seq::empty(), s)
    } else {
        let k = choose_spec(choices, from, s.len());
        let (taken, rest) = pick(s.remove(k), (n - 1) as nat, choices, from + 1);
        (seq![s[k]] + taken, rest)
    }
}

/// An empty list holds nothing.
pub proof fn lemma_no_elements<T>(s: Seq<T>)
    requires
        s.len() == 0,
    ensures
        s.to_multiset() == vstd::multiset::Multiset::<T>::empty(),
{
    assert forall|x: T| s.to_multiset().count(x) == 0 by {
        vstd::seq_lib::to_multiset_contains(s, x);
    }
    assert(s.to_multiset() =~= vstd::multiset::Multiset::<T>::empty());
}

proof fn lemma_pick<T>(s: Seq<T>, n: nat, choices: Seq<usize>, from: int)
    requires
        n <= s.len(),
    ensures
        pick(s, n, choices, from).0.len() == n,
        pick(s, n, choices, from).1.len() == s.len() - n,
        pick(s, n, choices, from).0.to_multiset().add(
            pick(s, n, choices, from).1.to_multiset(),
        ) =~= s.to_multiset(),
    decreases n,
{
    if n > 0 {
        let k = choose_spec(choices, from, s.len());
        assert(0 <= k < s.len());
        lemma_pick(s.remove(k), (n - 1) as nat, choices, from + 1);
        let (taken, rest) = pick(s.remove(k), (n - 1) as nat, choices, from + 1);
        vstd::seq_lib::to_multiset_remove(s, k);
        vstd::seq_lib::to_multiset_contains(s, s[k]);
        assert(s.contains(s[k]));
        assert(seq![s[k]] + taken =~= taken.insert(0, s[k]));
        vstd::seq_lib::to_multiset_insert(taken, 0, s[k]);
        assert(s.remove(k).to_multiset().insert(s[k]) =~= s.to_multiset());
        assert(taken.to_multiset().insert(s[k]).add(rest.to_multiset())
            =~= taken.to_multiset().add(rest.to_multiset()).insert(s[k]));
    } else {
        lemma_no_elements(Seq::<T>::empty());
    }
}

/// A list in another order.
pub open spec fn shuffled<T>(s: Seq<T>, choices: Seq<usize>, from: int) -> Seq<T> {
    pick(s, s.len(), choices, from).0
}

/// Whatever the choices, the elements stay the same.
pub proof fn law_shuffle_keeps_elements<T>(s: Seq<T>, choices: Seq<usize>, from: int)
    ensures
        is_permutation(shuffled(s, choices, from), s),
        shuffled(s, choices, from).len() == s.len(),
{
    lemma_pick(s, s.len(), choices, from);
    let rest = pick(s, s.len(), choices, from).1;
    lemma_no_elements(rest);
    assert(shuffled(s, choices, from).to_multiset() =~= s.to_multiset());
}

/// Choices with which `shuffled` gives the list `p`.
pub open spec fn choices_for<T>(s: Seq<T>, p: Seq<T>) -> Seq<usize>
    decreases p.len(),
{
    if p.len() == 0 {
        Seq::empty()
    } else {
        let k = s.index_of(p[0]);
        seq![k as usize] + choices_for(s.remove(k), p.skip(1))
    }
}

proof fn lemma_pick_shift<T>(s: Seq<T>, n: nat, c1: Seq<usize>, from1: int, c2: Seq<usize>, from2: int)
    requires
        forall|j: int|
            0 <= j < n ==> crate::nondet::draw_spec(c1, from1 + j) == #[trigger] crate::nondet::draw_spec(
                c2,
                from2 + j,
            ),
    ensures
        pick(s, n, c1, from1) == pick(s, n, c2, from2),
    decreases n,
{
    if n > 0 && s.len() > 0 {
        assert(crate::nondet::draw_spec(c1, from1 + 0) == crate::nondet::draw_spec(c2, from2 + 0));
        let k = choose_spec(c1, from1, s.len());
        assert forall|j: int| 0 <= j < n - 1 implies crate::nondet::draw_spec(c1, from1 + 1 + j)
            == #[trigger] crate::nondet::draw_spec(c2, from2 + 1 + j) by {
            assert(crate::nondet::draw_spec(c1, from1 + (1 + j)) == crate::nondet::draw_spec(
                c2,
                from2 + (1 + j),
            ));
        }
        lemma_pick_shift(s.remove(k), (n - 1) as nat, c1, from1 + 1, c2, from2 + 1);
    }
}

/// Every order of the elements is possible.
pub proof fn law_every_order_is_possible<T>(s: Seq<T>, p: Seq<T>)
    requires
        is_permutation(s, p),
        s.len() <= usize::MAX,
    ensures
        shuffled(s, choices_for(s, p), 0) == p,
    decreases p.len(),
{
    vstd::seq_lib::to_multiset_len(s);
    vstd::seq_lib::to_multiset_len(p);
    if p.len() == 0 {
        assert(shuffled(s, choices_for(s, p), 0) =~= p);
    } else {
        let x = p[0];
        let k = s.index_of(x);
        assert(p.contains(x));
        vstd::seq_lib::to_multiset_contains(p, x);
        vstd::seq_lib::to_multiset_contains(s, x);
        assert(s.contains(x));
        assert(0 <= k < s.len() && s[k] == x);
        let s1 = s.remove(k);
        let p1 = p.skip(1);
        assert(p1 =~= p.remove(0));
        vstd::seq_lib::to_multiset_remove(s, k);
        vstd::seq_lib::to_multiset_remove(p, 0);
        law_every_order_is_possible(s1, p1);
        let c = choices_for(s, p);
        let c1 = choices_for(s1, p1);
        assert(c == seq![k as usize] + c1);
        assert(c[0] == k as usize);
        assert(choose_spec(c, 0, s.len()) == k) by {
            vstd::arithmetic::div_mod::lemma_small_mod(k as nat, s.len());
        }
        assert forall|j: int| 0 <= j < s1.len() implies crate::nondet::draw_spec(c, 1 + j)
            == #[trigger] crate::nondet::draw_spec(c1, 0 + j) by {
            if j < c1.len() {
                assert(c[1 + j] == c1[j]);
            }
        }
        lemma_pick_shift(s1, s1.len(), c, 1, c1, 0);
        assert(shuffled(s, c, 0) =~= seq![x] + p1);
        assert(shuffled(s, c, 0) =~= p);
    }
}

/// Takes elements out of a list by choices.
fn pick_list<T>(v: &mut Vec<T>, n: usize, nondet: &NonDet, from: usize) -> (r: Vec<T>)
    requires
        n <= old(v).len(),
        from + n <= usize::MAX,
    ensures
        (r@, final(v)@) == pick(old(v)@, n as nat, nondet@, from as int),
        r.len() == n,
        final(v).len() == old(v).len() - n,
{
    let ghost start = v@;
    proof {
        lemma_pick(start, n as nat, nondet@, from as int);
    }
    let mut r: Vec<T> = Vec::new();
    for i in 0..n
        invariant
            start == old(v)@,
            n <= start.len(),
            v.len() == start.len() - i,
            r.len() == i,
            from + n <= usize::MAX,
            pick(start, n as nat, nondet@, from as int).0 =~= r@ + pick(
                v@,
                (n - i) as nat,
                nondet@,
                from + i,
            ).0,
            pick(start, n as nat, nondet@, from as int).1 == pick(
                v@,
                (n - i) as nat,
                nondet@,
                from + i,
            ).1,
    {
        let ghost prev = v@;
        let k: usize = nondet.choose_below(from + i, v.len());
        let x = v.remove(k);
        assert(v@ =~= prev.remove(k as int));
        r.push(x);
    }
    assert(pick(start, n as nat, nondet@, from as int).0 =~= r@);
    r
}

impl<T> Trace<T> {
    /// The elements of each round in an order of choice.
    pub fn shuffle(self, nondet: &NonDet) -> (r: Trace<T>)
        requires
            fits(self@),
        ensures
            r@.len() == self@.len(),
            forall|i: int|
                0 <= i < r@.len() ==> #[trigger] r@[i] == shuffled(
                    self@[i],
                    nondet@,
                    before(self@, i).len() as int,
                ),
    {
        let ghost t = self@;
        let mut r: Trace<T> = Trace::new();
        let mut from: usize = 0;
        for round in it: self.rounds
            invariant
                it.seq().len() == t.len(),
                forall|i: int| 0 <= i < t.len() ==> (#[trigger] it.seq()[i])@ == t[i],
                fits(t),
                from == before(t, it.index()).len(),
                r@.len() == it.index(),
                forall|i: int|
                    0 <= i < r@.len() ==> #[trigger] r@[i] == shuffled(
                        t[i],
                        nondet@,
                        before(t, i).len() as int,
                    ),
        {
            let ghost k = it.index();
            proof {
                lemma_before_grows(t, k + 1, t.len() as int);
            }
            let mut rest = round;
            let n: usize = rest.len();
            let out = pick_list(&mut rest, n, nondet, from);
            r.push(out);
            from += n;
        }
        r
    }
}

/// How many elements an ordered batching has released by the end of a round: all that
/// have arrived, but for as many of the waiting ones as are chosen to wait. In the last
/// round nothing waits.
pub open spec fn released<T>(t: Seq<Seq<T>>, choices: Seq<usize>, i: int) -> int
    decreases i + 1,
{
    if i < 0 {
        0
    } else {
        let arrived = before(t, i + 1).len() as int;
        if i >= t.len() - 1 {
            arrived
        } else {
            let waiting = arrived - released(t, choices, i - 1);
            arrived - choose_spec(choices, i, (waiting + 1) as nat)
        }
    }
}

/// Releases never go back, and never run ahead of the arrivals.
pub proof fn lemma_released<T>(t: Seq<Seq<T>>, choices: Seq<usize>, i: int)
    requires
        -1 <= i < t.len(),
    ensures
        0 <= released(t, choices, i) <= before(t, i + 1).len(),
        i >= 0 ==> released(t, choices, i - 1) <= released(t, choices, i),
    decreases i + 1,
{
    if i >= 0 {
        lemma_released(t, choices, i - 1);
        lemma_before_grows(t, i, i + 1);
        let arrived = before(t, i + 1).len() as int;
        let waiting = arrived - released(t, choices, i - 1);
        if i < t.len() - 1 {
            assert(0 <= choose_spec(choices, i, (waiting + 1) as nat) < waiting + 1);
        }
    }
}

/// The batch of a round, when batches keep the order of the elements.
pub open spec fn ordered_batch<T>(t: Seq<Seq<T>>, choices: Seq<usize>, i: int) -> Seq<T> {
    flat(t).subrange(released(t, choices, i - 1), released(t, choices, i))
}

/// How many of `n` waiting elements go into a batch: all of them in the last round, else
/// all but for as many as are chosen to wait.
pub open spec fn batch_size(n: nat, is_last: bool, choices: Seq<usize>, at: int) -> nat {
    if is_last {
        n
    } else {
        (n - choose_spec(choices, at, n + 1)) as nat
    }
}

/// What waits, and how many choices have been made, at the start of a round, when batches
/// need not keep the order.
pub open spec fn unordered_state<T>(t: Seq<Seq<T>>, choices: Seq<usize>, i: int) -> (Seq<T>, nat)
    decreases i,
{
    if i <= 0 {
        (Seq::empty(), 0)
    } else {
        let (waiting, used) = unordered_state(t, choices, i - 1);
        let all = waiting + t[i - 1];
        let n = batch_size(all.len(), i == t.len(), choices, used as int);
        (pick(all, n, choices, used as int + 1).1, used + 1 + n)
    }
}

/// The batch of a round, when batches need not keep the order.
pub open spec fn unordered_batch<T>(t: Seq<Seq<T>>, choices: Seq<usize>, i: int) -> Seq<T> {
    let (waiting, used) = unordered_state(t, choices, i);
    let all = waiting + t[i];
    let n = batch_size(all.len(), i + 1 == t.len(), choices, used as int);
    pick(all, n, choices, used as int + 1).0
}

/// What lies before a round is a prefix of what lies before a later one.
pub proof fn lemma_before_take<T>(t: Seq<Seq<T>>, i: int, j: int)
    requires
        0 <= i <= j,
    ensures
        before(t, i).len() <= before(t, j).len(),
        before(t, j).take(before(t, i).len() as int) == before(t, i),
    decreases j,
{
    if i < j {
        lemma_before_take(t, i, j - 1);
        assert(before(t, j).take(before(t, i).len() as int) =~= before(t, i));
    } else {
        assert(before(t, j).take(before(t, i).len() as int) =~= before(t, i));
    }
}

impl<T> Trace<T> {
    /// Batches of the elements, in their order.
    pub fn batch_ordered(self, nondet: &NonDet) -> (r: Trace<T>)
        requires
            fits(self@),
        ensures
            r@.len() == self@.len(),
            forall|i: int| 0 <= i < r@.len() ==> #[trigger] r@[i] == ordered_batch(self@, nondet@, i),
    {
        let ghost t = self@;
        let n: usize = self.len();
        let mut r: Trace<T> = Trace::new();
        let mut waiting: Vec<T> = Vec::new();
        assert(waiting@ =~= flat(t).subrange(0, 0));
        for round in it: self.rounds
            invariant
                it.seq().len() == t.len(),
                n == t.len(),
                fits(t),
                forall|i: int| 0 <= i < t.len() ==> (#[trigger] it.seq()[i])@ == t[i],
                r@.len() == it.index(),
                0 <= released(t, nondet@, it.index() - 1) <= before(t, it.index()).len(),
                before(t, it.index()).len() <= flat(t).len(),
                waiting@ == flat(t).subrange(
                    released(t, nondet@, it.index() - 1),
                    before(t, it.index()).len() as int,
                ),
                forall|i: int|
                    0 <= i < r@.len() ==> #[trigger] r@[i] == ordered_batch(t, nondet@, i),
        {
            let ghost k = it.index();
            let ghost from = released(t, nondet@, k - 1);
            let ghost arrived = before(t, k + 1).len() as int;
            proof {
                lemma_released(t, nondet@, k);
                lemma_before_take(t, k, k + 1);
                lemma_before_take(t, k + 1, t.len() as int);
                assert forall|j: int| 0 <= j < t[k].len() implies flat(t)[before(t, k).len() + j]
                    == #[trigger] t[k][j] by {
                    assert(flat(t).take(arrived)[before(t, k).len() + j] == t[k][j]);
                }
            }
            let i: usize = r.len();
            let mut more = round;
            waiting.append(&mut more);
            assert(waiting@ =~= flat(t).subrange(from, arrived));
            let hold: usize = if i + 1 < n {
                nondet.choose_below(i, waiting.len() + 1)
            } else {
                0
            };
            let size: usize = waiting.len() - hold;
            let rest = waiting.split_off(size);
            assert(waiting@ =~= ordered_batch(t, nondet@, k));
            assert(rest@ =~= flat(t).subrange(released(t, nondet@, k), arrived));
            r.push(waiting);
            waiting = rest;
        }
        r
    }

    /// Batches of the elements, in any order.
    pub fn batch_unordered(self, nondet: &NonDet) -> (r: Trace<T>)
        requires
            fits(self@),
        ensures
            r@.len() == self@.len(),
            forall|i: int|
                0 <= i < r@.len() ==> #[trigger] r@[i] == unordered_batch(self@, nondet@, i),
    {
        let ghost t = self@;
        let n: usize = self.len();
        let mut r: Trace<T> = Trace::new();
        let mut waiting: Vec<T> = Vec::new();
        let mut used: usize = 0;
        assert(waiting@ =~= unordered_state(t, nondet@, 0).0);
        for round in it: self.rounds
            invariant
                it.seq().len() == t.len(),
                n == t.len(),
                fits(t),
                forall|i: int| 0 <= i < t.len() ==> (#[trigger] it.seq()[i])@ == t[i],
                r@.len() == it.index(),
                (waiting@, used as nat) == unordered_state(t, nondet@, it.index()),
                used + waiting.len() == it.index() + before(t, it.index()).len(),
                forall|i: int|
                    0 <= i < r@.len() ==> #[trigger] r@[i] == unordered_batch(t, nondet@, i),
        {
            let ghost k = it.index();
            proof {
                lemma_before_grows(t, k + 1, t.len() as int);
            }
            let i: usize = r.len();
            let mut more = round;
            waiting.append(&mut more);
            let hold: usize = if i + 1 < n {
                nondet.choose_below(used, waiting.len() + 1)
            } else {
                0
            };
            let size: usize = waiting.len() - hold;
            assert(size == batch_size(waiting@.len(), k + 1 == t.len(), nondet@, used as int));
            let out = pick_list(&mut waiting, size, nondet, used + 1);
            used = used + 1 + size;
            r.push(out);
        }
        r
    }
}

/// Ordered batches are contiguous: together they are the elements in their order.
pub proof fn law_batches_keep_order<T>(t: Seq<Seq<T>>, r: Seq<Seq<T>>, choices: Seq<usize>)
    requires
        r.len() == t.len(),
        forall|i: int| 0 <= i < r.len() ==> #[trigger] r[i] == ordered_batch(t, choices, i),
    ensures
        flat(r) == flat(t),
        forall|i: int|
            0 <= i <= t.len() ==> #[trigger] before(r, i).is_prefix_of(before(t, i)),
{
    assert forall|i: int| 0 <= i <= t.len() implies #[trigger] before(r, i) == flat(t).take(
        released(t, choices, i - 1),
    ) by {
        lemma_batches_prefix(t, r, choices, i);
    }
    assert forall|i: int| 0 <= i <= t.len() implies #[trigger] before(r, i).is_prefix_of(
        before(t, i),
    ) by {
        lemma_released(t, choices, i - 1);
        lemma_before_take(t, i, t.len() as int);
        assert(before(r, i) =~= before(t, i).take(released(t, choices, i - 1)));
    }
    assert(flat(t).take(flat(t).len() as int) =~= flat(t));
    if t.len() > 0 {
        assert(released(t, choices, t.len() - 1) == flat(t).len());
    }
    assert(before(r, t.len() as int) =~= flat(t));
}

proof fn lemma_batches_prefix<T>(t: Seq<Seq<T>>, r: Seq<Seq<T>>, choices: Seq<usize>, i: int)
    requires
        r.len() == t.len(),
        0 <= i <= t.len(),
        forall|i: int| 0 <= i < r.len() ==> #[trigger] r[i] == ordered_batch(t, choices, i),
    ensures
        before(r, i) == flat(t).take(released(t, choices, i - 1)),
    decreases i,
{
    if i > 0 {
        lemma_batches_prefix(t, r, choices, i - 1);
        lemma_released(t, choices, i - 1);
        lemma_before_grows(t, i, t.len() as int);
        lemma_released(t, choices, i - 2);
        assert(r[i - 1] == ordered_batch(t, choices, i - 1));
        assert(before(r, i) =~= flat(t).take(released(t, choices, i - 1)));
    } else {
        assert(before(r, i) =~= flat(t).take(0));
    }
}

/// Unordered batches lose nothing and add nothing.
pub proof fn law_batches_keep_elements<T>(t: Seq<Seq<T>>, r: Seq<Seq<T>>, choices: Seq<usize>)
    requires
        r.len() == t.len(),
        forall|i: int| 0 <= i < r.len() ==> #[trigger] r[i] == unordered_batch(t, choices, i),
    ensures
        is_permutation(flat(r), flat(t)),
        forall|i: int|
            0 <= i <= t.len() ==> (#[trigger] before(r, i)).to_multiset().subset_of(
                before(t, i).to_multiset(),
            ),
{
    assert forall|i: int| 0 <= i <= t.len() implies (#[trigger] before(
        r,
        i,
    )).to_multiset().subset_of(before(t, i).to_multiset()) by {
        lemma_unordered_so_far(t, r, choices, i);
    }
    lemma_unordered_so_far(t, r, choices, t.len() as int);
    let rest = unordered_state(t, choices, t.len() as int).0;
    lemma_no_elements(rest);
    assert(flat(r).to_multiset() =~= flat(t).to_multiset());
}

proof fn lemma_unordered_so_far<T>(t: Seq<Seq<T>>, r: Seq<Seq<T>>, choices: Seq<usize>, i: int)
    requires
        r.len() == t.len(),
        0 <= i <= t.len(),
        forall|i: int| 0 <= i < r.len() ==> #[trigger] r[i] == unordered_batch(t, choices, i),
    ensures
        before(r, i).to_multiset().add(unordered_state(t, choices, i).0.to_multiset())
            == before(t, i).to_multiset(),
        i == t.len() ==> unordered_state(t, choices, i).0.len() == 0,
    decreases i,
{
    if i == 0 {
        lemma_no_elements(before(r, 0));
        lemma_no_elements(before(t, 0));
        lemma_no_elements(unordered_state(t, choices, 0).0);
        assert(before(r, i).to_multiset().add(unordered_state(t, choices, i).0.to_multiset())
            =~= before(t, i).to_multiset());
    } else {
        let k = i - 1;
        lemma_unordered_so_far(t, r, choices, k);
        let (waiting, used) = unordered_state(t, choices, k);
        let all = waiting + t[k];
        let n = batch_size(all.len(), k + 1 == t.len(), choices, used as int);
        if k + 1 != t.len() {
            assert(0 <= choose_spec(choices, used as int, all.len() + 1) < all.len() + 1);
        }
        lemma_pick(all, n, choices, used as int + 1);
        let (taken, rest) = pick(all, n, choices, used as int + 1);
        assert(r[k] == taken);
        vstd::seq_lib::lemma_multiset_commutative(before(r, k), taken);
        vstd::seq_lib::lemma_multiset_commutative(before(t, k), t[k]);
        vstd::seq_lib::lemma_multiset_commutative(waiting, t[k]);
        assert(before(r, i) == before(r, k) + taken);
        assert(before(t, i) == before(t, k) + t[k]);
        assert forall|x: T| before(r, i).to_multiset().add(rest.to_multiset()).count(x) == before(
            t,
            i,
        ).to_multiset().count(x) by {
            assert(taken.to_multiset().add(rest.to_multiset()).count(x) == all.to_multiset().count(
                x,
            ));
            assert(before(r, k).to_multiset().add(waiting.to_multiset()).count(x) == before(
                t,
                k,
            ).to_multiset().count(x));
        }
        assert(before(r, i).to_multiset().add(rest.to_multiset()) =~= before(t, i).to_multiset());
    }
}

/// Merges two lists: as long as both have elements, a choice decides from which the next
/// one comes.
pub open spec fn merged<T>(a: Seq<T>, b: Seq<T>, choices: Seq<usize>, from: int) -> Seq<T>
    decreases a.len() + b.len(),
{
    if a.len() == 0 {
        b
    } else if b.len() == 0 {
        a
    } else if choose_spec(choices, from, 2) == 0 {
        seq![a[0]] + merged(a.skip(1), b, choices, from + 1)
    } else {
        seq![b[0]] + merged(a, b.skip(1), choices, from + 1)
    }
}

/// Whether `r` consists of the elements of `a` and of `b`, each in their order.
pub open spec fn is_interleaving<T>(a: Seq<T>, b: Seq<T>, r: Seq<T>) -> bool
    decreases r.len(),
{
    if r.len() == 0 {
        a.len() == 0 && b.len() == 0
    } else {
        ||| a.len() > 0 && a[0] == r[0] && is_interleaving(a.skip(1), b, r.skip(1))
        ||| b.len() > 0 && b[0] == r[0] && is_interleaving(a, b.skip(1), r.skip(1))
    }
}

proof fn lemma_interleaving_alone<T>(s: Seq<T>)
    ensures
        is_interleaving(s, Seq::empty(), s),
        is_interleaving(Seq::empty(), s, s),
    decreases s.len(),
{
    if s.len() > 0 {
        lemma_interleaving_alone(s.skip(1));
    }
}

/// Whatever the choices, both lists keep their order.
pub proof fn law_merge_keeps_both_orders<T>(a: Seq<T>, b: Seq<T>, choices: Seq<usize>, from: int)
    ensures
        is_interleaving(a, b, merged(a, b, choices, from)),
        merged(a, b, choices, from).len() == a.len() + b.len(),
    decreases a.len() + b.len(),
{
    let r = merged(a, b, choices, from);
    if a.len() == 0 {
        assert(a =~= Seq::empty());
        lemma_interleaving_alone(b);
    } else if b.len() == 0 {
        assert(b =~= Seq::empty());
        lemma_interleaving_alone(a);
    } else if choose_spec(choices, from, 2) == 0 {
        law_merge_keeps_both_orders(a.skip(1), b, choices, from + 1);
        assert(r.skip(1) =~= merged(a.skip(1), b, choices, from + 1));
    } else {
        law_merge_keeps_both_orders(a, b.skip(1), choices, from + 1);
        assert(r.skip(1) =~= merged(a, b.skip(1), choices, from + 1));
    }
}

proof fn lemma_interleavings_join<T>(
    a: Seq<T>,
    b: Seq<T>,
    r: Seq<T>,
    a2: Seq<T>,
    b2: Seq<T>,
    r2: Seq<T>,
)
    requires
        is_interleaving(a, b, r),
        is_interleaving(a2, b2, r2),
    ensures
        is_interleaving(a + a2, b + b2, r + r2),
    decreases r.len(),
{
    if r.len() == 0 {
        assert(a + a2 =~= a2 && b + b2 =~= b2 && r + r2 =~= r2);
    } else {
        assert((r + r2).skip(1) =~= r.skip(1) + r2);
        if a.len() > 0 && a[0] == r[0] && is_interleaving(a.skip(1), b, r.skip(1)) {
            lemma_interleavings_join(a.skip(1), b, r.skip(1), a2, b2, r2);
            assert((a + a2).skip(1) =~= a.skip(1) + a2);
        } else {
            lemma_interleavings_join(a, b.skip(1), r.skip(1), a2, b2, r2);
            assert((b + b2).skip(1) =~= b.skip(1) + b2);
        }
    }
}

/// Whatever the choices, merging two streams round by round yields all elements of both, each
/// in their order.
pub proof fn law_merge_keeps_streams<T>(
    a: Seq<Seq<T>>,
    b: Seq<Seq<T>>,
    r: Seq<Seq<T>>,
    choices: Seq<usize>,
)
    requires
        a.len() == r.len(),
        b.len() == r.len(),
        forall|i: int|
            0 <= i < r.len() ==> #[trigger] r[i] == merged(
                a[i],
                b[i],
                choices,
                (before(a, i).len() + before(b, i).len()) as int,
            ),
    ensures
        is_interleaving(flat(a), flat(b), flat(r)),
{
    lemma_merge_before(a, b, r, choices, r.len() as int);
}

proof fn lemma_merge_before<T>(
    a: Seq<Seq<T>>,
    b: Seq<Seq<T>>,
    r: Seq<Seq<T>>,
    choices: Seq<usize>,
    i: int,
)
    requires
        a.len() == r.len(),
        b.len() == r.len(),
        0 <= i <= r.len(),
        forall|i: int|
            0 <= i < r.len() ==> #[trigger] r[i] == merged(
                a[i],
                b[i],
                choices,
                (before(a, i).len() + before(b, i).len()) as int,
            ),
    ensures
        is_interleaving(before(a, i), before(b, i), before(r, i)),
    decreases i,
{
    if i > 0 {
        lemma_merge_before(a, b, r, choices, i - 1);
        let from = (before(a, i - 1).len() + before(b, i - 1).len()) as int;
        law_merge_keeps_both_orders(a[i - 1], b[i - 1], choices, from);
        assert(r[i - 1] == merged(a[i - 1], b[i - 1], choices, from));
        lemma_interleavings_join(
            before(a, i - 1),
            before(b, i - 1),
            before(r, i - 1),
            a[i - 1],
            b[i - 1],
            r[i - 1],
        );
    }
}

proof fn lemma_merged_step<T>(a: Seq<T>, b: Seq<T>, i: int, j: int, choices: Seq<usize>, from: int)
    requires
        0 <= i <= a.len(),
        0 <= j <= b.len(),
    ensures
        i < a.len() && j < b.len() ==> merged(a.skip(i), b.skip(j), choices, from) == (
        if choose_spec(choices, from, 2) == 0 {
            seq![a[i]] + merged(a.skip(i + 1), b.skip(j), choices, from + 1)
        } else {
            seq![b[j]] + merged(a.skip(i), b.skip(j + 1), choices, from + 1)
        }),
{
    if i < a.len() && j < b.len() {
        assert(a.skip(i).skip(1) =~= a.skip(i + 1));
        assert(b.skip(j).skip(1) =~= b.skip(j + 1));
    }
}

/// Merges two lists by choices.
fn merge_lists<T: Dup>(a: &Vec<T>, b: &Vec<T>, nondet: &NonDet, from: usize) -> (r: Vec<T>)
    requires
        from + a.len() + b.len() <= usize::MAX,
    ensures
        r@ == merged(a@, b@, nondet@, from as int),
{
    let mut r: Vec<T> = Vec::new();
    let mut i: usize = 0;
    let mut j: usize = 0;
    assert(a@.skip(0) =~= a@ && b@.skip(0) =~= b@);
    while i < a.len() && j < b.len()
        invariant
            i <= a.len(),
            j <= b.len(),
            from + a.len() + b.len() <= usize::MAX,
            merged(a@, b@, nondet@, from as int) =~= r@ + merged(
                a@.skip(i as int),
                b@.skip(j as int),
                nondet@,
                from + i + j,
            ),
        decreases a.len() - i + b.len() - j,
    {
        proof {
            lemma_merged_step(a@, b@, i as int, j as int, nondet@, from + i + j);
        }
        if nondet.choose_below(from + i + j, 2) == 0 {
            r.push(a[i].dup());
            i += 1;
        } else {
            r.push(b[j].dup());
            j += 1;
        }
    }
    while i < a.len()
        invariant
            i <= a.len(),
            merged(a@, b@, nondet@, from as int) =~= r@ + a@.skip(i as int) + b@.skip(j as int),
            i < a.len() ==> j == b.len(),
        decreases a.len() - i,
    {
        r.push(a[i].dup());
        i += 1;
    }
    while j < b.len()
        invariant
            j <= b.len(),
            i == a.len(),
            merged(a@, b@, nondet@, from as int) =~= r@ + b@.skip(j as int),
        decreases b.len() - j,
    {
        r.push(b[j].dup());
        j += 1;
    }
    r
}

impl<T: Dup> Trace<T> {
    /// In each round, the elements of both traces, each in their order.
    pub fn merge(&self, other: &Trace<T>, nondet: &NonDet) -> (r: Trace<T>)
        requires
            self@.len() == other@.len(),
            flat(self@).len() + flat(other@).len() <= usize::MAX,
        ensures
            r@.len() == self@.len(),
            forall|i: int|
                0 <= i < r@.len() ==> #[trigger] r@[i] == merged(
                    self@[i],
                    other@[i],
                    nondet@,
                    (before(self@, i).len() + before(other@, i).len()) as int,
                ),
    {
        let n: usize = self.len();
        let mut r: Trace<T> = Trace::new();
        let mut from: usize = 0;
        for i in 0..n
            invariant
                n == self@.len(),
                n == other@.len(),
                flat(self@).len() + flat(other@).len() <= usize::MAX,
                from == before(self@, i as int).len() + before(other@, i as int).len(),
                r@.len() == i,
                forall|k: int|
                    0 <= k < r@.len() ==> #[trigger] r@[k] == merged(
                        self@[k],
                        other@[k],
                        nondet@,
                        (before(self@, k).len() + before(other@, k).len()) as int,
                    ),
        {
            proof {
                lemma_before_grows(self@, i + 1, n as int);
                lemma_before_grows(other@, i + 1, n as int);
            }
            let a = self.round(i);
            let b = other.round(i);
            r.push(merge_lists(a, b, nondet, from));
            from = from + a.len() + b.len();
        }
        r
    }
}

/// Which version of a changing value a snapshot in a round shows: one that is no older than
/// the last one shown and that has come by then. In the last round it is the newest.
pub open spec fn version_shown<T>(t: Seq<Seq<T>>, choices: Seq<usize>, i: int) -> int
    decreases i + 1,
{
    if i < 0 {
        0
    } else {
        let newest = before(t, i + 1).len() - 1;
        if i >= t.len() - 1 {
            newest
        } else {
            let oldest = version_shown(t, choices, i - 1);
            newest - choose_spec(choices, i, (newest - oldest + 1) as nat)
        }
    }
}

/// Snapshots never go back to an older version.
pub proof fn law_snapshots_move_forward<T>(t: Seq<Seq<T>>, choices: Seq<usize>, i: int)
    requires
        -1 <= i < t.len(),
        t.len() > 0,
        t[0].len() > 0,
    ensures
        0 <= version_shown(t, choices, i),
        i >= 0 ==> version_shown(t, choices, i) < before(t, i + 1).len(),
        i >= 0 ==> version_shown(t, choices, i - 1) <= version_shown(t, choices, i),
        i == t.len() - 1 ==> version_shown(t, choices, i) == flat(t).len() - 1,
    decreases i + 1,
{
    if i >= 0 {
        law_snapshots_move_forward(t, choices, i - 1);
        lemma_before_grows(t, 1, i + 1);
        lemma_before_grows(t, i, i + 1);
        reveal_with_fuel(before, 2);
        assert(before(t, 1) =~= t[0]);
        let newest = before(t, i + 1).len() - 1;
        let oldest = version_shown(t, choices, i - 1);
        if i < t.len() - 1 {
            assert(0 <= choose_spec(choices, i, (newest - oldest + 1) as nat) < newest - oldest + 1);
        }
    }
}

/// The last value that has come by the end of a round.
pub open spec fn current<T>(t: Seq<Seq<T>>, i: int) -> T {
    before(t, i + 1).last()
}

impl<T: Dup> Trace<T> {
    /// All elements, in one list.
    pub fn concat(&self) -> (r: Vec<T>)
        ensures
            r@ == flat(self@),
    {
        let n: usize = self.len();
        let mut r: Vec<T> = Vec::new();
        for i in 0..n
            invariant
                n == self@.len(),
                r@ == before(self@, i as int),
        {
            super::extend_list(&mut r, self.round(i));
        }
        r
    }

    /// A snapshot of the value in each round.
    pub fn snapshot(&self, nondet: &NonDet) -> (r: Trace<T>)
        requires
            fits(self@),
            self@.len() > 0,
            self@[0].len() > 0,
        ensures
            r@.len() == self@.len(),
            forall|i: int|
                0 <= i < r@.len() ==> #[trigger] r@[i] == seq![
                    flat(self@)[version_shown(self@, nondet@, i)],
                ],
    {
        let ghost t = self@;
        let n: usize = self.len();
        let mut r: Trace<T> = Trace::new();
        let all = self.concat();
        let mut oldest: usize = 0;
        let mut arrived: usize = 0;
        for i in 0..n
            invariant
                t == self@,
                n == t.len(),
                t[0].len() > 0,
                fits(t),
                all@ == flat(t),
                arrived == before(t, i as int).len(),
                oldest == version_shown(t, nondet@, i - 1),
                r@.len() == i,
                forall|k: int|
                    0 <= k < r@.len() ==> #[trigger] r@[k] == seq![
                        flat(t)[version_shown(t, nondet@, k)],
                    ],
        {
            proof {
                law_snapshots_move_forward(t, nondet@, i as int);
                lemma_before_grows(t, i + 1, n as int);
            }
            arrived = arrived + self.round(i).len();
            let newest: usize = arrived - 1;
            let back: usize = if i + 1 < n {
                nondet.choose_below(i, newest - oldest + 1)
            } else {
                0
            };
            let shown: usize = newest - back;
            let mut one: Vec<T> = Vec::new();
            one.push(all[shown].dup());
            assert(one@ =~= seq![flat(t)[version_shown(t, nondet@, i as int)]]);
            r.push(one);
            oldest = shown;
        }
        r
    }

    /// The last value that has come by the end of each round.
    pub fn currents(&self) -> (r: Vec<T>)
        requires
            self@.len() > 0 ==> self@[0].len() > 0,
        ensures
            r.len() == self@.len(),
            forall|i: int| 0 <= i < r.len() ==> #[trigger] r@[i] == current(self@, i),
    {
        let n: usize = self.len();
        let mut r: Vec<T> = Vec::new();
        for i in 0..n
            invariant
                n == self@.len(),
                n > 0 ==> self@[0].len() > 0,
                r.len() == i,
                forall|k: int| 0 <= k < r.len() ==> #[trigger] r@[k] == current(self@, k),
        {
            let round = self.round(i);
            if round.len() > 0 {
                assert(before(self@, i + 1).last() == round@.last());
                r.push(round[round.len() - 1].dup());
            } else {
                assert(before(self@, i + 1) =~= before(self@, i as int));
                let last = r[i - 1].dup();
                r.push(last);
            }
        }
        r
    }
}

} // verus!
