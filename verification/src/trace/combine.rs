//! Combining the traces of two collections.
use super::{before, copy_list, extend_list, list_contains, memory, Trace};
use crate::datum::{Datum, Dup};
use crate::seqs::lemma_take_next;
use vstd::prelude::*;

verus! {

/// The elements of a round, each with the given value; none if there is no value.
pub open spec fn tag_all<T, V>(s: Seq<T>, v: Option<V>) -> Seq<(T, V)> {
    match v {
        Some(v) => s.map_values(|x: T| (x, v)),
        None => Seq::empty(),
    }
}

/// The elements of a round, or none.
pub open spec fn gated<T>(s: Seq<T>, open: bool) -> Seq<T> {
    if open {
        s
    } else {
        Seq::empty()
    }
}

/// A value, paired with each element.
pub open spec fn pairs_with<T, U>(x: T, b: Seq<U>) -> Seq<(T, U)> {
    b.map_values(|y: U| (x, y))
}

/// All pairs of elements, in the order of a nested loop.
pub open spec fn pairs<T, U>(a: Seq<T>, b: Seq<U>) -> Seq<(T, U)>
    decreases a.len(),
{
    if a.len() == 0 {
        Seq::empty()
    } else {
        pairs(a.drop_last(), b) + pairs_with(a.last(), b)
    }
}

/// The pairs that become possible in a round, when `a` and `b` arrive after `seen_a` and
/// `seen_b`.
pub open spec fn new_pairs<T, U>(
    seen_a: Seq<T>,
    a: Seq<T>,
    seen_b: Seq<U>,
    b: Seq<U>,
) -> Seq<(T, U)> {
    pairs(seen_a, b) + pairs(a, seen_b + b)
}

/// An entry, joined with each entry that has the same key.
pub open spec fn matches_with<K, V, W>(x: (K, V), b: Seq<(K, W)>) -> Seq<(K, (V, W))>
    decreases b.len(),
{
    if b.len() == 0 {
        Seq::empty()
    } else {
        let rest = matches_with(x, b.drop_last());
        if b.last().0 == x.0 {
            rest.push((x.0, (x.1, b.last().1)))
        } else {
            rest
        }
    }
}

/// All pairs of entries with equal keys, in the order of a nested loop.
pub open spec fn joined_pairs<K, V, W>(a: Seq<(K, V)>, b: Seq<(K, W)>) -> Seq<(K, (V, W))>
    decreases a.len(),
{
    if a.len() == 0 {
        Seq::empty()
    } else {
        joined_pairs(a.drop_last(), b) + matches_with(a.last(), b)
    }
}

/// The pairs of entries with equal keys that become possible in a round.
pub open spec fn new_matches<K, V, W>(
    seen_a: Seq<(K, V)>,
    a: Seq<(K, V)>,
    seen_b: Seq<(K, W)>,
    b: Seq<(K, W)>,
) -> Seq<(K, (V, W))> {
    joined_pairs(seen_a, b) + joined_pairs(a, seen_b + b)
}

/// The elements of `s` that are not in `neg`, in order.
pub open spec fn without<T>(s: Seq<T>, neg: Seq<T>) -> Seq<T>
    decreases s.len(),
{
    if s.len() == 0 {
        Seq::empty()
    } else if neg.contains(s.last()) {
        without(s.drop_last(), neg)
    } else {
        without(s.drop_last(), neg).push(s.last())
    }
}

/// The entries of `s` whose keys are not in `neg`, in order.
pub open spec fn without_keys<K, V>(s: Seq<(K, V)>, neg: Seq<K>) -> Seq<(K, V)>
    decreases s.len(),
{
    if s.len() == 0 {
        Seq::empty()
    } else if neg.contains(s.last().0) {
        without_keys(s.drop_last(), neg)
    } else {
        without_keys(s.drop_last(), neg).push(s.last())
    }
}

impl<T> Trace<T> {
    /// In each round, first the elements of this trace, then those of the other.
    pub fn chain(self, other: Trace<T>) -> (r: Trace<T>)
        requires
            self@.len() == other@.len(),
        ensures
            r@.len() == self@.len(),
            forall|i: int| 0 <= i < r@.len() ==> #[trigger] r@[i] == self@[i] + other@[i],
    {
        let ghost a = self@;
        let ghost b = other@;
        let mut r: Trace<T> = Trace::new();
        let mut seconds = other.rounds;
        let mut firsts = self.rounds;
        let n: usize = firsts.len();
        let mut rest_a: Vec<Vec<T>> = Vec::new();
        let mut rest_b: Vec<Vec<T>> = Vec::new();
        while firsts.len() > 0
            invariant
                a.len() == n,
                firsts.len() == seconds.len(),
                b.len() == n,
                firsts.len() + rest_a.len() == n,
                rest_b.len() == rest_a.len(),
                forall|i: int| 0 <= i < firsts.len() ==> (#[trigger] firsts@[i])@ == a[i],
                forall|i: int| 0 <= i < seconds.len() ==> (#[trigger] seconds@[i])@ == b[i],
                forall|i: int| 0 <= i < rest_a.len() ==> (#[trigger] rest_a@[i])@ == a[n - 1 - i],
                forall|i: int| 0 <= i < rest_b.len() ==> (#[trigger] rest_b@[i])@ == b[n - 1 - i],
            decreases firsts.len(),
        {
            match (firsts.pop(), seconds.pop()) {
                (Some(x), Some(y)) => {
                    rest_a.push(x);
                    rest_b.push(y);
                },
                _ => {},
            }
        }
        while rest_a.len() > 0
            invariant
                a.len() == n,
                b.len() == n,
                rest_b.len() == rest_a.len(),
                r@.len() + rest_a.len() == n,
                forall|i: int| 0 <= i < rest_a.len() ==> (#[trigger] rest_a@[i])@ == a[n - 1 - i],
                forall|i: int| 0 <= i < rest_b.len() ==> (#[trigger] rest_b@[i])@ == b[n - 1 - i],
                forall|i: int| 0 <= i < r@.len() ==> #[trigger] r@[i] == a[i] + b[i],
            decreases rest_a.len(),
        {
            match (rest_a.pop(), rest_b.pop()) {
                (Some(x), Some(y)) => {
                    let mut round = x;
                    let mut more = y;
                    round.append(&mut more);
                    r.push(round);
                },
                _ => {},
            }
        }
        r
    }

    /// In each round, the elements with the value that there is in that round, if any.
    pub fn tag<V: Dup>(self, values: &Vec<Option<V>>) -> (r: Trace<(T, V)>)
        requires
            self@.len() == values.len(),
        ensures
            r@.len() == self@.len(),
            forall|i: int| 0 <= i < r@.len() ==> #[trigger] r@[i] == tag_all(self@[i], values@[i]),
    {
        let ghost t = self@;
        let mut r: Trace<(T, V)> = Trace::new();
        for round in it: self.rounds
            invariant
                it.seq().len() == t.len(),
                t.len() == values.len(),
                forall|i: int| 0 <= i < t.len() ==> (#[trigger] it.seq()[i])@ == t[i],
                r@.len() == it.index(),
                forall|i: int| 0 <= i < r@.len() ==> #[trigger] r@[i] == tag_all(t[i], values@[i]),
        {
            let ghost k = it.index();
            let i: usize = r.len();
            let mut out: Vec<(T, V)> = Vec::new();
            if let Some(v) = &values[i] {
                for x in it2: round
                    invariant
                        0 <= k < t.len(),
                        it2.seq() == t[k],
                        out@.len() == it2.index(),
                        forall|j: int| 0 <= j < out@.len() ==> #[trigger] out@[j] == (t[k][j], *v),
                {
                    out.push((x, v.dup()));
                }
            }
            assert(out@ =~= tag_all(t[k], values@[k]));
            r.push(out);
        }
        r
    }

    /// In each round, the elements of the round before; none in the first.
    pub fn defer(self) -> (r: Trace<T>)
        ensures
            r@.len() == self@.len(),
            r@.len() > 0 ==> r@[0].len() == 0,
            forall|i: int| 0 < i < r@.len() ==> #[trigger] r@[i] == self@[i - 1],
    {
        let ghost t = self@;
        let n: usize = self.len();
        let mut r: Trace<T> = Trace::new();
        if n > 0 {
            r.push(Vec::new());
        }
        for round in it: self.rounds
            invariant
                it.seq().len() == t.len(),
                t.len() == n,
                forall|i: int| 0 <= i < t.len() ==> (#[trigger] it.seq()[i])@ == t[i],
                r@.len() == (if it.index() + 1 < n { it.index() + 1 } else { n as int }),
                r@.len() > 0 ==> r@[0].len() == 0,
                forall|i: int| 0 < i < r@.len() ==> #[trigger] r@[i] == t[i - 1],
        {
            if r.len() < n {
                r.push(round);
            }
        }
        r
    }

    /// The first round of this trace, then in each round what the other one had in the round
    /// before.
    pub fn then_deferred(self, later: Trace<T>) -> (r: Trace<T>)
        requires
            self@.len() == later@.len(),
            self@.len() > 0,
        ensures
            r@.len() == self@.len(),
            r@[0] == self@[0],
            forall|i: int| 0 < i < r@.len() ==> #[trigger] r@[i] == later@[i - 1],
    {
        let ghost t = later@;
        let ghost start = self@[0];
        let n: usize = self.len();
        let mut rounds = self.rounds;
        let first = rounds.remove(0);
        assert(first@ == start);
        let mut r: Trace<T> = Trace::new();
        r.push(first);
        for round in it: later.rounds
            invariant
                it.seq().len() == t.len(),
                t.len() == n,
                n > 0,
                forall|i: int| 0 <= i < t.len() ==> (#[trigger] it.seq()[i])@ == t[i],
                r@.len() == (if it.index() + 1 < n { it.index() + 1 } else { n as int }),
                r@[0] == start,
                forall|i: int| 0 < i < r@.len() ==> #[trigger] r@[i] == t[i - 1],
        {
            if r.len() < n {
                r.push(round);
            }
        }
        r
    }
}

/// Appends all pairs of elements.
fn push_pairs<T: Dup, U: Dup>(out: &mut Vec<(T, U)>, a: &Vec<T>, b: &Vec<U>)
    ensures
        final(out)@ == old(out)@ + pairs(a@, b@),
{
    let ghost start = out@;
    for i in 0..a.len()
        invariant
            start == old(out)@,
            out@ == start + pairs(a@.take(i as int), b@),
    {
        let ghost prev = out@;
        for j in 0..b.len()
            invariant
                i < a.len(),
                out@ == prev + pairs_with(a@[i as int], b@.take(j as int)),
        {
            proof {
                lemma_take_next(b@, j as int);
            }
            out.push((a[i].dup(), b[j].dup()));
            assert(out@ =~= prev + pairs_with(a@[i as int], b@.take(j + 1)));
        }
        proof {
            assert(b@.take(b.len() as int) =~= b@);
            lemma_take_next(a@, i as int);
            assert(out@ =~= start + pairs(a@.take(i + 1), b@));
        }
    }
    assert(a@.take(a.len() as int) =~= a@);
}

/// Appends all pairs of entries with equal keys.
fn push_matches<K: Datum, V: Dup, W: Dup>(
    out: &mut Vec<(K, (V, W))>,
    a: &Vec<(K, V)>,
    b: &Vec<(K, W)>,
)
    ensures
        final(out)@ == old(out)@ + joined_pairs(a@, b@),
{
    let ghost start = out@;
    for i in 0..a.len()
        invariant
            start == old(out)@,
            out@ == start + joined_pairs(a@.take(i as int), b@),
    {
        let ghost prev = out@;
        for j in 0..b.len()
            invariant
                i < a.len(),
                out@ == prev + matches_with(a@[i as int], b@.take(j as int)),
        {
            proof {
                lemma_take_next(b@, j as int);
            }
            if b[j].0.same(&a[i].0) {
                out.push((a[i].0.dup(), (a[i].1.dup(), b[j].1.dup())));
            }
            assert(out@ =~= prev + matches_with(a@[i as int], b@.take(j + 1)));
        }
        proof {
            assert(b@.take(b.len() as int) =~= b@);
            lemma_take_next(a@, i as int);
            assert(out@ =~= start + joined_pairs(a@.take(i + 1), b@));
        }
    }
    assert(a@.take(a.len() as int) =~= a@);
}

impl<T: Dup> Trace<T> {
    /// The pairs of elements of the two traces, in the rounds in which they become
    /// possible.
    pub fn product<U: Dup>(&self, other: &Trace<U>, keep: bool) -> (r: Trace<(T, U)>)
        requires
            self@.len() == other@.len(),
        ensures
            r@.len() == self@.len(),
            forall|i: int|
                0 <= i < r@.len() ==> #[trigger] r@[i] == new_pairs(
                    memory(self@, i, keep),
                    self@[i],
                    memory(other@, i, keep),
                    other@[i],
                ),
    {
        let n: usize = self.len();
        let mut r: Trace<(T, U)> = Trace::new();
        let mut seen_a: Vec<T> = Vec::new();
        let mut seen_b: Vec<U> = Vec::new();
        for i in 0..n
            invariant
                n == self@.len(),
                n == other@.len(),
                seen_a@ == memory(self@, i as int, keep),
                seen_b@ == memory(other@, i as int, keep),
                r@.len() == i,
                forall|k: int|
                    0 <= k < r@.len() ==> #[trigger] r@[k] == new_pairs(
                        memory(self@, k, keep),
                        self@[k],
                        memory(other@, k, keep),
                        other@[k],
                    ),
        {
            let a = self.round(i);
            let b = other.round(i);
            let mut out: Vec<(T, U)> = Vec::new();
            push_pairs(&mut out, &seen_a, b);
            let mut all_b = copy_list(&seen_b);
            extend_list(&mut all_b, b);
            push_pairs(&mut out, a, &all_b);
            assert(out@ =~= new_pairs(seen_a@, a@, seen_b@, b@));
            r.push(out);
            if keep {
                extend_list(&mut seen_a, a);
                extend_list(&mut seen_b, b);
            }
        }
        r
    }

    /// The elements of this trace that are not in the other one, as far as it is known.
    pub fn difference(&self, neg: &Trace<T>, keep: bool) -> (r: Trace<T>) where T: Datum
        requires
            self@.len() == neg@.len(),
        ensures
            r@.len() == self@.len(),
            forall|i: int|
                0 <= i < r@.len() ==> #[trigger] r@[i] == without(
                    self@[i],
                    memory(neg@, i, keep) + neg@[i],
                ),
    {
        let n: usize = self.len();
        let mut r: Trace<T> = Trace::new();
        let mut seen: Vec<T> = Vec::new();
        for i in 0..n
            invariant
                n == self@.len(),
                n == neg@.len(),
                seen@ == memory(neg@, i as int, keep),
                r@.len() == i,
                forall|k: int|
                    0 <= k < r@.len() ==> #[trigger] r@[k] == without(
                        self@[k],
                        memory(neg@, k, keep) + neg@[k],
                    ),
        {
            let a = self.round(i);
            let mut all = copy_list(&seen);
            extend_list(&mut all, neg.round(i));
            let mut out: Vec<T> = Vec::new();
            for j in 0..a.len()
                invariant
                    out@ == without(a@.take(j as int), all@),
            {
                proof {
                    lemma_take_next(a@, j as int);
                }
                if !list_contains(&all, &a[j]) {
                    out.push(a[j].dup());
                }
            }
            assert(a@.take(a.len() as int) =~= a@);
            r.push(out);
            if keep {
                seen = all;
            }
        }
        r
    }
}

impl<K: Datum, V: Dup> Trace<(K, V)> {
    /// The pairs of entries with equal keys, in the rounds in which they become possible.
    pub fn join<W: Dup>(&self, other: &Trace<(K, W)>, keep: bool) -> (r: Trace<(K, (V, W))>)
        requires
            self@.len() == other@.len(),
        ensures
            r@.len() == self@.len(),
            forall|i: int|
                0 <= i < r@.len() ==> #[trigger] r@[i] == new_matches(
                    memory(self@, i, keep),
                    self@[i],
                    memory(other@, i, keep),
                    other@[i],
                ),
    {
        let n: usize = self.len();
        let mut r: Trace<(K, (V, W))> = Trace::new();
        let mut seen_a: Vec<(K, V)> = Vec::new();
        let mut seen_b: Vec<(K, W)> = Vec::new();
        for i in 0..n
            invariant
                n == self@.len(),
                n == other@.len(),
                seen_a@ == memory(self@, i as int, keep),
                seen_b@ == memory(other@, i as int, keep),
                r@.len() == i,
                forall|k: int|
                    0 <= k < r@.len() ==> #[trigger] r@[k] == new_matches(
                        memory(self@, k, keep),
                        self@[k],
                        memory(other@, k, keep),
                        other@[k],
                    ),
        {
            let a = self.round(i);
            let b = other.round(i);
            let mut out: Vec<(K, (V, W))> = Vec::new();
            push_matches(&mut out, &seen_a, b);
            let mut all_b = copy_list(&seen_b);
            extend_list(&mut all_b, b);
            push_matches(&mut out, a, &all_b);
            assert(out@ =~= new_matches(seen_a@, a@, seen_b@, b@));
            r.push(out);
            if keep {
                extend_list(&mut seen_a, a);
                extend_list(&mut seen_b, b);
            }
        }
        r
    }

    /// The entries whose keys are not in the other trace, as far as it is known.
    pub fn difference_keys(&self, neg: &Trace<K>, keep: bool) -> (r: Trace<(K, V)>)
        requires
            self@.len() == neg@.len(),
        ensures
            r@.len() == self@.len(),
            forall|i: int|
                0 <= i < r@.len() ==> #[trigger] r@[i] == without_keys(
                    self@[i],
                    memory(neg@, i, keep) + neg@[i],
                ),
    {
        let n: usize = self.len();
        let mut r: Trace<(K, V)> = Trace::new();
        let mut seen: Vec<K> = Vec::new();
        for i in 0..n
            invariant
                n == self@.len(),
                n == neg@.len(),
                seen@ == memory(neg@, i as int, keep),
                r@.len() == i,
                forall|k: int|
                    0 <= k < r@.len() ==> #[trigger] r@[k] == without_keys(
                        self@[k],
                        memory(neg@, k, keep) + neg@[k],
                    ),
        {
            let a = self.round(i);
            let mut all = copy_list(&seen);
            extend_list(&mut all, neg.round(i));
            let mut out: Vec<(K, V)> = Vec::new();
            for j in 0..a.len()
                invariant
                    out@ == without_keys(a@.take(j as int), all@),
            {
                proof {
                    lemma_take_next(a@, j as int);
                }
                if !list_contains(&all, &a[j].0) {
                    out.push(a[j].dup());
                }
            }
            assert(a@.take(a.len() as int) =~= a@);
            r.push(out);
            if keep {
                seen = all;
            }
        }
        r
    }
}

} // verus!
