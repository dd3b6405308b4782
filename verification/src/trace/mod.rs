//! What happens at a live collection during a run, round by round.
//!
//! A round is a stretch of time: one iteration of a tick, or, outside of ticks, what
//! arrives between two iterations. A trace tells for each round which elements of a
//! stream arrive, or which values a changing value takes, in order.
use crate::datum::{Datum, Dup};
use crate::seqs::lemma_take_next;
use vstd::prelude::*;

pub mod choice;
pub mod combine;
pub mod laws;
pub mod order;
pub mod possible;
pub mod stateful;

verus! {

/// The elements of each round.
pub struct Trace<T> {
    pub rounds: Vec<Vec<T>>,
}

impl<T> View for Trace<T> {
    type V = Seq<Seq<T>>;

    open spec fn view(&self) -> Seq<Seq<T>> {
        Seq::new(self.rounds@.len(), |i: int| self.rounds@[i]@)
    }
}

/// All elements before a round.
pub open spec fn before<T>(t: Seq<Seq<T>>, i: int) -> Seq<T>
    decreases i,
{
    if i <= 0 {
        Seq::empty()
    } else {
        before(t, i - 1) + t[i - 1]
    }
}

/// What lies before a round depends only on the rounds before it.
pub proof fn lemma_before_prefix<T>(a: Seq<Seq<T>>, b: Seq<Seq<T>>, i: int)
    requires
        forall|j: int| 0 <= j < i ==> a[j] == #[trigger] b[j],
    ensures
        before(a, i) == before(b, i),
    decreases i,
{
    if i > 0 {
        lemma_before_prefix(a, b, i - 1);
        assert(a[i - 1] == b[i - 1]);
    }
}

/// Later rounds have more before them.
pub proof fn lemma_before_grows<T>(t: Seq<Seq<T>>, i: int, j: int)
    requires
        0 <= i <= j,
    ensures
        before(t, i).len() <= before(t, j).len(),
    decreases j,
{
    if i < j {
        lemma_before_grows(t, i, j - 1);
    }
}

/// All elements of a trace.
pub open spec fn flat<T>(t: Seq<Seq<T>>) -> Seq<T> {
    before(t, t.len() as int)
}

/// What comes before a place in a round, among all elements.
pub proof fn lemma_flat_take<T>(t: Seq<Seq<T>>, k: int, n: int)
    requires
        0 <= k < t.len(),
        0 <= n <= t[k].len(),
    ensures
        before(t, k).len() + t[k].len() <= flat(t).len(),
        flat(t).take(before(t, k).len() + n) == before(t, k) + t[k].take(n),
        n < t[k].len() ==> flat(t)[before(t, k).len() + n] == t[k][n],
{
    lemma_before_starts(t, k + 1, t.len() as int);
    assert(before(t, k + 1) =~= before(t, k) + t[k]);
    if n < t[k].len() {
        assert(before(t, k + 1)[before(t, k).len() + n] == t[k][n]);
    }
    assert(flat(t).take(before(t, k).len() + n) =~= before(t, k) + t[k].take(n));
}

proof fn lemma_before_starts<T>(t: Seq<Seq<T>>, i: int, j: int)
    requires
        0 <= i <= j,
    ensures
        before(t, i).len() <= before(t, j).len(),
        before(t, i) == before(t, j).take(before(t, i).len() as int),
    decreases j,
{
    if i < j {
        lemma_before_starts(t, i, j - 1);
        assert(before(t, j).take(before(t, i).len() as int) =~= before(t, j - 1).take(
            before(t, i).len() as int,
        ));
    } else {
        assert(before(t, i).take(before(t, i).len() as int) =~= before(t, i));
    }
}

/// Whether the elements and the rounds of a trace can be counted.
pub open spec fn fits<T>(t: Seq<Seq<T>>) -> bool {
    flat(t).len() + t.len() < usize::MAX
}

/// What an operator remembers at the start of a round: all earlier elements if it keeps
/// its state, nothing if it starts anew in each round.
pub open spec fn memory<T>(t: Seq<Seq<T>>, i: int, keep: bool) -> Seq<T> {
    if keep {
        before(t, i)
    } else {
        Seq::empty()
    }
}

/// Whether all elements arrive in the first round.
pub open spec fn only_first_round<T>(t: Seq<Seq<T>>) -> bool {
    forall|i: int| 0 < i < t.len() ==> (#[trigger] t[i]).len() == 0
}

impl<T> Trace<T> {
    /// A trace of no rounds.
    pub fn new() -> (r: Self)
        ensures
            r@ == Seq::<Seq<T>>::empty(),
    {
        let r = Trace { rounds: Vec::new() };
        assert(r@ =~= Seq::<Seq<T>>::empty());
        r
    }

    /// Adds a round.
    pub fn push(&mut self, round: Vec<T>)
        ensures
            final(self)@ == old(self)@.push(round@),
    {
        self.rounds.push(round);
        assert(self@ =~= old(self)@.push(round@));
    }

    pub fn len(&self) -> (n: usize)
        ensures
            n == self@.len(),
    {
        self.rounds.len()
    }

    /// The elements of a round.
    pub fn round(&self, i: usize) -> (r: &Vec<T>)
        requires
            i < self@.len(),
        ensures
            r@ == self@[i as int],
    {
        &self.rounds[i]
    }

    /// A trace whose elements all arrive in the first of `n` rounds.
    pub fn at_first(n: usize, round: Vec<T>) -> (r: Self)
        requires
            n >= 1,
        ensures
            r@.len() == n,
            r@[0] == round@,
            only_first_round(r@),
    {
        let mut r = Trace::new();
        r.push(round);
        let mut i: usize = 1;
        while i < n
            invariant
                1 <= i <= n,
                r@.len() == i,
                r@[0] == round@,
                only_first_round(r@),
            decreases n - i,
        {
            let empty: Vec<T> = Vec::new();
            r.push(empty);
            i += 1;
        }
        r
    }

    /// A trace of `n` rounds without elements.
    pub fn empty(n: usize) -> (r: Self)
        ensures
            r@.len() == n,
            forall|i: int| 0 <= i < n ==> (#[trigger] r@[i]).len() == 0,
    {
        let mut r = Trace::new();
        for i in 0..n
            invariant
                r@.len() == i,
                forall|j: int| 0 <= j < i ==> (#[trigger] r@[j]).len() == 0,
        {
            let empty: Vec<T> = Vec::new();
            r.push(empty);
        }
        r
    }
}

/// A copy of a list.
pub fn copy_list<T: Dup>(v: &Vec<T>) -> (r: Vec<T>)
    ensures
        r@ == v@,
{
    let mut r: Vec<T> = Vec::new();
    for i in 0..v.len()
        invariant
            r@ == v@.take(i as int),
    {
        proof {
            lemma_take_next(v@, i as int);
        }
        r.push(v[i].dup());
    }
    assert(v@.take(v.len() as int) =~= v@);
    r
}

/// Appends a copy of a list.
pub fn extend_list<T: Dup>(v: &mut Vec<T>, more: &Vec<T>)
    ensures
        final(v)@ == old(v)@ + more@,
{
    for i in 0..more.len()
        invariant
            v@ == old(v)@ + more@.take(i as int),
    {
        proof {
            lemma_take_next(more@, i as int);
        }
        v.push(more[i].dup());
        assert(v@ =~= old(v)@ + more@.take(i + 1));
    }
    assert(more@.take(more.len() as int) =~= more@);
}

/// Whether a list holds a value.
pub fn list_contains<T: Datum>(v: &Vec<T>, x: &T) -> (b: bool)
    ensures
        b == v@.contains(*x),
{
    for i in 0..v.len()
        invariant
            forall|j: int| 0 <= j < i ==> v@[j] != *x,
    {
        if v[i].same(x) {
            assert(v@[i as int] == *x);
            return true;
        }
    }
    false
}

impl<T: Dup> Trace<T> {
    pub fn dup(&self) -> (r: Self)
        ensures
            r@ == self@,
    {
        let mut r = Trace::new();
        let n: usize = self.len();
        for i in 0..n
            invariant
                n == self@.len(),
                r@ == self@.take(i as int),
        {
            proof {
                lemma_take_next(self@, i as int);
            }
            r.push(copy_list(self.round(i)));
        }
        assert(self@.take(self@.len() as int) =~= self@);
        r
    }
}

/// Whether `r` is what `f` makes of `s`, element by element.
pub open spec fn is_mapped<T, U, F: Fn(T) -> U>(f: F, s: Seq<T>, r: Seq<U>) -> bool {
    &&& r.len() == s.len()
    &&& forall|j: int| 0 <= j < s.len() ==> f.ensures((s[j],), #[trigger] r[j])
}

/// Whether `r` is what is left of `s` when only the elements that satisfy `f` stay, in
/// their order.
pub open spec fn is_filtered<T, F: Fn(&T) -> bool>(f: F, s: Seq<T>, r: Seq<T>) -> bool
    decreases s.len(),
{
    if s.len() == 0 {
        r.len() == 0
    } else {
        ||| {
            &&& f.ensures((&s.last(),), true)
            &&& r.len() > 0
            &&& r.last() == s.last()
            &&& is_filtered(f, s.drop_last(), r.drop_last())
        }
        ||| f.ensures((&s.last(),), false) && is_filtered(f, s.drop_last(), r)
    }
}

/// Whether `r` holds the values that `f` gives for the elements of `s`, in their order,
/// without the elements for which it gives none.
pub open spec fn is_filter_mapped<T, U, F: Fn(T) -> Option<U>>(f: F, s: Seq<T>, r: Seq<U>) -> bool
    decreases s.len(),
{
    if s.len() == 0 {
        r.len() == 0
    } else {
        ||| {
            &&& r.len() > 0
            &&& f.ensures((s.last(),), Some(r.last()))
            &&& is_filter_mapped(f, s.drop_last(), r.drop_last())
        }
        ||| f.ensures((s.last(),), None) && is_filter_mapped(f, s.drop_last(), r)
    }
}

/// Whether `r` lists the items that `f` gives for each element of `s`, in order.
pub open spec fn is_flat_mapped<T, U, F: Fn(T) -> Vec<U>>(f: F, s: Seq<T>, r: Seq<U>) -> bool
    decreases s.len(),
{
    if s.len() == 0 {
        r.len() == 0
    } else {
        exists|items: Vec<U>|
            {
                let n = r.len() - items@.len();
                &&& #[trigger] f.ensures((s.last(),), items)
                &&& n >= 0
                &&& items@ == r.skip(n)
                &&& is_flat_mapped(f, s.drop_last(), r.take(n))
            }
    }
}

impl<T> Trace<T> {
    /// Applies `f` to each element.
    pub fn map<U, F: Fn(T) -> U>(self, f: &F) -> (r: Trace<U>)
        requires
            forall|i: int, j: int|
                0 <= i < self@.len() && 0 <= j < self@[i].len() ==> f.requires(
                    (#[trigger] self@[i][j],),
                ),
        ensures
            r@.len() == self@.len(),
            forall|i: int| 0 <= i < r@.len() ==> is_mapped(*f, self@[i], #[trigger] r@[i]),
    {
        let ghost t = self@;
        let mut r: Trace<U> = Trace::new();
        for round in it: self.rounds
            invariant
                it.seq().len() == t.len(),
                forall|i: int| 0 <= i < t.len() ==> (#[trigger] it.seq()[i])@ == t[i],
                forall|i: int, j: int|
                    0 <= i < t.len() && 0 <= j < t[i].len() ==> f.requires((#[trigger] t[i][j],)),
                r@.len() == it.index(),
                forall|i: int| 0 <= i < r@.len() ==> is_mapped(*f, t[i], #[trigger] r@[i]),
        {
            let ghost k = it.index();
            let mut out: Vec<U> = Vec::new();
            for x in it2: round
                invariant
                    0 <= k < t.len(),
                    it2.seq() == t[k],
                    forall|i: int, j: int|
                        0 <= i < t.len() && 0 <= j < t[i].len() ==> f.requires(
                            (#[trigger] t[i][j],),
                        ),
                    out@.len() == it2.index(),
                    forall|j: int|
                        0 <= j < out@.len() ==> f.ensures((t[k][j],), #[trigger] out@[j]),
            {
                assert(x == t[k][it2.index()]);
                out.push(f(x));
            }
            r.push(out);
        }
        r
    }

    /// Applies `f` to each element and lists the items that it gives.
    pub fn flat_map<U, F: Fn(T) -> Vec<U>>(self, f: &F) -> (r: Trace<U>)
        requires
            forall|i: int, j: int|
                0 <= i < self@.len() && 0 <= j < self@[i].len() ==> f.requires(
                    (#[trigger] self@[i][j],),
                ),
        ensures
            r@.len() == self@.len(),
            forall|i: int| 0 <= i < r@.len() ==> is_flat_mapped(*f, self@[i], #[trigger] r@[i]),
    {
        let ghost t = self@;
        let mut r: Trace<U> = Trace::new();
        for round in it: self.rounds
            invariant
                it.seq().len() == t.len(),
                forall|i: int| 0 <= i < t.len() ==> (#[trigger] it.seq()[i])@ == t[i],
                forall|i: int, j: int|
                    0 <= i < t.len() && 0 <= j < t[i].len() ==> f.requires((#[trigger] t[i][j],)),
                r@.len() == it.index(),
                forall|i: int| 0 <= i < r@.len() ==> is_flat_mapped(*f, t[i], #[trigger] r@[i]),
        {
            let ghost k = it.index();
            let mut out: Vec<U> = Vec::new();
            for x in it2: round
                invariant
                    0 <= k < t.len(),
                    it2.seq() == t[k],
                    forall|i: int, j: int|
                        0 <= i < t.len() && 0 <= j < t[i].len() ==> f.requires(
                            (#[trigger] t[i][j],),
                        ),
                    is_flat_mapped(*f, t[k].take(it2.index()), out@),
            {
                let ghost n = it2.index();
                let ghost prev = out@;
                assert(x == t[k][n]);
                proof {
                    lemma_take_next(t[k], n);
                }
                let mut items = f(x);
                let ghost given = items;
                out.append(&mut items);
                proof {
                    assert(f.ensures((t[k].take(n + 1).last(),), given));
                    assert(out@.take(prev.len() as int) =~= prev);
                    assert(out@.skip(prev.len() as int) =~= given@);
                }
            }
            assert(t[k].take(t[k].len() as int) =~= t[k]);
            r.push(out);
        }
        r
    }

    /// Keeps the elements that satisfy `f`.
    pub fn filter<F: Fn(&T) -> bool>(self, f: &F) -> (r: Trace<T>)
        requires
            forall|i: int, j: int|
                0 <= i < self@.len() && 0 <= j < self@[i].len() ==> f.requires(
                    (&#[trigger] self@[i][j],),
                ),
        ensures
            r@.len() == self@.len(),
            forall|i: int| 0 <= i < r@.len() ==> is_filtered(*f, self@[i], #[trigger] r@[i]),
    {
        let ghost t = self@;
        let mut r: Trace<T> = Trace::new();
        for round in it: self.rounds
            invariant
                it.seq().len() == t.len(),
                forall|i: int| 0 <= i < t.len() ==> (#[trigger] it.seq()[i])@ == t[i],
                forall|i: int, j: int|
                    0 <= i < t.len() && 0 <= j < t[i].len() ==> f.requires((&#[trigger] t[i][j],)),
                r@.len() == it.index(),
                forall|i: int| 0 <= i < r@.len() ==> is_filtered(*f, t[i], #[trigger] r@[i]),
        {
            let ghost k = it.index();
            let mut out: Vec<T> = Vec::new();
            for x in it2: round
                invariant
                    0 <= k < t.len(),
                    it2.seq() == t[k],
                    forall|i: int, j: int|
                        0 <= i < t.len() && 0 <= j < t[i].len() ==> f.requires(
                            (&#[trigger] t[i][j],),
                        ),
                    is_filtered(*f, t[k].take(it2.index()), out@),
            {
                let ghost n = it2.index();
                let ghost prev = out@;
                assert(x == t[k][n]);
                proof {
                    lemma_take_next(t[k], n);
                }
                if f(&x) {
                    out.push(x);
                    assert(out@.drop_last() =~= prev);
                }
            }
            assert(t[k].take(t[k].len() as int) =~= t[k]);
            r.push(out);
        }
        r
    }

    /// Keeps what `f` gives for the elements.
    pub fn filter_map<U, F: Fn(T) -> Option<U>>(self, f: &F) -> (r: Trace<U>)
        requires
            forall|i: int, j: int|
                0 <= i < self@.len() && 0 <= j < self@[i].len() ==> f.requires(
                    (#[trigger] self@[i][j],),
                ),
        ensures
            r@.len() == self@.len(),
            forall|i: int| 0 <= i < r@.len() ==> is_filter_mapped(*f, self@[i], #[trigger] r@[i]),
    {
        let ghost t = self@;
        let mut r: Trace<U> = Trace::new();
        for round in it: self.rounds
            invariant
                it.seq().len() == t.len(),
                forall|i: int| 0 <= i < t.len() ==> (#[trigger] it.seq()[i])@ == t[i],
                forall|i: int, j: int|
                    0 <= i < t.len() && 0 <= j < t[i].len() ==> f.requires((#[trigger] t[i][j],)),
                r@.len() == it.index(),
                forall|i: int| 0 <= i < r@.len() ==> is_filter_mapped(*f, t[i], #[trigger] r@[i]),
        {
            let ghost k = it.index();
            let mut out: Vec<U> = Vec::new();
            for x in it2: round
                invariant
                    0 <= k < t.len(),
                    it2.seq() == t[k],
                    forall|i: int, j: int|
                        0 <= i < t.len() && 0 <= j < t[i].len() ==> f.requires(
                            (#[trigger] t[i][j],),
                        ),
                    is_filter_mapped(*f, t[k].take(it2.index()), out@),
            {
                let ghost n = it2.index();
                let ghost prev = out@;
                assert(x == t[k][n]);
                proof {
                    lemma_take_next(t[k], n);
                }
                match f(x) {
                    Some(y) => {
                        out.push(y);
                        assert(out@.drop_last() =~= prev);
                    },
                    None => {},
                }
            }
            assert(t[k].take(t[k].len() as int) =~= t[k]);
            r.push(out);
        }
        r
    }

    /// Calls `f` on each element, in order.
    pub fn inspect<F: Fn(&T)>(&self, f: &F)
        requires
            forall|i: int, j: int|
                0 <= i < self@.len() && 0 <= j < self@[i].len() ==> f.requires(
                    (&#[trigger] self@[i][j],),
                ),
    {
        let n: usize = self.len();
        for i in 0..n
            invariant
                n == self@.len(),
                forall|i: int, j: int|
                    0 <= i < self@.len() && 0 <= j < self@[i].len() ==> f.requires(
                        (&#[trigger] self@[i][j],),
                    ),
        {
            let round = self.round(i);
            for j in 0..round.len()
                invariant
                    i < self@.len(),
                    round@ == self@[i as int],
                    forall|i: int, j: int|
                        0 <= i < self@.len() && 0 <= j < self@[i].len() ==> f.requires(
                            (&#[trigger] self@[i][j],),
                        ),
            {
                assert(round@[j as int] == self@[i as int][j as int]);
                f(&round[j]);
            }
        }
    }
}

} // verus!
