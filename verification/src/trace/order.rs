//! Ordered elements.
use super::Trace;
use crate::datum::{Datum, Dup};
use crate::seqs::lemma_take_next;
use vstd::prelude::*;

verus! {

/// A value of a totally ordered type.
pub trait Ranked: Datum {
    /// Whether `self` comes no later than `other`.
    spec fn up_to(self, other: Self) -> bool;

    /// The order is total, transitive and antisymmetric.
    proof fn up_to_is_total_order(a: Self, b: Self, c: Self)
        ensures
            a.up_to(b) || b.up_to(a),
            a.up_to(b) && b.up_to(c) ==> a.up_to(c),
            a.up_to(b) && b.up_to(a) ==> a == b,
    ;

    /// Whether this value comes no later than the other.
    fn is_up_to(&self, other: &Self) -> (b: bool)
        ensures
            b == self.up_to(*other),
    ;
}

impl Ranked for u32 {
    open spec fn up_to(self, other: Self) -> bool {
        self <= other
    }

    proof fn up_to_is_total_order(a: Self, b: Self, c: Self) {
    }

    fn is_up_to(&self, other: &Self) -> (b: bool) {
        *self <= *other
    }
}

impl Ranked for u64 {
    open spec fn up_to(self, other: Self) -> bool {
        self <= other
    }

    proof fn up_to_is_total_order(a: Self, b: Self, c: Self) {
    }

    fn is_up_to(&self, other: &Self) -> (b: bool) {
        *self <= *other
    }
}

impl Ranked for usize {
    open spec fn up_to(self, other: Self) -> bool {
        self <= other
    }

    proof fn up_to_is_total_order(a: Self, b: Self, c: Self) {
    }

    fn is_up_to(&self, other: &Self) -> (b: bool) {
        *self <= *other
    }
}

impl Ranked for i32 {
    open spec fn up_to(self, other: Self) -> bool {
        self <= other
    }

    proof fn up_to_is_total_order(a: Self, b: Self, c: Self) {
    }

    fn is_up_to(&self, other: &Self) -> (b: bool) {
        *self <= *other
    }
}

impl Ranked for i64 {
    open spec fn up_to(self, other: Self) -> bool {
        self <= other
    }

    proof fn up_to_is_total_order(a: Self, b: Self, c: Self) {
    }

    fn is_up_to(&self, other: &Self) -> (b: bool) {
        *self <= *other
    }
}

impl Ranked for crate::paxos::Ballot {
    open spec fn up_to(self, other: Self) -> bool {
        self.le_spec(other)
    }

    proof fn up_to_is_total_order(a: Self, b: Self, c: Self) {
    }

    fn is_up_to(&self, other: &Self) -> (b: bool) {
        *self <= *other
    }
}

impl<A: Ranked, B: Ranked> Ranked for (A, B) {
    open spec fn up_to(self, other: Self) -> bool {
        self.0.up_to(other.0) && (self.0 == other.0 ==> self.1.up_to(other.1))
    }

    proof fn up_to_is_total_order(a: Self, b: Self, c: Self) {
        A::up_to_is_total_order(a.0, b.0, c.0);
        A::up_to_is_total_order(b.0, a.0, a.0);
        A::up_to_is_total_order(c.0, b.0, a.0);
        A::up_to_is_total_order(a.0, c.0, b.0);
        A::up_to_is_total_order(b.0, c.0, a.0);
        B::up_to_is_total_order(a.1, b.1, c.1);
    }

    fn is_up_to(&self, other: &Self) -> (b: bool) {
        self.0.is_up_to(&other.0) && (!self.0.same(&other.0) || self.1.is_up_to(&other.1))
    }
}

/// Whether a list is in increasing order.
pub open spec fn is_sorted<T: Ranked>(s: Seq<T>) -> bool {
    forall|i: int, j: int| 0 <= i < j < s.len() ==> (#[trigger] s[i]).up_to(#[trigger] s[j])
}

/// Whether two lists hold the same elements, each as often.
pub open spec fn is_permutation<T>(a: Seq<T>, b: Seq<T>) -> bool {
    a.to_multiset() == b.to_multiset()
}

/// Puts an element into its place in a sorted list.
fn insert_sorted<T: Ranked>(v: &mut Vec<T>, x: T)
    requires
        is_sorted(old(v)@),
    ensures
        is_sorted(final(v)@),
        final(v)@.to_multiset() == old(v)@.to_multiset().insert(x),
{
    let ghost s = v@;
    let mut i: usize = 0;
    while i < v.len() && v[i].is_up_to(&x)
        invariant
            0 <= i <= v.len(),
            v@ == s,
            forall|j: int| 0 <= j < i ==> (#[trigger] s[j]).up_to(x),
        decreases v.len() - i,
    {
        i += 1;
    }
    v.insert(i, x);
    proof {
        broadcast use vstd::seq_lib::group_to_multiset_ensures;

        let r = v@;
        assert(r =~= s.insert(i as int, x));
        vstd::seq_lib::to_multiset_insert(s, i as int, x);
        assert forall|a: int, b: int| 0 <= a < b < r.len() implies (#[trigger] r[a]).up_to(
            #[trigger] r[b],
        ) by {
            if b < i {
                assert(r[a] == s[a] && r[b] == s[b]);
            } else if b == i {
                assert(r[a] == s[a]);
            } else if a < i {
                assert(r[a] == s[a] && r[b] == s[b - 1]);
            } else {
                T::up_to_is_total_order(x, s[i as int], s[b - 1]);
                if a > i {
                    assert(r[a] == s[a - 1] && r[b] == s[b - 1]);
                } else if i < b - 1 {
                    assert(s[i as int].up_to(s[b - 1]));
                }
            }
        }
    }
}

/// A sorted copy of a list.
pub fn sort_list<T: Ranked>(v: &Vec<T>) -> (r: Vec<T>)
    ensures
        is_sorted(r@),
        is_permutation(r@, v@),
{
    let mut r: Vec<T> = Vec::new();
    assert(r@ =~= v@.take(0));
    for i in 0..v.len()
        invariant
            is_sorted(r@),
            r@.to_multiset() == v@.take(i as int).to_multiset(),
    {
        proof {
            broadcast use vstd::seq_lib::group_to_multiset_ensures;

            lemma_take_next(v@, i as int);
        }
        insert_sorted(&mut r, v[i].dup());
    }
    assert(v@.take(v.len() as int) =~= v@);
    r
}

impl<T: Ranked> Trace<T> {
    /// The elements of each round in increasing order.
    pub fn sort(&self) -> (r: Trace<T>)
        ensures
            r@.len() == self@.len(),
            forall|i: int|
                0 <= i < r@.len() ==> is_sorted(#[trigger] r@[i]) && is_permutation(
                    r@[i],
                    self@[i],
                ),
    {
        let n: usize = self.len();
        let mut r: Trace<T> = Trace::new();
        for i in 0..n
            invariant
                n == self@.len(),
                r@.len() == i,
                forall|k: int|
                    0 <= k < r@.len() ==> is_sorted(#[trigger] r@[k]) && is_permutation(
                        r@[k],
                        self@[k],
                    ),
        {
            r.push(sort_list(self.round(i)));
        }
        r
    }
}

/// Whether `m` is the last of the elements in their order, or none if there are none.
pub open spec fn is_max<T: Ranked>(s: Seq<T>, m: Option<T>) -> bool {
    match m {
        None => s.len() == 0,
        Some(x) => s.contains(x) && forall|i: int|
            0 <= i < s.len() ==> (#[trigger] s[i]).up_to(x),
    }
}

/// Whether `m` is the first of the elements in their order, or none if there are none.
pub open spec fn is_min<T: Ranked>(s: Seq<T>, m: Option<T>) -> bool {
    match m {
        None => s.len() == 0,
        Some(x) => s.contains(x) && forall|i: int|
            0 <= i < s.len() ==> x.up_to(#[trigger] s[i]),
    }
}

/// Keeping the later of two elements gives the last of all.
pub proof fn lemma_max_step<T: Ranked>(s: Seq<T>, m: Option<T>, x: T, next: Option<T>)
    requires
        is_max(s, m),
        match m {
            None => next == Some(x),
            Some(a) => next == Some(if x.up_to(a) { a } else { x }),
        },
    ensures
        is_max(s.push(x), next),
{
    crate::seqs::lemma_contains_push(s, x);
    let all = s.push(x);
    let y = next->0;
    assert forall|i: int| 0 <= i < all.len() implies (#[trigger] all[i]).up_to(y) by {
        T::up_to_is_total_order(x, y, y);
        T::up_to_is_total_order(y, x, x);
        if i < s.len() {
            let a = m->0;
            assert(s[i].up_to(a));
            T::up_to_is_total_order(x, a, a);
            T::up_to_is_total_order(s[i], a, y);
        }
    }
}

/// Keeping the earlier of two elements gives the first of all.
pub proof fn lemma_min_step<T: Ranked>(s: Seq<T>, m: Option<T>, x: T, next: Option<T>)
    requires
        is_min(s, m),
        match m {
            None => next == Some(x),
            Some(a) => next == Some(if a.up_to(x) { a } else { x }),
        },
    ensures
        is_min(s.push(x), next),
{
    crate::seqs::lemma_contains_push(s, x);
    let all = s.push(x);
    let y = next->0;
    assert forall|i: int| 0 <= i < all.len() implies y.up_to(#[trigger] all[i]) by {
        T::up_to_is_total_order(x, y, y);
        T::up_to_is_total_order(y, x, x);
        if i < s.len() {
            let a = m->0;
            assert(a.up_to(s[i]));
            T::up_to_is_total_order(a, x, x);
            T::up_to_is_total_order(y, a, s[i]);
        }
    }
}

} // verus!
