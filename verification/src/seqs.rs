//! Facts about sequences that several modules use.
use vstd::prelude::*;

verus! {

/// What a sequence contains after one more element.
pub proof fn lemma_contains_push<T>(s: Seq<T>, x: T)
    ensures
        forall|y: T| #[trigger] s.push(x).contains(y) <==> s.contains(y) || y == x,
{
    assert forall|y: T| #[trigger] s.push(x).contains(y) <==> s.contains(y) || y == x by {
        if s.contains(y) {
            let i = choose|i: int| 0 <= i < s.len() && s[i] == y;
            assert(s.push(x)[i] == y);
        }
        if s.push(x).contains(y) && y != x {
            let i = choose|i: int| 0 <= i < s.push(x).len() && s.push(x)[i] == y;
            assert(s[i] == y);
        }
        assert(s.push(x)[s.len() as int] == x);
    }
}

/// A prefix grows by one element at a time.
pub proof fn lemma_take_next<T>(s: Seq<T>, n: int)
    requires
        0 <= n < s.len(),
    ensures
        s.take(n + 1) == s.take(n).push(s[n]),
        s.take(n + 1).drop_last() == s.take(n),
        s.take(n + 1).last() == s[n],
        forall|y: T| #[trigger] s.take(n + 1).contains(y) <==> s.take(n).contains(y) || y == s[n],
{
    assert(s.take(n + 1) =~= s.take(n).push(s[n]));
    assert(s.take(n + 1).drop_last() =~= s.take(n));
    lemma_contains_push(s.take(n), s[n]);
}

} // verus!
