//! Joining responses with the requests that they answer.
use crate::datum::{Datum, Dup};
use crate::seqs::lemma_take_next;
use vstd::prelude::*;

verus! {

/// The requests for a key, in order.
pub open spec fn matching<K, M>(requests: Seq<(K, M)>, key: K) -> Seq<(K, M)>
    decreases requests.len(),
{
    if requests.len() == 0 {
        Seq::empty()
    } else {
        let before = matching(requests.drop_last(), key);
        if requests.last().0 == key {
            before.push(requests.last())
        } else {
            before
        }
    }
}

/// The requests for other keys, in order.
pub open spec fn not_matching<K, M>(requests: Seq<(K, M)>, key: K) -> Seq<(K, M)>
    decreases requests.len(),
{
    if requests.len() == 0 {
        Seq::empty()
    } else {
        let before = not_matching(requests.drop_last(), key);
        if requests.last().0 == key {
            before
        } else {
            before.push(requests.last())
        }
    }
}

/// The requests that are still open after responses for the given keys.
pub open spec fn unanswered<K, M>(requests: Seq<(K, M)>, keys: Seq<K>) -> Seq<(K, M)>
    decreases keys.len(),
{
    if keys.len() == 0 {
        requests
    } else {
        not_matching(unanswered(requests, keys.drop_last()), keys.last())
    }
}

/// The requests that responses for the given keys answer, in the order of the
/// responses.
pub open spec fn answered<K, M>(requests: Seq<(K, M)>, keys: Seq<K>) -> Seq<(K, M)>
    decreases keys.len(),
{
    if keys.len() == 0 {
        Seq::empty()
    } else {
        answered(requests, keys.drop_last()) + matching(
            unanswered(requests, keys.drop_last()),
            keys.last(),
        )
    }
}

proof fn lemma_matching_contained<K, M>(requests: Seq<(K, M)>, key: K)
    ensures
        forall|r: (K, M)| #[trigger]
            matching(requests, key).contains(r) ==> requests.contains(r) && r.0 == key,
        forall|r: (K, M)| #[trigger]
            not_matching(requests, key).contains(r) ==> requests.contains(r) && r.0 != key,
    decreases requests.len(),
{
    if requests.len() > 0 {
        let rest = requests.drop_last();
        lemma_matching_contained(rest, key);
        crate::seqs::lemma_contains_push(matching(rest, key), requests.last());
        crate::seqs::lemma_contains_push(not_matching(rest, key), requests.last());
        crate::seqs::lemma_contains_push(rest, requests.last());
        assert(rest.push(requests.last()) =~= requests);
    }
}

/// Whatever is answered was requested, and its key is among the responses.
pub proof fn law_answers_were_requested<K, M>(requests: Seq<(K, M)>, keys: Seq<K>)
    ensures
        forall|r: (K, M)| #[trigger]
            answered(requests, keys).contains(r) ==> requests.contains(r) && keys.contains(r.0),
        forall|r: (K, M)| #[trigger]
            unanswered(requests, keys).contains(r) ==> requests.contains(r) && !keys.contains(r.0),
    decreases keys.len(),
{
    if keys.len() > 0 {
        let rest = keys.drop_last();
        let open = unanswered(requests, rest);
        law_answers_were_requested(requests, rest);
        lemma_matching_contained(open, keys.last());
        crate::seqs::lemma_contains_push(rest, keys.last());
        assert(rest.push(keys.last()) =~= keys);
        assert forall|r: (K, M)| #[trigger]
            answered(requests, keys).contains(r) implies requests.contains(r) && keys.contains(
            r.0,
        ) by {
            let a = answered(requests, rest);
            let b = matching(open, keys.last());
            let i = choose|i: int| 0 <= i < (a + b).len() && (a + b)[i] == r;
            if i < a.len() {
                assert(a[i] == r);
                assert(a.contains(r));
            } else {
                assert(b[i - a.len()] == r);
                assert(b.contains(r));
            }
        }
    }
}

/// Takes responses for the given keys: returns the requests that they answer and
/// removes them from the open ones.
pub fn join_responses<K: Datum, M: Dup>(requests: &mut Vec<(K, M)>, keys: &Vec<K>) -> (r: Vec<
    (K, M),
>)
    ensures
        r@ == answered(old(requests)@, keys@),
        final(requests)@ == unanswered(old(requests)@, keys@),
{
    let mut out: Vec<(K, M)> = Vec::new();
    for i in 0..keys.len()
        invariant
            out@ == answered(old(requests)@, keys@.take(i as int)),
            requests@ == unanswered(old(requests)@, keys@.take(i as int)),
    {
        let key = &keys[i];
        let ghost open = requests@;
        let ghost done = out@;
        let mut rest: Vec<(K, M)> = Vec::new();
        for j in 0..requests.len()
            invariant
                requests@ == open,
                *key == keys@[i as int],
                rest@ == not_matching(open.take(j as int), *key),
                out@ == done + matching(open.take(j as int), *key),
        {
            proof {
                lemma_take_next(open, j as int);
            }
            let request = (requests[j].0.dup(), requests[j].1.dup());
            if requests[j].0.same(key) {
                out.push(request);
            } else {
                rest.push(request);
            }
        }
        proof {
            assert(open.take(open.len() as int) =~= open);
            lemma_take_next(keys@, i as int);
        }
        *requests = rest;
    }
    assert(keys@.take(keys.len() as int) =~= keys@);
    out
}

/// A request stays open exactly if there is no response for its key, and keeps its place among
/// the open ones. It is answered exactly if there is one. So each request is either answered or
/// open, as often as it was made, and none is lost.
pub proof fn law_each_request_is_answered_or_open<K, M>(requests: Seq<(K, M)>, keys: Seq<K>)
    ensures
        unanswered(requests, keys) == requests.filter(|r: (K, M)| !keys.contains(r.0)),
        forall|r: (K, M)| #[trigger]
            answered(requests, keys).contains(r) <==> requests.contains(r) && keys.contains(r.0),
        requests.to_multiset() == answered(requests, keys).to_multiset().add(
            unanswered(requests, keys).to_multiset(),
        ),
    decreases keys.len(),
{
    broadcast use vstd::seq_lib::group_to_multiset_ensures;

    let p = |r: (K, M)| !keys.contains(r.0);
    if keys.len() > 0 {
        let rest = keys.drop_last();
        let key = keys.last();
        let open = unanswered(requests, rest);
        law_each_request_is_answered_or_open(requests, rest);
        crate::seqs::lemma_contains_push(rest, key);
        assert(rest.push(key) =~= keys);
        lemma_matching_is_filter(open, key);
        lemma_filter_again(
            requests,
            |r: (K, M)| !rest.contains(r.0),
            |r: (K, M)| r.0 != key,
            p,
        );
        let a = answered(requests, rest);
        let b = matching(open, key);
        vstd::seq_lib::lemma_multiset_commutative(a, b);
        assert(requests.to_multiset() =~= answered(requests, keys).to_multiset().add(
            unanswered(requests, keys).to_multiset(),
        ));
        law_answers_were_requested(requests, keys);
        assert forall|r: (K, M)| #[trigger]
            answered(requests, keys).contains(r) <==> requests.contains(r) && keys.contains(
                r.0,
            ) by {
            if requests.contains(r) && keys.contains(r.0) {
                assert(requests.to_multiset().count(r) > 0);
                assert(!unanswered(requests, keys).contains(r));
                assert(unanswered(requests, keys).to_multiset().count(r) == 0);
                assert(answered(requests, keys).to_multiset().count(r) > 0);
            }
        }
    } else {
        lemma_filter_all(requests, p);
        assert(requests.to_multiset() =~= answered(requests, keys).to_multiset().add(
            unanswered(requests, keys).to_multiset(),
        ));
    }
}

proof fn lemma_filter_all<T>(s: Seq<T>, p: spec_fn(T) -> bool)
    requires
        forall|x: T| #[trigger] p(x),
    ensures
        s.filter(p) == s,
    decreases s.len(),
{
    reveal(Seq::filter);
    if s.len() > 0 {
        lemma_filter_all(s.drop_last(), p);
        assert(s.drop_last().push(s.last()) =~= s);
    }
}

proof fn lemma_filter_again<T>(
    s: Seq<T>,
    p: spec_fn(T) -> bool,
    q: spec_fn(T) -> bool,
    both: spec_fn(T) -> bool,
)
    requires
        forall|x: T| #[trigger] both(x) <==> p(x) && q(x),
    ensures
        s.filter(p).filter(q) == s.filter(both),
    decreases s.len(),
{
    reveal(Seq::filter);
    if s.len() > 0 {
        let init = s.drop_last();
        lemma_filter_again(init, p, q, both);
        if p(s.last()) {
            assert(s.filter(p).drop_last() =~= init.filter(p));
        }
    }
}

proof fn lemma_matching_is_filter<K, M>(requests: Seq<(K, M)>, key: K)
    ensures
        matching(requests, key) == requests.filter(|r: (K, M)| r.0 == key),
        not_matching(requests, key) == requests.filter(|r: (K, M)| r.0 != key),
        requests.to_multiset() == matching(requests, key).to_multiset().add(
            not_matching(requests, key).to_multiset(),
        ),
    decreases requests.len(),
{
    broadcast use vstd::seq_lib::group_to_multiset_ensures;

    reveal(Seq::filter);
    if requests.len() > 0 {
        let init = requests.drop_last();
        lemma_matching_is_filter(init, key);
        assert(requests =~= init.push(requests.last()));
    }
    assert(requests.to_multiset() =~= matching(requests, key).to_multiset().add(
        not_matching(requests, key).to_multiset(),
    ));
}

} // verus!
