//! Collecting a quorum of positive responses per key, from different responders.
use crate::datum::{Datum, Dup};
use crate::seqs::lemma_take_next;
use vstd::prelude::*;

verus! {

/// The responses to keys that are still waited for: who has responded, and whether
/// positively.
pub struct Quorum<K, M> {
    pub pending: Vec<(K, (M, bool))>,
}

/// How many responses there are for a key.
pub open spec fn count<K, M>(responses: Seq<(K, (M, bool))>, key: K) -> nat
    decreases responses.len(),
{
    if responses.len() == 0 {
        0
    } else {
        count(responses.drop_last(), key) + if responses.last().0 == key {
            1nat
        } else {
            0nat
        }
    }
}

/// Those who have responded positively for a key, in order.
pub open spec fn supporters<K, M>(responses: Seq<(K, (M, bool))>, key: K) -> Seq<M>
    decreases responses.len(),
{
    if responses.len() == 0 {
        Seq::empty()
    } else {
        let before = supporters(responses.drop_last(), key);
        if responses.last().0 == key && responses.last().1.1 {
            before.push(responses.last().1.0)
        } else {
            before
        }
    }
}

/// Whether someone has responded for a key.
pub open spec fn has_responded<K, M>(responses: Seq<(K, (M, bool))>, key: K, member: M) -> bool {
    exists|i: int|
        0 <= i < responses.len() && (#[trigger] responses[i]).0 == key && responses[i].1.0 == member
}

/// Whether nobody responds twice for a key.
pub open spec fn all_respond_once<K, M>(responses: Seq<(K, (M, bool))>) -> bool {
    forall|i: int, j: int|
        0 <= i < j < responses.len() && (#[trigger] responses[i]).0 == (#[trigger] responses[j]).0
            ==> responses[i].1.0 != responses[j].1.0
}

/// The responses for other keys.
pub open spec fn without<K, M>(responses: Seq<(K, (M, bool))>, key: K) -> Seq<(K, (M, bool))>
    decreases responses.len(),
{
    if responses.len() == 0 {
        responses
    } else if responses.last().0 == key {
        without(responses.drop_last(), key)
    } else {
        without(responses.drop_last(), key).push(responses.last())
    }
}

/// What is still waited for after one more response. One by somebody who has responded for
/// the key before is ignored; a key with `max` responses is forgotten.
pub open spec fn record<K, M>(
    pending: Seq<(K, (M, bool))>,
    response: (K, (M, bool)),
    max: nat,
) -> Seq<(K, (M, bool))> {
    let all = pending.push(response);
    if has_responded(pending, response.0, response.1.0) {
        pending
    } else if count(all, response.0) >= max {
        without(all, response.0)
    } else {
        all
    }
}

/// Whether one more response completes the quorum of its key.
pub open spec fn completes<K, M>(
    pending: Seq<(K, (M, bool))>,
    response: (K, (M, bool)),
    min: nat,
) -> bool {
    response.1.1 && !has_responded(pending, response.0, response.1.0) && supporters(
        pending,
        response.0,
    ).len() + 1 == min
}

/// What is still waited for after a sequence of responses.
pub open spec fn record_all<K, M>(
    pending: Seq<(K, (M, bool))>,
    responses: Seq<(K, (M, bool))>,
    max: nat,
) -> Seq<(K, (M, bool))>
    decreases responses.len(),
{
    if responses.len() == 0 {
        pending
    } else {
        record(record_all(pending, responses.drop_last(), max), responses.last(), max)
    }
}

/// The keys whose quorums a sequence of responses completes, in order.
pub open spec fn completed<K, M>(
    pending: Seq<(K, (M, bool))>,
    responses: Seq<(K, (M, bool))>,
    min: nat,
    max: nat,
) -> Seq<K>
    decreases responses.len(),
{
    if responses.len() == 0 {
        Seq::empty()
    } else {
        let before = completed(pending, responses.drop_last(), min, max);
        if completes(record_all(pending, responses.drop_last(), max), responses.last(), min) {
            before.push(responses.last().0)
        } else {
            before
        }
    }
}

/// Who has responded to what, and whether positively.
pub open spec fn outcomes<K, M, E>(responses: Seq<(M, (K, Result<(), E>))>) -> Seq<
    (K, (M, bool)),
> {
    responses.map_values(|r: (M, (K, Result<(), E>))| (r.1.0, (r.0, r.1.1 is Ok)))
}

/// The errors among the responses, in order.
pub open spec fn failures<M, K, V, E>(responses: Seq<(M, (K, Result<V, E>))>) -> Seq<(K, E)>
    decreases responses.len(),
{
    if responses.len() == 0 {
        Seq::empty()
    } else {
        let before = failures(responses.drop_last());
        match responses.last().1.1 {
            Ok(_) => before,
            Err(e) => before.push((responses.last().1.0, e)),
        }
    }
}

impl<K: Datum, M: Datum> Quorum<K, M> {
    pub fn new() -> (r: Self)
        ensures
            r.pending@ == Seq::<(K, (M, bool))>::empty(),
    {
        Quorum { pending: Vec::new() }
    }

    /// Takes one response; the result tells whether it completes a quorum.
    fn take_response(&mut self, key: &K, member: &M, ok: bool, min: usize, max: usize) -> (r: bool)
        ensures
            r == completes(old(self).pending@, (*key, (*member, ok)), min as nat),
            final(self).pending@ == record(
                old(self).pending@,
                (*key, (*member, ok)),
                max as nat,
            ),
    {
        let ghost before = self.pending@;
        let mut oks: usize = 0;
        for i in 0..self.pending.len()
            invariant
                self.pending@ == before,
                before == old(self).pending@,
                oks == supporters(before.take(i as int), *key).len(),
                oks <= i,
                !has_responded(before.take(i as int), *key, *member),
        {
            proof {
                lemma_take_next(before, i as int);
            }
            if self.pending[i].0.same(key) {
                if self.pending[i].1.0.same(member) {
                    assert(has_responded(before, *key, *member)) by {
                        assert(before[i as int].0 == *key);
                    }
                    return false;
                }
                if self.pending[i].1.1 {
                    oks += 1;
                }
            }
            proof {
                let next = before.take(i + 1);
                if has_responded(next, *key, *member) {
                    let j = choose|j: int|
                        0 <= j < next.len() && (#[trigger] next[j]).0 == *key && next[j].1.0
                            == *member;
                    if j < i {
                        assert(before.take(i as int)[j] == next[j]);
                    }
                }
            }
        }
        assert(before.take(before.len() as int) =~= before);
        let done = ok && oks < min && min - oks == 1;
        self.pending.push((key.dup(), (member.dup(), ok)));
        let ghost all = self.pending@;
        let mut total: usize = 0;
        for i in 0..self.pending.len()
            invariant
                self.pending@ == all,
                total == count(all.take(i as int), *key),
                total <= i,
        {
            proof {
                lemma_take_next(all, i as int);
            }
            if self.pending[i].0.same(key) {
                total += 1;
            }
        }
        assert(all.take(all.len() as int) =~= all);
        if total >= max {
            let mut rest: Vec<(K, (M, bool))> = Vec::new();
            for i in 0..self.pending.len()
                invariant
                    self.pending@ == all,
                    rest@ == without(all.take(i as int), *key),
            {
                proof {
                    lemma_take_next(all, i as int);
                }
                if !self.pending[i].0.same(key) {
                    rest.push(
                        (
                            self.pending[i].0.dup(),
                            (self.pending[i].1.0.dup(), self.pending[i].1.1),
                        ),
                    );
                }
            }
            self.pending = rest;
        }
        done
    }
}

/// Takes a batch of responses, each with its responder. Returns the keys that have just
/// received their `min`-th positive response, and all errors. Only the first response of
/// a responder counts for a key. A key with `max` responses is complete and forgotten.
pub fn collect_quorum<K: Datum, M: Datum, E: Dup>(
    state: &mut Quorum<K, M>,
    responses: &Vec<(M, (K, Result<(), E>))>,
    min: usize,
    max: usize,
) -> (r: (Vec<K>, Vec<(K, E)>))
    ensures
        r.0@ == completed(old(state).pending@, outcomes(responses@), min as nat, max as nat),
        r.1@ == failures(responses@),
        final(state).pending@ == record_all(
            old(state).pending@,
            outcomes(responses@),
            max as nat,
        ),
{
    let mut quorums: Vec<K> = Vec::new();
    let mut fails: Vec<(K, E)> = Vec::new();
    let ghost rs = outcomes(responses@);
    for i in 0..responses.len()
        invariant
            rs == outcomes(responses@),
            quorums@ == completed(old(state).pending@, rs.take(i as int), min as nat, max as nat),
            fails@ == failures(responses@.take(i as int)),
            state.pending@ == record_all(old(state).pending@, rs.take(i as int), max as nat),
    {
        proof {
            lemma_take_next(rs, i as int);
            lemma_take_next(responses@, i as int);
        }
        let key = &responses[i].1.0;
        let ok = match &responses[i].1.1 {
            Ok(_) => true,
            Err(e) => {
                fails.push((key.dup(), e.dup()));
                false
            },
        };
        if state.take_response(key, &responses[i].0, ok, min, max) {
            quorums.push(key.dup());
        }
    }
    assert(rs.take(rs.len() as int) =~= rs);
    assert(responses@.take(responses.len() as int) =~= responses@);
    (quorums, fails)
}

proof fn lemma_without<K, M>(responses: Seq<(K, (M, bool))>, key: K, other: K)
    ensures
        count(without(responses, key), other) == if other == key {
            0
        } else {
            count(responses, other)
        },
        supporters(without(responses, key), other) == if other == key {
            Seq::empty()
        } else {
            supporters(responses, other)
        },
    decreases responses.len(),
{
    if responses.len() > 0 {
        lemma_without(responses.drop_last(), key, other);
        if responses.last().0 != key {
            let w = without(responses.drop_last(), key);
            assert(w.push(responses.last()).drop_last() =~= w);
        }
    }
}

proof fn lemma_without_contained<K, M>(responses: Seq<(K, (M, bool))>, key: K)
    ensures
        forall|r: (K, (M, bool))| #[trigger]
            without(responses, key).contains(r) ==> responses.contains(r),
        all_respond_once(responses) ==> all_respond_once(without(responses, key)),
    decreases responses.len(),
{
    if responses.len() > 0 {
        let rest = responses.drop_last();
        let last = responses.last();
        lemma_without_contained(rest, key);
        let w = without(rest, key);
        crate::seqs::lemma_contains_push(w, last);
        crate::seqs::lemma_contains_push(rest, last);
        assert(rest.push(last) =~= responses);
        if all_respond_once(responses) {
            assert(all_respond_once(rest)) by {
                assert forall|i: int, j: int|
                    0 <= i < j < rest.len() && (#[trigger] rest[i]).0 == (
                    #[trigger] rest[j]).0 implies rest[i].1.0 != rest[j].1.0 by {
                    assert(rest[i] == responses[i] && rest[j] == responses[j]);
                }
            }
            let all = w.push(last);
            assert forall|i: int, j: int|
                0 <= i < j < all.len() && (#[trigger] all[i]).0 == (
                #[trigger] all[j]).0 implies all[i].1.0 != all[j].1.0 by {
                if j < w.len() {
                    assert(all[i] == w[i] && all[j] == w[j]);
                } else {
                    assert(w.contains(w[i]));
                    let k = choose|k: int| 0 <= k < rest.len() && rest[k] == w[i];
                    assert(responses[k] == w[i]);
                    assert(responses[responses.len() - 1] == last);
                }
            }
        }
    }
}

/// Those who support a key have all responded.
proof fn lemma_supporters<K, M>(responses: Seq<(K, (M, bool))>, key: K)
    ensures
        forall|m: M| #[trigger]
            supporters(responses, key).contains(m) ==> responses.contains((key, (m, true))),
        all_respond_once(responses) ==> supporters(responses, key).no_duplicates(),
        supporters(responses, key).len() <= count(responses, key),
    decreases responses.len(),
{
    if responses.len() > 0 {
        let rest = responses.drop_last();
        let last = responses.last();
        lemma_supporters(rest, key);
        crate::seqs::lemma_contains_push(supporters(rest, key), last.1.0);
        crate::seqs::lemma_contains_push(rest, last);
        assert(rest.push(last) =~= responses);
        if all_respond_once(responses) {
            assert(all_respond_once(rest)) by {
                assert forall|i: int, j: int|
                    0 <= i < j < rest.len() && (#[trigger] rest[i]).0 == (
                    #[trigger] rest[j]).0 implies rest[i].1.0 != rest[j].1.0 by {
                    assert(rest[i] == responses[i] && rest[j] == responses[j]);
                }
            }
            if last.0 == key && last.1.1 && supporters(rest, key).contains(last.1.0) {
                assert(rest.contains((key, (last.1.0, true))));
                let i = choose|i: int| 0 <= i < rest.len() && rest[i] == (key, (last.1.0, true));
                assert(responses[i].0 == responses[responses.len() - 1].0);
            }
        }
    }
}

proof fn lemma_record<K, M>(pending: Seq<(K, (M, bool))>, response: (K, (M, bool)), max: nat)
    requires
        all_respond_once(pending),
    ensures
        all_respond_once(record(pending, response, max)),
        forall|r: (K, (M, bool))| #[trigger]
            record(pending, response, max).contains(r) ==> pending.contains(r) || r == response,
{
    let all = pending.push(response);
    crate::seqs::lemma_contains_push(pending, response);
    lemma_without_contained(all, response.0);
    if !has_responded(pending, response.0, response.1.0) {
        assert(all_respond_once(all)) by {
            assert forall|i: int, j: int|
                0 <= i < j < all.len() && (#[trigger] all[i]).0 == (
                #[trigger] all[j]).0 implies all[i].1.0 != all[j].1.0 by {
                if j < pending.len() {
                    assert(all[i] == pending[i] && all[j] == pending[j]);
                } else {
                    assert(all[i] == pending[i]);
                }
            }
        }
    }
}

/// Nobody is waited for twice, and what is remembered was a response.
pub proof fn law_responses_are_kept_once<K, M>(
    pending: Seq<(K, (M, bool))>,
    responses: Seq<(K, (M, bool))>,
    max: nat,
)
    requires
        all_respond_once(pending),
    ensures
        all_respond_once(record_all(pending, responses, max)),
        forall|r: (K, (M, bool))| #[trigger]
            record_all(pending, responses, max).contains(r) ==> pending.contains(r)
                || responses.contains(r),
    decreases responses.len(),
{
    if responses.len() > 0 {
        let rest = responses.drop_last();
        law_responses_are_kept_once(pending, rest, max);
        lemma_record(record_all(pending, rest, max), responses.last(), max);
        crate::seqs::lemma_contains_push(rest, responses.last());
        assert(rest.push(responses.last()) =~= responses);
    }
}

/// Whether these are different members who have responded positively for the key, now or
/// before.
pub open spec fn all_support<K, M>(
    by: Seq<M>,
    pending: Seq<(K, (M, bool))>,
    responses: Seq<(K, (M, bool))>,
    key: K,
) -> bool {
    &&& by.no_duplicates()
    &&& forall|m: M| #[trigger]
        by.contains(m) ==> pending.contains((key, (m, true))) || responses.contains(
            (key, (m, true)),
        )
}

/// Whether at least `min` different members have responded positively for the key, now or
/// before.
pub open spec fn has_support<K, M>(
    pending: Seq<(K, (M, bool))>,
    responses: Seq<(K, (M, bool))>,
    min: nat,
    key: K,
) -> bool {
    exists|by: Seq<M>| #[trigger] all_support(by, pending, responses, key) && by.len() >= min
}

/// A key is reported only if `min` different members have responded positively for it.
pub proof fn law_quorum_is_distinct<K, M>(
    pending: Seq<(K, (M, bool))>,
    responses: Seq<(K, (M, bool))>,
    min: nat,
    max: nat,
    key: K,
)
    requires
        all_respond_once(pending),
        completed(pending, responses, min, max).contains(key),
    ensures
        has_support(pending, responses, min, key),
    decreases responses.len(),
{
    if responses.len() > 0 {
        let rest = responses.drop_last();
        let last = responses.last();
        let known = record_all(pending, rest, max);
        let before = completed(pending, rest, min, max);
        crate::seqs::lemma_contains_push(before, last.0);
        crate::seqs::lemma_contains_push(rest, last);
        assert(rest.push(last) =~= responses);
        if before.contains(key) {
            law_quorum_is_distinct(pending, rest, min, max, key);
            let by = choose|by: Seq<M>| #[trigger]
                all_support(by, pending, rest, key) && by.len() >= min;
            assert(all_support(by, pending, responses, key));
        } else {
            law_responses_are_kept_once(pending, rest, max);
            lemma_supporters(known, key);
            let s = supporters(known, key);
            let by = s.push(last.1.0);
            crate::seqs::lemma_contains_push(s, last.1.0);
            assert(last == (key, (last.1.0, true)));
            if s.contains(last.1.0) {
                assert(known.contains((key, (last.1.0, true))));
                let i = choose|i: int| 0 <= i < known.len() && known[i] == (key, (last.1.0, true));
                assert(has_responded(known, key, last.1.0)) by {
                    assert(known[i].0 == key);
                }
            }
            assert(by.no_duplicates()) by {
                assert forall|i: int, j: int|
                    0 <= i < by.len() && 0 <= j < by.len() && i != j implies by[i] != by[j] by {
                    if i < s.len() && j < s.len() {
                        assert(s[i] != s[j]);
                    } else if i < s.len() {
                        assert(s.contains(s[i]));
                    } else {
                        assert(s.contains(s[j]));
                    }
                }
            }
            assert forall|m: M| #[trigger] by.contains(m) implies pending.contains(
                (key, (m, true)),
            ) || responses.contains((key, (m, true))) by {
                if m != last.1.0 {
                    assert(s.contains(m));
                    assert(known.contains((key, (m, true))));
                }
            }
            assert(all_support(by, pending, responses, key));
        }
    }
}

proof fn lemma_pending<K, M>(responses: Seq<(K, (M, bool))>, max: nat, key: K)
    requires
        all_respond_once(responses),
        forall|k: K| #[trigger] count(responses, k) <= max,
    ensures
        count(responses, key) < max ==> {
            &&& count(record_all(Seq::empty(), responses, max), key) == count(responses, key)
            &&& supporters(record_all(Seq::empty(), responses, max), key) == supporters(
                responses,
                key,
            )
        },
        count(responses, key) == max && max > 0 ==> count(
            record_all(Seq::empty(), responses, max),
            key,
        ) == 0,
    decreases responses.len(),
{
    if responses.len() > 0 {
        let rest = responses.drop_last();
        lemma_respond_once_before(responses, max);
        lemma_pending(rest, max, key);
        let before = record_all(Seq::empty(), rest, max);
        let response = responses.last();
        let all = before.push(response);
        assert(all.drop_last() =~= before);
        lemma_without(all, response.0, key);
        if key == response.0 {
            assert(count(responses, key) <= max);
        }
    }
}

/// What holds of all responses holds of those before the last one; and the last one is new.
proof fn lemma_respond_once_before<K, M>(responses: Seq<(K, (M, bool))>, max: nat)
    requires
        responses.len() > 0,
        all_respond_once(responses),
        forall|k: K| #[trigger] count(responses, k) <= max,
    ensures
        all_respond_once(responses.drop_last()),
        forall|k: K| #[trigger] count(responses.drop_last(), k) <= max,
        !has_responded(
            record_all(Seq::empty(), responses.drop_last(), max),
            responses.last().0,
            responses.last().1.0,
        ),
{
    let rest = responses.drop_last();
    let last = responses.last();
    assert(all_respond_once(rest)) by {
        assert forall|i: int, j: int|
            0 <= i < j < rest.len() && (#[trigger] rest[i]).0 == (
            #[trigger] rest[j]).0 implies rest[i].1.0 != rest[j].1.0 by {
            assert(rest[i] == responses[i] && rest[j] == responses[j]);
        }
    }
    assert forall|k: K| #[trigger] count(rest, k) <= max by {
        assert(count(responses, k) <= max);
    }
    let known = record_all(Seq::empty(), rest, max);
    law_responses_are_kept_once(Seq::<(K, (M, bool))>::empty(), rest, max);
    if has_responded(known, last.0, last.1.0) {
        let i = choose|i: int|
            0 <= i < known.len() && (#[trigger] known[i]).0 == last.0 && known[i].1.0 == last.1.0;
        assert(known.contains(known[i]));
        assert(!Seq::<(K, (M, bool))>::empty().contains(known[i]));
        let j = choose|j: int| 0 <= j < rest.len() && rest[j] == known[i];
        assert(responses[j] == known[i]);
        assert(responses[responses.len() - 1] == last);
    }
}

/// A key is reported once its `min`-th positive response is in, and is reported
/// only once, as long as nobody responds twice for a key and no key gets more than
/// `max` responses.
pub proof fn law_quorum_reported_once<K, M>(
    responses: Seq<(K, (M, bool))>,
    min: nat,
    max: nat,
    key: K,
)
    requires
        1 <= min <= max,
        all_respond_once(responses),
        forall|k: K| #[trigger] count(responses, k) <= max,
    ensures
        completed(Seq::empty(), responses, min, max).contains(key) <==> supporters(
            responses,
            key,
        ).len() >= min,
        completed(Seq::empty(), responses, min, max).no_duplicates(),
    decreases responses.len(),
{
    if responses.len() > 0 {
        let rest = responses.drop_last();
        let response = responses.last();
        lemma_respond_once_before(responses, max);
        law_quorum_reported_once(rest, min, max, key);
        law_quorum_reported_once(rest, min, max, response.0);
        assert(count(responses, response.0) <= max);
        lemma_pending(rest, max, response.0);
        let before = completed(Seq::empty(), rest, min, max);
        crate::seqs::lemma_contains_push(before, response.0);
    }
}

/// Those who support a key are those who have responded positively for it, in order.
pub proof fn law_supporters<K, M>(responses: Seq<(K, (M, bool))>, key: K)
    ensures
        supporters(responses, key) == responses.filter(
            |r: (K, (M, bool))| r.0 == key && r.1.1,
        ).map_values(|r: (K, (M, bool))| r.1.0),
        count(responses, key) == responses.filter(|r: (K, (M, bool))| r.0 == key).len(),
        without(responses, key) == responses.filter(|r: (K, (M, bool))| r.0 != key),
    decreases responses.len(),
{
    reveal(Seq::filter);
    let p = |r: (K, (M, bool))| r.0 == key && r.1.1;
    let v = |r: (K, (M, bool))| r.1.0;
    if responses.len() > 0 {
        let init = responses.drop_last();
        law_supporters(init, key);
        if p(responses.last()) {
            assert(responses.filter(p) == init.filter(p).push(responses.last()));
            assert(responses.filter(p).map_values(v) =~= init.filter(p).map_values(v).push(
                v(responses.last()),
            ));
        } else {
            assert(responses.filter(p) == init.filter(p));
        }
    } else {
        assert(responses.filter(p).map_values(v) =~= Seq::empty());
    }
}

/// An outcome tells who has responded to what, and whether it was positive.
pub proof fn law_outcomes<M, K, E>(responses: Seq<(M, (K, Result<(), E>))>)
    ensures
        outcomes(responses).len() == responses.len(),
        forall|i: int|
            0 <= i < responses.len() ==> (#[trigger] outcomes(responses)[i]).0 == responses[i].1.0
                && outcomes(responses)[i].1.0 == responses[i].0 && (outcomes(responses)[i].1.1
                <==> responses[i].1.1 is Ok),
{
}

/// The failures are the errors of the negative responses, in order, with what they respond to.
pub proof fn law_failures<M, K, V, E>(responses: Seq<(M, (K, Result<V, E>))>)
    ensures
        failures(responses) == responses.filter(
            |r: (M, (K, Result<V, E>))| r.1.1 is Err,
        ).map_values(|r: (M, (K, Result<V, E>))| (r.1.0, r.1.1->Err_0)),
    decreases responses.len(),
{
    reveal(Seq::filter);
    let p = |r: (M, (K, Result<V, E>))| r.1.1 is Err;
    let v = |r: (M, (K, Result<V, E>))| (r.1.0, r.1.1->Err_0);
    if responses.len() > 0 {
        let init = responses.drop_last();
        law_failures(init);
        if p(responses.last()) {
            assert(responses.filter(p) == init.filter(p).push(responses.last()));
            assert(responses.filter(p).map_values(v) =~= init.filter(p).map_values(v).push(
                v(responses.last()),
            ));
        } else {
            assert(responses.filter(p) == init.filter(p));
        }
    } else {
        assert(responses.filter(p).map_values(v) =~= Seq::empty());
    }
}

/// A response by somebody who has responded for the key before changes nothing. Any other one is
/// remembered, until the key has all its responses and is forgotten. What is remembered for other
/// keys stays. The response completes the quorum of its key if it is positive and exactly one
/// was missing.
pub proof fn law_record<K, M>(
    pending: Seq<(K, (M, bool))>,
    response: (K, (M, bool)),
    min: nat,
    max: nat,
)
    ensures
        (exists|i: int|
            0 <= i < pending.len() && (#[trigger] pending[i]).0 == response.0 && pending[i].1.0
                == response.1.0) ==> record(pending, response, max) == pending && !completes(
            pending,
            response,
            min,
        ),
        (forall|i: int|
            0 <= i < pending.len() && (#[trigger] pending[i]).0 == response.0 ==> pending[i].1.0
                != response.1.0) ==> {
            let of_key = pending.filter(|r: (K, (M, bool))| r.0 == response.0);
            let positive = pending.filter(|r: (K, (M, bool))| r.0 == response.0 && r.1.1);
            &&& of_key.len() + 1 < max ==> record(pending, response, max) == pending.push(response)
            &&& of_key.len() + 1 >= max ==> record(pending, response, max) == pending.filter(
                |r: (K, (M, bool))| r.0 != response.0,
            )
            &&& completes(pending, response, min) <==> response.1.1 && positive.len() + 1 == min
        },
{
    reveal(Seq::filter);
    let all = pending.push(response);
    law_supporters(pending, response.0);
    law_supporters(all, response.0);
    assert(all.drop_last() =~= pending);
}

/// Responses can be taken in several goes: what comes out is the same as in one go.
pub proof fn law_quorums_in_goes<K, M>(
    pending: Seq<(K, (M, bool))>,
    a: Seq<(K, (M, bool))>,
    b: Seq<(K, (M, bool))>,
    min: nat,
    max: nat,
)
    ensures
        record_all(pending, a + b, max) == record_all(record_all(pending, a, max), b, max),
        completed(pending, a + b, min, max) == completed(pending, a, min, max) + completed(
            record_all(pending, a, max),
            b,
            min,
            max,
        ),
    decreases b.len(),
{
    if b.len() > 0 {
        law_quorums_in_goes(pending, a, b.drop_last(), min, max);
        assert((a + b).drop_last() =~= a + b.drop_last());
        assert((a + b).last() == b.last());
        assert(completed(pending, a + b, min, max) =~= completed(pending, a, min, max) + completed(
            record_all(pending, a, max),
            b,
            min,
            max,
        ));
    } else {
        assert(a + b =~= a);
        assert(completed(pending, a, min, max) + completed(
            record_all(pending, a, max),
            b,
            min,
            max,
        ) =~= completed(pending, a, min, max));
    }
}

/// No response changes nothing, and one response does what it does alone.
pub proof fn law_one_response<K, M>(
    pending: Seq<(K, (M, bool))>,
    response: (K, (M, bool)),
    min: nat,
    max: nat,
)
    ensures
        record_all(pending, Seq::empty(), max) == pending,
        completed(pending, Seq::empty(), min, max) == Seq::<K>::empty(),
        record_all(pending, seq![response], max) == record(pending, response, max),
        completed(pending, seq![response], min, max) == if completes(pending, response, min) {
            seq![response.0]
        } else {
            Seq::<K>::empty()
        },
{
    let one = seq![response];
    assert(one.drop_last() =~= Seq::empty());
    assert(one.last() == response);
    assert(record_all(pending, Seq::empty(), max) == pending);
    assert(completed(pending, Seq::empty(), min, max) == Seq::<K>::empty());
    assert(Seq::<K>::empty().push(response.0) =~= seq![response.0]);
}

} // verus!
