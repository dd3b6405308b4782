//! Why no slot is ever filled with two values.
//!
//! This is about the acceptors and about everything that was ever proposed, promised or
//! confirmed. Messages may be lost, repeated and reordered. A leader is only described by
//! what it may propose; [`cluster`](super::cluster) shows that proposers keep to that.
use super::acceptor::{from_checkpoint, is_greatest, law_place_all, place_all, P2a};
use super::ballot::{Ballot, Proposer};
use super::log::LogValue;
use super::recommit::{
    is_after, is_proposed, lemma_max_checkpoint, lemma_tally_is_highest, lemma_tally_some,
    max_checkpoint, tally,
};
use vstd::prelude::*;
use vstd::set_lib::{lemma_int_range, lemma_len_subset, set_int_range};

verus! {

/// What an acceptor holds.
pub ghost struct AcceptorView<P> {
    pub max_ballot: Ballot,
    pub checkpoint: Option<usize>,
    pub log: Map<usize, LogValue<P>>,
}

/// A positive answer to a request to lead.
pub ghost struct Promise<P> {
    pub acceptor: int,
    pub ballot: Ballot,
    pub checkpoint: Option<usize>,
    pub log: Map<usize, LogValue<P>>,
}

/// The cluster, with everything that was ever sent.
#[verifier::reject_recursive_types(P)]
pub ghost struct World<P> {
    pub acceptors: Seq<AcceptorView<P>>,
    /// Ballot, slot and value of every request to fill a slot.
    pub proposals: Set<(Ballot, usize, Option<P>)>,
    pub promises: Set<Promise<P>>,
    /// Acceptor, ballot and slot of every positive answer to such a request.
    pub acks: Set<(int, Ballot, usize)>,
}

/// Whether one checkpoint is at least another.
pub open spec fn checkpoint_le(a: Option<usize>, b: Option<usize>) -> bool {
    a matches Some(x) ==> (b matches Some(y) && x <= y)
}

/// Whether the slot lies before the checkpoint.
pub open spec fn is_before(slot: usize, checkpoint: Option<usize>) -> bool {
    checkpoint matches Some(c) && slot < c
}

/// At the start nothing has been sent and the `2 * f + 1` acceptors are empty.
pub open spec fn init<P>(w: World<P>, f: nat) -> bool {
    &&& w.acceptors.len() == 2 * f + 1
    &&& forall|a: int|
        0 <= a < w.acceptors.len() ==> (#[trigger] w.acceptors[a]) == (AcceptorView::<P> {
            max_ballot: Ballot::least_spec(),
            checkpoint: None,
            log: Map::empty(),
        })
    &&& w.proposals == Set::<(Ballot, usize, Option<P>)>::empty()
    &&& w.promises == Set::<Promise<P>>::empty()
    &&& w.acks == Set::<(int, Ballot, usize)>::empty()
}

/// One tick of an acceptor, on requests that were sent before. Its checkpoint never
/// moves back.
pub open spec fn acceptor_step<P>(
    w: World<P>,
    next: World<P>,
    a: int,
    p1as: Seq<Ballot>,
    p2as: Seq<P2a<P, Proposer>>,
) -> bool {
    let old_a = w.acceptors[a];
    let new_a = next.acceptors[a];
    &&& 0 <= a < w.acceptors.len()
    &&& next.acceptors.len() == w.acceptors.len()
    &&& forall|i: int|
        0 <= i < w.acceptors.len() && i != a ==> #[trigger] next.acceptors[i] == w.acceptors[i]
    &&& forall|i: int|
        0 <= i < p2as.len() ==> w.proposals.contains(
            ((#[trigger] p2as[i]).ballot, p2as[i].slot, p2as[i].value),
        )
    &&& is_greatest(new_a.max_ballot, old_a.max_ballot, p1as)
    &&& checkpoint_le(old_a.checkpoint, new_a.checkpoint)
    &&& new_a.log == from_checkpoint(
        place_all(old_a.log, p2as, new_a.max_ballot),
        new_a.checkpoint,
    )
    &&& next.proposals == w.proposals
    &&& next.promises == if p1as.contains(new_a.max_ballot) {
        w.promises.insert(
            Promise {
                acceptor: a,
                ballot: new_a.max_ballot,
                checkpoint: new_a.checkpoint,
                log: new_a.log,
            },
        )
    } else {
        w.promises
    }
    &&& forall|ack: (int, Ballot, usize)| #[trigger]
        next.acks.contains(ack) <==> w.acks.contains(ack) || (ack.0 == a && ack.1
            == new_a.max_ballot && exists|i: int|
            0 <= i < p2as.len() && (#[trigger] p2as[i]).ballot == ack.1 && p2as[i].slot == ack.2)
}

/// The checkpoints and logs of some promises.
pub open spec fn promised_logs<P>(
    quorum: Seq<Promise<P>>,
) -> Seq<(Option<usize>, Map<usize, LogValue<P>>)> {
    quorum.map_values(|p: Promise<P>| (p.checkpoint, p.log))
}

/// Whether these are promises for the ballot by more than `f` different acceptors.
pub open spec fn is_promise_quorum<P>(
    w: World<P>,
    quorum: Seq<Promise<P>>,
    ballot: Ballot,
    f: nat,
) -> bool {
    &&& quorum.len() >= f + 1
    &&& forall|i: int|
        0 <= i < quorum.len() ==> w.promises.contains(#[trigger] quorum[i]) && quorum[i].ballot
            == ballot
    &&& forall|i: int, j: int|
        0 <= i < j < quorum.len() ==> (#[trigger] quorum[i]).acceptor != (
        #[trigger] quorum[j]).acceptor
}

/// Whether the leader may propose the value for the slot, as far as the logs of its
/// quorum tell: the slot is after every checkpoint, and the value is that of the
/// entry with the highest ballot, or the slot is in no log.
pub open spec fn is_allowed<P>(
    logs: Seq<(Option<usize>, Map<usize, LogValue<P>>)>,
    slot: usize,
    value: Option<P>,
) -> bool {
    &&& is_after(max_checkpoint(logs), slot)
    &&& match tally(logs, slot) {
        Some((_, entry)) => value == entry.value,
        None => true,
    }
}

/// A leader that holds a quorum of promises for its ballot sends proposals.
///
/// Each of them is allowed by the logs of the quorum, and none gives a slot a second value
/// under the ballot.
pub open spec fn leader_step<P>(
    w: World<P>,
    next: World<P>,
    f: nat,
    ballot: Ballot,
    quorum: Seq<Promise<P>>,
    to_send: Seq<((usize, Ballot), Option<P>)>,
) -> bool {
    &&& is_promise_quorum(w, quorum, ballot, f)
    &&& forall|i: int|
        0 <= i < to_send.len() ==> (#[trigger] to_send[i]).0.1 == ballot && is_allowed(
            promised_logs(quorum),
            to_send[i].0.0,
            to_send[i].1,
        )
    &&& forall|i: int, j: int|
        0 <= i < j < to_send.len() ==> (#[trigger] to_send[i]).0.0 != (#[trigger] to_send[j]).0.0
    &&& forall|i: int, v: Option<P>|
        0 <= i < to_send.len() && #[trigger] w.proposals.contains(
            (ballot, (#[trigger] to_send[i]).0.0, v),
        ) ==> v == to_send[i].1
    &&& next.acceptors == w.acceptors
    &&& next.promises == w.promises
    &&& next.acks == w.acks
    &&& forall|p: (Ballot, usize, Option<P>)| #[trigger]
        next.proposals.contains(p) <==> w.proposals.contains(p) || to_send.contains(
            ((p.1, p.0), p.2),
        )
}

/// The `2 * f + 1` acceptors.
pub open spec fn members(f: nat) -> Set<int> {
    set_int_range(0, (2 * f + 1) as int)
}

/// Whether these are more than `f` of the `2 * f + 1` acceptors.
pub open spec fn is_quorum(q: Set<int>, f: nat) -> bool {
    q.subset_of(members(f)) && q.len() >= f + 1
}

/// Whether a value is chosen for a slot: it was proposed, and more than `f`
/// acceptors have confirmed it.
pub open spec fn is_chosen<P>(
    w: World<P>,
    f: nat,
    ballot: Ballot,
    slot: usize,
    value: Option<P>,
) -> bool {
    &&& w.proposals.contains((ballot, slot, value))
    &&& exists|q: Set<int>|
        is_quorum(q, f) && forall|a: int| #[trigger]
            q.contains(a) ==> w.acks.contains((a, ballot, slot))
}

/// Any two quorums share an acceptor.
pub proof fn law_quorums_overlap(p: Set<int>, q: Set<int>, f: nat)
    requires
        is_quorum(p, f),
        is_quorum(q, f),
    ensures
        exists|a: int| p.contains(a) && q.contains(a),
{
    let all = members(f);
    lemma_int_range(0, (2 * f + 1) as int);
    lemma_len_subset(p, all);
    lemma_len_subset(q, all);
    if forall|a: int| !(p.contains(a) && q.contains(a)) {
        assert(p.disjoint(q));
        vstd::set_lib::lemma_set_disjoint_lens(p, q);
        lemma_len_subset(p + q, all);
    }
}

/// Ballots are totally ordered.
pub proof fn lemma_ballot_order(a: Ballot, b: Ballot)
    ensures
        a == b || a.lt_spec(b) || b.lt_spec(a),
{
}

/// Whether the ballot can no longer win the slot: a quorum follows higher ballots
/// without having confirmed it.
pub open spec fn is_blocked<P>(w: World<P>, f: nat, ballot: Ballot, slot: usize) -> bool {
    exists|q: Set<int>|
        is_quorum(q, f) && forall|a: int| #[trigger]
            q.contains(a) ==> ballot.lt_spec(w.acceptors[a].max_ballot) && !w.acks.contains(
                (a, ballot, slot),
            )
}

/// Whether a confirmed slot is still visible in a checkpoint and log.
pub open spec fn is_covered<P>(
    checkpoint: Option<usize>,
    log: Map<usize, LogValue<P>>,
    ballot: Ballot,
    slot: usize,
) -> bool {
    is_before(slot, checkpoint) || (log.contains_key(slot) && ballot.le_spec(log[slot].ballot))
}

/// What holds in every state of the cluster.
pub open spec fn is_consistent<P>(w: World<P>, f: nat) -> bool {
    &&& w.acceptors.len() == 2 * f + 1
    // Logs and promises hold only what was proposed.
    &&& forall|a: int, s: usize|
        0 <= a < w.acceptors.len() && #[trigger] w.acceptors[a].log.contains_key(s)
            ==> w.proposals.contains(
            (w.acceptors[a].log[s].ballot, s, w.acceptors[a].log[s].value),
        )
    &&& forall|p: Promise<P>, s: usize|
        w.promises.contains(p) && #[trigger] p.log.contains_key(s) ==> w.proposals.contains(
            (p.log[s].ballot, s, p.log[s].value),
        )
    // A promise covers what its acceptor had confirmed under lower ballots.
    &&& forall|p: Promise<P>| #[trigger]
        w.promises.contains(p) ==> 0 <= p.acceptor < w.acceptors.len() && p.ballot.le_spec(
            w.acceptors[p.acceptor].max_ballot,
        )
    &&& forall|p: Promise<P>, b: Ballot, s: usize| #[trigger]
        w.promises.contains(p) && #[trigger] w.acks.contains((p.acceptor, b, s)) && b.lt_spec(
            p.ballot,
        ) ==> is_covered(p.checkpoint, p.log, b, s)
    // So does an acceptor's own log.
    &&& forall|a: int, b: Ballot, s: usize| #[trigger]
        w.acks.contains((a, b, s)) ==> 0 <= a < w.acceptors.len() && b.le_spec(
            w.acceptors[a].max_ballot,
        ) && is_covered(w.acceptors[a].checkpoint, w.acceptors[a].log, b, s)
    // Only proposals are confirmed.
    &&& forall|a: int, b: Ballot, s: usize| #[trigger]
        w.acks.contains((a, b, s)) ==> exists|v: Option<P>| w.proposals.contains((b, s, v))
    // A ballot proposes one value for a slot.
    &&& forall|b: Ballot, s: usize, v1: Option<P>, v2: Option<P>| #[trigger]
        w.proposals.contains((b, s, v1)) && #[trigger] w.proposals.contains((b, s, v2)) ==> v1
            == v2
    // Behind each proposal stands a quorum.
    &&& forall|b: Ballot, s: usize, v: Option<P>| #[trigger]
        w.proposals.contains((b, s, v)) ==> is_followed(w, f, b)
    // A higher ballot proposes the same value, or the lower one can no longer win.
    &&& forall|b1: Ballot, b2: Ballot, s: usize, v1: Option<P>, v2: Option<P>| #[trigger]
        w.proposals.contains((b1, s, v1)) && #[trigger] w.proposals.contains((b2, s, v2))
            && b1.lt_spec(b2) ==> v1 == v2 || is_blocked(w, f, b1, s)
}

/// Whether a quorum follows the ballot or a higher one.
pub open spec fn is_followed<P>(w: World<P>, f: nat, ballot: Ballot) -> bool {
    exists|q: Set<int>|
        is_quorum(q, f) && forall|a: int| #[trigger]
            q.contains(a) ==> ballot.le_spec(w.acceptors[a].max_ballot)
}

/// The start is consistent.
pub proof fn lemma_init<P>(w: World<P>, f: nat)
    requires
        init(w, f),
    ensures
        is_consistent(w, f),
{
}

/// A ballot that is blocked stays blocked when an acceptor moves on.
proof fn lemma_stays_blocked<P>(
    w: World<P>,
    next: World<P>,
    f: nat,
    a: int,
    p1as: Seq<Ballot>,
    p2as: Seq<P2a<P, Proposer>>,
    ballot: Ballot,
    slot: usize,
)
    requires
        w.acceptors.len() == 2 * f + 1,
        acceptor_step(w, next, a, p1as, p2as),
        is_blocked(w, f, ballot, slot),
    ensures
        is_blocked(next, f, ballot, slot),
{
    let q = choose|q: Set<int>|
        is_quorum(q, f) && forall|a: int| #[trigger]
            q.contains(a) ==> ballot.lt_spec(w.acceptors[a].max_ballot) && !w.acks.contains(
                (a, ballot, slot),
            );
    assert forall|i: int| #[trigger] q.contains(i) implies ballot.lt_spec(
        next.acceptors[i].max_ballot,
    ) && !next.acks.contains((i, ballot, slot)) by {
        assert(members(f).contains(i));
        if i != a {
            assert(next.acceptors[i] == w.acceptors[i]);
        }
    }
}

proof fn lemma_stays_followed<P>(
    w: World<P>,
    next: World<P>,
    f: nat,
    a: int,
    p1as: Seq<Ballot>,
    p2as: Seq<P2a<P, Proposer>>,
    ballot: Ballot,
)
    requires
        w.acceptors.len() == 2 * f + 1,
        acceptor_step(w, next, a, p1as, p2as),
        is_followed(w, f, ballot),
    ensures
        is_followed(next, f, ballot),
{
    let q = choose|q: Set<int>|
        is_quorum(q, f) && forall|a: int| #[trigger]
            q.contains(a) ==> ballot.le_spec(w.acceptors[a].max_ballot);
    assert forall|i: int| #[trigger] q.contains(i) implies ballot.le_spec(
        next.acceptors[i].max_ballot,
    ) by {
        assert(members(f).contains(i));
        if i != a {
            assert(next.acceptors[i] == w.acceptors[i]);
        }
    }
}

/// A tick of an acceptor keeps the cluster consistent.
pub proof fn lemma_acceptor_step<P>(
    w: World<P>,
    next: World<P>,
    f: nat,
    a: int,
    p1as: Seq<Ballot>,
    p2as: Seq<P2a<P, Proposer>>,
)
    requires
        is_consistent(w, f),
        acceptor_step(w, next, a, p1as, p2as),
    ensures
        is_consistent(next, f),
{
    let old_a = w.acceptors[a];
    let new_a = next.acceptors[a];
    let m = new_a.max_ballot;
    let placed = place_all(old_a.log, p2as, m);
    law_place_all(old_a.log, p2as, m);
    // The new log holds proposals.
    assert forall|s: usize| #[trigger] new_a.log.contains_key(s) implies w.proposals.contains(
        (new_a.log[s].ballot, s, new_a.log[s].value),
    ) by {
        assert(placed.contains_key(s) && placed[s] == new_a.log[s]);
        if old_a.log.contains_key(s) && placed[s] == old_a.log[s] {
            assert(w.acceptors[a].log.contains_key(s));
        } else {
            let i = choose|i: int|
                0 <= i < p2as.len() && (#[trigger] p2as[i]).slot == s && placed[s] == (LogValue {
                    ballot: p2as[i].ballot,
                    value: p2as[i].value,
                });
            assert(w.proposals.contains((p2as[i].ballot, p2as[i].slot, p2as[i].value)));
        }
    }
    assert forall|i: int, s: usize|
        0 <= i < next.acceptors.len() && #[trigger] next.acceptors[i].log.contains_key(
            s,
        ) implies next.proposals.contains(
        (next.acceptors[i].log[s].ballot, s, next.acceptors[i].log[s].value),
    ) by {
        if i != a {
            assert(next.acceptors[i] == w.acceptors[i]);
            assert(w.acceptors[i].log.contains_key(s));
        }
    }
    // The new log covers all that the acceptor has confirmed.
    assert forall|b: Ballot, s: usize| #[trigger] next.acks.contains((a, b, s)) implies b.le_spec(
        m,
    ) && is_covered(new_a.checkpoint, new_a.log, b, s) by {
        if w.acks.contains((a, b, s)) {
            assert(is_covered(old_a.checkpoint, old_a.log, b, s));
            if !is_before(s, new_a.checkpoint) {
                assert(old_a.log.contains_key(s));
                assert(placed.contains_key(s));
                assert(new_a.log.contains_key(s));
            }
        } else {
            let i = choose|i: int|
                0 <= i < p2as.len() && (#[trigger] p2as[i]).ballot == b && p2as[i].slot == s;
            assert(placed.contains_key(s));
            if !is_before(s, new_a.checkpoint) {
                assert(new_a.log.contains_key(s));
            }
        }
    }
    assert forall|i: int, b: Ballot, s: usize| #[trigger]
        next.acks.contains((i, b, s)) implies 0 <= i < next.acceptors.len() && b.le_spec(
        next.acceptors[i].max_ballot,
    ) && is_covered(next.acceptors[i].checkpoint, next.acceptors[i].log, b, s) by {
        if i != a {
            assert(w.acks.contains((i, b, s)));
            assert(next.acceptors[i] == w.acceptors[i]);
        }
    }
    assert forall|i: int, b: Ballot, s: usize| #[trigger]
        next.acks.contains((i, b, s)) implies exists|v: Option<P>|
        next.proposals.contains((b, s, v)) by {
        if w.acks.contains((i, b, s)) {
            let v = choose|v: Option<P>| w.proposals.contains((b, s, v));
            assert(next.proposals.contains((b, s, v)));
        } else {
            let k = choose|k: int|
                0 <= k < p2as.len() && (#[trigger] p2as[k]).ballot == b && p2as[k].slot == s;
            assert(next.proposals.contains((p2as[k].ballot, p2as[k].slot, p2as[k].value)));
        }
    }
    // Promises.
    assert forall|p: Promise<P>| #[trigger] next.promises.contains(p) implies 0 <= p.acceptor
        < next.acceptors.len() && p.ballot.le_spec(
        next.acceptors[p.acceptor].max_ballot,
    ) by {
        if w.promises.contains(p) {
            if p.acceptor != a {
                assert(next.acceptors[p.acceptor] == w.acceptors[p.acceptor]);
            }
        }
    }
    assert forall|p: Promise<P>, s: usize|
        next.promises.contains(p) && #[trigger] p.log.contains_key(
            s,
        ) implies next.proposals.contains((p.log[s].ballot, s, p.log[s].value)) by {
        if !w.promises.contains(p) {
            assert(new_a.log.contains_key(s));
        }
    }
    assert forall|p: Promise<P>, b: Ballot, s: usize| #[trigger]
        next.promises.contains(p) && #[trigger] next.acks.contains((p.acceptor, b, s))
            && b.lt_spec(p.ballot) implies is_covered(p.checkpoint, p.log, b, s) by {
        if w.promises.contains(p) {
            // A later confirmation would carry a ballot at least as high.
            assert(w.acks.contains((p.acceptor, b, s)));
        }
    }
    assert forall|b: Ballot, s: usize, v: Option<P>| #[trigger]
        next.proposals.contains((b, s, v)) implies is_followed(next, f, b) by {
        assert(w.proposals.contains((b, s, v)));
        lemma_stays_followed(w, next, f, a, p1as, p2as, b);
    }
    assert forall|b1: Ballot, b2: Ballot, s: usize, v1: Option<P>, v2: Option<P>| #[trigger]
        next.proposals.contains((b1, s, v1)) && #[trigger] next.proposals.contains((b2, s, v2))
            && b1.lt_spec(b2) implies v1 == v2 || is_blocked(next, f, b1, s) by {
        assert(w.proposals.contains((b1, s, v1)) && w.proposals.contains((b2, s, v2)));
        if v1 != v2 {
            lemma_stays_blocked(w, next, f, a, p1as, p2as, b1, s);
        }
    }
}

/// The acceptors behind a quorum of promises.
pub open spec fn promisers<P>(quorum: Seq<Promise<P>>) -> Set<int> {
    quorum.map_values(|p: Promise<P>| p.acceptor).to_set()
}

proof fn lemma_promisers<P>(w: World<P>, quorum: Seq<Promise<P>>, ballot: Ballot, f: nat)
    requires
        is_consistent(w, f),
        is_promise_quorum(w, quorum, ballot, f),
    ensures
        is_quorum(promisers(quorum), f),
        forall|a: int| #[trigger]
            promisers(quorum).contains(a) ==> exists|i: int|
                0 <= i < quorum.len() && (#[trigger] quorum[i]).acceptor == a,
{
    let ids = quorum.map_values(|p: Promise<P>| p.acceptor);
    assert(ids.no_duplicates()) by {
        assert forall|i: int, j: int| 0 <= i < ids.len() && 0 <= j < ids.len() && i != j implies
            ids[i] != ids[j] by {
            assert(ids[i] == quorum[i].acceptor && ids[j] == quorum[j].acceptor);
        }
    }
    ids.unique_seq_to_set();
    assert forall|a: int| #[trigger] promisers(quorum).contains(a) implies exists|i: int|
        0 <= i < quorum.len() && (#[trigger] quorum[i]).acceptor == a by {
        assert(ids.contains(a));
        let i = choose|i: int| 0 <= i < ids.len() && ids[i] == a;
        assert(quorum[i].acceptor == a);
    }
    assert(promisers(quorum).subset_of(members(f))) by {
        assert forall|a: int| promisers(quorum).contains(a) implies members(f).contains(a) by {
            let i = choose|i: int| 0 <= i < quorum.len() && (#[trigger] quorum[i]).acceptor == a;
            assert(w.promises.contains(quorum[i]));
        }
    }
}

/// What a leader may propose agrees with every lower ballot that can still win.
proof fn lemma_allowed_agrees<P>(
    w: World<P>,
    f: nat,
    ballot: Ballot,
    quorum: Seq<Promise<P>>,
    slot: usize,
    value: Option<P>,
    lower: Ballot,
    lower_value: Option<P>,
)
    requires
        is_consistent(w, f),
        is_promise_quorum(w, quorum, ballot, f),
        is_allowed(promised_logs(quorum), slot, value),
        w.proposals.contains((lower, slot, lower_value)),
        lower.lt_spec(ballot),
    ensures
        value == lower_value || is_blocked(w, f, lower, slot),
{
    let logs = promised_logs(quorum);
    let q = promisers(quorum);
    lemma_promisers(w, quorum, ballot, f);
    if exists|a: int| q.contains(a) && w.acks.contains((a, lower, slot)) {
        let a = choose|a: int| q.contains(a) && w.acks.contains((a, lower, slot));
        let i = choose|i: int| 0 <= i < quorum.len() && (#[trigger] quorum[i]).acceptor == a;
        let p = quorum[i];
        assert(w.promises.contains(p));
        assert(w.acks.contains((p.acceptor, lower, slot)));
        assert(is_covered(p.checkpoint, p.log, lower, slot));
        assert(logs[i] == (p.checkpoint, p.log));
        lemma_max_checkpoint(logs, i);
        assert(logs[i].1.contains_key(slot));
        lemma_tally_some(logs, slot);
        assert(is_proposed(logs, slot));
        lemma_tally_is_highest(logs, slot);
        let (_, entry) = tally(logs, slot)->0;
        assert(lower.le_spec(entry.ballot));
        let k = choose|k: int|
            0 <= k < logs.len() && (#[trigger] logs[k]).1.contains_key(slot) && logs[k].1[slot]
                == entry;
        assert(logs[k].1 == quorum[k].log);
        assert(w.promises.contains(quorum[k]));
        assert(quorum[k].log.contains_key(slot));
        assert(w.proposals.contains((entry.ballot, slot, entry.value)));
        if lower == entry.ballot {
            assert(lower_value == entry.value);
        } else {
            assert(lower.lt_spec(entry.ballot));
        }
    } else {
        assert forall|a: int| #[trigger] q.contains(a) implies lower.lt_spec(
            w.acceptors[a].max_ballot,
        ) && !w.acks.contains((a, lower, slot)) by {
            let i = choose|i: int| 0 <= i < quorum.len() && (#[trigger] quorum[i]).acceptor == a;
            assert(w.promises.contains(quorum[i]));
        }
    }
}

/// What a leader sends keeps the cluster consistent.
pub proof fn lemma_leader_step<P>(
    w: World<P>,
    next: World<P>,
    n: nat,
    ballot: Ballot,
    quorum: Seq<Promise<P>>,
    to_send: Seq<((usize, Ballot), Option<P>)>,
)
    requires
        is_consistent(w, n),
        leader_step(w, next, n, ballot, quorum, to_send),
    ensures
        is_consistent(next, n),
{
    lemma_promisers(w, quorum, ballot, n);
    let q = promisers(quorum);
    assert(is_followed(next, n, ballot)) by {
        assert forall|a: int| #[trigger] q.contains(a) implies ballot.le_spec(
            next.acceptors[a].max_ballot,
        ) by {
            let i = choose|i: int| 0 <= i < quorum.len() && (#[trigger] quorum[i]).acceptor == a;
            assert(w.promises.contains(quorum[i]));
        }
    }
    // Each proposal is an old one or one that was sent in this step.
    assert forall|b: Ballot, s: usize, v: Option<P>| #[trigger]
        next.proposals.contains((b, s, v)) implies w.proposals.contains((b, s, v)) || (b == ballot
        && exists|i: int| 0 <= i < to_send.len() && #[trigger] to_send[i] == ((s, b), v)) by {
        if !w.proposals.contains((b, s, v)) {
            assert(to_send.contains(((s, b), v)));
            let i = choose|i: int| 0 <= i < to_send.len() && to_send[i] == ((s, b), v);
            assert(to_send[i] == ((s, b), v));
        }
    }
    assert forall|a: int, b: Ballot, s: usize| #[trigger]
        next.acks.contains((a, b, s)) implies exists|v: Option<P>|
        next.proposals.contains((b, s, v)) by {
        let v = choose|v: Option<P>| w.proposals.contains((b, s, v));
        assert(next.proposals.contains((b, s, v)));
    }
    assert forall|b: Ballot, s: usize, v1: Option<P>, v2: Option<P>| #[trigger]
        next.proposals.contains((b, s, v1)) && #[trigger] next.proposals.contains(
            (b, s, v2),
        ) implies v1 == v2 by {}
    assert forall|b: Ballot, s: usize, v: Option<P>| #[trigger]
        next.proposals.contains((b, s, v)) implies is_followed(next, n, b) by {
        if w.proposals.contains((b, s, v)) {
            assert(is_followed(w, n, b));
            let r = choose|r: Set<int>|
                is_quorum(r, n) && forall|a: int| #[trigger]
                    r.contains(a) ==> b.le_spec(w.acceptors[a].max_ballot);
            assert forall|a: int| #[trigger] r.contains(a) implies b.le_spec(
                next.acceptors[a].max_ballot,
            ) by {}
        }
    }
    assert forall|b1: Ballot, b2: Ballot, s: usize, v1: Option<P>, v2: Option<P>| #[trigger]
        next.proposals.contains((b1, s, v1)) && #[trigger] next.proposals.contains((b2, s, v2))
            && b1.lt_spec(b2) implies v1 == v2 || is_blocked(next, n, b1, s) by {
        if w.proposals.contains((b1, s, v1)) {
            if !w.proposals.contains((b2, s, v2)) {
                lemma_allowed_agrees(w, n, b2, quorum, s, v2, b1, v1);
            }
            if v1 != v2 {
                assert(is_blocked(w, n, b1, s));
                lemma_same_blocked(w, next, n, b1, s);
            }
        } else if w.proposals.contains((b2, s, v2)) {
            // The lower ballot comes late: nobody has confirmed it, and a quorum
            // already follows the higher one.
            assert(is_followed(w, n, b2));
            let r = choose|r: Set<int>|
                is_quorum(r, n) && forall|a: int| #[trigger]
                    r.contains(a) ==> b2.le_spec(w.acceptors[a].max_ballot);
            assert forall|a: int| #[trigger] r.contains(a) implies b1.lt_spec(
                next.acceptors[a].max_ballot,
            ) && !next.acks.contains((a, b1, s)) by {
                if w.acks.contains((a, b1, s)) {
                    let v = choose|v: Option<P>| w.proposals.contains((b1, s, v));
                    assert(w.proposals.contains((b1, s, v)));
                }
            }
        }
    }
}

proof fn lemma_same_blocked<P>(w: World<P>, next: World<P>, f: nat, ballot: Ballot, slot: usize)
    requires
        is_blocked(w, f, ballot, slot),
        next.acceptors == w.acceptors,
        next.acks == w.acks,
    ensures
        is_blocked(next, f, ballot, slot),
{
    let q = choose|q: Set<int>|
        is_quorum(q, f) && forall|a: int| #[trigger]
            q.contains(a) ==> ballot.lt_spec(w.acceptors[a].max_ballot) && !w.acks.contains(
                (a, ballot, slot),
            );
    assert forall|a: int| #[trigger] q.contains(a) implies ballot.lt_spec(
        next.acceptors[a].max_ballot,
    ) && !next.acks.contains((a, ballot, slot)) by {}
}

/// In a consistent state no two values are chosen for a slot.
pub proof fn lemma_chosen_agree<P>(
    w: World<P>,
    f: nat,
    b1: Ballot,
    b2: Ballot,
    slot: usize,
    v1: Option<P>,
    v2: Option<P>,
)
    requires
        is_consistent(w, f),
        is_chosen(w, f, b1, slot, v1),
        is_chosen(w, f, b2, slot, v2),
        b1.le_spec(b2),
    ensures
        v1 == v2,
{
    if b1 != b2 && v1 != v2 {
        let chosen_by = choose|q: Set<int>|
            is_quorum(q, f) && forall|a: int| #[trigger]
                q.contains(a) ==> w.acks.contains((a, b1, slot));
        assert(is_blocked(w, f, b1, slot));
        let blocked_by = choose|q: Set<int>|
            is_quorum(q, f) && forall|a: int| #[trigger]
                q.contains(a) ==> b1.lt_spec(w.acceptors[a].max_ballot) && !w.acks.contains(
                    (a, b1, slot),
                );
        law_quorums_overlap(chosen_by, blocked_by, f);
    }
}

} // verus!
