//! How a proposer becomes the leader.
use super::acceptor::{greatest, is_greatest};
use super::ballot::{Acceptor, Ballot, PaxosConfig, Proposer};
use super::log::Snapshot;
use crate::datum::Datum;
use crate::location::member_id::MemberId;
use crate::quorum::failures;
use crate::seqs::lemma_take_next;
use vstd::prelude::*;

verus! {

/// Computes the ballot of a proposer from the largest ballot that it has
/// received, and whether it is now at least that large.
///
/// `p_ballot_num` is the number of the proposer's current ballot. It stays unless a
/// larger ballot was received.
pub fn p_ballot_calc(
    self_id: MemberId<Proposer>,
    p_ballot_num: &mut u32,
    p_received_max_ballot: Ballot,
) -> (r: (Ballot, bool))
    requires
        (Ballot { num: *old(p_ballot_num), proposer_id: self_id }).lt_spec(p_received_max_ballot)
            ==> p_received_max_ballot.num < u32::MAX,
    ensures
        *final(p_ballot_num) == (if (Ballot {
            num: *old(p_ballot_num),
            proposer_id: self_id,
        }).lt_spec(p_received_max_ballot) {
            p_received_max_ballot.num + 1
        } else {
            *old(p_ballot_num) as int
        }),
        r.0 == (Ballot { num: *final(p_ballot_num), proposer_id: self_id }),
        r.1 == p_received_max_ballot.le_spec(r.0),
        r.1,
{
    let current = Ballot { num: *p_ballot_num, proposer_id: self_id };
    if p_received_max_ballot > current {
        *p_ballot_num = p_received_max_ballot.num + 1;
    }
    let p_ballot = Ballot { num: *p_ballot_num, proposer_id: self_id };
    (p_ballot, p_received_max_ballot <= p_ballot)
}

/// How long, in seconds, a proposer waits before it first checks whether the
/// leader has expired.
pub fn leader_check_delay(self_id: MemberId<Proposer>, paxos_config: PaxosConfig) -> (r: u64)
    requires
        self_id.raw_id
            * (paxos_config.i_am_leader_check_timeout_delay_multiplier as u32) <= u32::MAX,
    ensures
        r == self_id.raw_id * (paxos_config.i_am_leader_check_timeout_delay_multiplier as u32),
{
    let multiplier: u32 = paxos_config.i_am_leader_check_timeout_delay_multiplier as u32;
    let delay: u32 = self_id.get_raw_id() * multiplier;
    delay as u64
}

/// Decides on heartbeats and elections in one tick.
///
/// A leader keeps telling the others its ballot: that is the first result. A
/// proposer that is not the leader starts an election when the last heartbeat is
/// too long ago and its own check is due: that is the second.
pub fn p_leader_heartbeat(
    p_is_leader: bool,
    p_ballot: Ballot,
    p_leader_expired: bool,
    check_due: bool,
) -> (r: (Option<Ballot>, bool))
    ensures
        r.0 == (if p_is_leader {
            Some(p_ballot)
        } else {
            None
        }),
        r.1 == (p_leader_expired && !p_is_leader && check_due),
{
    let heartbeat = if p_is_leader {
        Some(p_ballot)
    } else {
        None
    };
    (heartbeat, p_leader_expired && !p_is_leader && check_due)
}

/// The replies for a ballot, in the order in which they came.
pub open spec fn replies_for<X>(received: Seq<(Ballot, X)>, ballot: Ballot) -> Seq<X>
    decreases received.len(),
{
    if received.len() == 0 {
        Seq::empty()
    } else {
        let before = replies_for(received.drop_last(), ballot);
        if received.last().0 == ballot {
            before.push(received.last().1)
        } else {
            before
        }
    }
}

/// Whether a reply of the acceptor for the ballot is among those received.
pub open spec fn has_replied<X>(
    received: Seq<(Ballot, (MemberId<Acceptor>, X))>,
    ballot: Ballot,
    id: MemberId<Acceptor>,
) -> bool {
    exists|i: int|
        0 <= i < received.len() && (#[trigger] received[i]).0 == ballot && received[i].1.0 == id
}

/// Keeps the first positive replies of each ballot, up to `quorum_size` of them, from
/// different acceptors.
pub open spec fn keep_replies<X>(
    received: Seq<(Ballot, (MemberId<Acceptor>, X))>,
    replies: Seq<(MemberId<Acceptor>, (Ballot, Result<X, Ballot>))>,
    quorum_size: nat,
) -> Seq<(Ballot, (MemberId<Acceptor>, X))>
    decreases replies.len(),
{
    if replies.len() == 0 {
        received
    } else {
        let before = keep_replies(received, replies.drop_last(), quorum_size);
        let (id, (ballot, answer)) = replies.last();
        match answer {
            Ok(x) => if replies_for(before, ballot).len() < quorum_size && !has_replied(
                before,
                ballot,
                id,
            ) {
                before.push((ballot, (id, x)))
            } else {
                before
            },
            Err(_) => before,
        }
    }
}

/// Whether `ballot` has a quorum of replies and is the largest such ballot.
pub open spec fn is_max_quorum<X>(
    received: Seq<(Ballot, X)>,
    ballot: Ballot,
    quorum_size: nat,
) -> bool {
    &&& replies_for(received, ballot).len() >= quorum_size
    &&& forall|i: int|
        0 <= i < received.len() && replies_for(received, (#[trigger] received[i]).0).len()
            >= quorum_size ==> received[i].0.le_spec(ballot)
}

/// The replies for a ballot are those that were received with it, in order.
pub proof fn law_replies_for<X>(received: Seq<(Ballot, X)>, ballot: Ballot)
    ensures
        replies_for(received, ballot) == received.filter(
            |e: (Ballot, X)| e.0 == ballot,
        ).map_values(|e: (Ballot, X)| e.1),
    decreases received.len(),
{
    reveal(Seq::filter);
    let p = |e: (Ballot, X)| e.0 == ballot;
    let v = |e: (Ballot, X)| e.1;
    if received.len() > 0 {
        let init = received.drop_last();
        law_replies_for(init, ballot);
        if received.last().0 == ballot {
            assert(received.filter(p) == init.filter(p).push(received.last()));
            assert(received.filter(p).map_values(v) =~= init.filter(p).map_values(v).push(
                received.last().1,
            ));
        } else {
            assert(received.filter(p) == init.filter(p));
        }
    } else {
        assert(received.filter(p).map_values(v) =~= Seq::empty());
    }
}

/// Whether an acceptor has replied positively for the ballot, in this tick or before.
pub open spec fn said_yes<X>(
    received: Seq<(Ballot, (MemberId<Acceptor>, X))>,
    replies: Seq<(MemberId<Acceptor>, (Ballot, Result<X, Ballot>))>,
    ballot: Ballot,
    id: MemberId<Acceptor>,
) -> bool {
    ||| exists|i: int|
        0 <= i < received.len() && (#[trigger] received[i]).0 == ballot && received[i].1.0 == id
    ||| exists|i: int|
        0 <= i < replies.len() && (#[trigger] replies[i]).0 == id && replies[i].1.0 == ballot
            && replies[i].1.1 is Ok
}

/// Whether no acceptor has two replies for one ballot.
pub open spec fn one_reply_each<X>(received: Seq<(Ballot, (MemberId<Acceptor>, X))>) -> bool {
    forall|i: int, j: int|
        0 <= i < j < received.len() && (#[trigger] received[i]).0 == (#[trigger] received[j]).0
            ==> received[i].1.0 != received[j].1.0
}

/// The acceptors of which a reply for the ballot is kept.
pub open spec fn repliers<X>(
    received: Seq<(Ballot, (MemberId<Acceptor>, X))>,
    ballot: Ballot,
) -> Seq<MemberId<Acceptor>> {
    replies_for(received, ballot).map_values(|r: (MemberId<Acceptor>, X)| r.0)
}

proof fn lemma_repliers<X>(received: Seq<(Ballot, (MemberId<Acceptor>, X))>, ballot: Ballot)
    ensures
        forall|id: MemberId<Acceptor>| #[trigger]
            repliers(received, ballot).contains(id) <==> has_replied(received, ballot, id),
        one_reply_each(received) ==> repliers(received, ballot).no_duplicates(),
    decreases received.len(),
{
    if received.len() > 0 {
        let init = received.drop_last();
        let last = received.last();
        lemma_repliers(init, ballot);
        let before = repliers(init, ballot);
        let all = repliers(received, ballot);
        if last.0 == ballot {
            assert(all =~= before.push(last.1.0));
            crate::seqs::lemma_contains_push(before, last.1.0);
        } else {
            assert(all =~= before);
        }
        assert forall|id: MemberId<Acceptor>| #[trigger] all.contains(id) <==> has_replied(
            received,
            ballot,
            id,
        ) by {
            assert(before.contains(id) <==> has_replied(init, ballot, id));
            if has_replied(init, ballot, id) {
                let i = choose|i: int|
                    0 <= i < init.len() && (#[trigger] init[i]).0 == ballot && init[i].1.0 == id;
                assert(received[i].0 == ballot);
            }
            if has_replied(received, ballot, id) {
                let i = choose|i: int|
                    0 <= i < received.len() && (#[trigger] received[i]).0 == ballot
                        && received[i].1.0 == id;
                if i < init.len() {
                    assert(init[i].0 == ballot);
                }
            }
            if last.0 == ballot && last.1.0 == id {
                assert(received[received.len() - 1].0 == ballot);
            }
        }
        if one_reply_each(received) {
            assert forall|i: int, j: int|
                0 <= i < j < init.len() && (#[trigger] init[i]).0 == (
                #[trigger] init[j]).0 implies init[i].1.0 != init[j].1.0 by {
                assert(init[i] == received[i] && init[j] == received[j]);
            }
            assert(one_reply_each(init));
            if last.0 == ballot {
                assert(!before.contains(last.1.0)) by {
                    if before.contains(last.1.0) {
                        assert(has_replied(init, ballot, last.1.0));
                        let i = choose|i: int|
                            0 <= i < init.len() && (#[trigger] init[i]).0 == ballot && init[i].1.0
                                == last.1.0;
                        assert(received[i].0 == received[received.len() - 1].0);
                    }
                }
            }
        }
    } else {
        assert forall|id: MemberId<Acceptor>| #[trigger]
            repliers(received, ballot).contains(id) <==> has_replied(received, ballot, id) by {}
    }
}

/// What is kept was received before or is a positive reply of this tick. What was kept stays.
/// The replies for one ballot come from different acceptors.
pub proof fn law_kept_replies<X>(
    received: Seq<(Ballot, (MemberId<Acceptor>, X))>,
    replies: Seq<(MemberId<Acceptor>, (Ballot, Result<X, Ballot>))>,
    q: nat,
)
    ensures
        forall|b: Ballot, id: MemberId<Acceptor>, x: X| #[trigger]
            keep_replies(received, replies, q).contains((b, (id, x))) ==> received.contains(
                (b, (id, x)),
            ) || replies.contains((id, (b, Ok(x)))),
        received.len() <= keep_replies(received, replies, q).len(),
        forall|i: int|
            0 <= i < received.len() ==> #[trigger] keep_replies(received, replies, q)[i]
                == received[i],
        one_reply_each(received) ==> one_reply_each(keep_replies(received, replies, q)),
    decreases replies.len(),
{
    if replies.len() > 0 {
        let rest = replies.drop_last();
        let before = keep_replies(received, rest, q);
        let all = keep_replies(received, replies, q);
        law_kept_replies(received, rest, q);
        let (id0, (b0, answer)) = replies.last();
        assert(replies[replies.len() - 1] == replies.last());
        assert forall|b: Ballot, id: MemberId<Acceptor>, x: X| #[trigger]
            all.contains((b, (id, x))) implies received.contains((b, (id, x))) || replies.contains(
            (id, (b, Ok(x))),
        ) by {
            let i = choose|i: int| 0 <= i < all.len() && all[i] == (b, (id, x));
            if i < before.len() {
                assert(before[i] == (b, (id, x)));
                assert(before.contains((b, (id, x))));
                if rest.contains((id, (b, Ok(x)))) {
                    let j = choose|j: int| 0 <= j < rest.len() && rest[j] == (id, (b, Ok::<X, Ballot>(x)));
                    assert(replies[j] == (id, (b, Ok::<X, Ballot>(x))));
                }
            } else {
                assert(replies.last() == (id, (b, Ok::<X, Ballot>(x))));
            }
        }
        if one_reply_each(received) && all.len() > before.len() {
            assert forall|i: int, j: int|
                0 <= i < j < all.len() && (#[trigger] all[i]).0 == (#[trigger] all[j]).0 implies
                all[i].1.0 != all[j].1.0 by {
                assert(all[i] == before[i]);
                if j < before.len() {
                    assert(all[j] == before[j]);
                }
            }
        }
    }
}

/// Replies for one ballot do not influence those for another: if as many different acceptors as
/// make a quorum have replied positively for a ballot, in this tick or before, then the ballot
/// has a quorum of kept replies, whatever is kept for other ballots.
pub proof fn law_quorum_is_found<X>(
    received: Seq<(Ballot, (MemberId<Acceptor>, X))>,
    replies: Seq<(MemberId<Acceptor>, (Ballot, Result<X, Ballot>))>,
    q: nat,
    ballot: Ballot,
    by: Seq<MemberId<Acceptor>>,
)
    requires
        by.no_duplicates(),
        by.len() >= q,
        forall|id: MemberId<Acceptor>| #[trigger]
            by.contains(id) ==> said_yes(received, replies, ballot, id),
    ensures
        replies_for(keep_replies(received, replies, q), ballot).len() >= q,
{
    let kept = keep_replies(received, replies, q);
    lemma_yes_is_kept(received, replies, q, ballot);
    if replies_for(kept, ballot).len() < q {
        let ids = repliers(kept, ballot);
        lemma_repliers(kept, ballot);
        assert forall|id: MemberId<Acceptor>| by.contains(id) implies ids.contains(id) by {
            assert(said_yes(received, replies, ballot, id));
        }
        lemma_fewer_by_set(by, ids);
    }
}

/// A list without repeats is no longer than one that holds all its elements.
proof fn lemma_fewer_by_set<T>(a: Seq<T>, b: Seq<T>)
    requires
        a.no_duplicates(),
        forall|x: T| a.contains(x) ==> b.contains(x),
    ensures
        a.len() <= b.len(),
{
    a.unique_seq_to_set();
    b.lemma_cardinality_of_set();
    assert(a.to_set().subset_of(b.to_set())) by {
        assert forall|x: T| a.to_set().contains(x) implies b.to_set().contains(x) by {
            assert(a.contains(x));
            assert(b.contains(x));
        }
    }
    vstd::seq_lib::seq_to_set_is_finite(b);
    vstd::set_lib::lemma_len_subset(a.to_set(), b.to_set());
}

proof fn lemma_yes_is_kept<X>(
    received: Seq<(Ballot, (MemberId<Acceptor>, X))>,
    replies: Seq<(MemberId<Acceptor>, (Ballot, Result<X, Ballot>))>,
    q: nat,
    ballot: Ballot,
)
    ensures
        replies_for(keep_replies(received, replies, q), ballot).len() < q ==> forall|
            id: MemberId<Acceptor>,
        | #[trigger]
            said_yes(received, replies, ballot, id) ==> has_replied(
                keep_replies(received, replies, q),
                ballot,
                id,
            ),
    decreases replies.len(),
{
    let kept = keep_replies(received, replies, q);
    if replies.len() > 0 {
        let rest = replies.drop_last();
        let before = keep_replies(received, rest, q);
        lemma_yes_is_kept(received, rest, q, ballot);
        let (id0, (b0, answer)) = replies.last();
        if kept.len() > before.len() {
            assert(kept.drop_last() =~= before);
        }
        if replies_for(kept, ballot).len() < q {
            assert(replies_for(before, ballot).len() < q);
            assert forall|id: MemberId<Acceptor>| #[trigger]
                said_yes(received, replies, ballot, id) implies has_replied(kept, ballot, id) by {
                if said_yes(received, rest, ballot, id) {
                    assert(has_replied(before, ballot, id));
                    let i = choose|i: int|
                        0 <= i < before.len() && (#[trigger] before[i]).0 == ballot
                            && before[i].1.0 == id;
                    assert(kept[i] == before[i]);
                } else {
                    let i = choose|i: int|
                        0 <= i < replies.len() && (#[trigger] replies[i]).0 == id
                            && replies[i].1.0 == ballot && replies[i].1.1 is Ok;
                    if i < rest.len() {
                        assert(rest[i] == replies[i]);
                    }
                    assert(replies.last() == replies[i]);
                    if !has_replied(before, ballot, id) {
                        assert(kept[kept.len() - 1].0 == ballot);
                    } else {
                        let i = choose|i: int|
                            0 <= i < before.len() && (#[trigger] before[i]).0 == ballot
                                && before[i].1.0 == id;
                        assert(kept[i] == before[i]);
                    }
                }
            }
        }
    } else {
        assert forall|id: MemberId<Acceptor>| #[trigger]
            said_yes(received, replies, ballot, id) implies has_replied(kept, ballot, id) by {
            let i = choose|i: int|
                0 <= i < received.len() && (#[trigger] received[i]).0 == ballot
                    && received[i].1.0 == id;
            assert(kept[i].0 == ballot);
        }
    }
}

/// Whether an acceptor has replied positively for the ballot in one of the first `n` ticks.
pub open spec fn ever_said_yes<X>(
    history: Seq<Seq<(MemberId<Acceptor>, (Ballot, Result<X, Ballot>))>>,
    n: int,
    ballot: Ballot,
    id: MemberId<Acceptor>,
) -> bool {
    exists|k: int, i: int|
        0 <= k < n && 0 <= i < history[k].len() && (#[trigger] history[k][i]).0 == id
            && history[k][i].1.0 == ballot && history[k][i].1.1 is Ok
}

/// Whether these are different acceptors, and all of them have replied positively for the ballot
/// in one of the first `n` ticks.
pub open spec fn all_said_yes<X>(
    history: Seq<Seq<(MemberId<Acceptor>, (Ballot, Result<X, Ballot>))>>,
    n: int,
    ballot: Ballot,
    by: Seq<MemberId<Acceptor>>,
) -> bool {
    by.no_duplicates() && forall|id: MemberId<Acceptor>| #[trigger]
        by.contains(id) ==> ever_said_yes(history, n, ballot, id)
}

/// Whether as many different acceptors as make a quorum have replied positively for the ballot
/// in the first `n` ticks.
pub open spec fn is_followed<X>(
    history: Seq<Seq<(MemberId<Acceptor>, (Ballot, Result<X, Ballot>))>>,
    n: int,
    q: nat,
    ballot: Ballot,
) -> bool {
    exists|by: Seq<MemberId<Acceptor>>| #[trigger]
        all_said_yes(history, n, ballot, by) && by.len() >= q
}

/// However replies are spread over ticks, and whatever came for other ballots: a ballot has a
/// quorum of kept replies exactly if a quorum of acceptors has replied positively for it.
pub proof fn law_replies_over_time<X>(
    history: Seq<Seq<(MemberId<Acceptor>, (Ballot, Result<X, Ballot>))>>,
    states: Seq<Seq<(Ballot, (MemberId<Acceptor>, X))>>,
    q: nat,
    n: int,
)
    requires
        states.len() == history.len() + 1,
        states[0].len() == 0,
        forall|k: int|
            0 <= k < history.len() ==> states[k + 1] == keep_replies(
                states[k],
                #[trigger] history[k],
                q,
            ),
        0 <= n <= history.len(),
    ensures
        one_reply_each(states[n]),
        forall|ballot: Ballot| #[trigger]
            replies_for(states[n], ballot).len() >= q <==> is_followed(history, n, q, ballot),
        forall|ballot: Ballot, id: MemberId<Acceptor>|
            has_replied(states[n], ballot, id) ==> #[trigger] ever_said_yes(
                history,
                n,
                ballot,
                id,
            ),
        forall|ballot: Ballot, id: MemberId<Acceptor>|
            replies_for(states[n], ballot).len() < q && #[trigger] ever_said_yes(
                history,
                n,
                ballot,
                id,
            ) ==> has_replied(states[n], ballot, id),
    decreases n,
{
    let kept = states[n];
    if n > 0 {
        law_replies_over_time(history, states, q, n - 1);
        let before = states[n - 1];
        let replies = history[n - 1];
        assert(states[n - 1 + 1] == keep_replies(before, replies, q));
        law_kept_replies(before, replies, q);
        assert forall|ballot: Ballot, id: MemberId<Acceptor>|
            has_replied(kept, ballot, id) implies #[trigger] ever_said_yes(
            history,
            n,
            ballot,
            id,
        ) by {
            let i = choose|i: int|
                0 <= i < kept.len() && (#[trigger] kept[i]).0 == ballot && kept[i].1.0 == id;
            let x = kept[i].1.1;
            assert(kept.contains((ballot, (id, x))));
            if before.contains((ballot, (id, x))) {
                let j = choose|j: int| 0 <= j < before.len() && before[j] == (ballot, (id, x));
                assert(before[j].0 == ballot);
                assert(has_replied(before, ballot, id));
                assert(ever_said_yes(history, n - 1, ballot, id));
                lemma_yes_stays(history, n - 1, ballot, id);
            } else {
                let j = choose|j: int| 0 <= j < replies.len() && replies[j] == (id, (ballot, Ok::<X, Ballot>(x)));
                assert(history[n - 1][j].0 == id);
            }
        }
        assert forall|ballot: Ballot, id: MemberId<Acceptor>|
            replies_for(kept, ballot).len() < q && #[trigger] ever_said_yes(
                history,
                n,
                ballot,
                id,
            ) implies has_replied(kept, ballot, id) by {
            lemma_yes_is_kept(before, replies, q, ballot);
            lemma_replies_grow(before, replies, q, ballot);
            let (k, i) = choose|k: int, i: int|
                0 <= k < n && 0 <= i < history[k].len() && (#[trigger] history[k][i]).0 == id
                    && history[k][i].1.0 == ballot && history[k][i].1.1 is Ok;
            if k < n - 1 {
                assert(ever_said_yes(history, n - 1, ballot, id)) by {
                    assert(history[k][i].0 == id);
                }
                assert(has_replied(before, ballot, id));
                assert(said_yes(before, replies, ballot, id));
            } else {
                assert(replies[i].0 == id);
                assert(said_yes(before, replies, ballot, id));
            }
        }
    }
    assert forall|ballot: Ballot| #[trigger]
        replies_for(kept, ballot).len() >= q <==> is_followed(history, n, q, ballot) by {
        let ids = repliers(kept, ballot);
        lemma_repliers(kept, ballot);
        if replies_for(kept, ballot).len() >= q {
            assert(all_said_yes(history, n, ballot, ids)) by {
                assert forall|id: MemberId<Acceptor>| #[trigger]
                    ids.contains(id) implies ever_said_yes(history, n, ballot, id) by {
                    assert(has_replied(kept, ballot, id));
                }
            }
        } else if is_followed(history, n, q, ballot) {
            let by = choose|by: Seq<MemberId<Acceptor>>| #[trigger]
                all_said_yes(history, n, ballot, by) && by.len() >= q;
            assert forall|id: MemberId<Acceptor>| by.contains(id) implies ids.contains(id) by {
                assert(ever_said_yes(history, n, ballot, id));
                assert(has_replied(kept, ballot, id));
            }
            lemma_fewer_by_set(by, ids);
        }
    }
}

proof fn lemma_yes_stays<X>(
    history: Seq<Seq<(MemberId<Acceptor>, (Ballot, Result<X, Ballot>))>>,
    n: int,
    ballot: Ballot,
    id: MemberId<Acceptor>,
)
    requires
        ever_said_yes(history, n, ballot, id),
    ensures
        ever_said_yes(history, n + 1, ballot, id),
{
    let (k, i) = choose|k: int, i: int|
        0 <= k < n && 0 <= i < history[k].len() && (#[trigger] history[k][i]).0 == id
            && history[k][i].1.0 == ballot && history[k][i].1.1 is Ok;
    assert(history[k][i].0 == id);
}

proof fn lemma_replies_grow<X>(
    received: Seq<(Ballot, (MemberId<Acceptor>, X))>,
    replies: Seq<(MemberId<Acceptor>, (Ballot, Result<X, Ballot>))>,
    q: nat,
    ballot: Ballot,
)
    ensures
        replies_for(received, ballot).len() <= replies_for(
            keep_replies(received, replies, q),
            ballot,
        ).len(),
    decreases replies.len(),
{
    if replies.len() > 0 {
        lemma_replies_grow(received, replies.drop_last(), q, ballot);
        let before = keep_replies(received, replies.drop_last(), q);
        let kept = keep_replies(received, replies, q);
        if kept.len() > before.len() {
            assert(kept.drop_last() =~= before);
        }
    }
}

/// A ballot is the largest one with a quorum exactly if a quorum of acceptors has replied
/// positively for it, and for no larger one.
pub proof fn law_max_quorum<X>(
    history: Seq<Seq<(MemberId<Acceptor>, (Ballot, Result<X, Ballot>))>>,
    states: Seq<Seq<(Ballot, (MemberId<Acceptor>, X))>>,
    q: nat,
    n: int,
    ballot: Ballot,
)
    requires
        q >= 1,
        states.len() == history.len() + 1,
        states[0].len() == 0,
        forall|k: int|
            0 <= k < history.len() ==> states[k + 1] == keep_replies(
                states[k],
                #[trigger] history[k],
                q,
            ),
        0 <= n <= history.len(),
    ensures
        is_max_quorum(states[n], ballot, q) <==> is_followed(history, n, q, ballot) && forall|
            b: Ballot,
        | #[trigger]
            is_followed(history, n, q, b) ==> b.num < ballot.num || (b.num == ballot.num
                && b.proposer_id.raw_id <= ballot.proposer_id.raw_id),
{
    law_replies_over_time(history, states, q, n);
    let kept = states[n];
    assert(replies_for(kept, ballot).len() >= q <==> is_followed(history, n, q, ballot));
    if is_max_quorum(kept, ballot, q) {
        assert forall|b: Ballot| #[trigger] is_followed(history, n, q, b) implies b.num < ballot.num
            || (b.num == ballot.num && b.proposer_id.raw_id <= ballot.proposer_id.raw_id) by {
            assert(replies_for(kept, b).len() >= q);
            let ids = repliers(kept, b);
            lemma_repliers(kept, b);
            assert(ids.contains(ids[0]));
            assert(has_replied(kept, b, ids[0]));
            let i = choose|i: int|
                0 <= i < kept.len() && (#[trigger] kept[i]).0 == b && kept[i].1.0 == ids[0];
            assert(kept[i].0.le_spec(ballot));
        }
    }
    if is_followed(history, n, q, ballot) && forall|b: Ballot| #[trigger]
        is_followed(history, n, q, b) ==> b.num < ballot.num || (b.num == ballot.num
            && b.proposer_id.raw_id <= ballot.proposer_id.raw_id) {
        assert forall|i: int|
            0 <= i < kept.len() && replies_for(kept, (#[trigger] kept[i]).0).len()
                >= q implies kept[i].0.le_spec(ballot) by {
            assert(is_followed(history, n, q, kept[i].0));
        }
    }
}

/// The contents of checkpoints and logs.
pub open spec fn contents<L: View>(logs: Seq<(Option<usize>, L)>) -> Seq<(Option<usize>, L::V)> {
    logs.map_values(|l: (Option<usize>, L)| (l.0, l.1@))
}

/// The contents of the checkpoints and logs that acceptors have reported.
pub open spec fn reported<L: View>(
    replies: Seq<(MemberId<Acceptor>, (Option<usize>, L))>,
) -> Seq<(Option<usize>, L::V)> {
    replies.map_values(|r: (MemberId<Acceptor>, (Option<usize>, L))| (r.1.0, r.1.1@))
}

/// The ballots with which acceptors refused.
pub open spec fn refusals<M, K, V>(replies: Seq<(M, (K, Result<V, Ballot>))>) -> Seq<Ballot> {
    failures(replies).map_values(|f: (K, Ballot)| f.1)
}

/// The ballots with which acceptors refused are those of the negative replies, in order.
pub proof fn law_refusals<M, K, V>(replies: Seq<(M, (K, Result<V, Ballot>))>)
    ensures
        refusals(replies) == replies.filter(
            |r: (M, (K, Result<V, Ballot>))| r.1.1 is Err,
        ).map_values(|r: (M, (K, Result<V, Ballot>))| r.1.1->Err_0),
        forall|b: Ballot| #[trigger]
            refusals(replies).contains(b) <==> exists|i: int|
                0 <= i < replies.len() && (#[trigger] replies[i]).1.1 == Err::<V, Ballot>(b),
    decreases replies.len(),
{
    reveal(Seq::filter);
    let p = |r: (M, (K, Result<V, Ballot>))| r.1.1 is Err;
    let v = |r: (M, (K, Result<V, Ballot>))| r.1.1->Err_0;
    if replies.len() > 0 {
        let init = replies.drop_last();
        let last = replies.last();
        law_refusals(init);
        assert(replies.take(replies.len() - 1) =~= init);
        assert(replies.take(replies.len() - 1 + 1) =~= replies);
        lemma_refusals_step(replies, replies.len() - 1);
        match last.1.1 {
            Ok(_) => {
                assert(replies.filter(p) == init.filter(p));
            },
            Err(b) => {
                assert(replies.filter(p) == init.filter(p).push(last));
                assert(replies.filter(p).map_values(v) =~= init.filter(p).map_values(v).push(b));
                crate::seqs::lemma_contains_push(refusals(init), b);
            },
        }
        assert forall|b: Ballot| #[trigger] refusals(replies).contains(b) <==> exists|i: int|
            0 <= i < replies.len() && (#[trigger] replies[i]).1.1 == Err::<V, Ballot>(b) by {
            assert(refusals(init).contains(b) <==> exists|i: int|
                0 <= i < init.len() && (#[trigger] init[i]).1.1 == Err::<V, Ballot>(b));
            if exists|i: int|
                0 <= i < init.len() && (#[trigger] init[i]).1.1 == Err::<V, Ballot>(b) {
                let i = choose|i: int|
                    0 <= i < init.len() && (#[trigger] init[i]).1.1 == Err::<V, Ballot>(b);
                assert(replies[i].1.1 == Err::<V, Ballot>(b));
            }
            if exists|i: int|
                0 <= i < replies.len() && (#[trigger] replies[i]).1.1 == Err::<V, Ballot>(b) {
                let i = choose|i: int|
                    0 <= i < replies.len() && (#[trigger] replies[i]).1.1 == Err::<V, Ballot>(b);
                if i < init.len() {
                    assert(init[i].1.1 == Err::<V, Ballot>(b));
                }
            }
            if last.1.1 == Err::<V, Ballot>(b) {
                assert(replies[replies.len() - 1].1.1 == Err::<V, Ballot>(b));
            }
        }
    } else {
        assert(refusals(replies) =~= replies.filter(p).map_values(v));
    }
}

proof fn lemma_refusals_step<M, K, V>(replies: Seq<(M, (K, Result<V, Ballot>))>, n: int)
    requires
        0 <= n < replies.len(),
    ensures
        refusals(replies.take(n + 1)) == match replies[n].1.1 {
            Ok(_) => refusals(replies.take(n)),
            Err(b) => refusals(replies.take(n)).push(b),
        },
{
    lemma_take_next(replies, n);
    match replies[n].1.1 {
        Ok(_) => {},
        Err(b) => {
            assert(refusals(replies.take(n + 1)) =~= refusals(replies.take(n)).push(b));
        },
    }
}

/// The ballots with which acceptors refused.
pub fn collect_refusals<M, K, V>(replies: &Vec<(M, (K, Result<V, Ballot>))>) -> (r: Vec<Ballot>)
    ensures
        r@ == refusals(replies@),
{
    let mut r: Vec<Ballot> = Vec::new();
    for i in 0..replies.len()
        invariant
            r@ == refusals(replies@.take(i as int)),
    {
        proof {
            lemma_refusals_step(replies@, i as int);
        }
        if let Err(b) = &replies[i].1.1 {
            r.push(*b);
        }
    }
    assert(replies@.take(replies.len() as int) =~= replies@);
    r
}

/// How many replies there are for a ballot.
fn count_replies<X>(received: &Vec<(Ballot, X)>, ballot: Ballot) -> (n: usize)
    ensures
        n == replies_for(received@, ballot).len(),
{
    let mut n: usize = 0;
    for i in 0..received.len()
        invariant
            n == replies_for(received@.take(i as int), ballot).len(),
            n <= i,
    {
        proof {
            lemma_take_next(received@, i as int);
        }
        if received[i].0 == ballot {
            n += 1;
        }
    }
    assert(received@.take(received.len() as int) =~= received@);
    n
}

/// Whether a reply of the acceptor for the ballot is among those received.
fn find_reply<X>(
    received: &Vec<(Ballot, (MemberId<Acceptor>, X))>,
    ballot: Ballot,
    id: MemberId<Acceptor>,
) -> (b: bool)
    ensures
        b == has_replied(received@, ballot, id),
{
    for i in 0..received.len()
        invariant
            forall|j: int|
                0 <= j < i && (#[trigger] received@[j]).0 == ballot ==> received@[j].1.0 != id,
    {
        if received[i].0 == ballot && received[i].1.0.same(&id) {
            assert(received@[i as int].0 == ballot);
            return true;
        }
    }
    false
}

/// A copy of the replies for a ballot.
fn copy_replies<L: Snapshot>(
    received: &Vec<(Ballot, (MemberId<Acceptor>, (Option<usize>, L)))>,
    ballot: Ballot,
) -> (r: Vec<(Option<usize>, L)>)
    ensures
        contents(r@) == reported(replies_for(received@, ballot)),
{
    let mut r: Vec<(Option<usize>, L)> = Vec::new();
    for i in 0..received.len()
        invariant
            contents(r@) == reported(replies_for(received@.take(i as int), ballot)),
    {
        proof {
            lemma_take_next(received@, i as int);
        }
        if received[i].0 == ballot {
            let ghost before = r@;
            let copy = (received[i].1.1.0, received[i].1.1.1.snapshot());
            r.push(copy);
            proof {
                let found = replies_for(received@.take(i as int), ballot);
                assert(contents(before.push(copy)) =~= contents(before).push((copy.0, copy.1@)));
                assert(reported(found.push(received@[i as int].1)) =~= reported(found).push(
                    (copy.0, copy.1@),
                ));
            }
        }
    }
    assert(received@.take(received.len() as int) =~= received@);
    r
}

/// Takes the acceptors' replies to requests to lead.
///
/// `received` holds the first `quorum_size` positive replies of each ballot, each from another
/// acceptor.
/// Returns whether the proposer is the leader; the checkpoints and logs that the
/// quorum for its ballot reported; and the ballots with which acceptors refused. It
/// is the leader if its own ballot is the largest one with a quorum and no larger
/// ballot is known.
pub fn p_p1b<L: Snapshot>(
    received: &mut Vec<(Ballot, (MemberId<Acceptor>, (Option<usize>, L)))>,
    a_to_proposers_p1b: Vec<
        (MemberId<Acceptor>, (Ballot, Result<(Option<usize>, L), Ballot>)),
    >,
    p_ballot: Ballot,
    p_has_largest_ballot: bool,
    quorum_size: usize,
) -> (r: (bool, Vec<(Option<usize>, L)>, Vec<Ballot>))
    requires
        quorum_size >= 1,
    ensures
        final(received)@ == keep_replies(
            old(received)@,
            a_to_proposers_p1b@,
            quorum_size as nat,
        ),
        r.0 == (p_has_largest_ballot && is_max_quorum(
            final(received)@,
            p_ballot,
            quorum_size as nat,
        )),
        contents(r.1@) == (if is_max_quorum(final(received)@, p_ballot, quorum_size as nat) {
            reported(replies_for(final(received)@, p_ballot))
        } else {
            Seq::empty()
        }),
        r.2@ == refusals(a_to_proposers_p1b@),
{
    let fails = collect_refusals(&a_to_proposers_p1b);
    let ghost replies = a_to_proposers_p1b@;
    for reply in it: a_to_proposers_p1b
        invariant
            it.seq() == replies,
            received@ == keep_replies(
                old(received)@,
                replies.take(it.index()),
                quorum_size as nat,
            ),
    {
        proof {
            lemma_take_next(replies, it.index());
        }
        let (id, (ballot, answer)) = reply;
        if let Ok(log) = answer {
            if count_replies(received, ballot) < quorum_size && !find_reply(
                received,
                ballot,
                id,
            ) {
                received.push((ballot, (id, log)));
            }
        }
    }
    assert(replies.take(replies.len() as int) =~= replies);
    let mut is_max = count_replies(received, p_ballot) >= quorum_size;
    for i in 0..received.len()
        invariant
            is_max == (replies_for(received@, p_ballot).len() >= quorum_size && forall|j: int|
                0 <= j < i && replies_for(received@, (#[trigger] received@[j]).0).len()
                    >= quorum_size ==> received@[j].0.le_spec(p_ballot)),
    {
        if received[i].0 > p_ballot && count_replies(received, received[i].0) >= quorum_size {
            is_max = false;
        }
    }
    if is_max {
        (p_has_largest_ballot, copy_replies(received, p_ballot), fails)
    } else {
        let none: Vec<(Option<usize>, L)> = Vec::new();
        assert(contents(none@) =~= Seq::empty());
        (false, none, fails)
    }
}

/// What a proposer remembers for elections.
pub struct ElectionState<L> {
    /// The largest ballot received so far.
    pub received_max_ballot: Ballot,
    /// The number of its own ballot.
    pub ballot_num: u32,
    /// The replies to requests to lead, up to a quorum for each ballot.
    pub p1bs: Vec<(Ballot, (MemberId<Acceptor>, (Option<usize>, L)))>,
}

/// What reaches a proposer in one tick that matters for elections.
pub struct ElectionInput<L> {
    /// Replies of acceptors to requests to lead.
    pub p1bs: Vec<(MemberId<Acceptor>, (Ballot, Result<(Option<usize>, L), Ballot>))>,
    /// Ballots with which acceptors refused to fill a slot.
    pub p2b_ballots: Vec<Ballot>,
    /// Heartbeats of leaders.
    pub i_am_leader: Vec<Ballot>,
    /// Whether the last heartbeat is too long ago.
    pub leader_expired: bool,
    /// Whether this proposer's check of the leader is due.
    pub check_due: bool,
}

/// What a proposer decides in one tick about elections.
pub struct ElectionOutput<L> {
    /// Its ballot.
    pub ballot: Ballot,
    pub is_leader: bool,
    /// The checkpoints and logs reported by the quorum that follows its ballot.
    pub accepted: Vec<(Option<usize>, L)>,
    /// The heartbeat to send to the proposers.
    pub heartbeat: Option<Ballot>,
    /// The request to lead to send to the acceptors.
    pub p1a: Option<Ballot>,
}

impl<L> ElectionState<L> {
    pub fn new() -> (r: Self)
        ensures
            r.received_max_ballot == Ballot::least_spec(),
            r.ballot_num == 0,
            r.p1bs@ == Seq::<(Ballot, (MemberId<Acceptor>, (Option<usize>, L)))>::empty(),
    {
        ElectionState { received_max_ballot: Ballot::least(), ballot_num: 0, p1bs: Vec::new() }
    }
}

impl<L> ElectionInput<L> {
    /// All ballots that came from others.
    pub open spec fn ballots(self) -> Seq<Ballot> {
        refusals(self.p1bs@) + self.p2b_ballots@ + self.i_am_leader@
    }
}

proof fn lemma_greatest_chain(
    m1: Ballot,
    m2: Ballot,
    m3: Ballot,
    start: Ballot,
    a: Seq<Ballot>,
    b: Seq<Ballot>,
    c: Seq<Ballot>,
)
    requires
        is_greatest(m1, start, a),
        is_greatest(m2, m1, b),
        is_greatest(m3, m2, c),
    ensures
        is_greatest(m3, start, a + b + c),
{
    let all = a + b + c;
    assert forall|i: int| 0 <= i < all.len() implies (#[trigger] all[i]).le_spec(m3) by {
        if i < a.len() {
            assert(all[i] == a[i]);
        } else if i < a.len() + b.len() {
            assert(all[i] == b[i - a.len()]);
        } else {
            assert(all[i] == c[i - a.len() - b.len()]);
        }
    }
    if m3 != start {
        if c.contains(m3) {
            let i = choose|i: int| 0 <= i < c.len() && c[i] == m3;
            assert(all[a.len() + b.len() + i] == m3);
        } else if b.contains(m3) {
            let i = choose|i: int| 0 <= i < b.len() && b[i] == m3;
            assert(all[a.len() + i] == m3);
        } else {
            let i = choose|i: int| 0 <= i < a.len() && a[i] == m3;
            assert(all[i] == m3);
        }
    }
}

/// One tick of leader election at a proposer.
pub fn leader_election<L: Snapshot>(
    self_id: MemberId<Proposer>,
    state: &mut ElectionState<L>,
    input: ElectionInput<L>,
    quorum_size: usize,
) -> (out: ElectionOutput<L>)
    requires
        quorum_size >= 1,
        forall|m: Ballot| #[trigger]
            is_greatest(m, old(state).received_max_ballot, input.ballots()) && (Ballot {
                num: old(state).ballot_num,
                proposer_id: self_id,
            }).lt_spec(m) ==> m.num < u32::MAX,
    ensures
        is_greatest(
            final(state).received_max_ballot,
            old(state).received_max_ballot,
            input.ballots(),
        ),
        final(state).ballot_num == (if (Ballot {
            num: old(state).ballot_num,
            proposer_id: self_id,
        }).lt_spec(final(state).received_max_ballot) {
            final(state).received_max_ballot.num + 1
        } else {
            old(state).ballot_num as int
        }),
        final(state).p1bs@ == keep_replies(old(state).p1bs@, input.p1bs@, quorum_size as nat),
        out.ballot == (Ballot { num: final(state).ballot_num, proposer_id: self_id }),
        final(state).received_max_ballot.le_spec(out.ballot),
        out.is_leader == is_max_quorum(final(state).p1bs@, out.ballot, quorum_size as nat),
        contents(out.accepted@) == (if out.is_leader {
            reported(replies_for(final(state).p1bs@, out.ballot))
        } else {
            Seq::empty()
        }),
        out.heartbeat == (if out.is_leader {
            Some(out.ballot)
        } else {
            None
        }),
        out.p1a == (if input.leader_expired && !out.is_leader && input.check_due {
            Some(out.ballot)
        } else {
            None
        }),
{
    let p1b_fail = collect_refusals(&input.p1bs);
    let m1 = greatest(state.received_max_ballot, &p1b_fail);
    let m2 = greatest(m1, &input.p2b_ballots);
    let m3 = greatest(m2, &input.i_am_leader);
    proof {
        lemma_greatest_chain(
            m1,
            m2,
            m3,
            state.received_max_ballot,
            p1b_fail@,
            input.p2b_ballots@,
            input.i_am_leader@,
        );
        assert(is_greatest(m3, old(state).received_max_ballot, input.ballots()));
    }
    state.received_max_ballot = m3;
    let (ballot, has_largest_ballot) = p_ballot_calc(self_id, &mut state.ballot_num, m3);
    let (is_leader, accepted, _fails) = p_p1b(
        &mut state.p1bs,
        input.p1bs,
        ballot,
        has_largest_ballot,
        quorum_size,
    );
    let (heartbeat, trigger_election) = p_leader_heartbeat(
        is_leader,
        ballot,
        input.leader_expired,
        input.check_due,
    );
    let p1a = if trigger_election {
        Some(ballot)
    } else {
        None
    };
    ElectionOutput { ballot, is_leader, accepted, heartbeat, p1a }
}

/// Replies can be taken in several goes: what is kept is the same as in one go. A refusal leaves
/// what is kept as it is. A positive reply is added at the end if its ballot has no quorum yet and
/// its acceptor has not replied for the ballot before, and is ignored otherwise.
pub proof fn law_replies_in_goes<X>(
    received: Seq<(Ballot, (MemberId<Acceptor>, X))>,
    a: Seq<(MemberId<Acceptor>, (Ballot, Result<X, Ballot>))>,
    b: Seq<(MemberId<Acceptor>, (Ballot, Result<X, Ballot>))>,
    id: MemberId<Acceptor>,
    ballot: Ballot,
    x: X,
    q: nat,
)
    ensures
        keep_replies(received, a + b, q) == keep_replies(keep_replies(received, a, q), b, q),
        keep_replies(received, seq![(id, (ballot, Err::<X, Ballot>(ballot)))], q) == received,
        ({
            let mine = received.filter(|r: (Ballot, (MemberId<Acceptor>, X))| r.0 == ballot);
            let again = exists|i: int|
                0 <= i < received.len() && (#[trigger] received[i]).0 == ballot && received[i].1.0
                    == id;
            keep_replies(received, seq![(id, (ballot, Ok::<X, Ballot>(x)))], q) == if mine.len() < q
                && !again {
                received.push((ballot, (id, x)))
            } else {
                received
            }
        }),
    decreases b.len(),
{
    if b.len() > 0 {
        law_replies_in_goes(received, a, b.drop_last(), id, ballot, x, q);
        assert((a + b).drop_last() =~= a + b.drop_last());
        assert((a + b).last() == b.last());
    } else {
        assert(a + b =~= a);
    }
    let no = seq![(id, (ballot, Err::<X, Ballot>(ballot)))];
    let yes = seq![(id, (ballot, Ok::<X, Ballot>(x)))];
    assert(no.drop_last() =~= Seq::empty());
    assert(no.last().1.1 is Err);
    assert(yes.drop_last() =~= Seq::empty());
    assert(yes.last() == (id, (ballot, Ok::<X, Ballot>(x))));
    law_replies_for(received, ballot);
    assert(keep_replies(received, Seq::empty(), q) == received);
}

} // verus!
