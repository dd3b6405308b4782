//! Runs of the whole protocol: proposers that do what [`paxos_core`](super::paxos_core)
//! does, and acceptors that do what [`acceptor_core`](super::acceptor_core) does.
//!
//! Messages may be lost, repeated and reordered, but nobody makes up the answer of an
//! acceptor, and the checkpoint that an acceptor sees never goes back. In every such run at
//! most one value is committed for a slot.
use super::acceptor::P2a;
use super::ballot::{Acceptor, Ballot, PaxosConfig, Proposer};
use super::log::LogValue;
use super::members::{
    is_acceptor_tick, is_proposer_tick, requests, tick_does, AcceptorState, ProposerInput,
    ProposerOutput, ProposerState, TickView,
};
use super::proposer::{has_replied, keep_replies, replies_for, reported};
use super::recommit::{
    is_again, is_hole, is_max_slot, is_proposed, is_recommitment, is_recommitted, lemma_has_max_slot, lemma_tally_is_highest, lemma_tally_some, max_checkpoint, max_slot, tally,
};
use super::safety::{
    acceptor_step, checkpoint_le, init, is_allowed, is_chosen, is_consistent, is_promise_quorum, is_quorum,
    leader_step, lemma_acceptor_step, lemma_ballot_order, lemma_chosen_agree, lemma_init,
    lemma_leader_step, members, promised_logs, AcceptorView, Promise, World,
};
use super::sequence::{
    base_slot, committed, fresh_proposals, is_tick_proposals, start_after, takes_over_now,
};
use crate::location::member_id::MemberId;
use crate::quorum::{
    all_respond_once, all_support, completed, law_quorum_is_distinct,
    law_responses_are_kept_once, outcomes,
};
use crate::request_response::{answered, law_answers_were_requested, unanswered};
use std::collections::HashMap;
use vstd::prelude::*;

verus! {

/// The members of the protocol, with everything that was ever sent or committed.
#[verifier::reject_recursive_types(P)]
pub ghost struct Cluster<P> {
    /// The acceptors, by their numbers.
    pub acceptors: Seq<AcceptorState<P>>,
    pub proposers: Map<MemberId<Proposer>, ProposerState<P>>,
    /// Ballot, slot and value of every request to fill a slot.
    pub proposals: Set<(Ballot, usize, Option<P>)>,
    /// Every positive answer to a request to lead.
    pub promises: Set<Promise<P>>,
    /// Acceptor, ballot and slot of every positive answer to a request to fill a slot.
    pub acks: Set<(int, Ballot, usize)>,
    /// The payloads that clients have handed in.
    pub payloads: Set<P>,
    /// Every slot that some proposer has committed, with its value.
    pub committed: Set<(usize, Option<P>)>,
}

/// What matters of an acceptor.
pub open spec fn acceptor_view<P>(a: AcceptorState<P>) -> AcceptorView<P> {
    AcceptorView { max_ballot: a.max_ballot, checkpoint: a.log.0, log: a.log.1@ }
}

/// The acceptors, and what was sent.
pub open spec fn world<P>(c: Cluster<P>) -> World<P> {
    World {
        acceptors: c.acceptors.map_values(|a: AcceptorState<P>| acceptor_view(a)),
        proposals: c.proposals,
        promises: c.promises,
        acks: c.acks,
    }
}

/// Whether a proposer has not done anything yet.
pub open spec fn is_new_proposer<P>(p: ProposerState<P>) -> bool {
    &&& p.election.received_max_ballot == Ballot::least_spec()
    &&& p.election.ballot_num == 0
    &&& p.election.p1bs@.len() == 0
    &&& p.sequencer.next_slot == 0
    &&& p.sequencer.taken_over is None
    &&& p.sequencer.acks.pending@.len() == 0
    &&& p.sequencer.pending@.len() == 0
    &&& !p.was_leader
}

/// At the start nothing has been sent, and all members are new.
pub open spec fn is_start<P>(c: Cluster<P>, f: usize) -> bool {
    &&& c.acceptors.len() == 2 * f + 1
    &&& forall|a: int|
        0 <= a < c.acceptors.len() ==> (#[trigger] c.acceptors[a]).max_ballot
            == Ballot::least_spec() && c.acceptors[a].log.0 is None && c.acceptors[a].log.1@
            == Map::<usize, LogValue<P>>::empty()
    &&& forall|id: MemberId<Proposer>| #[trigger]
        c.proposers.contains_key(id) ==> is_new_proposer(c.proposers[id])
    &&& c.proposals == Set::<(Ballot, usize, Option<P>)>::empty()
    &&& c.promises == Set::<Promise<P>>::empty()
    &&& c.acks == Set::<(int, Ballot, usize)>::empty()
    &&& c.payloads == Set::<P>::empty()
    &&& c.committed == Set::<(usize, Option<P>)>::empty()
}

/// Whether the answers of an acceptor hold the promise.
pub open spec fn gives_promise<P>(
    p1bs: Seq<
        (
            MemberId<Proposer>,
            (Ballot, Result<(Option<usize>, HashMap<usize, LogValue<P>>), Ballot>),
        ),
    >,
    a: int,
    p: Promise<P>,
) -> bool {
    p.acceptor == a && exists|i: int|
        0 <= i < p1bs.len() && (#[trigger] p1bs[i]).1.0 == p.ballot && (p1bs[i].1.1 matches Ok(l)
            && l.0 == p.checkpoint && l.1@ == p.log)
}

/// Whether the answers of an acceptor hold the confirmation.
pub open spec fn gives_ack(
    p2bs: Seq<(MemberId<Proposer>, ((usize, Ballot), Result<(), Ballot>))>,
    a: int,
    ack: (int, Ballot, usize),
) -> bool {
    ack.0 == a && exists|i: int|
        0 <= i < p2bs.len() && (#[trigger] p2bs[i]).1.0 == (ack.2, ack.1) && p2bs[i].1.1 is Ok
}

/// One tick of an acceptor, on requests to fill slots that were sent before. Requests to lead
/// may come from anywhere. The checkpoint is not before the one of the last tick.
pub open spec fn acceptor_moves<P>(
    c: Cluster<P>,
    next: Cluster<P>,
    a: int,
    p1as: Seq<Ballot>,
    p2as: Seq<P2a<P, Proposer>>,
    a_checkpoint: Option<usize>,
    p1bs: Seq<
        (
            MemberId<Proposer>,
            (Ballot, Result<(Option<usize>, HashMap<usize, LogValue<P>>), Ballot>),
        ),
    >,
    p2bs: Seq<(MemberId<Proposer>, ((usize, Ballot), Result<(), Ballot>))>,
) -> bool {
    &&& 0 <= a < c.acceptors.len()
    &&& checkpoint_le(c.acceptors[a].log.0, a_checkpoint)
    &&& forall|i: int|
        0 <= i < p2as.len() ==> c.proposals.contains(
            ((#[trigger] p2as[i]).ballot, p2as[i].slot, p2as[i].value),
        )
    &&& next.acceptors == c.acceptors.update(a, next.acceptors[a])
    &&& is_acceptor_tick(
        c.acceptors[a],
        p1as,
        p2as,
        a_checkpoint,
        next.acceptors[a],
        p1bs,
        p2bs,
    )
    &&& forall|p: Promise<P>| #[trigger]
        next.promises.contains(p) <==> c.promises.contains(p) || gives_promise(p1bs, a, p)
    &&& forall|ack: (int, Ballot, usize)| #[trigger]
        next.acks.contains(ack) <==> c.acks.contains(ack) || gives_ack(p2bs, a, ack)
    &&& next.proposers == c.proposers
    &&& next.proposals == c.proposals
    &&& next.payloads == c.payloads
    &&& next.committed == c.committed
}

/// Whether the positive answers that reach a proposer were given by the acceptors that they
/// come from.
pub open spec fn answers_were_given<P>(c: Cluster<P>, input: ProposerInput<P>) -> bool {
    &&& forall|i: int|
        0 <= i < input.p1bs@.len() ==> ((#[trigger] input.p1bs@[i]).1.1 matches Ok(l)
            ==> c.promises.contains(
            Promise {
                acceptor: input.p1bs@[i].0.raw_id as int,
                ballot: input.p1bs@[i].1.0,
                checkpoint: l.0,
                log: l.1@,
            },
        ))
    &&& forall|i: int|
        0 <= i < input.p2bs@.len() && (#[trigger] input.p2bs@[i]).1.1 is Ok ==> c.acks.contains(
            (
                input.p2bs@[i].0.raw_id as int,
                input.p2bs@[i].1.0.1,
                input.p2bs@[i].1.0.0,
            ),
        )
}

/// Whether the requests hold the proposal.
pub open spec fn sends<P>(p2as: Seq<P2a<P, Proposer>>, p: (Ballot, usize, Option<P>)) -> bool {
    exists|i: int|
        0 <= i < p2as.len() && (#[trigger] p2as[i]).ballot == p.0 && p2as[i].slot == p.1
            && p2as[i].value == p.2
}

/// One tick of a proposer, on answers that acceptors have given.
pub open spec fn proposer_moves<P>(
    c: Cluster<P>,
    next: Cluster<P>,
    f: usize,
    id: MemberId<Proposer>,
    config: PaxosConfig,
    input: ProposerInput<P>,
    out: ProposerOutput<P>,
) -> bool {
    &&& c.proposers.contains_key(id)
    &&& config.f == f
    &&& answers_were_given(c, input)
    &&& is_proposer_tick(id, config, c.proposers[id], input, next.proposers[id], out)
    &&& next.proposers == c.proposers.insert(id, next.proposers[id])
    &&& forall|p: (Ballot, usize, Option<P>)| #[trigger]
        next.proposals.contains(p) <==> c.proposals.contains(p) || sends(out.p2as@, p)
    &&& forall|p: P| #[trigger]
        next.payloads.contains(p) <==> c.payloads.contains(p) || input.payloads@.contains(p)
    &&& forall|e: (usize, Option<P>)| #[trigger]
        next.committed.contains(e) <==> c.committed.contains(e) || out.committed@.contains(e)
    &&& next.acceptors == c.acceptors
    &&& next.promises == c.promises
    &&& next.acks == c.acks
}

/// One tick of some member.
pub open spec fn moves<P>(c: Cluster<P>, next: Cluster<P>, f: usize) -> bool {
    ||| exists|
        a: int,
        p1as: Seq<Ballot>,
        p2as: Seq<P2a<P, Proposer>>,
        a_checkpoint: Option<usize>,
        p1bs: Seq<
            (
                MemberId<Proposer>,
                (Ballot, Result<(Option<usize>, HashMap<usize, LogValue<P>>), Ballot>),
            ),
        >,
        p2bs: Seq<(MemberId<Proposer>, ((usize, Ballot), Result<(), Ballot>))>,
    | #[trigger]
        acceptor_moves(c, next, a, p1as, p2as, a_checkpoint, p1bs, p2bs)
    ||| exists|
        id: MemberId<Proposer>,
        config: PaxosConfig,
        input: ProposerInput<P>,
        out: ProposerOutput<P>,
    | #[trigger]
        proposer_moves(c, next, f, id, config, input, out)
}

/// A run of the protocol from its start, with `2 * f + 1` acceptors.
pub open spec fn is_run<P>(run: Seq<Cluster<P>>, f: usize) -> bool {
    &&& run.len() >= 1
    &&& is_start(run[0], f)
    &&& forall|i: int| 0 <= i < run.len() - 1 ==> moves(#[trigger] run[i], run[i + 1], f)
}

/// The promise behind a reply that a proposer has kept.
pub open spec fn promise_of<P>(
    reply: (Ballot, (MemberId<Acceptor>, (Option<usize>, HashMap<usize, LogValue<P>>))),
) -> Promise<P> {
    Promise {
        acceptor: reply.1.0.raw_id as int,
        ballot: reply.0,
        checkpoint: reply.1.1.0,
        log: reply.1.1.1@,
    }
}

/// Whether all replies were given, and those for one ballot by different acceptors.
pub open spec fn replies_ok<P>(
    received: Seq<(Ballot, (MemberId<Acceptor>, (Option<usize>, HashMap<usize, LogValue<P>>)))>,
    promises: Set<Promise<P>>,
) -> bool {
    &&& forall|i: int|
        0 <= i < received.len() ==> promises.contains(promise_of(#[trigger] received[i]))
    &&& forall|i: int, j: int|
        0 <= i < j < received.len() && (#[trigger] received[i]).0 == (#[trigger] received[j]).0
            ==> received[i].1.0 != received[j].1.0
}

/// Whether the slot is after everything that the logs hold, and all later ones are too.
pub open spec fn is_beyond<P>(
    logs: Seq<(Option<usize>, Map<usize, LogValue<P>>)>,
    slot: int,
) -> bool {
    &&& forall|s: usize| #[trigger] is_proposed(logs, s) ==> s < slot
    &&& max_checkpoint(logs) matches Some(c) ==> c < slot
}

/// What holds of a proposer in every state.
pub open spec fn proposer_ok<P>(c: Cluster<P>, f: usize, id: MemberId<Proposer>) -> bool {
    let p = c.proposers[id];
    &&& replies_ok(p.election.p1bs@, c.promises)
    // It has only proposed under ballots that it has taken over, and under the last one
    // only below its next slot.
    &&& forall|b: Ballot, s: usize, v: Option<P>| #[trigger]
        c.proposals.contains((b, s, v)) && b.proposer_id == id ==> (
        p.sequencer.taken_over matches Some(t) && b.num <= t.num && (b == t ==> s
            < p.sequencer.next_slot))
    // What it has taken over lies below its next slot.
    &&& p.sequencer.taken_over matches Some(t) ==> {
        &&& t.proposer_id == id
        &&& t.num <= p.election.ballot_num
        &&& replies_for(p.election.p1bs@, t).len() >= f + 1
        &&& is_beyond(
            reported(replies_for(p.election.p1bs@, t)),
            p.sequencer.next_slot as int,
        )
        // What it has to propose again under that ballot is all that it proposes for the slot.
        &&& forall|s: usize, x: Option<P>, y: Option<P>|
            #![trigger c.proposals.contains((t, s, x)), is_again(
                reported(replies_for(p.election.p1bs@, t)), f, s, y)]
            c.proposals.contains((t, s, x)) && is_again(
                reported(replies_for(p.election.p1bs@, t)),
                f,
                s,
                y,
            ) ==> x == y
    }
    &&& forall|i: int|
        0 <= i < p.sequencer.pending@.len() ==> c.proposals.contains(
            (
                (#[trigger] p.sequencer.pending@[i]).0.1,
                p.sequencer.pending@[i].0.0,
                p.sequencer.pending@[i].1,
            ),
        )
    &&& all_respond_once(p.sequencer.acks.pending@)
    &&& forall|k: (usize, Ballot), m: MemberId<Acceptor>| #[trigger]
        p.sequencer.acks.pending@.contains((k, (m, true))) ==> c.acks.contains(
            (m.raw_id as int, k.1, k.0),
        )
}

/// What holds in every state of a run.
pub open spec fn is_sound<P>(c: Cluster<P>, f: usize) -> bool {
    &&& is_consistent(world(c), f as nat)
    &&& forall|id: MemberId<Proposer>| #[trigger]
        c.proposers.contains_key(id) ==> proposer_ok(c, f, id)
    &&& forall|b: Ballot, s: usize, p: P| #[trigger]
        c.proposals.contains((b, s, Some(p))) ==> c.payloads.contains(p)
    &&& forall|s: usize, v: Option<P>| #[trigger]
        c.committed.contains((s, v)) ==> exists|b: Ballot| #[trigger]
            is_chosen(world(c), f as nat, b, s, v)
}

proof fn lemma_start<P>(c: Cluster<P>, f: usize)
    requires
        is_start(c, f),
    ensures
        is_sound(c, f),
{
    let w = world(c);
    assert forall|a: int| 0 <= a < w.acceptors.len() implies (#[trigger] w.acceptors[a]) == (
    AcceptorView::<P> {
        max_ballot: Ballot::least_spec(),
        checkpoint: None,
        log: Map::empty(),
    }) by {
        assert(c.acceptors[a].log.0 is None);
    }
    assert(init(w, f as nat));
    lemma_init(w, f as nat);
}

/// A tick of an acceptor is a step of the acceptors among themselves.
pub proof fn lemma_acceptor_moves<P>(
    c: Cluster<P>,
    next: Cluster<P>,
    a: int,
    p1as: Seq<Ballot>,
    p2as: Seq<P2a<P, Proposer>>,
    a_checkpoint: Option<usize>,
    p1bs: Seq<
        (
            MemberId<Proposer>,
            (Ballot, Result<(Option<usize>, HashMap<usize, LogValue<P>>), Ballot>),
        ),
    >,
    p2bs: Seq<(MemberId<Proposer>, ((usize, Ballot), Result<(), Ballot>))>,
)
    requires
        acceptor_moves(c, next, a, p1as, p2as, a_checkpoint, p1bs, p2bs),
    ensures
        acceptor_step(world(c), world(next), a, p1as, p2as),
{
    let w = world(c);
    let n = world(next);
    let new_a = n.acceptors[a];
    assert forall|i: int|
        0 <= i < w.acceptors.len() && i != a implies #[trigger] n.acceptors[i]
        == w.acceptors[i] by {
        assert(next.acceptors[i] == c.acceptors[i]);
    }
    let p = Promise {
        acceptor: a,
        ballot: new_a.max_ballot,
        checkpoint: new_a.checkpoint,
        log: new_a.log,
    };
    assert forall|q: Promise<P>| #[trigger] gives_promise(p1bs, a, q) <==> q == p
        && p1as.contains(new_a.max_ballot) by {
        if gives_promise(p1bs, a, q) {
            let i = choose|i: int|
                0 <= i < p1bs.len() && (#[trigger] p1bs[i]).1.0 == q.ballot && (
                p1bs[i].1.1 matches Ok(l) && l.0 == q.checkpoint && l.1@ == q.log);
            assert(p1as[i] == new_a.max_ballot);
        }
        if q == p && p1as.contains(new_a.max_ballot) {
            let i = choose|i: int| 0 <= i < p1as.len() && p1as[i] == new_a.max_ballot;
            assert(p1bs[i].1.0 == q.ballot);
        }
    }
    assert(n.promises =~= if p1as.contains(new_a.max_ballot) {
        w.promises.insert(p)
    } else {
        w.promises
    });
    assert forall|ack: (int, Ballot, usize)| #[trigger]
        n.acks.contains(ack) <==> w.acks.contains(ack) || (ack.0 == a && ack.1 == new_a.max_ballot
            && exists|i: int|
            0 <= i < p2as.len() && (#[trigger] p2as[i]).ballot == ack.1 && p2as[i].slot
                == ack.2) by {
        if gives_ack(p2bs, a, ack) {
            let i = choose|i: int|
                0 <= i < p2bs.len() && (#[trigger] p2bs[i]).1.0 == (ack.2, ack.1) && p2bs[i].1.1 is Ok;
            assert(p2as[i].ballot == ack.1 && p2as[i].slot == ack.2);
        }
        if ack.0 == a && ack.1 == new_a.max_ballot && exists|i: int|
            0 <= i < p2as.len() && (#[trigger] p2as[i]).ballot == ack.1 && p2as[i].slot == ack.2 {
            let i = choose|i: int|
                0 <= i < p2as.len() && (#[trigger] p2as[i]).ballot == ack.1 && p2as[i].slot
                    == ack.2;
            assert(p2bs[i].1.0 == (ack.2, ack.1));
        }
    }
}

proof fn lemma_acceptor_sound<P>(
    c: Cluster<P>,
    next: Cluster<P>,
    f: usize,
    a: int,
    p1as: Seq<Ballot>,
    p2as: Seq<P2a<P, Proposer>>,
    a_checkpoint: Option<usize>,
    p1bs: Seq<
        (
            MemberId<Proposer>,
            (Ballot, Result<(Option<usize>, HashMap<usize, LogValue<P>>), Ballot>),
        ),
    >,
    p2bs: Seq<(MemberId<Proposer>, ((usize, Ballot), Result<(), Ballot>))>,
)
    requires
        is_sound(c, f),
        acceptor_moves(c, next, a, p1as, p2as, a_checkpoint, p1bs, p2bs),
    ensures
        is_sound(next, f),
{
    lemma_acceptor_moves(c, next, a, p1as, p2as, a_checkpoint, p1bs, p2bs);
    lemma_acceptor_step(world(c), world(next), f as nat, a, p1as, p2as);
    assert forall|id: MemberId<Proposer>| #[trigger]
        next.proposers.contains_key(id) implies proposer_ok(next, f, id) by {
        assert(proposer_ok(c, f, id));
        assert(replies_ok(next.proposers[id].election.p1bs@, next.promises));
    }
    assert forall|s: usize, v: Option<P>| #[trigger]
        next.committed.contains((s, v)) implies exists|b: Ballot| #[trigger]
        is_chosen(world(next), f as nat, b, s, v) by {
        assert(c.committed.contains((s, v)));
        let b = choose|b: Ballot| #[trigger] is_chosen(world(c), f as nat, b, s, v);
        lemma_stays_chosen(c, next, f, b, s, v);
    }
}

/// What is chosen stays so as more is sent.
proof fn lemma_stays_chosen<P>(
    c: Cluster<P>,
    next: Cluster<P>,
    f: usize,
    b: Ballot,
    s: usize,
    v: Option<P>,
)
    requires
        is_chosen(world(c), f as nat, b, s, v),
        forall|p: (Ballot, usize, Option<P>)| #[trigger]
            c.proposals.contains(p) ==> next.proposals.contains(p),
        forall|ack: (int, Ballot, usize)| #[trigger]
            c.acks.contains(ack) ==> next.acks.contains(ack),
    ensures
        is_chosen(world(next), f as nat, b, s, v),
{
    let w = world(c);
    let q = choose|q: Set<int>|
        is_quorum(q, f as nat) && forall|a: int| #[trigger]
            q.contains(a) ==> w.acks.contains((a, b, s));
    assert forall|a: int| #[trigger] q.contains(a) implies world(next).acks.contains(
        (a, b, s),
    ) by {
        assert(c.acks.contains((a, b, s)));
    }
}

/// What is kept of the replies was received before or is among the new ones; the replies for
/// one ballot come from different acceptors; and a quorum that is complete stays as it is.
proof fn lemma_keep_replies<P>(
    received: Seq<(Ballot, (MemberId<Acceptor>, (Option<usize>, HashMap<usize, LogValue<P>>)))>,
    replies: Seq<
        (
            MemberId<Acceptor>,
            (Ballot, Result<(Option<usize>, HashMap<usize, LogValue<P>>), Ballot>),
        ),
    >,
    q: nat,
    promises: Set<Promise<P>>,
    ballot: Ballot,
)
    requires
        replies_ok(received, promises),
        forall|i: int|
            0 <= i < replies.len() ==> ((#[trigger] replies[i]).1.1 matches Ok(l)
                ==> promises.contains(
                Promise {
                    acceptor: replies[i].0.raw_id as int,
                    ballot: replies[i].1.0,
                    checkpoint: l.0,
                    log: l.1@,
                },
            )),
    ensures
        replies_ok(keep_replies(received, replies, q), promises),
        replies_for(received, ballot).len() >= q ==> replies_for(
            keep_replies(received, replies, q),
            ballot,
        ) == replies_for(received, ballot),
    decreases replies.len(),
{
    if replies.len() > 0 {
        let rest = replies.drop_last();
        assert forall|i: int| 0 <= i < rest.len() implies ((#[trigger] rest[i]).1.1 matches Ok(l)
            ==> promises.contains(
            Promise {
                acceptor: rest[i].0.raw_id as int,
                ballot: rest[i].1.0,
                checkpoint: l.0,
                log: l.1@,
            },
        )) by {
            assert(rest[i] == replies[i]);
        }
        lemma_keep_replies(received, rest, q, promises, ballot);
        let before = keep_replies(received, rest, q);
        let (id, (b, answer)) = replies.last();
        assert(replies[replies.len() - 1] == replies.last());
        if let Ok(x) = answer {
            if replies_for(before, b).len() < q && !has_replied(before, b, id) {
                let all = before.push((b, (id, x)));
                assert(all.drop_last() =~= before);
                assert(keep_replies(received, replies, q) == all);
                assert forall|i: int| 0 <= i < all.len() implies promises.contains(
                    promise_of(#[trigger] all[i]),
                ) by {
                    if i < before.len() {
                        assert(all[i] == before[i]);
                    }
                }
                assert forall|i: int, j: int|
                    0 <= i < j < all.len() && (#[trigger] all[i]).0 == (
                    #[trigger] all[j]).0 implies all[i].1.0 != all[j].1.0 by {
                    assert(all[i] == before[i]);
                    if j < before.len() {
                        assert(all[j] == before[j]);
                    }
                }
            }
        }
    }
}

/// The promises behind the replies for a ballot.
pub open spec fn promises_for<P>(
    received: Seq<(Ballot, (MemberId<Acceptor>, (Option<usize>, HashMap<usize, LogValue<P>>)))>,
    ballot: Ballot,
) -> Seq<Promise<P>> {
    replies_for(received, ballot).map_values(
        |r: (MemberId<Acceptor>, (Option<usize>, HashMap<usize, LogValue<P>>))|
            promise_of((ballot, r)),
    )
}

/// The replies for a ballot are promises for it, by different acceptors.
proof fn lemma_promises_for<P>(
    received: Seq<(Ballot, (MemberId<Acceptor>, (Option<usize>, HashMap<usize, LogValue<P>>)))>,
    promises: Set<Promise<P>>,
    ballot: Ballot,
)
    requires
        replies_ok(received, promises),
    ensures
        forall|i: int|
            0 <= i < replies_for(received, ballot).len() ==> received.contains(
                (ballot, #[trigger] replies_for(received, ballot)[i]),
            ),
        forall|i: int, j: int|
            0 <= i < j < replies_for(received, ballot).len() ==> (#[trigger] replies_for(
                received,
                ballot,
            )[i]).0 != (#[trigger] replies_for(received, ballot)[j]).0,
    decreases received.len(),
{
    if received.len() > 0 {
        let rest = received.drop_last();
        let last = received.last();
        assert(replies_ok(rest, promises)) by {
            assert forall|i: int| 0 <= i < rest.len() implies promises.contains(
                promise_of(#[trigger] rest[i]),
            ) by {
                assert(rest[i] == received[i]);
            }
            assert forall|i: int, j: int|
                0 <= i < j < rest.len() && (#[trigger] rest[i]).0 == (
                #[trigger] rest[j]).0 implies rest[i].1.0 != rest[j].1.0 by {
                assert(rest[i] == received[i] && rest[j] == received[j]);
            }
        }
        lemma_promises_for(rest, promises, ballot);
        let before = replies_for(rest, ballot);
        let all = replies_for(received, ballot);
        crate::seqs::lemma_contains_push(rest, last);
        assert(rest.push(last) =~= received);
        assert forall|i: int| 0 <= i < all.len() implies received.contains(
            (ballot, #[trigger] all[i]),
        ) by {
            if i < before.len() {
                assert(all[i] == before[i]);
                assert(rest.contains((ballot, before[i])));
            } else {
                assert(last == (ballot, all[i]));
            }
        }
        assert forall|i: int, j: int| 0 <= i < j < all.len() implies (#[trigger] all[i]).0 != (
        #[trigger] all[j]).0 by {
            assert(all[i] == before[i]);
            if j < before.len() {
                assert(all[j] == before[j]);
            } else {
                assert(rest.contains((ballot, before[i])));
                let k = choose|k: int| 0 <= k < rest.len() && rest[k] == (ballot, before[i]);
                assert(received[k].0 == received[received.len() - 1].0);
            }
        }
    }
}

/// A leader's quorum of promises.
proof fn lemma_promise_quorum<P>(
    w: World<P>,
    received: Seq<(Ballot, (MemberId<Acceptor>, (Option<usize>, HashMap<usize, LogValue<P>>)))>,
    ballot: Ballot,
    f: nat,
)
    requires
        replies_ok(received, w.promises),
        replies_for(received, ballot).len() >= f + 1,
    ensures
        is_promise_quorum(w, promises_for(received, ballot), ballot, f),
        promised_logs(promises_for(received, ballot)) == reported(replies_for(received, ballot)),
{
    lemma_promises_for(received, w.promises, ballot);
    let replies = replies_for(received, ballot);
    let quorum = promises_for(received, ballot);
    assert forall|i: int| 0 <= i < quorum.len() implies w.promises.contains(#[trigger] quorum[i])
        && quorum[i].ballot == ballot by {
        assert(received.contains((ballot, replies[i])));
        let k = choose|k: int| 0 <= k < received.len() && received[k] == (ballot, replies[i]);
        assert(w.promises.contains(promise_of(received[k])));
    }
    assert forall|i: int, j: int| 0 <= i < j < quorum.len() implies (#[trigger] quorum[i]).acceptor
        != (#[trigger] quorum[j]).acceptor by {
        assert(replies[i].0 != replies[j].0);
    }
    assert(promised_logs(quorum) =~= reported(replies));
}

/// A leader starts beyond everything that its logs hold.
proof fn lemma_base_is_beyond<P>(
    logs: Seq<(Option<usize>, Map<usize, LogValue<P>>)>,
    next_slot: usize,
)
    ensures
        is_beyond(logs, base_slot(start_after(true, logs), next_slot)),
{
    lemma_has_max_slot(logs);
    assert(is_max_slot(logs, max_slot(logs)));
    assert forall|s: usize| #[trigger] is_proposed(logs, s) implies s < base_slot(
        start_after(true, logs),
        next_slot,
    ) by {
        assert(max_slot(logs) is Some);
    }
}

/// The logs leave at most one value for a slot to propose again, and only for slots before
/// the last one that they hold.
proof fn lemma_again_is_one<P>(
    logs: Seq<(Option<usize>, Map<usize, LogValue<P>>)>,
    f: usize,
    s: usize,
)
    ensures
        forall|x: Option<P>, y: Option<P>| #[trigger]
            is_again(logs, f, s, x) && #[trigger] is_again(logs, f, s, y) ==> x == y,
        forall|x: Option<P>| #[trigger]
            is_again(logs, f, s, x) ==> exists|m: usize| s <= m && #[trigger] is_proposed(logs, m),
{
    lemma_tally_some(logs, s);
    assert forall|x: Option<P>| #[trigger] is_again(logs, f, s, x) implies exists|m: usize|
        s <= m && #[trigger] is_proposed(logs, m) by {
        if is_recommitted(logs, f, s, x) {
            assert(is_proposed(logs, s));
        } else {
            let m = choose|m: usize| s < m && is_proposed(logs, m);
            assert(is_proposed(logs, m));
        }
    }
}

/// What is sent in a tick is allowed, gives each slot one value, and lies below the next slot.
proof fn lemma_sent<P>(
    to_send: Seq<((usize, Ballot), Option<P>)>,
    base: int,
    payloads: Seq<P>,
    logs: Seq<(Option<usize>, Map<usize, LogValue<P>>)>,
    ballot: Ballot,
    f: usize,
)
    requires
        is_tick_proposals(to_send, true, base, payloads, logs, ballot, f),
        is_beyond(logs, base),
        0 <= base,
        base + payloads.len() <= usize::MAX,
    ensures
        forall|i: int|
            0 <= i < to_send.len() ==> (#[trigger] to_send[i]).0.1 == ballot && is_allowed(
                logs,
                to_send[i].0.0,
                to_send[i].1,
            ) && to_send[i].0.0 < base + payloads.len(),
        forall|i: int|
            0 <= i < to_send.len() && (#[trigger] to_send[i]).0.0 < base ==> is_again(
                logs,
                f,
                to_send[i].0.0,
                to_send[i].1,
            ),
        forall|i: int, j: int|
            0 <= i < j < to_send.len() ==> (#[trigger] to_send[i]).0.0 != (
            #[trigger] to_send[j]).0.0,
        forall|i: int|
            0 <= i < to_send.len() ==> ((#[trigger] to_send[i]).1 matches Some(p)
                ==> payloads.contains(p) || (tally(logs, to_send[i].0.0) matches Some((_, e))
                && e.value == Some(p))),
{
    let fresh = fresh_proposals(base, payloads, ballot);
    let again = choose|again: Seq<((usize, Ballot), Option<P>)>|
        is_recommitment(logs, f, ballot, again) && to_send == #[trigger] (fresh + again);
    assert(to_send =~= fresh + again);
    let n = fresh.len() as int;
    assert forall|i: int| 0 <= i < n implies {
        &&& (#[trigger] to_send[i]).0.0 == base + i
        &&& to_send[i].0.1 == ballot
        &&& to_send[i].1 == Some(payloads[i])
        &&& payloads.contains(payloads[i])
        &&& is_allowed(logs, to_send[i].0.0, to_send[i].1)
    } by {
        assert(to_send[i] == fresh[i]);
        lemma_tally_some(logs, to_send[i].0.0);
    }
    assert forall|i: int| n <= i < to_send.len() implies {
        &&& (#[trigger] to_send[i]).0.1 == ballot
        &&& to_send[i].0.0 < base
        &&& is_again(logs, f, to_send[i].0.0, to_send[i].1)
        &&& is_allowed(logs, to_send[i].0.0, to_send[i].1)
        &&& to_send[i].1 matches Some(p) ==> (tally(logs, to_send[i].0.0) matches Some((_, e))
            && e.value == Some(p))
    } by {
        assert(to_send[i] == again[i - n]);
        let (key, value) = again[i - n];
        assert(again.contains(((key.0, key.1), value)));
        lemma_tally_some(logs, key.0);
        if is_recommitted(logs, f, key.0, value) {
            assert(is_proposed(logs, key.0));
        } else {
            assert(is_hole(logs, key.0));
            let m = choose|m: usize| key.0 < m && is_proposed(logs, m);
            assert(is_proposed(logs, m));
        }
    }
    assert forall|i: int, j: int| 0 <= i < j < to_send.len() implies (#[trigger] to_send[i]).0.0
        != (#[trigger] to_send[j]).0.0 by {
        if i >= n {
            assert(to_send[i] == again[i - n] && to_send[j] == again[j - n]);
        }
    }
}

/// What the proposals of a tick do to the set of all of them.
proof fn lemma_proposals<P>(
    c: Cluster<P>,
    next: Cluster<P>,
    id: MemberId<Proposer>,
    to_send: Seq<((usize, Ballot), Option<P>)>,
)
    requires
        forall|p: (Ballot, usize, Option<P>)| #[trigger]
            next.proposals.contains(p) <==> c.proposals.contains(p) || sends(
                requests(to_send, id),
                p,
            ),
    ensures
        forall|p: (Ballot, usize, Option<P>)| #[trigger]
            next.proposals.contains(p) <==> c.proposals.contains(p) || to_send.contains(
                ((p.1, p.0), p.2),
            ),
{
    let p2as = requests(to_send, id);
    assert forall|p: (Ballot, usize, Option<P>)| #[trigger] sends(p2as, p) <==> to_send.contains(
        ((p.1, p.0), p.2),
    ) by {
        if sends(p2as, p) {
            let i = choose|i: int|
                0 <= i < p2as.len() && (#[trigger] p2as[i]).ballot == p.0 && p2as[i].slot == p.1
                    && p2as[i].value == p.2;
            assert(to_send[i] == ((p.1, p.0), p.2));
        }
        if to_send.contains(((p.1, p.0), p.2)) {
            let i = choose|i: int| 0 <= i < to_send.len() && to_send[i] == ((p.1, p.0), p.2);
            assert(p2as[i].ballot == p.0);
        }
    }
}

/// A tick of a proposer that leads is a step of a leader: the quorum of promises is that
/// behind the replies for its ballot.
pub proof fn lemma_leader_moves<P>(
    c: Cluster<P>,
    next: Cluster<P>,
    f: usize,
    id: MemberId<Proposer>,
    config: PaxosConfig,
    input: ProposerInput<P>,
    out: ProposerOutput<P>,
    v: TickView<P>,
    to_send: Seq<((usize, Ballot), Option<P>)>,
)
    requires
        is_sound(c, f),
        proposer_moves(c, next, f, id, config, input, out),
        tick_does(id, f, c.proposers[id], input, next.proposers[id], out, v, to_send),
        v.is_leader,
    ensures
        leader_step(
            world(c),
            world(next),
            f as nat,
            v.ballot,
            promises_for(v.p1bs, v.ballot),
            to_send,
        ),
        promised_logs(promises_for(v.p1bs, v.ballot)) == v.logs,
        is_beyond(
            v.logs,
            base_slot(
                start_after(
                    takes_over_now(
                        v.is_leader,
                        c.proposers[id].sequencer.taken_over,
                        v.ballot,
                    ),
                    v.logs,
                ),
                c.proposers[id].sequencer.next_slot,
            ),
        ),
{
    let before = c.proposers[id];
    let w = world(c);
    assert(proposer_ok(c, f, id));
    let takes_over = takes_over_now(v.is_leader, before.sequencer.taken_over, v.ballot);
    let base = base_slot(start_after(takes_over, v.logs), before.sequencer.next_slot);
    lemma_keep_replies(
        before.election.p1bs@,
        input.p1bs@,
        (f + 1) as nat,
        c.promises,
        v.ballot,
    );
    lemma_promise_quorum(w, v.p1bs, v.ballot, f as nat);
    if takes_over {
        lemma_base_is_beyond(v.logs, before.sequencer.next_slot);
    } else {
        assert(before.sequencer.taken_over == Some(v.ballot));
    }
    lemma_sent(to_send, base, input.payloads@, v.logs, v.ballot, f);
    lemma_proposals(c, next, id, to_send);
    assert forall|i: int, x: Option<P>|
        0 <= i < to_send.len() && #[trigger] w.proposals.contains(
            (v.ballot, (#[trigger] to_send[i]).0.0, x),
        ) implies x == to_send[i].1 by {
        assert(c.proposals.contains((v.ballot, to_send[i].0.0, x)));
        // Nothing was proposed yet under a ballot that is taken over; and under one that was,
        // only below the next slot, where nothing but the same is proposed again.
        let t = before.sequencer.taken_over->0;
        if takes_over {
            assert(t.num == v.ballot.num);
            assert(t == v.ballot);
        } else {
            assert(to_send[i].0.0 < base);
            assert(is_again(v.logs, f, to_send[i].0.0, to_send[i].1));
        }
    }
}

/// What a tick commits is chosen.
proof fn lemma_commits<P>(
    c: Cluster<P>,
    next: Cluster<P>,
    f: usize,
    id: MemberId<Proposer>,
    config: PaxosConfig,
    input: ProposerInput<P>,
    out: ProposerOutput<P>,
    v: TickView<P>,
    to_send: Seq<((usize, Ballot), Option<P>)>,
    s: usize,
    x: Option<P>,
)
    requires
        is_sound(c, f),
        is_consistent(world(next), f as nat),
        proposer_moves(c, next, f, id, config, input, out),
        tick_does(id, f, c.proposers[id], input, next.proposers[id], out, v, to_send),
        out.committed@.contains((s, x)),
    ensures
        exists|b: Ballot| #[trigger] is_chosen(world(next), f as nat, b, s, x),
{
    let before = c.proposers[id];
    assert(proposer_ok(c, f, id));
    let requested = before.sequencer.pending@ + to_send;
    let known = before.sequencer.acks.pending@;
    let responses = outcomes(input.p2bs@);
    let quorums = completed(known, responses, (f + 1) as nat, (2 * f + 1) as nat);
    let done = answered(requested, quorums);
    law_answers_were_requested(requested, quorums);
    lemma_proposals(c, next, id, to_send);
    let i = choose|i: int| 0 <= i < out.committed@.len() && out.committed@[i] == (s, x);
    let request = done[i];
    assert(request.0.0 == s && request.1 == x);
    assert(done.contains(request));
    let b = request.0.1;
    assert(next.proposals.contains((b, s, x))) by {
        let k = choose|k: int| 0 <= k < requested.len() && requested[k] == request;
        if k < before.sequencer.pending@.len() {
            assert(before.sequencer.pending@[k] == request);
            assert(c.proposals.contains((b, s, x)));
        } else {
            assert(to_send[k - before.sequencer.pending@.len()] == request);
            assert(to_send.contains(((s, b), x)));
        }
    }
    assert(quorums.contains((s, b)));
    law_quorum_is_distinct(known, responses, (f + 1) as nat, (2 * f + 1) as nat, (s, b));
    let by = choose|by: Seq<MemberId<Acceptor>>| #[trigger]
        all_support(by, known, responses, (s, b)) && by.len() >= f + 1;
    let ids = by.map_values(|m: MemberId<Acceptor>| m.raw_id as int);
    assert(ids.no_duplicates()) by {
        assert forall|i: int, j: int|
            0 <= i < ids.len() && 0 <= j < ids.len() && i != j implies ids[i] != ids[j] by {
            assert(by[i] != by[j]);
        }
    }
    ids.unique_seq_to_set();
    let q = ids.to_set();
    assert forall|a: int| #[trigger] q.contains(a) implies next.acks.contains((a, b, s)) by {
        assert(ids.contains(a));
        let k = choose|k: int| 0 <= k < ids.len() && ids[k] == a;
        let m = by[k];
        assert(by.contains(m));
        if responses.contains(((s, b), (m, true))) {
            let j = choose|j: int| 0 <= j < responses.len() && responses[j] == ((s, b), (m, true));
            assert(input.p2bs@[j].1.1 is Ok);
        }
    }
    let w = world(next);
    assert(q.subset_of(members(f as nat))) by {
        assert forall|a: int| q.contains(a) implies members(f as nat).contains(a) by {
            assert(w.acks.contains((a, b, s)));
        }
    }
    assert(is_quorum(q, f as nat));
    assert forall|a: int| #[trigger] q.contains(a) implies w.acks.contains((a, b, s)) by {}
    assert(is_chosen(w, f as nat, b, s, x));
}

/// A proposer stays in order through its own tick.
proof fn lemma_proposer_ok<P>(
    c: Cluster<P>,
    next: Cluster<P>,
    f: usize,
    id: MemberId<Proposer>,
    config: PaxosConfig,
    input: ProposerInput<P>,
    out: ProposerOutput<P>,
    v: TickView<P>,
    to_send: Seq<((usize, Ballot), Option<P>)>,
)
    requires
        is_sound(c, f),
        proposer_moves(c, next, f, id, config, input, out),
        tick_does(id, f, c.proposers[id], input, next.proposers[id], out, v, to_send),
    ensures
        proposer_ok(next, f, id),
{
    let before = c.proposers[id];
    let after = next.proposers[id];
    assert(proposer_ok(c, f, id));
    let takes_over = takes_over_now(v.is_leader, before.sequencer.taken_over, v.ballot);
    let base = base_slot(start_after(takes_over, v.logs), before.sequencer.next_slot);
    let ballot = match before.sequencer.taken_over {
        Some(t) => t,
        None => v.ballot,
    };
    lemma_keep_replies(before.election.p1bs@, input.p1bs@, (f + 1) as nat, c.promises, ballot);
    lemma_proposals(c, next, id, to_send);
    if v.is_leader {
        lemma_leader_moves(c, next, f, id, config, input, out, v, to_send);
        lemma_sent(to_send, base, input.payloads@, v.logs, v.ballot, f);
    }
    assert forall|b: Ballot, s: usize, x: Option<P>| #[trigger]
        next.proposals.contains((b, s, x)) && b.proposer_id == id implies (
    after.sequencer.taken_over matches Some(t) && b.num <= t.num && (b == t ==> s
        < after.sequencer.next_slot)) by {
        if to_send.contains(((s, b), x)) {
            let i = choose|i: int| 0 <= i < to_send.len() && to_send[i] == ((s, b), x);
            assert(to_send[i].0.1 == v.ballot);
        } else {
            assert(c.proposals.contains((b, s, x)));
            let t = before.sequencer.taken_over->0;
            if takes_over && b == v.ballot {
                assert(t == v.ballot);
            }
        }
    }
    if let Some(t) = after.sequencer.taken_over {
        if !takes_over {
            let logs = reported(replies_for(before.election.p1bs@, t));
            assert(is_beyond(logs, before.sequencer.next_slot as int));
            assert(is_beyond(logs, after.sequencer.next_slot as int));
        } else {
            assert(v.logs == reported(replies_for(v.p1bs, v.ballot)));
            assert(is_beyond(v.logs, after.sequencer.next_slot as int));
        }
    }
    if let Some(t) = after.sequencer.taken_over {
        let logs = reported(replies_for(after.election.p1bs@, t));
        assert forall|s: usize, x: Option<P>, y: Option<P>|
            #![trigger next.proposals.contains((t, s, x)), is_again(logs, f, s, y)]
            next.proposals.contains((t, s, x)) && is_again(logs, f, s, y) implies x == y by {
            lemma_again_is_one(logs, f, s);
            if c.proposals.contains((t, s, x)) {
                assert(before.sequencer.taken_over == Some(t));
            } else {
                assert(to_send.contains(((s, t), x)));
                let i = choose|i: int| 0 <= i < to_send.len() && to_send[i] == ((s, t), x);
                assert(to_send[i].0.1 == v.ballot);
                assert(logs == v.logs);
                assert(to_send[i].0.0 < base);
                assert(is_again(logs, f, to_send[i].0.0, to_send[i].1));
            }
        }
    }
    let requested = before.sequencer.pending@ + to_send;
    let known = before.sequencer.acks.pending@;
    let responses = outcomes(input.p2bs@);
    let quorums = completed(known, responses, (f + 1) as nat, (2 * f + 1) as nat);
    law_answers_were_requested(requested, quorums);
    let open = unanswered(requested, quorums);
    assert forall|i: int| 0 <= i < open.len() implies next.proposals.contains(
        ((#[trigger] open[i]).0.1, open[i].0.0, open[i].1),
    ) by {
        assert(open.contains(open[i]));
        let k = choose|k: int| 0 <= k < requested.len() && requested[k] == open[i];
        if k < before.sequencer.pending@.len() {
            assert(before.sequencer.pending@[k] == open[i]);
        } else {
            assert(to_send[k - before.sequencer.pending@.len()] == open[i]);
            assert(to_send.contains(((open[i].0.0, open[i].0.1), open[i].1)));
        }
    }
    law_responses_are_kept_once(known, responses, (2 * f + 1) as nat);
    assert forall|k: (usize, Ballot), m: MemberId<Acceptor>| #[trigger]
        after.sequencer.acks.pending@.contains((k, (m, true))) implies next.acks.contains(
        (m.raw_id as int, k.1, k.0),
    ) by {
        if responses.contains((k, (m, true))) {
            let j = choose|j: int| 0 <= j < responses.len() && responses[j] == (k, (m, true));
            assert(input.p2bs@[j].1.1 is Ok);
        }
    }
}

/// Values that are taken over were payloads when they were first proposed.
proof fn lemma_sent_payloads<P>(
    c: Cluster<P>,
    f: usize,
    quorum: Seq<Promise<P>>,
    ballot: Ballot,
    slot: usize,
)
    requires
        is_sound(c, f),
        is_promise_quorum(world(c), quorum, ballot, f as nat),
    ensures
        tally(promised_logs(quorum), slot) matches Some((_, e)) ==> (e.value matches Some(p)
            ==> c.payloads.contains(p)),
{
    let logs = promised_logs(quorum);
    lemma_tally_is_highest(logs, slot);
    if let Some((_, e)) = tally(logs, slot) {
        let k = choose|k: int|
            0 <= k < logs.len() && (#[trigger] logs[k]).1.contains_key(slot) && logs[k].1[slot]
                == e;
        assert(world(c).promises.contains(quorum[k]));
        assert(quorum[k].log.contains_key(slot));
        assert(world(c).proposals.contains((e.ballot, slot, e.value)));
        if let Some(p) = e.value {
            assert(c.proposals.contains((e.ballot, slot, Some(p))));
        }
    }
}

proof fn lemma_proposer_sound<P>(
    c: Cluster<P>,
    next: Cluster<P>,
    f: usize,
    id: MemberId<Proposer>,
    config: PaxosConfig,
    input: ProposerInput<P>,
    out: ProposerOutput<P>,
)
    requires
        is_sound(c, f),
        proposer_moves(c, next, f, id, config, input, out),
    ensures
        is_sound(next, f),
{
    let before = c.proposers[id];
    let after = next.proposers[id];
    let (v, to_send) = choose|v: TickView<P>, to_send: Seq<((usize, Ballot), Option<P>)>| #[trigger]
        tick_does(id, f, before, input, after, out, v, to_send);
    lemma_proposals(c, next, id, to_send);
    let w = world(c);
    let n = world(next);
    assert(n.acceptors == w.acceptors);
    if v.is_leader {
        lemma_leader_moves(c, next, f, id, config, input, out, v, to_send);
        lemma_leader_step(w, n, f as nat, v.ballot, promises_for(v.p1bs, v.ballot), to_send);
        let takes_over = takes_over_now(v.is_leader, before.sequencer.taken_over, v.ballot);
        let base = base_slot(start_after(takes_over, v.logs), before.sequencer.next_slot);
        lemma_sent(to_send, base, input.payloads@, v.logs, v.ballot, f);
    } else {
        assert(to_send.len() == 0);
        assert(n.proposals =~= w.proposals);
        assert(n == w);
    }
    assert forall|b: Ballot, s: usize, p: P| #[trigger]
        next.proposals.contains((b, s, Some(p))) implies next.payloads.contains(p) by {
        if !c.proposals.contains((b, s, Some(p))) {
            assert(to_send.contains(((s, b), Some(p))));
            let i = choose|i: int| 0 <= i < to_send.len() && to_send[i] == ((s, b), Some(p));
            assert(to_send[i].1 == Some(p));
            lemma_sent_payloads(c, f, promises_for(v.p1bs, v.ballot), v.ballot, s);
        }
    }
    assert forall|other: MemberId<Proposer>| #[trigger]
        next.proposers.contains_key(other) implies proposer_ok(next, f, other) by {
        if other == id {
            lemma_proposer_ok(c, next, f, id, config, input, out, v, to_send);
        } else {
            assert(c.proposers.contains_key(other));
            assert(next.proposers[other] == c.proposers[other]);
            assert(proposer_ok(c, f, other));
            assert forall|b: Ballot, s: usize, x: Option<P>| #[trigger]
                next.proposals.contains((b, s, x)) && b.proposer_id
                    == other implies c.proposals.contains((b, s, x)) by {
                if to_send.contains(((s, b), x)) {
                    let i = choose|i: int| 0 <= i < to_send.len() && to_send[i] == ((s, b), x);
                    assert(to_send[i].0.1 == v.ballot);
                }
            }
            assert(proposer_ok(next, f, other));
        }
    }
    assert forall|s: usize, x: Option<P>| #[trigger]
        next.committed.contains((s, x)) implies exists|b: Ballot| #[trigger]
        is_chosen(n, f as nat, b, s, x) by {
        if c.committed.contains((s, x)) {
            let b = choose|b: Ballot| #[trigger] is_chosen(w, f as nat, b, s, x);
            lemma_stays_chosen(c, next, f, b, s, x);
        } else {
            lemma_commits(c, next, f, id, config, input, out, v, to_send, s, x);
        }
    }
}

/// Every state of a run is sound: what was sent is consistent, and all proposers are in order.
pub proof fn law_run_is_sound<P>(run: Seq<Cluster<P>>, f: usize, i: int)
    requires
        is_run(run, f),
        0 <= i < run.len(),
    ensures
        is_sound(run[i], f),
    decreases i,
{
    if i == 0 {
        lemma_start(run[0], f);
    } else {
        law_run_is_sound(run, f, i - 1);
        let c = run[i - 1];
        let next = run[i - 1 + 1];
        assert(moves(c, next, f));
        if exists|
            id: MemberId<Proposer>,
            config: PaxosConfig,
            input: ProposerInput<P>,
            out: ProposerOutput<P>,
        | #[trigger]
            proposer_moves(c, next, f, id, config, input, out) {
            let (id, config, input, out) = choose|
                id: MemberId<Proposer>,
                config: PaxosConfig,
                input: ProposerInput<P>,
                out: ProposerOutput<P>,
            | #[trigger]
                proposer_moves(c, next, f, id, config, input, out);
            lemma_proposer_sound(c, next, f, id, config, input, out);
        } else {
            let (a, p1as, p2as, a_checkpoint, p1bs, p2bs) = choose|
                a: int,
                p1as: Seq<Ballot>,
                p2as: Seq<P2a<P, Proposer>>,
                a_checkpoint: Option<usize>,
                p1bs: Seq<
                    (
                        MemberId<Proposer>,
                        (Ballot, Result<(Option<usize>, HashMap<usize, LogValue<P>>), Ballot>),
                    ),
                >,
                p2bs: Seq<(MemberId<Proposer>, ((usize, Ballot), Result<(), Ballot>))>,
            | #[trigger]
                acceptor_moves(c, next, a, p1as, p2as, a_checkpoint, p1bs, p2bs);
            lemma_acceptor_sound(c, next, f, a, p1as, p2as, a_checkpoint, p1bs, p2bs);
        }
    }
}

/// What was committed stays so.
proof fn lemma_committed_grows<P>(run: Seq<Cluster<P>>, f: usize, i: int, j: int)
    requires
        is_run(run, f),
        0 <= i <= j < run.len(),
    ensures
        forall|e: (usize, Option<P>)| #[trigger]
            run[i].committed.contains(e) ==> run[j].committed.contains(e),
    decreases j - i,
{
    if i < j {
        lemma_committed_grows(run, f, i, j - 1);
        assert(moves(run[j - 1], run[j - 1 + 1], f));
    }
}

/// A slot is committed only if more than `f` different acceptors have confirmed its value,
/// all under one ballot under which it was proposed.
pub proof fn law_commit_has_quorum<P>(
    run: Seq<Cluster<P>>,
    f: usize,
    i: int,
    slot: usize,
    v: Option<P>,
)
    requires
        is_run(run, f),
        0 <= i < run.len(),
        run[i].committed.contains((slot, v)),
    ensures
        exists|b: Ballot| #[trigger] is_chosen(world(run[i]), f as nat, b, slot, v),
{
    law_run_is_sound(run, f, i);
}

/// Agreement: whichever proposers commit a slot, and whenever they do, they commit the same
/// value; and if it is not a hole, it is a payload that was handed in.
pub proof fn law_committed_agree<P>(
    run: Seq<Cluster<P>>,
    f: usize,
    i: int,
    j: int,
    slot: usize,
    v1: Option<P>,
    v2: Option<P>,
)
    requires
        is_run(run, f),
        0 <= i < run.len(),
        0 <= j < run.len(),
        run[i].committed.contains((slot, v1)),
        run[j].committed.contains((slot, v2)),
    ensures
        v1 == v2,
        v1 matches Some(p) ==> run[i].payloads.contains(p),
{
    law_commit_has_quorum(run, f, i, slot, v1);
    law_run_is_sound(run, f, i);
    let b = choose|b: Ballot| #[trigger] is_chosen(world(run[i]), f as nat, b, slot, v1);
    if let Some(p) = v1 {
        assert(run[i].proposals.contains((b, slot, Some(p))));
    }
    let last = if i < j {
        j
    } else {
        i
    };
    lemma_committed_grows(run, f, i, last);
    lemma_committed_grows(run, f, j, last);
    law_run_is_sound(run, f, last);
    let w = world(run[last]);
    let b1 = choose|b: Ballot| #[trigger] is_chosen(w, f as nat, b, slot, v1);
    let b2 = choose|b: Ballot| #[trigger] is_chosen(w, f as nat, b, slot, v2);
    lemma_ballot_order(b1, b2);
    if b1.le_spec(b2) {
        lemma_chosen_agree(w, f as nat, b1, b2, slot, v1, v2);
    } else {
        lemma_chosen_agree(w, f as nat, b2, b1, slot, v2, v1);
    }
}

} // verus!
