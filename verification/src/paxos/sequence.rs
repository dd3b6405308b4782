//! How a leader gives payloads their slots and learns which are committed.
use super::ballot::{Acceptor, Ballot, PaxosPayload};
use super::log::LogValue;
use super::proposer::{collect_refusals, refusals};
use super::recommit::{
    can_recommit, find_max_checkpoint, is_recommitment, later_checkpoint, later_of, max_checkpoint, max_slot,
    recommit_after_leader_election, reports,
};
use crate::datum::Dup;
use crate::location::member_id::MemberId;
use crate::quorum::{collect_quorum, completed, outcomes, record_all, Quorum};
use crate::request_response::{answered, join_responses, unanswered};
use std::collections::HashMap;
use vstd::prelude::*;

verus! {

/// The first slot for new payloads: the one after the last slot that is taken, or else the
/// next one of this leader.
pub open spec fn base_slot(p_max_slot: Option<usize>, next_slot: usize) -> int {
    match p_max_slot {
        Some(s) => s + 1,
        None => next_slot as int,
    }
}

/// Gives each payload of a tick its slot, counting up from the base slot, and moves
/// `next_slot` past them.
pub fn index_payloads<P: PaxosPayload>(
    next_slot: &mut usize,
    p_max_slot: Option<usize>,
    c_to_proposers: Vec<P>,
) -> (r: Vec<(usize, P)>)
    requires
        base_slot(p_max_slot, *old(next_slot)) + c_to_proposers.len() <= usize::MAX,
    ensures
        r.len() == c_to_proposers.len(),
        forall|i: int|
            0 <= i < r.len() ==> (#[trigger] r[i]).0 == base_slot(p_max_slot, *old(next_slot)) + i
                && r[i].1 == c_to_proposers[i],
        *final(next_slot) == base_slot(p_max_slot, *old(next_slot)) + c_to_proposers.len(),
{
    let base: usize = match p_max_slot {
        Some(s) => s + 1,
        None => *next_slot,
    };
    let num_payloads: usize = c_to_proposers.len();
    let ghost payloads = c_to_proposers@;
    let mut indexed: Vec<(usize, P)> = Vec::new();
    for payload in it: c_to_proposers
        invariant
            it.seq() == payloads,
            base + payloads.len() <= usize::MAX,
            indexed.len() == it.index(),
            forall|i: int|
                0 <= i < indexed.len() ==> (#[trigger] indexed[i]).0 == base + i && indexed[i].1
                    == payloads[i],
    {
        let slot: usize = base + indexed.len();
        indexed.push((slot, payload));
    }
    *next_slot = base + num_payloads;
    indexed
}

/// What a proposer remembers about the payloads that it sequences.
pub struct SequencerState<P> {
    /// The slot for its next payload.
    pub next_slot: usize,
    /// The ballot under which it has last taken over the logs of a quorum.
    pub taken_over: Option<Ballot>,
    /// The acceptors' answers for slots that are not complete.
    pub acks: Quorum<(usize, Ballot), MemberId<Acceptor>>,
    /// The proposals that are not committed yet.
    pub pending: Vec<((usize, Ballot), Option<P>)>,
}

impl<P: PaxosPayload> SequencerState<P> {
    pub fn new() -> (r: Self)
        ensures
            r.next_slot == 0,
            r.taken_over is None,
            r.acks.pending@ == Seq::<((usize, Ballot), (MemberId<Acceptor>, bool))>::empty(),
            r.pending@ == Seq::<((usize, Ballot), Option<P>)>::empty(),
    {
        SequencerState {
            next_slot: 0,
            taken_over: None,
            acks: Quorum::new(),
            pending: Vec::new(),
        }
    }
}

/// The last slot that is taken, as far as the logs of a quorum tell: the last one that is in
/// a log or at a checkpoint.
pub open spec fn last_taken<P>(
    logs: Seq<(Option<usize>, Map<usize, LogValue<P>>)>,
) -> Option<usize> {
    later_checkpoint(max_slot(logs), max_checkpoint(logs))
}

/// Whether a leader has to take over the logs of its quorum: it has not done so under this
/// ballot yet.
pub open spec fn takes_over_now(
    is_leader: bool,
    taken_over: Option<Ballot>,
    ballot: Ballot,
) -> bool {
    is_leader && taken_over != Some(ballot)
}

/// The last slot that is taken, after which a leader numbers its payloads in a tick. Only in
/// the first tick under a ballot the logs tell; after that it goes on with its next slot.
pub open spec fn start_after<P>(
    takes_over: bool,
    logs: Seq<(Option<usize>, Map<usize, LogValue<P>>)>,
) -> Option<usize> {
    if takes_over {
        last_taken(logs)
    } else {
        None
    }
}

/// The proposals for new payloads: consecutive slots from `base` on, all under one
/// ballot.
pub open spec fn fresh_proposals<P>(base: int, payloads: Seq<P>, ballot: Ballot) -> Seq<
    ((usize, Ballot), Option<P>),
> {
    Seq::new(payloads.len(), |i: int| (((base + i) as usize, ballot), Some(payloads[i])))
}

/// What a committed proposal tells the replicas: its slot and its value.
pub open spec fn committed<P>(proposals: Seq<((usize, Ballot), Option<P>)>) -> Seq<
    (usize, Option<P>),
> {
    proposals.map_values(|p: ((usize, Ballot), Option<P>)| (p.0.0, p.1))
}

/// Whether `to_send` is what a proposer sends to the acceptors in a tick: nothing
/// unless it is the leader; else its new payloads, and what the logs of its quorum leave to
/// commit again.
pub open spec fn is_tick_proposals<P>(
    to_send: Seq<((usize, Ballot), Option<P>)>,
    is_leader: bool,
    base: int,
    payloads: Seq<P>,
    logs: Seq<(Option<usize>, Map<usize, LogValue<P>>)>,
    ballot: Ballot,
    f: usize,
) -> bool {
    if is_leader {
        exists|again: Seq<((usize, Ballot), Option<P>)>|
            is_recommitment(logs, f, ballot, again) && to_send == #[trigger] (fresh_proposals(
                base,
                payloads,
                ballot,
            ) + again)
    } else {
        to_send == Seq::<((usize, Ballot), Option<P>)>::empty()
    }
}

/// Adds proposals to those that are sent and to those that are not committed yet.
fn propose<P: PaxosPayload>(
    to_send: &mut Vec<((usize, Ballot), Option<P>)>,
    pending: &mut Vec<((usize, Ballot), Option<P>)>,
    proposals: &Vec<((usize, Ballot), Option<P>)>,
)
    ensures
        final(to_send)@ == old(to_send)@ + proposals@,
        final(pending)@ == old(pending)@ + proposals@,
{
    for i in 0..proposals.len()
        invariant
            to_send@ == old(to_send)@ + proposals@.take(i as int),
            pending@ == old(pending)@ + proposals@.take(i as int),
    {
        proof {
            crate::seqs::lemma_take_next(proposals@, i as int);
        }
        to_send.push((proposals[i].0, proposals[i].1.dup()));
        pending.push((proposals[i].0, proposals[i].1.dup()));
        assert(to_send@ =~= old(to_send)@ + proposals@.take(i + 1));
        assert(pending@ =~= old(pending)@ + proposals@.take(i + 1));
    }
    assert(proposals@.take(proposals.len() as int) =~= proposals@);
}

/// One tick of sequencing at a proposer.
///
/// Returns the proposals to send to the acceptors; the slots that are committed,
/// with their values; and the ballots with which acceptors refused. A payload is
/// dropped if the proposer is not the leader. A leader proposes again, in every tick, what the
/// logs of its quorum leave to commit. In its first tick under a ballot it starts after all
/// that they hold.
pub fn sequence_payload<P: PaxosPayload>(
    state: &mut SequencerState<P>,
    c_to_proposers: Vec<P>,
    p_ballot: Ballot,
    p_is_leader: bool,
    p_relevant_p1bs: &Vec<(Option<usize>, HashMap<usize, LogValue<P>>)>,
    f: usize,
    a_to_proposers_p2b: &Vec<(MemberId<Acceptor>, ((usize, Ballot), Result<(), Ballot>))>,
) -> (r: (Vec<((usize, Ballot), Option<P>)>, Vec<(usize, Option<P>)>, Vec<Ballot>))
    requires
        2 * f + 1 <= usize::MAX,
        p_is_leader ==> can_recommit(reports(p_relevant_p1bs@)),
        p_is_leader ==> base_slot(
            start_after(
                takes_over_now(p_is_leader, old(state).taken_over, p_ballot),
                reports(p_relevant_p1bs@),
            ),
            old(state).next_slot,
        ) + c_to_proposers.len() <= usize::MAX,
    ensures
        ({
            let takes_over = takes_over_now(p_is_leader, old(state).taken_over, p_ballot);
            let logs = reports(p_relevant_p1bs@);
            let base = base_slot(start_after(takes_over, logs), old(state).next_slot);
            &&& is_tick_proposals(
                r.0@,
                p_is_leader,
                base,
                c_to_proposers@,
                logs,
                p_ballot,
                f,
            )
            &&& final(state).next_slot == base + if p_is_leader {
                c_to_proposers@.len()
            } else {
                0
            }
            &&& final(state).taken_over == if takes_over {
                Some(p_ballot)
            } else {
                old(state).taken_over
            }
        }),
        final(state).acks.pending@ == record_all(
            old(state).acks.pending@,
            outcomes(a_to_proposers_p2b@),
            (2 * f + 1) as nat,
        ),
        ({
            let quorums = completed(
                old(state).acks.pending@,
                outcomes(a_to_proposers_p2b@),
                (f + 1) as nat,
                (2 * f + 1) as nat,
            );
            &&& r.1@ == committed(answered(old(state).pending@ + r.0@, quorums))
            &&& final(state).pending@ == unanswered(old(state).pending@ + r.0@, quorums)
        }),
        r.2@ == refusals(a_to_proposers_p2b@),
{
    let ghost payloads = c_to_proposers@;
    let ghost logs = reports(p_relevant_p1bs@);
    let ghost before = state.pending@;
    let mut to_send: Vec<((usize, Ballot), Option<P>)> = Vec::new();
    if p_is_leader {
        let takes_over = match state.taken_over {
            Some(b) => !(b == p_ballot),
            None => true,
        };
        let ghost base = base_slot(start_after(takes_over, logs), state.next_slot);
        let (again, p_max_slot) = recommit_after_leader_election(p_relevant_p1bs, p_ballot, f);
        let mut taken: Option<usize> = None;
        if takes_over {
            taken = later_of(p_max_slot, find_max_checkpoint(p_relevant_p1bs));
            state.taken_over = Some(p_ballot);
        }
        let indexed = index_payloads(&mut state.next_slot, taken, c_to_proposers);
        let ghost fresh = fresh_proposals(base, payloads, p_ballot);
        let mut new: Vec<((usize, Ballot), Option<P>)> = Vec::new();
        for i in 0..indexed.len()
            invariant
                indexed.len() == payloads.len(),
                base + payloads.len() <= usize::MAX,
                0 <= base,
                forall|j: int|
                    0 <= j < indexed.len() ==> (#[trigger] indexed[j]).0 == base + j && indexed[j].1
                        == payloads[j],
                fresh == fresh_proposals(base, payloads, p_ballot),
                new@ == fresh.take(i as int),
        {
            proof {
                crate::seqs::lemma_take_next(fresh, i as int);
                assert(indexed[i as int].1 == payloads[i as int]);
            }
            new.push(((indexed[i].0, p_ballot), Some(indexed[i].1.dup())));
            assert(new@ =~= fresh.take(i + 1));
        }
        assert(fresh.take(fresh.len() as int) =~= fresh);
        propose(&mut to_send, &mut state.pending, &new);
        propose(&mut to_send, &mut state.pending, &again);
        proof {
            assert(to_send@ =~= fresh + again@);
            assert(is_recommitment(logs, f, p_ballot, again@));
        }
    }
    assert(state.pending@ =~= before + to_send@);
    let (quorums, _fails) = collect_quorum(
        &mut state.acks,
        a_to_proposers_p2b,
        f + 1,
        2 * f + 1,
    );
    let done = join_responses(&mut state.pending, &quorums);
    let mut to_replicas: Vec<(usize, Option<P>)> = Vec::new();
    for i in 0..done.len()
        invariant
            to_replicas@ == committed(done@.take(i as int)),
    {
        proof {
            crate::seqs::lemma_take_next(done@, i as int);
        }
        to_replicas.push((done[i].0.0, done[i].1.dup()));
        assert(to_replicas@ =~= committed(done@.take(i + 1)));
    }
    assert(done@.take(done.len() as int) =~= done@);
    (to_send, to_replicas, collect_refusals(a_to_proposers_p2b))
}

} // verus!
