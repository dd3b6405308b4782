//! Whole ticks of the two kinds of members.
use super::acceptor::{
    acceptor_p1, acceptor_p2, answers_p1a, from_checkpoint, greatest, is_greatest, p2b_spec,
    place_all, P2a,
};
use super::ballot::{Acceptor, Ballot, PaxosConfig, PaxosPayload, Proposer};
use super::log::LogValue;
use super::proposer::{
    collect_refusals, contents, is_max_quorum, keep_replies, leader_election, refusals,
    replies_for, reported, ElectionInput, ElectionState,
};
use super::recommit::{can_recommit, reports};
use super::sequence::{
    base_slot, committed, is_tick_proposals, sequence_payload, start_after, takes_over_now,
    SequencerState,
};
use crate::datum::Dup;
use crate::live_collections::optional::{is_map_node, maps_option, Optional};
use crate::live_collections::quoted::Quoted;
use crate::live_collections::singleton::is_mapped_trace;
use crate::live_collections::Unbounded;
use crate::location::cluster::Cluster;
use crate::location::dynamic::DynLocation;
use crate::location::member_id::MemberId;
use crate::quorum::{completed, outcomes, record_all};
use crate::request_response::{answered, unanswered};
use std::collections::HashMap;
use vstd::prelude::*;

verus! {

/// What an acceptor remembers.
pub struct AcceptorState<P> {
    /// The highest ballot that it was asked to follow.
    pub max_ballot: Ballot,
    /// Its checkpoint and its log.
    pub log: (Option<usize>, HashMap<usize, LogValue<P>>),
}

impl<P: PaxosPayload> AcceptorState<P> {
    pub fn new() -> (r: Self)
        ensures
            r.max_ballot == Ballot::least_spec(),
            r.log.0 is None,
            r.log.1@ == Map::<usize, LogValue<P>>::empty(),
    {
        AcceptorState { max_ballot: Ballot::least(), log: (None, HashMap::new()) }
    }
}

/// Whether an acceptor goes from one state to another in a tick, and gives these answers.
pub open spec fn is_acceptor_tick<P>(
    before: AcceptorState<P>,
    p1as: Seq<Ballot>,
    p2as: Seq<P2a<P, Proposer>>,
    a_checkpoint: Option<usize>,
    after: AcceptorState<P>,
    p1bs: Seq<
        (
            MemberId<Proposer>,
            (Ballot, Result<(Option<usize>, HashMap<usize, LogValue<P>>), Ballot>),
        ),
    >,
    p2bs: Seq<(MemberId<Proposer>, ((usize, Ballot), Result<(), Ballot>))>,
) -> bool {
    &&& is_greatest(after.max_ballot, before.max_ballot, p1as)
    &&& after.log.0 == a_checkpoint
    &&& after.log.1@ == from_checkpoint(
        place_all(before.log.1@, p2as, after.max_ballot),
        after.log.0,
    )
    &&& p1bs.len() == p1as.len()
    &&& forall|i: int|
        0 <= i < p1bs.len() ==> answers_p1a(
            #[trigger] p1bs[i],
            p1as[i],
            after.max_ballot,
            after.log,
        )
    &&& p2bs == p2as.map_values(|p2a: P2a<P, Proposer>| p2b_spec(p2a, after.max_ballot))
}

/// One tick of an acceptor: it takes requests to lead and requests to fill slots, and
/// answers both. A reported log already holds the values placed in this tick, and is reported
/// with the checkpoint that was seen in this tick.
pub fn acceptor_core<P: PaxosPayload>(
    state: &mut AcceptorState<P>,
    p1as: &Vec<Ballot>,
    p2as: Vec<P2a<P, Proposer>>,
    a_checkpoint: Option<usize>,
) -> (r: (
    Vec<
        (
            MemberId<Proposer>,
            (Ballot, Result<(Option<usize>, HashMap<usize, LogValue<P>>), Ballot>),
        ),
    >,
    Vec<(MemberId<Proposer>, ((usize, Ballot), Result<(), Ballot>))>,
))
    ensures
        is_acceptor_tick(
            *old(state),
            p1as@,
            p2as@,
            a_checkpoint,
            *final(state),
            r.0@,
            r.1@,
        ),
{
    let max_ballot = greatest(state.max_ballot, p1as);
    let p2bs = acceptor_p2(&mut state.log, max_ballot, p2as, a_checkpoint);
    let (max_again, p1bs) = acceptor_p1(state.max_ballot, p1as, &state.log);
    proof {
        lemma_greatest_unique(max_ballot, max_again, state.max_ballot, p1as@);
    }
    state.max_ballot = max_ballot;
    (p1bs, p2bs)
}

proof fn lemma_greatest_unique(m: Ballot, n: Ballot, start: Ballot, bs: Seq<Ballot>)
    requires
        is_greatest(m, start, bs),
        is_greatest(n, start, bs),
    ensures
        m == n,
{
    if bs.contains(m) {
        let i = choose|i: int| 0 <= i < bs.len() && bs[i] == m;
        assert(bs[i].le_spec(n));
    }
    if bs.contains(n) {
        let i = choose|i: int| 0 <= i < bs.len() && bs[i] == n;
        assert(bs[i].le_spec(m));
    }
}

/// What a proposer remembers.
pub struct ProposerState<P> {
    pub election: ElectionState<HashMap<usize, LogValue<P>>>,
    pub sequencer: SequencerState<P>,
    /// Whether it was the leader in the last tick.
    pub was_leader: bool,
}

impl<P: PaxosPayload> ProposerState<P> {
    pub fn new() -> (r: Self)
        ensures
            r.election.received_max_ballot == Ballot::least_spec(),
            r.election.ballot_num == 0,
            r.election.p1bs@.len() == 0,
            r.sequencer.next_slot == 0,
            r.sequencer.taken_over is None,
            r.sequencer.acks.pending@.len() == 0,
            r.sequencer.pending@.len() == 0,
            !r.was_leader,
    {
        ProposerState {
            election: ElectionState::new(),
            sequencer: SequencerState::new(),
            was_leader: false,
        }
    }
}

/// What reaches a proposer in one tick.
pub struct ProposerInput<P> {
    /// Payloads of clients.
    pub payloads: Vec<P>,
    /// Replies of acceptors to requests to lead.
    pub p1bs: Vec<
        (
            MemberId<Acceptor>,
            (Ballot, Result<(Option<usize>, HashMap<usize, LogValue<P>>), Ballot>),
        ),
    >,
    /// Replies of acceptors to requests to fill slots.
    pub p2bs: Vec<(MemberId<Acceptor>, ((usize, Ballot), Result<(), Ballot>))>,
    /// Heartbeats of leaders.
    pub i_am_leader: Vec<Ballot>,
    /// Whether the last heartbeat is too long ago.
    pub leader_expired: bool,
    /// Whether this proposer's check of the leader is due.
    pub check_due: bool,
}

/// What a proposer does in one tick.
pub struct ProposerOutput<P> {
    /// Its ballot, told to the clients once when it has become the leader.
    pub elected: Option<Ballot>,
    /// The slots that are committed, with their values; `None` is a hole.
    pub committed: Vec<(usize, Option<P>)>,
    /// The heartbeat to send to the proposers.
    pub heartbeat: Option<Ballot>,
    /// The request to lead to send to the acceptors.
    pub p1a: Option<Ballot>,
    /// The requests to fill slots to send to the acceptors.
    pub p2as: Vec<P2a<P, Proposer>>,
}

impl<P> ProposerInput<P> {
    /// All ballots that came from others.
    pub open spec fn ballots(self) -> Seq<Ballot> {
        refusals(self.p1bs@) + refusals(self.p2bs@) + self.i_am_leader@
    }
}

/// The requests that carry the given proposals.
pub open spec fn requests<P>(
    proposals: Seq<((usize, Ballot), Option<P>)>,
    sender: MemberId<Proposer>,
) -> Seq<P2a<P, Proposer>> {
    proposals.map_values(
        |p: ((usize, Ballot), Option<P>)|
            P2a { sender, ballot: p.0.1, slot: p.0.0, value: p.1 },
    )
}

/// The state and the decisions of a proposer's tick that concern elections.
pub struct TickView<P> {
    pub max_ballot: Ballot,
    pub ballot: Ballot,
    pub p1bs: Seq<(Ballot, (MemberId<Acceptor>, (Option<usize>, HashMap<usize, LogValue<P>>)))>,
    pub is_leader: bool,
    pub logs: Seq<(Option<usize>, Map<usize, LogValue<P>>)>,
}

/// What a tick decides about elections: the greatest ballot received, the
/// proposer's own ballot, the replies kept, whether it leads, and the logs that it
/// has to take over.
pub open spec fn tick_view<P>(
    v: TickView<P>,
    self_id: MemberId<Proposer>,
    before: ElectionState<HashMap<usize, LogValue<P>>>,
    input: ProposerInput<P>,
    f: usize,
) -> bool {
    let current = Ballot { num: before.ballot_num, proposer_id: self_id };
    &&& is_greatest(v.max_ballot, before.received_max_ballot, input.ballots())
    &&& v.ballot.proposer_id == self_id
    &&& v.ballot.num == (if current.lt_spec(v.max_ballot) {
        v.max_ballot.num + 1
    } else {
        before.ballot_num as int
    })
    &&& v.p1bs == keep_replies(before.p1bs@, input.p1bs@, (f + 1) as nat)
    &&& v.is_leader == is_max_quorum(v.p1bs, v.ballot, (f + 1) as nat)
    &&& v.logs == (if v.is_leader {
        reported(replies_for(v.p1bs, v.ballot))
    } else {
        Seq::empty()
    })
}

/// Whether a proposer can take the tick: no ballot and no slot number runs out.
pub open spec fn proposer_tick_ok<P>(
    self_id: MemberId<Proposer>,
    config: PaxosConfig,
    before: ProposerState<P>,
    input: ProposerInput<P>,
) -> bool {
    &&& 2 * config.f + 1 <= usize::MAX
    &&& forall|m: Ballot| #[trigger]
        is_greatest(m, before.election.received_max_ballot, input.ballots()) && (Ballot {
            num: before.election.ballot_num,
            proposer_id: self_id,
        }).lt_spec(m) ==> m.num < u32::MAX
    &&& forall|v: TickView<P>| #[trigger]
        tick_view(v, self_id, before.election, input, config.f) && v.is_leader ==> can_recommit(
            v.logs,
        ) && base_slot(
            start_after(
                takes_over_now(v.is_leader, before.sequencer.taken_over, v.ballot),
                v.logs,
            ),
            before.sequencer.next_slot,
        ) + input.payloads@.len() <= usize::MAX
}

/// Whether a proposer goes from one state to another in a tick and does this, where `v` is
/// what it decides about elections and `to_send` are its proposals.
pub open spec fn tick_does<P>(
    self_id: MemberId<Proposer>,
    f: usize,
    before: ProposerState<P>,
    input: ProposerInput<P>,
    after: ProposerState<P>,
    out: ProposerOutput<P>,
    v: TickView<P>,
    to_send: Seq<((usize, Ballot), Option<P>)>,
) -> bool {
    let takes_over = takes_over_now(v.is_leader, before.sequencer.taken_over, v.ballot);
    let base = base_slot(start_after(takes_over, v.logs), before.sequencer.next_slot);
    let quorums = completed(
        before.sequencer.acks.pending@,
        outcomes(input.p2bs@),
        (f + 1) as nat,
        (2 * f + 1) as nat,
    );
    &&& tick_view(v, self_id, before.election, input, f)
    &&& after.election.received_max_ballot == v.max_ballot
    &&& after.election.ballot_num == v.ballot.num
    &&& after.election.p1bs@ == v.p1bs
    &&& after.was_leader == v.is_leader
    &&& is_tick_proposals(
        to_send,
        v.is_leader,
        base,
        input.payloads@,
        v.logs,
        v.ballot,
        f,
    )
    &&& after.sequencer.next_slot == base + if v.is_leader {
        input.payloads@.len()
    } else {
        0
    }
    &&& after.sequencer.taken_over == if takes_over {
        Some(v.ballot)
    } else {
        before.sequencer.taken_over
    }
    &&& after.sequencer.acks.pending@ == record_all(
        before.sequencer.acks.pending@,
        outcomes(input.p2bs@),
        (2 * f + 1) as nat,
    )
    &&& after.sequencer.pending@ == unanswered(before.sequencer.pending@ + to_send, quorums)
    &&& out.p2as@ == requests(to_send, self_id)
    &&& out.committed@ == committed(answered(before.sequencer.pending@ + to_send, quorums))
    &&& out.elected == (if v.is_leader && !before.was_leader {
        Some(v.ballot)
    } else {
        None
    })
    &&& out.heartbeat == (if v.is_leader {
        Some(v.ballot)
    } else {
        None
    })
    &&& out.p1a == (if input.leader_expired && !v.is_leader && input.check_due {
        Some(v.ballot)
    } else {
        None
    })
}

/// Whether a proposer goes from one state to another in a tick, and does this.
pub open spec fn is_proposer_tick<P>(
    self_id: MemberId<Proposer>,
    config: PaxosConfig,
    before: ProposerState<P>,
    input: ProposerInput<P>,
    after: ProposerState<P>,
    out: ProposerOutput<P>,
) -> bool {
    exists|v: TickView<P>, to_send: Seq<((usize, Ballot), Option<P>)>| #[trigger]
        tick_does(self_id, config.f, before, input, after, out, v, to_send)
}

/// A proposer tells that it was elected in the ticks in which it starts to lead, and in no
/// others, and sends heartbeats as long as it leads.
pub proof fn law_elected_when_it_starts_to_lead<P>(
    self_id: MemberId<Proposer>,
    config: PaxosConfig,
    states: Seq<ProposerState<P>>,
    inputs: Seq<ProposerInput<P>>,
    outs: Seq<ProposerOutput<P>>,
)
    requires
        states.len() == outs.len() + 1,
        inputs.len() == outs.len(),
        !states[0].was_leader,
        forall|i: int|
            0 <= i < outs.len() ==> is_proposer_tick(
                self_id,
                config,
                states[i],
                inputs[i],
                states[i + 1],
                #[trigger] outs[i],
            ),
    ensures
        forall|i: int|
            0 <= i < outs.len() ==> ((#[trigger] outs[i]).elected is Some <==> outs[i].heartbeat
                is Some && (i == 0 || outs[i - 1].heartbeat is None)),
        forall|i: int|
            0 <= i < outs.len() && (#[trigger] outs[i]).elected is Some ==> outs[i].elected
                == outs[i].heartbeat,
{
    assert forall|i: int| 0 <= i < outs.len() implies {
        &&& (#[trigger] outs[i]).elected is Some <==> outs[i].heartbeat is Some && (i == 0
            || outs[i - 1].heartbeat is None)
        &&& outs[i].elected is Some ==> outs[i].elected == outs[i].heartbeat
    } by {
        assert(is_proposer_tick(self_id, config, states[i], inputs[i], states[i + 1], outs[i]));
        if i > 0 {
            assert(is_proposer_tick(
                self_id,
                config,
                states[i - 1],
                inputs[i - 1],
                states[i - 1 + 1],
                outs[i - 1],
            ));
        }
    }
}

/// One tick of a proposer, which works with the acceptors to put the payloads that
/// it gets into the log.
///
/// A payload is dropped if the proposer is not the leader. Whatever is committed
/// was proposed by this proposer and has been confirmed by more than `f` acceptors.
pub fn paxos_core<P: PaxosPayload>(
    self_id: MemberId<Proposer>,
    config: PaxosConfig,
    state: &mut ProposerState<P>,
    input: ProposerInput<P>,
) -> (out: ProposerOutput<P>)
    requires
        proposer_tick_ok(self_id, config, *old(state), input),
    ensures
        is_proposer_tick(self_id, config, *old(state), input, *final(state), out),
{
    let f: usize = config.f;
    let ghost before = state.election;
    let ghost input0 = input;
    let p2b_ballots = collect_refusals(&input.p2bs);
    let election_input = ElectionInput {
        p1bs: input.p1bs,
        p2b_ballots,
        i_am_leader: input.i_am_leader,
        leader_expired: input.leader_expired,
        check_due: input.check_due,
    };
    proof {
        assert(election_input.ballots() == input0.ballots());
    }
    let elected = leader_election(self_id, &mut state.election, election_input, f + 1);
    let ghost v = TickView::<P> {
        max_ballot: state.election.received_max_ballot,
        ballot: elected.ballot,
        p1bs: state.election.p1bs@,
        is_leader: elected.is_leader,
        logs: contents(elected.accepted@),
    };
    proof {
        assert(contents(elected.accepted@) =~= reports(elected.accepted@));
        assert(tick_view(v, self_id, before, input0, f));
    }
    let (to_send, to_replicas, _fails) = sequence_payload(
        &mut state.sequencer,
        input.payloads,
        elected.ballot,
        elected.is_leader,
        &elected.accepted,
        f,
        &input.p2bs,
    );
    let just_became_leader = elected.is_leader && !state.was_leader;
    state.was_leader = elected.is_leader;
    let mut p2as: Vec<P2a<P, Proposer>> = Vec::new();
    for i in 0..to_send.len()
        invariant
            p2as@ == requests(to_send@.take(i as int), self_id),
    {
        proof {
            crate::seqs::lemma_take_next(to_send@, i as int);
        }
        p2as.push(
            P2a {
                sender: self_id,
                ballot: to_send[i].0.1,
                slot: to_send[i].0.0,
                value: to_send[i].1.dup(),
            },
        );
        assert(p2as@ =~= requests(to_send@.take(i + 1), self_id));
    }
    assert(to_send@.take(to_send.len() as int) =~= to_send@);
    let out = ProposerOutput {
        elected: if just_became_leader {
            Some(elected.ballot)
        } else {
            None
        },
        committed: to_replicas,
        heartbeat: elected.heartbeat,
        p1a: elected.p1a,
        p2as,
    };
    assert(tick_does(self_id, f, *old(state), input0, *state, out, v, to_send@));
    out
}

/// The two clusters of the protocol, and its settings.
pub struct CorePaxos {
    pub proposers: Cluster<Proposer>,
    pub acceptors: Cluster<Acceptor>,
    pub paxos_config: PaxosConfig,
}

impl CorePaxos {
    /// The cluster to which clients send their payloads.
    pub fn payload_recipients(&self) -> (r: &Cluster<Proposer>)
        ensures
            *r == self.proposers,
    {
        &self.proposers
    }

    /// The cluster that keeps the log.
    pub fn log_stores(&self) -> (r: &Cluster<Acceptor>)
        ensures
            *r == self.acceptors,
    {
        &self.acceptors
    }

    /// The proposer to send payloads to while a ballot is the latest one.
    pub fn get_recipient_from_ballot<L: DynLocation>(ballot: Optional<Ballot, L, Unbounded>) -> (r:
        Optional<MemberId<Proposer>, L, Unbounded>)
        requires
            ballot.wf(),
        ensures
            r.wf(),
            r.location == ballot.location,
            is_map_node(
                r.ir_node,
                ballot.location.id_spec(),
                Optional::<MemberId<Proposer>, L, Unbounded>::kind_spec(),
                "|ballot| ballot.proposer_id"@,
                ballot.ir_node,
            ),
            is_mapped_trace(
                ballot.trace@,
                r.trace@,
                |b: Option<Ballot>, id: Option<MemberId<Proposer>>| id == (match b {
                    Some(b) => Some(b.proposer_id),
                    None => None,
                }),
            ),
    {
        let ghost t = ballot.trace@;
        let id = |ballot: Ballot| -> (r: MemberId<Proposer>)
            ensures
                r == ballot.proposer_id,
            { ballot.proposer_id };
        let r = ballot.map(Quoted::new("|ballot| ballot.proposer_id", id));
        proof {
            assert forall|i: int, j: int| 0 <= i < t.len() && 0 <= j < t[i].len() implies (
            #[trigger] r.trace@[i][j]) == (match t[i][j] {
                Some(b) => Some(b.proposer_id),
                None => None::<MemberId<Proposer>>,
            }) by {
                assert(maps_option(id, t[i][j], r.trace@[i][j]));
            }
        }
        r
    }

    /// One tick of a proposer with these settings. What is committed goes to the replicas.
    pub fn build<P: PaxosPayload>(
        &self,
        self_id: MemberId<Proposer>,
        state: &mut ProposerState<P>,
        input: ProposerInput<P>,
    ) -> (out: ProposerOutput<P>)
        requires
            proposer_tick_ok(self_id, self.paxos_config, *old(state), input),
        ensures
            is_proposer_tick(self_id, self.paxos_config, *old(state), input, *final(state), out),
    {
        paxos_core(self_id, self.paxos_config, state, input)
    }
}

} // verus!
