use std::collections::HashMap;

use hydro::compile::builder::FlowBuilder;
use hydro::live_collections::stream::{ExactlyOnce, TotalOrder};
use hydro::live_collections::Quoted;
use hydro::location::{Cluster, Location, MemberId, Process};
use hydro::nondet::NonDet;
use hydro::paxos::members::{AcceptorState, ProposerInput, ProposerOutput, ProposerState};
use hydro::paxos::proposer::leader_check_delay;
use hydro::paxos::{
    acceptor_core, acceptor_p1, acceptor_p2, index_payloads, p_ballot_calc, p_leader_heartbeat,
    paxos_core, recommit_after_leader_election, Acceptor, Ballot, CorePaxos, LogValue, P2a,
    PaxosConfig, Proposer,
};
use hydro::trace::Trace;

fn all_choices(len: usize, below: usize) -> Vec<Vec<usize>> {
    let mut all = vec![Vec::new()];
    for _ in 0..len {
        let mut longer = Vec::new();
        for prefix in &all {
            for c in 0..below {
                let mut next: Vec<usize> = prefix.clone();
                next.push(c);
                longer.push(next);
            }
        }
        all = longer;
    }
    all
}

fn ballot(num: u32, id: u32) -> Ballot {
    Ballot { num, proposer_id: MemberId::from_raw_id(id) }
}

/// Payloads that are batched under all choices.
fn all_batches() -> Vec<Vec<Vec<i32>>> {
    let mut all = Vec::new();
    for choices in all_choices(3, 5) {
        let mut flow = FlowBuilder::new(4);
        let node: Process<()> = flow.process();
        let tick = node.tick(&mut flow);
        let arrivals = Trace { rounds: vec![vec![1, 2, 3, 4], vec![], vec![], vec![]] };
        let input = node.sim_input::<i32, TotalOrder, ExactlyOnce>(&mut flow, "i32", arrivals).1;
        all.push(input.batch(&tick, NonDet::new(choices)).trace.rounds);
    }
    all
}

#[test]
fn proposer_indexes_payloads() {
    for batches in all_batches() {
        let mut next_slot = 0;
        let mut out = Vec::new();
        for batch in batches {
            out.extend(index_payloads(&mut next_slot, None, batch));
        }
        assert_eq!(out, vec![(0, 1), (1, 2), (2, 3), (3, 4)]);
    }
}

#[test]
fn proposer_indexes_payloads_jumps_on_new_max() {
    for batches in all_batches() {
        for release in 0..batches.len() {
            let mut next_slot = 0;
            let mut out = Vec::new();
            for (i, batch) in batches.iter().enumerate() {
                let new_base = if i == release { Some(123) } else { None };
                out.extend(index_payloads(&mut next_slot, new_base, batch.clone()));
            }
            let mut next_expected = 0;
            assert_eq!(out.len(), 4);
            for i in 1..=4 {
                let (next_slot, v) = out[i as usize - 1];
                assert_eq!(v, i);
                if next_expected < 123 {
                    assert!(next_slot == next_expected || next_slot == 124);
                } else {
                    assert!(next_slot == next_expected);
                }
                next_expected = next_slot + 1;
            }
        }
    }
}

#[test]
fn ballots_are_ordered_by_number_then_proposer() {
    assert!(ballot(1, 9) < ballot(2, 0));
    assert!(ballot(2, 0) < ballot(2, 1));
    assert!(ballot(2, 1) == ballot(2, 1));
    assert!(ballot(3, 0) > ballot(2, 7));
}

#[test]
fn a_larger_ballot_is_outbid() {
    let me: MemberId<Proposer> = MemberId::from_raw_id(1);
    let mut num = 0;
    let (mine, largest) = p_ballot_calc(me, &mut num, ballot(4, 2));
    assert!(mine == ballot(5, 1) && largest && num == 5);
    let (same, _) = p_ballot_calc(me, &mut num, ballot(5, 0));
    assert!(same == ballot(5, 1));
    let (higher, _) = p_ballot_calc(me, &mut num, ballot(5, 2));
    assert!(higher == ballot(6, 1));
}

#[test]
fn heartbeats_and_elections() {
    let b = ballot(1, 1);
    assert!(p_leader_heartbeat(true, b, true, true) == (Some(b), false));
    assert!(p_leader_heartbeat(false, b, true, true) == (None, true));
    assert!(p_leader_heartbeat(false, b, false, true) == (None, false));
    assert!(p_leader_heartbeat(false, b, true, false) == (None, false));
    let config = PaxosConfig {
        f: 1,
        i_am_leader_send_timeout: 5,
        i_am_leader_check_timeout: 10,
        i_am_leader_check_timeout_delay_multiplier: 15,
    };
    assert_eq!(leader_check_delay(MemberId::from_raw_id(3), config), 45);
}

#[test]
fn acceptors_follow_the_largest_ballot() {
    let log: (Option<usize>, HashMap<usize, LogValue<i32>>) = (None, HashMap::new());
    let (max, replies) =
        acceptor_p1(ballot(2, 0), &vec![ballot(1, 1), ballot(3, 1), ballot(2, 2)], &log);
    assert!(max == ballot(3, 1));
    assert!(matches!(replies[0].1 .1, Err(b) if b == ballot(3, 1)));
    assert!(replies[1].1 .1.is_ok());
    assert!(matches!(replies[2].1 .1, Err(b) if b == ballot(3, 1)));
    assert_eq!(replies[2].0.get_raw_id(), 2);
}

#[test]
fn acceptors_place_values_and_forget_before_the_checkpoint() {
    let request = |num: u32, slot: usize, value: i32| P2a {
        sender: MemberId::<Proposer>::from_raw_id(0),
        ballot: ballot(num, 0),
        slot,
        value: Some(value),
    };
    let mut log: (Option<usize>, HashMap<usize, LogValue<i32>>) = (None, HashMap::new());
    let replies = acceptor_p2(
        &mut log,
        ballot(2, 0),
        vec![request(2, 0, 10), request(1, 1, 11), request(2, 2, 12)],
        None,
    );
    assert!(replies[0].1 .1.is_ok());
    assert!(matches!(replies[1].1 .1, Err(b) if b == ballot(2, 0)));
    assert!(replies[2].1 .1.is_ok());
    let mut slots: Vec<usize> = log.1.keys().copied().collect();
    slots.sort();
    assert_eq!(slots, vec![0, 2]);
    acceptor_p2(&mut log, ballot(3, 0), vec![request(3, 2, 22)], Some(1));
    assert_eq!(log.0, Some(1));
    assert_eq!(log.1.len(), 1);
    assert_eq!(log.1[&2].value, Some(22));
}

#[test]
fn a_new_leader_takes_over_what_it_finds() {
    let entry = |num: u32, value: i32| LogValue { ballot: ballot(num, 0), value: Some(value) };
    let mut first = HashMap::new();
    first.insert(0, entry(1, 10));
    first.insert(1, entry(1, 11));
    first.insert(4, entry(1, 14));
    let mut second = HashMap::new();
    second.insert(1, entry(2, 21));
    let (proposals, max_slot) = recommit_after_leader_election(
        &vec![(Some(0), first), (None, second)],
        ballot(3, 1),
        1,
    );
    assert_eq!(max_slot, Some(4));
    let mut seen: Vec<(usize, Option<i32>)> = proposals.iter().map(|p| (p.0 .0, p.1)).collect();
    seen.sort();
    // slot 0 is checkpointed, slot 1 has the value of the larger ballot, 2 and 3 are holes
    assert_eq!(seen, vec![(1, Some(21)), (2, None), (3, None), (4, Some(14))]);
    assert!(proposals.iter().all(|p| p.0 .1 == ballot(3, 1)));
}

fn idle() -> ProposerInput<i32> {
    ProposerInput {
        payloads: vec![],
        p1bs: vec![],
        p2bs: vec![],
        i_am_leader: vec![],
        leader_expired: false,
        check_due: false,
    }
}

/// Lets all acceptors take the requests of a proposer and collects their answers.
fn ask(
    acceptors: &mut Vec<AcceptorState<i32>>,
    out: ProposerOutput<i32>,
    reached: usize,
) -> ProposerInput<i32> {
    let mut answers = idle();
    let p1as: Vec<Ballot> = out.p1a.into_iter().collect();
    for (i, acceptor) in acceptors.iter_mut().take(reached).enumerate() {
        let id = MemberId::from_raw_id(i as u32);
        let p2as = out
            .p2as
            .iter()
            .map(|p| P2a { sender: p.sender, ballot: p.ballot, slot: p.slot, value: p.value })
            .collect();
        let checkpoint = acceptor.log.0;
        let (p1bs, p2bs) = acceptor_core(acceptor, &p1as, p2as, checkpoint);
        answers.p1bs.extend(p1bs.into_iter().map(|r| (id, r.1)));
        answers.p2bs.extend(p2bs.into_iter().map(|r| (id, r.1)));
    }
    answers
}

#[test]
fn two_leaders_agree() {
    let config = PaxosConfig {
        f: 1,
        i_am_leader_send_timeout: 1,
        i_am_leader_check_timeout: 1,
        i_am_leader_check_timeout_delay_multiplier: 1,
    };
    let mut acceptors = vec![AcceptorState::new(), AcceptorState::new(), AcceptorState::new()];

    // the first proposer is elected
    let one = MemberId::from_raw_id(0);
    let mut first = ProposerState::new();
    let mut input = idle();
    input.leader_expired = true;
    input.check_due = true;
    let out = paxos_core(one, config, &mut first, input);
    assert!(out.p1a == Some(ballot(0, 0)) && out.elected.is_none());
    let mut input = ask(&mut acceptors, out, 3);
    input.payloads = vec![7];
    let out = paxos_core(one, config, &mut first, input);
    assert!(out.elected == Some(ballot(0, 0)) && out.heartbeat == Some(ballot(0, 0)));
    assert_eq!(out.p2as.len(), 1);

    // only two acceptors take its payload, which is enough
    let input = ask(&mut acceptors, out, 2);
    let out = paxos_core(one, config, &mut first, input);
    assert_eq!(out.committed, vec![(0, Some(7))]);
    assert!(out.elected.is_none());

    // the second proposer outbids it, and takes over the committed value
    let two = MemberId::from_raw_id(1);
    let mut second = ProposerState::new();
    let mut input = idle();
    input.leader_expired = true;
    input.check_due = true;
    let out = paxos_core(two, config, &mut second, input);
    assert!(out.p1a == Some(ballot(0, 1)));
    let mut input = ask(&mut acceptors, out, 3);
    input.payloads = vec![8];
    let out = paxos_core(two, config, &mut second, input);
    assert!(out.elected == Some(ballot(0, 1)));
    let fresh: Vec<(usize, Option<i32>)> =
        out.p2as.iter().map(|p| (p.slot, p.value)).filter(|p| p.1 == Some(8)).collect();
    assert_eq!(fresh, vec![(1, Some(8))]);
    let input = ask(&mut acceptors, out, 3);
    let out = paxos_core(two, config, &mut second, input);
    assert!(out.committed.contains(&(1, Some(8))));
    assert!(out.committed.iter().all(|c| c.0 != 0 || c.1 == Some(7)));

    // it goes on with new slots; what it has found is known as committed
    let mut input = idle();
    input.payloads = vec![10, 11];
    let out = paxos_core(two, config, &mut second, input);
    let proposed: Vec<(usize, Option<i32>)> = out.p2as.iter().map(|p| (p.slot, p.value)).collect();
    assert_eq!(proposed, vec![(2, Some(10)), (3, Some(11))]);
    let input = ask(&mut acceptors, out, 3);
    let out = paxos_core(two, config, &mut second, input);
    assert_eq!(out.committed, vec![(2, Some(10)), (3, Some(11))]);
    assert!(out.elected.is_none() && out.heartbeat == Some(ballot(0, 1)));

    // the first one learns that it was outbid
    let mut input = idle();
    input.payloads = vec![9];
    let out = paxos_core(one, config, &mut first, input);
    let input = ask(&mut acceptors, out, 3);
    let out = paxos_core(one, config, &mut first, input);
    assert!(out.heartbeat.is_none() && out.committed.is_empty());
}

/// A proposer that was elected by the acceptors, and the first thing that it does.
fn elected_by(
    acceptors: &mut Vec<AcceptorState<i32>>,
    payloads: Vec<i32>,
) -> (ProposerState<i32>, ProposerOutput<i32>) {
    let me = MemberId::from_raw_id(7);
    let mut state = ProposerState::new();
    let mut input = idle();
    input.leader_expired = true;
    input.check_due = true;
    let out = paxos_core(me, one_fault(), &mut state, input);
    let mut input = ask(acceptors, out, 3);
    input.payloads = payloads;
    let out = paxos_core(me, one_fault(), &mut state, input);
    assert!(out.elected.is_some());
    (state, out)
}

fn one_fault() -> PaxosConfig {
    PaxosConfig {
        f: 1,
        i_am_leader_send_timeout: 1,
        i_am_leader_check_timeout: 1,
        i_am_leader_check_timeout_delay_multiplier: 1,
    }
}

#[test]
fn an_acceptor_counts_once() {
    let me = MemberId::from_raw_id(7);
    let acceptor = |i: u32| MemberId::from_raw_id(i);
    let mut state: ProposerState<i32> = ProposerState::new();
    let promise = || (ballot(0, 7), Ok((None, HashMap::new())));
    let mut input = idle();
    input.p1bs = vec![(acceptor(0), promise()), (acceptor(0), promise())];
    let out = paxos_core(me, one_fault(), &mut state, input);
    assert!(out.elected.is_none() && out.heartbeat.is_none());
    let mut input = idle();
    input.p1bs = vec![(acceptor(1), promise())];
    input.payloads = vec![5];
    let out = paxos_core(me, one_fault(), &mut state, input);
    assert!(out.elected == Some(ballot(0, 7)));
    assert_eq!(out.p2as.len(), 1);

    let confirm = || ((0, ballot(0, 7)), Ok(()));
    let mut input = idle();
    input.p2bs = vec![(acceptor(2), confirm()), (acceptor(2), confirm())];
    let out = paxos_core(me, one_fault(), &mut state, input);
    assert!(out.committed.is_empty());
    let mut input = idle();
    input.p2bs = vec![(acceptor(0), confirm())];
    let out = paxos_core(me, one_fault(), &mut state, input);
    assert_eq!(out.committed, vec![(0, Some(5))]);
}

#[test]
fn a_leader_starts_after_every_checkpoint() {
    let mut acceptors: Vec<AcceptorState<i32>> =
        vec![AcceptorState::new(), AcceptorState::new(), AcceptorState::new()];
    acceptor_core(&mut acceptors[1], &vec![], vec![], Some(9));
    acceptor_core(&mut acceptors[0], &vec![], vec![], Some(4));
    let (mut state, out) = elected_by(&mut acceptors, vec![1]);
    let proposed: Vec<(usize, Option<i32>)> = out.p2as.iter().map(|p| (p.slot, p.value)).collect();
    assert_eq!(proposed, vec![(10, Some(1))]);
    let mut input = idle();
    input.payloads = vec![2];
    let out = paxos_core(MemberId::from_raw_id(7), one_fault(), &mut state, input);
    assert_eq!(out.p2as[0].slot, 11);
}

#[test]
fn a_leader_proposes_again_until_it_steps_down() {
    let mut acceptors: Vec<AcceptorState<i32>> =
        vec![AcceptorState::new(), AcceptorState::new(), AcceptorState::new()];
    let request = P2a {
        sender: MemberId::<Proposer>::from_raw_id(0),
        ballot: ballot(0, 0),
        slot: 1,
        value: Some(5),
    };
    acceptor_core(&mut acceptors[0], &vec![], vec![request], None);
    let (mut state, out) = elected_by(&mut acceptors, vec![8]);
    let slots = |out: &ProposerOutput<i32>| {
        let mut all: Vec<(usize, Option<i32>)> = out.p2as.iter().map(|p| (p.slot, p.value)).collect();
        all.sort();
        all
    };
    assert_eq!(slots(&out), vec![(0, None), (1, Some(5)), (2, Some(8))]);
    let mut input = ask(&mut acceptors, out, 2);
    input.payloads = vec![9];
    let out = paxos_core(MemberId::from_raw_id(7), one_fault(), &mut state, input);
    assert_eq!(slots(&out), vec![(0, None), (1, Some(5)), (3, Some(9))]);
    assert!(out.committed.contains(&(0, None)) && out.committed.contains(&(1, Some(5))));
    let mut input = idle();
    input.i_am_leader = vec![ballot(9, 9)];
    let out = paxos_core(MemberId::from_raw_id(7), one_fault(), &mut state, input);
    assert!(out.p2as.is_empty());
}

#[test]
fn a_log_is_reported_with_the_checkpoint_of_the_tick() {
    let request = |slot: usize, value: i32| P2a {
        sender: MemberId::<Proposer>::from_raw_id(0),
        ballot: ballot(1, 0),
        slot,
        value: Some(value),
    };
    let mut state: AcceptorState<i32> = AcceptorState::new();
    let placed = vec![request(4, 40), request(8, 80)];
    let (_, p2bs) = acceptor_core(&mut state, &vec![ballot(1, 0)], placed, None);
    assert!(p2bs.iter().all(|b| b.1 .1.is_ok()));
    acceptor_core(&mut state, &vec![], vec![], Some(6));
    assert_eq!(state.log.0, Some(6));
    assert!(!state.log.1.contains_key(&4));
    acceptor_core(&mut state, &vec![], vec![], Some(3));
    assert_eq!(state.log.0, Some(3));
    // what lies behind the checkpoint stays until a higher ballot replaces it
    let (p1bs, _) =
        acceptor_core(&mut state, &vec![ballot(2, 0)], vec![request(8, 81)], Some(7));
    let (checkpoint, log) = p1bs[0].1 .1.as_ref().unwrap();
    assert_eq!(*checkpoint, Some(7));
    assert_eq!(log[&8].value, Some(80));
}

#[test]
fn the_order_of_logs_does_not_matter() {
    let log = |num: u32, value: i32| {
        let mut log = HashMap::new();
        log.insert(0, LogValue { ballot: ballot(num, 0), value: Some(value) });
        (None, log)
    };
    let orders = [[0, 1, 2], [0, 2, 1], [1, 0, 2], [1, 2, 0], [2, 0, 1], [2, 1, 0]];
    for order in orders {
        let logs = order
            .iter()
            .map(|i| match *i {
                0 => log(1, 10),
                1 => log(2, 20),
                _ => log(3, 10),
            })
            .collect();
        // two logs agree on the value of the highest ballot, which is enough
        let (proposals, max_slot) = recommit_after_leader_election(&logs, ballot(4, 1), 1);
        assert!(proposals.is_empty());
        assert_eq!(max_slot, Some(0));
        // it is not enough if there can be two faults
        let (proposals, _) = recommit_after_leader_election(&logs, ballot(4, 1), 2);
        assert_eq!(proposals.iter().map(|p| p.1).collect::<Vec<_>>(), vec![Some(10)]);
    }
}

#[test]
fn the_two_clusters() {
    let mut flow = FlowBuilder::new(1);
    let proposers: Cluster<Proposer> = flow.cluster();
    let acceptors: Cluster<Acceptor> = flow.cluster();
    let paxos = CorePaxos {
        proposers,
        acceptors,
        paxos_config: PaxosConfig {
            f: 0,
            i_am_leader_send_timeout: 1,
            i_am_leader_check_timeout: 1,
            i_am_leader_check_timeout_delay_multiplier: 1,
        },
    };
    assert_eq!(paxos.payload_recipients().key.to_text(), "loc1v1");
    assert_eq!(paxos.log_stores().key.to_text(), "loc2v1");
    let node: Process<()> = flow.process();
    let tick = node.tick(&mut flow);
    let latest = tick.singleton(Quoted::new("b", ballot(4, 3))).latest().into_optional();
    let recipient = CorePaxos::get_recipient_from_ballot(latest);
    assert_eq!(recipient.trace.rounds[0][0].unwrap().get_raw_id(), 3);
    let mut state: ProposerState<i32> = ProposerState::new();
    let mut input = idle();
    input.leader_expired = true;
    input.check_due = true;
    let out = paxos.build(MemberId::from_raw_id(2), &mut state, input);
    assert!(out.p1a == Some(ballot(0, 2)));
}
