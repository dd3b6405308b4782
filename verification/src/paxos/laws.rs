//! What the protocol's steps do, told by what goes in and what comes out.
use super::acceptor::{from_checkpoint, law_place_all, p2b_spec, place_all, P2a};
use super::ballot::{Acceptor, Ballot, PaxosConfig, Proposer};
use super::log::LogValue;
use super::members::{
    is_acceptor_tick, is_proposer_tick, requests, tick_does, AcceptorState, ProposerInput,
    ProposerOutput, ProposerState, TickView,
};
use super::proposer::{
    is_followed, keep_replies, law_max_quorum, law_refusals, law_replies_for, refusals, replies_for,
    reported,
};
use super::recommit::{
    count_value, highest, is_after, is_proposed, is_recommitment, lemma_has_max_slot,
    lemma_tally_is_highest, lemma_tally_some, max_checkpoint, max_slot,
};
use super::sequence::{committed, fresh_proposals, is_tick_proposals, last_taken};
use crate::location::member_id::MemberId;
use crate::quorum::{completed, law_quorums_in_goes, outcomes, record_all};
use crate::request_response::{answered, law_each_request_is_answered_or_open, unanswered};
use crate::trace::laws::lemma_flatten_next;
use std::collections::HashMap;
use vstd::prelude::*;

verus! {

/// The greatest checkpoint is one of those that were reported, and no other one is greater. There
/// is none only if none was reported.
pub proof fn law_greatest_checkpoint<P>(logs: Seq<(Option<usize>, Map<usize, LogValue<P>>)>)
    ensures
        match max_checkpoint(logs) {
            Some(c) => {
                &&& exists|i: int| 0 <= i < logs.len() && (#[trigger] logs[i]).0 == Some(c)
                &&& forall|i: int|
                    0 <= i < logs.len() ==> ((#[trigger] logs[i]).0 matches Some(d) ==> d <= c)
            },
            None => forall|i: int| 0 <= i < logs.len() ==> (#[trigger] logs[i]).0 is None,
        },
    decreases logs.len(),
{
    if logs.len() > 0 {
        let rest = logs.drop_last();
        let n = logs.len() - 1;
        law_greatest_checkpoint(rest);
        assert forall|i: int| 0 <= i < n implies #[trigger] logs[i] == rest[i] by {}
        if let Some(c) = max_checkpoint(logs) {
            if logs[n].0 != Some(c) {
                let i = choose|i: int| 0 <= i < rest.len() && (#[trigger] rest[i]).0 == Some(c);
                assert(logs[i].0 == Some(c));
            }
        }
    }
}

/// The logs that hold a value in a slot are counted one by one.
pub proof fn law_count_value<P>(
    logs: Seq<(Option<usize>, Map<usize, LogValue<P>>)>,
    slot: usize,
    value: Option<P>,
)
    ensures
        count_value(logs, slot, value) == logs.filter(
            |l: (Option<usize>, Map<usize, LogValue<P>>)|
                l.1.contains_key(slot) && l.1[slot].value == value,
        ).len(),
    decreases logs.len(),
{
    reveal(Seq::filter);
    if logs.len() > 0 {
        law_count_value(logs.drop_last(), slot, value);
    }
}

/// Of the entries for a slot, the one with the highest ballot counts, and the first of those if
/// there are several.
proof fn lemma_first_highest<P>(
    logs: Seq<(Option<usize>, Map<usize, LogValue<P>>)>,
    slot: usize,
    i: int,
)
    requires
        0 <= i < logs.len(),
        logs[i].1.contains_key(slot),
        forall|j: int|
            0 <= j < logs.len() && (#[trigger] logs[j]).1.contains_key(slot)
                ==> logs[j].1[slot].ballot.lt_spec(logs[i].1[slot].ballot) || (logs[j].1[slot].ballot
                == logs[i].1[slot].ballot && i <= j),
    ensures
        highest(logs, slot) == Some(logs[i].1[slot]),
    decreases logs.len(),
{
    let rest = logs.drop_last();
    let n = logs.len() - 1;
    assert forall|j: int| 0 <= j < n implies #[trigger] rest[j] == logs[j] by {}
    if i < n {
        lemma_first_highest(rest, slot, i);
    } else {
        lemma_tally_is_highest(rest, slot);
        if let Some(kept) = highest(rest, slot) {
            let j = choose|j: int|
                0 <= j < rest.len() && (#[trigger] rest[j]).1.contains_key(slot)
                    && rest[j].1[slot] == kept;
            assert(logs[j].1.contains_key(slot));
        }
    }
}

/// What a new leader does about a slot that is in some log: take the entry with the highest
/// ballot. If at most `f` logs hold its value and no checkpoint has reached the slot, the leader
/// proposes that value again, under its own ballot; otherwise it leaves the slot alone.
pub proof fn law_entry_is_proposed_again<P>(
    logs: Seq<(Option<usize>, Map<usize, LogValue<P>>)>,
    f: usize,
    p_ballot: Ballot,
    out: Seq<((usize, Ballot), Option<P>)>,
    slot: usize,
    i: int,
)
    requires
        is_recommitment(logs, f, p_ballot, out),
        0 <= i < logs.len(),
        logs[i].1.contains_key(slot),
        forall|j: int|
            0 <= j < logs.len() && (#[trigger] logs[j]).1.contains_key(slot)
                ==> logs[j].1[slot].ballot.lt_spec(logs[i].1[slot].ballot) || (logs[j].1[slot].ballot
                == logs[i].1[slot].ballot && i <= j),
    ensures
        forall|ballot: Ballot, value: Option<P>| #[trigger]
            out.contains(((slot, ballot), value)) <==> {
                &&& ballot == p_ballot
                &&& value == logs[i].1[slot].value
                &&& logs.filter(
                    |l: (Option<usize>, Map<usize, LogValue<P>>)|
                        l.1.contains_key(slot) && l.1[slot].value == logs[i].1[slot].value,
                ).len() <= f
                &&& forall|j: int|
                    0 <= j < logs.len() ==> ((#[trigger] logs[j]).0 matches Some(c) ==> c < slot)
            },
        out.filter(|p: ((usize, Ballot), Option<P>)| p.0.0 == slot).len() <= 1,
{
    lemma_first_highest(logs, slot, i);
    law_count_value(logs, slot, logs[i].1[slot].value);
    law_greatest_checkpoint(logs);
    assert(is_proposed(logs, slot));
    lemma_reached(logs, slot);
    lemma_once(out, slot);
}

proof fn lemma_reached<P>(logs: Seq<(Option<usize>, Map<usize, LogValue<P>>)>, slot: usize)
    ensures
        is_after(max_checkpoint(logs), slot) <==> forall|j: int|
            0 <= j < logs.len() ==> ((#[trigger] logs[j]).0 matches Some(c) ==> c < slot),
{
    law_greatest_checkpoint(logs);
}

proof fn lemma_once<P>(out: Seq<((usize, Ballot), Option<P>)>, slot: usize)
    requires
        forall|i: int, j: int|
            0 <= i < j < out.len() ==> (#[trigger] out[i]).0.0 != (#[trigger] out[j]).0.0,
    ensures
        out.filter(|p: ((usize, Ballot), Option<P>)| p.0.0 == slot).len() <= 1,
        (forall|i: int| 0 <= i < out.len() ==> (#[trigger] out[i]).0.0 != slot) ==> out.filter(
            |p: ((usize, Ballot), Option<P>)| p.0.0 == slot,
        ).len() == 0,
    decreases out.len(),
{
    reveal(Seq::filter);
    if out.len() > 0 {
        let rest = out.drop_last();
        let n = out.len() - 1;
        assert forall|i: int| 0 <= i < n implies #[trigger] rest[i] == out[i] by {}
        lemma_once(rest, slot);
        if out[n].0.0 == slot {
            assert forall|i: int| 0 <= i < rest.len() implies (#[trigger] rest[i]).0.0 != slot by {
                assert(out[i].0.0 != out[n].0.0);
            }
        }
    }
}

/// What a new leader does about a slot that is in no log: it fills the slot with nothing if a
/// later slot is in some log and no checkpoint has reached it; otherwise it leaves it alone.
pub proof fn law_hole_is_filled<P>(
    logs: Seq<(Option<usize>, Map<usize, LogValue<P>>)>,
    f: usize,
    p_ballot: Ballot,
    out: Seq<((usize, Ballot), Option<P>)>,
    slot: usize,
)
    requires
        is_recommitment(logs, f, p_ballot, out),
        forall|i: int| 0 <= i < logs.len() ==> !(#[trigger] logs[i]).1.contains_key(slot),
    ensures
        forall|ballot: Ballot, value: Option<P>| #[trigger]
            out.contains(((slot, ballot), value)) <==> {
                &&& ballot == p_ballot
                &&& value is None
                &&& exists|i: int, m: usize|
                    0 <= i < logs.len() && slot < m && #[trigger] logs[i].1.contains_key(m)
                &&& forall|j: int|
                    0 <= j < logs.len() ==> ((#[trigger] logs[j]).0 matches Some(c) ==> c < slot)
            },
{
    lemma_tally_some(logs, slot);
    lemma_reached(logs, slot);
    assert(!is_proposed(logs, slot));
    if exists|m: usize| slot < m && is_proposed(logs, m) {
        let m = choose|m: usize| slot < m && is_proposed(logs, m);
        let i = choose|i: int| 0 <= i < logs.len() && (#[trigger] logs[i]).1.contains_key(m);
        assert(logs[i].1.contains_key(m));
    }
    if exists|i: int, m: usize|
        0 <= i < logs.len() && slot < m && #[trigger] logs[i].1.contains_key(m) {
        let (i, m) = choose|i: int, m: usize|
            0 <= i < logs.len() && slot < m && #[trigger] logs[i].1.contains_key(m);
        assert(is_proposed(logs, m));
    }
}

/// The last slot that is taken is in some log or at some checkpoint, and every slot of a log and
/// every checkpoint is at most that slot.
pub proof fn law_last_taken<P>(logs: Seq<(Option<usize>, Map<usize, LogValue<P>>)>)
    ensures
        match last_taken(logs) {
            Some(s) => {
                &&& exists|i: int|
                    0 <= i < logs.len() && ((#[trigger] logs[i]).0 == Some(s)
                        || logs[i].1.contains_key(s))
                &&& forall|i: int|
                    0 <= i < logs.len() ==> ((#[trigger] logs[i]).0 matches Some(c) ==> c <= s)
                &&& forall|i: int, t: usize|
                    0 <= i < logs.len() && #[trigger] logs[i].1.contains_key(t) ==> t <= s
            },
            None => forall|i: int|
                0 <= i < logs.len() ==> (#[trigger] logs[i]).0 is None && forall|t: usize|
                    !logs[i].1.contains_key(t),
        },
{
    lemma_has_max_slot(logs);
    law_greatest_checkpoint(logs);
    assert forall|i: int, t: usize|
        0 <= i < logs.len() && #[trigger] logs[i].1.contains_key(t) implies is_proposed(
        logs,
        t,
    ) by {}
    if let Some(s) = max_slot(logs) {
        assert(is_proposed(logs, s));
    }
}

/// A slot keeps its entry unless a request puts another one in its place. Of the requests that are
/// not below `max_ballot` and above the old entry, the one with the highest ballot gets the slot,
/// and the first of those if there are several.
pub proof fn law_placed<P, S>(
    log: Map<usize, LogValue<P>>,
    p2as: Seq<P2a<P, S>>,
    max_ballot: Ballot,
    slot: usize,
)
    ensures
        (forall|i: int|
            0 <= i < p2as.len() && (#[trigger] p2as[i]).slot == slot ==> p2as[i].ballot.lt_spec(
                max_ballot,
            ) || (log.contains_key(slot) && !log[slot].ballot.lt_spec(p2as[i].ballot))) ==> (
        place_all(log, p2as, max_ballot).contains_key(slot) <==> log.contains_key(slot)) && (
        log.contains_key(slot) ==> place_all(log, p2as, max_ballot)[slot] == log[slot]),
        forall|i: int|
            0 <= i < p2as.len() && is_first_highest(p2as, i) && (#[trigger] p2as[i]).slot == slot
                && !p2as[i].ballot.lt_spec(max_ballot) && (log.contains_key(slot)
                ==> log[slot].ballot.lt_spec(p2as[i].ballot)) ==> place_all(
                log,
                p2as,
                max_ballot,
            ).contains_key(slot) && place_all(log, p2as, max_ballot)[slot] == (LogValue {
                ballot: p2as[i].ballot,
                value: p2as[i].value,
            }),
    decreases p2as.len(),
{
    let all = place_all(log, p2as, max_ballot);
    if p2as.len() > 0 {
        let rest = p2as.drop_last();
        let n = p2as.len() - 1;
        let before = place_all(log, rest, max_ballot);
        assert forall|j: int| 0 <= j < n implies #[trigger] rest[j] == p2as[j] by {}
        law_placed(log, rest, max_ballot, slot);
        assert forall|i: int|
            0 <= i < p2as.len() && is_first_highest(p2as, i) && (#[trigger] p2as[i]).slot == slot
                && !p2as[i].ballot.lt_spec(max_ballot) && (log.contains_key(slot)
                ==> log[slot].ballot.lt_spec(p2as[i].ballot)) implies all.contains_key(slot)
            && all[slot] == (LogValue {
            ballot: p2as[i].ballot,
            value: p2as[i].value,
        }) by {
            if i < n {
                assert(is_first_highest(rest, i));
                assert(rest[i].slot == slot);
                if p2as[n].slot == slot {
                    assert(!p2as[i].ballot.lt_spec(p2as[n].ballot));
                }
            } else {
                law_place_all(log, rest, max_ballot);
                if before.contains_key(slot) && !(log.contains_key(slot) && before[slot]
                    == log[slot]) {
                    let j = choose|j: int|
                        0 <= j < rest.len() && (#[trigger] rest[j]).slot == slot
                            && max_ballot.le_spec(rest[j].ballot) && before[slot] == (LogValue {
                            ballot: rest[j].ballot,
                            value: rest[j].value,
                        });
                    assert(p2as[j].slot == slot);
                    assert(p2as[j].ballot.lt_spec(p2as[i].ballot));
                }
            }
        }
    }
}

/// Whether no request for the same slot has a higher ballot, and no earlier one the same.
pub open spec fn is_first_highest<P, S>(p2as: Seq<P2a<P, S>>, i: int) -> bool {
    forall|j: int|
        0 <= j < p2as.len() && (#[trigger] p2as[j]).slot == p2as[i].slot ==> p2as[j].ballot.lt_spec(
            p2as[i].ballot,
        ) || (p2as[j].ballot == p2as[i].ballot && i <= j)
}

/// What an acceptor does in a tick. It follows the highest ballot that it was ever asked to
/// follow. It agrees to a request to lead if no ballot is higher, and reports its log with it; it
/// agrees to a request to fill a slot if the request has the ballot that it follows. To any other
/// request it answers with the ballot that it follows. Each answer goes to who asked. What it
/// agrees to is in its log, unless a checkpoint has passed the slot or a higher ballot has it;
/// entries before the checkpoint are gone, and all others stay.
pub proof fn law_acceptor_tick<P>(
    before: AcceptorState<P>,
    p1as: Seq<Ballot>,
    p2as: Seq<P2a<P, Proposer>>,
    a_checkpoint: Option<usize>,
    after: AcceptorState<P>,
    p1bs: Seq<
        (
            MemberId<Proposer>,
            (Ballot, Result<(Option<usize>, HashMap<usize, LogValue<P>>), Ballot>),
        ),
    >,
    p2bs: Seq<(MemberId<Proposer>, ((usize, Ballot), Result<(), Ballot>))>,
)
    requires
        is_acceptor_tick(before, p1as, p2as, a_checkpoint, after, p1bs, p2bs),
    ensures
        after.max_ballot == before.max_ballot || p1as.contains(after.max_ballot),
        !after.max_ballot.lt_spec(before.max_ballot),
        forall|i: int| 0 <= i < p1as.len() ==> !after.max_ballot.lt_spec(#[trigger] p1as[i]),
        p1bs.len() == p1as.len(),
        forall|i: int|
            0 <= i < p1bs.len() ==> {
                &&& (#[trigger] p1bs[i]).0 == p1as[i].proposer_id
                &&& p1bs[i].1.0 == p1as[i]
                &&& match p1bs[i].1.1 {
                    Ok(l) => p1as[i] == after.max_ballot && l.0 == a_checkpoint && l.1@
                        == after.log.1@,
                    Err(b) => b == after.max_ballot && p1as[i].lt_spec(b),
                }
            },
        p2bs.len() == p2as.len(),
        forall|i: int|
            0 <= i < p2bs.len() ==> {
                &&& (#[trigger] p2bs[i]).0 == p2as[i].sender
                &&& p2bs[i].1.0 == (p2as[i].slot, p2as[i].ballot)
                &&& match p2bs[i].1.1 {
                    Ok(_) => p2as[i].ballot == after.max_ballot,
                    Err(b) => b == after.max_ballot && p2as[i].ballot != b,
                }
            },
        after.log.0 == a_checkpoint,
        forall|s: usize|
            a_checkpoint matches Some(c) && s < c ==> !#[trigger] after.log.1@.contains_key(s),
        forall|i: int|
            0 <= i < p2bs.len() && (#[trigger] p2bs[i]).1.1 is Ok && (a_checkpoint matches Some(c)
                ==> c <= p2as[i].slot) ==> after.log.1@.contains_key(p2as[i].slot)
                && !after.log.1@[p2as[i].slot].ballot.lt_spec(p2as[i].ballot),
        forall|i: int|
            0 <= i < p2as.len() && is_first_highest(p2as, i) && !(
            #[trigger] p2as[i]).ballot.lt_spec(after.max_ballot) && (a_checkpoint matches Some(c)
                ==> c <= p2as[i].slot) && (before.log.1@.contains_key(p2as[i].slot)
                ==> before.log.1@[p2as[i].slot].ballot.lt_spec(p2as[i].ballot))
                ==> after.log.1@.contains_key(p2as[i].slot) && after.log.1@[p2as[i].slot] == (
            LogValue { ballot: p2as[i].ballot, value: p2as[i].value }),
        forall|s: usize|
            #![trigger after.log.1@.contains_key(s)]
            (a_checkpoint matches Some(c) ==> c <= s) && (forall|i: int|
                0 <= i < p2as.len() && (#[trigger] p2as[i]).slot == s ==> p2as[i].ballot.lt_spec(
                    after.max_ballot,
                ) || (before.log.1@.contains_key(s) && !before.log.1@[s].ballot.lt_spec(
                    p2as[i].ballot,
                ))) ==> (after.log.1@.contains_key(s) <==> before.log.1@.contains_key(s)) && (
            before.log.1@.contains_key(s) ==> after.log.1@[s] == before.log.1@[s]),
{
    let placed = place_all(before.log.1@, p2as, after.max_ballot);
    assert(after.log.1@ == from_checkpoint(placed, a_checkpoint));
    law_place_all(before.log.1@, p2as, after.max_ballot);
    assert forall|i: int| 0 <= i < p2bs.len() implies #[trigger] p2bs[i] == p2b_spec(
        p2as[i],
        after.max_ballot,
    ) by {}
    assert forall|s: usize|
        (a_checkpoint matches Some(c) ==> c <= s) implies (#[trigger] after.log.1@.contains_key(s)
        <==> placed.contains_key(s)) && (placed.contains_key(s) ==> after.log.1@[s] == placed[s]) by {}
    assert forall|i: int|
        0 <= i < p2as.len() && is_first_highest(p2as, i) && !(#[trigger] p2as[i]).ballot.lt_spec(
            after.max_ballot,
        ) && (a_checkpoint matches Some(c) ==> c <= p2as[i].slot) && (before.log.1@.contains_key(
            p2as[i].slot,
        ) ==> before.log.1@[p2as[i].slot].ballot.lt_spec(
            p2as[i].ballot,
        )) implies after.log.1@.contains_key(p2as[i].slot) && after.log.1@[p2as[i].slot] == (
    LogValue { ballot: p2as[i].ballot, value: p2as[i].value }) by {
        law_placed(before.log.1@, p2as, after.max_ballot, p2as[i].slot);
        assert(placed.contains_key(p2as[i].slot));
        assert(after.log.1@.contains_key(p2as[i].slot));
    }
    assert forall|s: usize|
        #![trigger after.log.1@.contains_key(s)]
        (a_checkpoint matches Some(c) ==> c <= s) && (forall|i: int|
            0 <= i < p2as.len() && (#[trigger] p2as[i]).slot == s ==> p2as[i].ballot.lt_spec(
                after.max_ballot,
            ) || (before.log.1@.contains_key(s) && !before.log.1@[s].ballot.lt_spec(
                p2as[i].ballot,
            ))) implies (after.log.1@.contains_key(s) <==> before.log.1@.contains_key(s)) && (
    before.log.1@.contains_key(s) ==> after.log.1@[s] == before.log.1@[s]) by {
        law_placed(before.log.1@, p2as, after.max_ballot, s);
    }
}

/// Whether the ballot has reached a proposer in a tick: in a refusal to follow it, in a refusal to
/// fill a slot, or as the heartbeat of a leader.
pub open spec fn is_received<P>(input: ProposerInput<P>, b: Ballot) -> bool {
    ||| exists|i: int|
        0 <= i < input.p1bs@.len() && (#[trigger] input.p1bs@[i]).1.1 == Err::<
            (Option<usize>, HashMap<usize, LogValue<P>>),
            Ballot,
        >(b)
    ||| exists|i: int|
        0 <= i < input.p2bs@.len() && (#[trigger] input.p2bs@[i]).1.1 == Err::<(), Ballot>(b)
    ||| exists|i: int| 0 <= i < input.i_am_leader@.len() && #[trigger] input.i_am_leader@[i] == b
}

proof fn lemma_refused<M, K, V>(replies: Seq<(M, (K, Result<V, Ballot>))>, b: Ballot)
    ensures
        refusals(replies).contains(b) <==> exists|i: int|
            0 <= i < replies.len() && (#[trigger] replies[i]).1.1 == Err::<V, Ballot>(b),
    decreases replies.len(),
{
    law_refusals(replies);
    if replies.len() > 0 {
        let rest = replies.drop_last();
        let n = replies.len() - 1;
        lemma_refused(rest, b);
        law_refusals(rest);
        reveal(Seq::filter);
        let p = |r: (M, (K, Result<V, Ballot>))| r.1.1 is Err;
        let v = |r: (M, (K, Result<V, Ballot>))| r.1.1->Err_0;
        assert forall|i: int| 0 <= i < n implies #[trigger] rest[i] == replies[i] by {}
        if replies[n].1.1 is Err {
            assert(replies.filter(p).map_values(v) =~= rest.filter(p).map_values(v).push(
                v(replies[n]),
            ));
            crate::seqs::lemma_contains_push(refusals(rest), v(replies[n]));
        } else {
            assert(refusals(replies) =~= refusals(rest));
        }
        if refusals(rest).contains(b) {
            let i = choose|i: int|
                0 <= i < rest.len() && (#[trigger] rest[i]).1.1 == Err::<V, Ballot>(b);
            assert(replies[i].1.1 == Err::<V, Ballot>(b));
        }
        if exists|i: int|
            0 <= i < replies.len() && (#[trigger] replies[i]).1.1 == Err::<V, Ballot>(b) {
            let i = choose|i: int|
                0 <= i < replies.len() && (#[trigger] replies[i]).1.1 == Err::<V, Ballot>(b);
            if i < n {
                assert(rest[i].1.1 == Err::<V, Ballot>(b));
            }
        }
    }
}

proof fn lemma_received<P>(input: ProposerInput<P>, b: Ballot)
    ensures
        input.ballots().contains(b) <==> is_received(input, b),
{
    let x = refusals(input.p1bs@);
    let y = refusals(input.p2bs@);
    let z = input.i_am_leader@;
    lemma_refused(input.p1bs@, b);
    lemma_refused(input.p2bs@, b);
    assert(input.ballots() == x + y + z);
    if x.contains(b) {
        let i = choose|i: int| 0 <= i < x.len() && x[i] == b;
        assert((x + y + z)[i] == b);
    }
    if y.contains(b) {
        let i = choose|i: int| 0 <= i < y.len() && y[i] == b;
        assert((x + y + z)[x.len() + i] == b);
    }
    if z.contains(b) {
        let i = choose|i: int| 0 <= i < z.len() && z[i] == b;
        assert((x + y + z)[x.len() + y.len() + i] == b);
    }
    if (x + y + z).contains(b) {
        let i = choose|i: int| 0 <= i < (x + y + z).len() && (x + y + z)[i] == b;
        if i < x.len() {
            assert(x[i] == b);
        } else if i < x.len() + y.len() {
            assert(y[i - x.len()] == b);
        } else {
            assert(z[i - x.len() - y.len()] == b);
        }
    }
}

/// A proposer's ballot is at least as high as every ballot that has reached it. It changes only if
/// some ballot outbids it, and then to the number after the highest one. All that the proposer
/// sends in a tick goes out under its own ballot and its own name.
pub proof fn law_own_ballot<P>(
    self_id: MemberId<Proposer>,
    config: PaxosConfig,
    before: ProposerState<P>,
    input: ProposerInput<P>,
    after: ProposerState<P>,
    out: ProposerOutput<P>,
)
    requires
        is_proposer_tick(self_id, config, before, input, after, out),
    ensures
        ({
            let current = Ballot { num: before.election.ballot_num, proposer_id: self_id };
            let own = Ballot { num: after.election.ballot_num, proposer_id: self_id };
            let highest = after.election.received_max_ballot;
            &&& highest == before.election.received_max_ballot || is_received(input, highest)
            &&& !highest.lt_spec(before.election.received_max_ballot)
            &&& forall|b: Ballot| #[trigger]
                is_received(input, b) ==> !highest.lt_spec(b) && !own.lt_spec(b)
            &&& !own.lt_spec(highest)
            &&& !current.lt_spec(highest) ==> own == current
            &&& current.lt_spec(highest) ==> own.num == highest.num + 1
            &&& out.heartbeat is Some ==> out.heartbeat == Some(own)
            &&& out.elected is Some ==> out.elected == Some(own)
            &&& out.p1a is Some ==> out.p1a == Some(own)
            &&& forall|i: int|
                0 <= i < out.p2as@.len() ==> (#[trigger] out.p2as@[i]).ballot == own
                    && out.p2as@[i].sender == self_id
        }),
{
    let (v, to_send) = choose|v: TickView<P>, to_send: Seq<((usize, Ballot), Option<P>)>| #[trigger]
        tick_does(self_id, config.f, before, input, after, out, v, to_send);
    let own = Ballot { num: after.election.ballot_num, proposer_id: self_id };
    let highest = after.election.received_max_ballot;
    assert(v.ballot == own);
    assert forall|b: Ballot| #[trigger] is_received(input, b) implies !highest.lt_spec(b)
        && !own.lt_spec(b) by {
        lemma_received(input, b);
        let i = choose|i: int| 0 <= i < input.ballots().len() && input.ballots()[i] == b;
        assert(input.ballots()[i].le_spec(v.max_ballot));
    }
    lemma_received(input, highest);
    if v.is_leader {
        let base = choose|base: int|
            is_tick_proposals(
                to_send,
                v.is_leader,
                base,
                input.payloads@,
                v.logs,
                v.ballot,
                config.f,
            );
        let fresh = fresh_proposals(base, input.payloads@, v.ballot);
        let again = choose|again: Seq<((usize, Ballot), Option<P>)>|
            is_recommitment(v.logs, config.f, v.ballot, again) && to_send == #[trigger] (fresh
                + again);
        assert forall|i: int| 0 <= i < to_send.len() implies (#[trigger] to_send[i]).0.1 == own by {
            if i >= fresh.len() {
                let p = again[i - fresh.len()];
                assert(again.contains(((p.0.0, p.0.1), p.1)));
            }
        }
    }
    assert(out.p2as@ == requests(to_send, self_id));
}

/// Whether the requests of a tick are those for the payloads of the tick, in consecutive slots up
/// to the next one, and those for what is proposed `again`.
pub open spec fn fills_slots<P>(
    self_id: MemberId<Proposer>,
    f: usize,
    before: ProposerState<P>,
    input: ProposerInput<P>,
    after: ProposerState<P>,
    out: ProposerOutput<P>,
    logs: Seq<(Option<usize>, Map<usize, LogValue<P>>)>,
    again: Seq<((usize, Ballot), Option<P>)>,
) -> bool {
    let own = Ballot { num: after.election.ballot_num, proposer_id: self_id };
    let n = input.payloads@.len();
    let first = after.sequencer.next_slot - n;
    &&& is_recommitment(logs, f, own, again)
    &&& out.p2as@.len() == n + again.len()
    &&& forall|j: int|
        0 <= j < n ==> (#[trigger] out.p2as@[j]).value == Some(input.payloads@[j])
            && out.p2as@[j].slot == first + j
    &&& forall|j: int|
        0 <= j < again.len() ==> (#[trigger] again[j]).1 == out.p2as@[n + j].value && again[j].0.0
            == out.p2as@[n + j].slot
    &&& after.sequencer.taken_over == Some(own)
    &&& before.sequencer.taken_over == Some(own) ==> first == before.sequencer.next_slot
    &&& before.sequencer.taken_over != Some(own) ==> match last_taken(logs) {
        Some(s) => first == s + 1,
        None => first == before.sequencer.next_slot,
    }
}

/// A proposer that does not lead sends no heartbeat, fills no slot and drops its payloads. It asks
/// to lead exactly if the leader is too long silent and its check is due. A leader puts each
/// payload of the tick into a slot of its own, in order and without gaps: from the slot after the
/// last taken one in its first tick under a ballot, and from where it stopped in later ticks. It
/// proposes nothing else but what the logs that it got with the replies for its ballot leave to
/// be done.
pub proof fn law_leader_fills_slots<P>(
    self_id: MemberId<Proposer>,
    config: PaxosConfig,
    before: ProposerState<P>,
    input: ProposerInput<P>,
    after: ProposerState<P>,
    out: ProposerOutput<P>,
    logs: Seq<(Option<usize>, Map<usize, LogValue<P>>)>,
)
    requires
        is_proposer_tick(self_id, config, before, input, after, out),
        logs == after.election.p1bs@.filter(
            |r: (Ballot, (MemberId<Acceptor>, (Option<usize>, HashMap<usize, LogValue<P>>)))|
                r.0 == (Ballot { num: after.election.ballot_num, proposer_id: self_id }),
        ).map_values(
            |r: (Ballot, (MemberId<Acceptor>, (Option<usize>, HashMap<usize, LogValue<P>>)))|
                (r.1.1.0, r.1.1.1@),
        ),
    ensures
        out.p1a is Some <==> out.heartbeat is None && input.leader_expired && input.check_due,
        out.elected is Some <==> out.heartbeat is Some && !before.was_leader,
        after.was_leader <==> out.heartbeat is Some,
        out.heartbeat is None ==> out.p2as@.len() == 0 && after.sequencer.next_slot
            == before.sequencer.next_slot && after.sequencer.taken_over
            == before.sequencer.taken_over,
        out.heartbeat is Some ==> exists|again: Seq<((usize, Ballot), Option<P>)>| #[trigger]
            fills_slots(self_id, config.f, before, input, after, out, logs, again),
{
    let (v, to_send) = choose|v: TickView<P>, to_send: Seq<((usize, Ballot), Option<P>)>| #[trigger]
        tick_does(self_id, config.f, before, input, after, out, v, to_send);
    let own = Ballot { num: after.election.ballot_num, proposer_id: self_id };
    assert(v.ballot == own);
    if v.is_leader {
        let takes_over = super::sequence::takes_over_now(
            v.is_leader,
            before.sequencer.taken_over,
            v.ballot,
        );
        let base = super::sequence::base_slot(
            super::sequence::start_after(takes_over, v.logs),
            before.sequencer.next_slot,
        );
        let fresh = fresh_proposals(base, input.payloads@, v.ballot);
        let again = choose|again: Seq<((usize, Ballot), Option<P>)>|
            is_recommitment(v.logs, config.f, v.ballot, again) && to_send == #[trigger] (fresh
                + again);
        let n = input.payloads@.len();
        let kept = after.election.p1bs@;
        law_replies_for(kept, own);
        assert(v.logs == reported(replies_for(kept, own)));
        assert(logs =~= v.logs);
        assert(is_recommitment(v.logs, config.f, own, again));
        assert(out.p2as@ == requests(to_send, self_id));
        assert(base + n == after.sequencer.next_slot);
        assert forall|j: int| 0 <= j < n implies (#[trigger] out.p2as@[j]).value == Some(
            input.payloads@[j],
        ) && out.p2as@[j].slot == base + j by {
            assert(to_send[j] == fresh[j]);
        }
        assert forall|j: int| 0 <= j < again.len() implies (#[trigger] again[j]).1
            == out.p2as@[n + j].value && again[j].0.0 == out.p2as@[n + j].slot by {
            assert(to_send[n + j] == again[j]);
        }
        assert(fills_slots(self_id, config.f, before, input, after, out, logs, again));
    } else {
        assert(out.p2as@ == requests(to_send, self_id));
    }
}

/// A proposer leads in a tick exactly if more than `f` acceptors have so far agreed to follow its
/// ballot, and no higher ballot has as many, however the replies are spread over ticks.
pub proof fn law_leads_when_followed<P>(
    self_id: MemberId<Proposer>,
    config: PaxosConfig,
    states: Seq<ProposerState<P>>,
    inputs: Seq<ProposerInput<P>>,
    outs: Seq<ProposerOutput<P>>,
    i: int,
)
    requires
        states.len() == outs.len() + 1,
        inputs.len() == outs.len(),
        states[0].election.p1bs@.len() == 0,
        forall|k: int|
            0 <= k < outs.len() ==> is_proposer_tick(
                self_id,
                config,
                states[k],
                inputs[k],
                states[k + 1],
                #[trigger] outs[k],
            ),
        0 <= i < outs.len(),
    ensures
        ({
            let own = Ballot { num: states[i + 1].election.ballot_num, proposer_id: self_id };
            let history = inputs.map_values(|x: ProposerInput<P>| x.p1bs@);
            outs[i].heartbeat is Some <==> is_followed(history, i + 1, (config.f + 1) as nat, own)
                && forall|b: Ballot| #[trigger]
                is_followed(history, i + 1, (config.f + 1) as nat, b) ==> !own.lt_spec(b)
        }),
{
    let history = inputs.map_values(|x: ProposerInput<P>| x.p1bs@);
    let kept = states.map_values(|x: ProposerState<P>| x.election.p1bs@);
    let q = (config.f + 1) as nat;
    assert forall|k: int| 0 <= k < history.len() implies kept[k + 1] == keep_replies(
        kept[k],
        #[trigger] history[k],
        q,
    ) by {
        assert(is_proposer_tick(self_id, config, states[k], inputs[k], states[k + 1], outs[k]));
    }
    assert(is_proposer_tick(self_id, config, states[i], inputs[i], states[i + 1], outs[i]));
    let own = Ballot { num: states[i + 1].election.ballot_num, proposer_id: self_id };
    law_max_quorum(history, kept, q, i + 1, own);
}

/// What a proposer has proposed stays open until the acceptors' answers complete its quorum, and is
/// then committed: its slot with its value goes out. Nothing else goes out, and nothing is lost.
pub proof fn law_committed<P>(
    self_id: MemberId<Proposer>,
    config: PaxosConfig,
    before: ProposerState<P>,
    input: ProposerInput<P>,
    after: ProposerState<P>,
    out: ProposerOutput<P>,
    open: Seq<((usize, Ballot), Option<P>)>,
    quorums: Seq<(usize, Ballot)>,
)
    requires
        is_proposer_tick(self_id, config, before, input, after, out),
        open == before.sequencer.pending@ + out.p2as@.map_values(
            |r: P2a<P, Proposer>| ((r.slot, r.ballot), r.value),
        ),
        quorums == completed(
            before.sequencer.acks.pending@,
            input.p2bs@.map_values(
                |r: (MemberId<Acceptor>, ((usize, Ballot), Result<(), Ballot>))|
                    (r.1.0, (r.0, r.1.1 is Ok)),
            ),
            (config.f + 1) as nat,
            (2 * config.f + 1) as nat,
        ),
    ensures
        after.sequencer.pending@ == open.filter(
            |p: ((usize, Ballot), Option<P>)| !quorums.contains(p.0),
        ),
        out.committed@.len() + after.sequencer.pending@.len() == open.len(),
        forall|slot: usize, value: Option<P>| #[trigger]
            out.committed@.contains((slot, value)) <==> exists|ballot: Ballot|
                quorums.contains((slot, ballot)) && #[trigger] open.contains(
                    ((slot, ballot), value),
                ),
{
    broadcast use vstd::seq_lib::group_to_multiset_ensures;

    let (v, to_send) = choose|v: TickView<P>, to_send: Seq<((usize, Ballot), Option<P>)>| #[trigger]
        tick_does(self_id, config.f, before, input, after, out, v, to_send);
    assert(out.p2as@ == requests(to_send, self_id));
    assert(out.p2as@.map_values(|r: P2a<P, Proposer>| ((r.slot, r.ballot), r.value)) =~= to_send);
    assert(quorums == completed(
        before.sequencer.acks.pending@,
        outcomes(input.p2bs@),
        (config.f + 1) as nat,
        (2 * config.f + 1) as nat,
    )) by {
        assert(outcomes(input.p2bs@) =~= input.p2bs@.map_values(
            |r: (MemberId<Acceptor>, ((usize, Ballot), Result<(), Ballot>))|
                (r.1.0, (r.0, r.1.1 is Ok)),
        ));
    }
    law_each_request_is_answered_or_open(open, quorums);
    let done = answered(open, quorums);
    assert(out.committed@ == committed(done));
    assert(open.to_multiset().len() == done.to_multiset().len() + unanswered(
        open,
        quorums,
    ).to_multiset().len());
    assert forall|slot: usize, value: Option<P>| #[trigger]
        out.committed@.contains((slot, value)) <==> exists|ballot: Ballot|
            quorums.contains((slot, ballot)) && #[trigger] open.contains(
                ((slot, ballot), value),
            ) by {
        if out.committed@.contains((slot, value)) {
            let i = choose|i: int|
                0 <= i < out.committed@.len() && out.committed@[i] == (slot, value);
            assert(done.contains(done[i]));
            assert(done[i] == ((slot, done[i].0.1), value));
            assert(open.contains(((slot, done[i].0.1), value)));
        }
        if exists|ballot: Ballot|
            quorums.contains((slot, ballot)) && #[trigger] open.contains(
                ((slot, ballot), value),
            ) {
            let ballot = choose|ballot: Ballot|
                quorums.contains((slot, ballot)) && #[trigger] open.contains(
                    ((slot, ballot), value),
                );
            assert(done.contains(((slot, ballot), value)));
            let i = choose|i: int| 0 <= i < done.len() && done[i] == ((slot, ballot), value);
            assert(out.committed@[i] == (slot, value));
        }
    }
}

/// However the acceptors' answers are spread over ticks, a proposer remembers of them what it would
/// remember if they came all at once, and finds the same quorums.
pub proof fn law_acks_over_time<P>(
    self_id: MemberId<Proposer>,
    config: PaxosConfig,
    states: Seq<ProposerState<P>>,
    inputs: Seq<ProposerInput<P>>,
    outs: Seq<ProposerOutput<P>>,
    n: int,
)
    requires
        states.len() == outs.len() + 1,
        inputs.len() == outs.len(),
        states[0].sequencer.acks.pending@.len() == 0,
        forall|k: int|
            0 <= k < outs.len() ==> is_proposer_tick(
                self_id,
                config,
                states[k],
                inputs[k],
                states[k + 1],
                #[trigger] outs[k],
            ),
        0 <= n <= outs.len(),
    ensures
        ({
            let (min, max) = ((config.f + 1) as nat, (2 * config.f + 1) as nat);
            let acks = inputs.map_values(|x: ProposerInput<P>| outcomes(x.p2bs@));
            let found = Seq::new(
                n as nat,
                |k: int| completed(states[k].sequencer.acks.pending@, acks[k], min, max),
            );
            &&& states[n].sequencer.acks.pending@ == record_all(
                Seq::empty(),
                acks.take(n).flatten(),
                max,
            )
            &&& found.flatten() == completed(Seq::empty(), acks.take(n).flatten(), min, max)
        }),
    decreases n,
{
    let (min, max) = ((config.f + 1) as nat, (2 * config.f + 1) as nat);
    let acks = inputs.map_values(|x: ProposerInput<P>| outcomes(x.p2bs@));
    let found = Seq::new(
        n as nat,
        |k: int| completed(states[k].sequencer.acks.pending@, acks[k], min, max),
    );
    let none = Seq::<((usize, Ballot), (MemberId<Acceptor>, bool))>::empty();
    if n > 0 {
        law_acks_over_time(self_id, config, states, inputs, outs, n - 1);
        assert(is_proposer_tick(
            self_id,
            config,
            states[n - 1],
            inputs[n - 1],
            states[n - 1 + 1],
            outs[n - 1],
        ));
        let before = Seq::new(
            (n - 1) as nat,
            |k: int| completed(states[k].sequencer.acks.pending@, acks[k], min, max),
        );
        crate::seqs::lemma_take_next(acks, n - 1);
        lemma_flatten_next(acks.take(n - 1), acks[n - 1]);
        law_quorums_in_goes(none, acks.take(n - 1).flatten(), acks[n - 1], min, max);
        assert(found =~= before.push(found[n - 1]));
        lemma_flatten_next(before, found[n - 1]);
    } else {
        assert(acks.take(0) =~= Seq::empty());
        assert(found =~= Seq::empty());
        assert(states[0].sequencer.acks.pending@ =~= none);
        assert(acks.take(0).flatten() =~= none);
    }
}

} // verus!
