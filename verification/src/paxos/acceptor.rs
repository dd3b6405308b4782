//! What an acceptor does in one tick.
use super::ballot::{Ballot, PaxosPayload, Proposer};
use super::log::{slots, LogValue, Snapshot};
use crate::datum::Dup;
use crate::location::member_id::MemberId;
use std::collections::HashMap;
use vstd::prelude::*;

verus! {

broadcast use vstd::std_specs::hash::group_hash_axioms;

/// A request to put a value into a slot.
#[derive(Debug)]
pub struct P2a<P, S> {
    pub sender: MemberId<S>,
    pub ballot: Ballot,
    pub slot: usize,
    /// The payload, or `None` for a hole that is committed again.
    pub value: Option<P>,
}

/// Whether `m` is the greatest of `start` and the ballots in `bs`.
pub open spec fn is_greatest(m: Ballot, start: Ballot, bs: Seq<Ballot>) -> bool {
    &&& m == start || bs.contains(m)
    &&& start.le_spec(m)
    &&& forall|i: int| 0 <= i < bs.len() ==> (#[trigger] bs[i]).le_spec(m)
}

/// The greatest of `start` and the ballots in `bs`.
pub fn greatest(start: Ballot, bs: &Vec<Ballot>) -> (m: Ballot)
    ensures
        is_greatest(m, start, bs@),
{
    let mut m = start;
    for i in 0..bs.len()
        invariant
            is_greatest(m, start, bs@.take(i as int)),
    {
        let ghost prev = m;
        if bs[i] > m {
            m = bs[i];
        }
        proof {
            let next = bs@.take(i + 1);
            assert(next[i as int] == bs[i as int]);
            if m == prev && bs@.take(i as int).contains(m) {
                let j = choose|j: int| 0 <= j < i && bs@.take(i as int)[j] == m;
                assert(next[j] == m);
            }
            assert forall|j: int| 0 <= j < next.len() implies (#[trigger] next[j]).le_spec(m) by {
                if j < i {
                    assert(bs@.take(i as int)[j].le_spec(prev));
                }
            }
        }
    }
    assert(bs@.take(bs.len() as int) =~= bs@);
    m
}

/// What an acceptor answers to a request to lead under `ballot`: its
/// checkpoint and log if no request that it has seen had a higher ballot,
/// otherwise the highest ballot that it has seen.
pub open spec fn answers_p1a<L: View>(
    reply: (MemberId<Proposer>, (Ballot, Result<(Option<usize>, L), Ballot>)),
    ballot: Ballot,
    max_ballot: Ballot,
    a_log: (Option<usize>, L),
) -> bool {
    &&& reply.0 == ballot.proposer_id
    &&& reply.1.0 == ballot
    &&& if ballot == max_ballot {
        reply.1.1 matches Ok(l) && l.0 == a_log.0 && l.1@ == a_log.1@
    } else {
        reply.1.1 == Err::<(Option<usize>, L), Ballot>(max_ballot)
    }
}

/// Takes the requests to lead that arrived in this tick.
///
/// `a_max_ballot` is the highest ballot that had been requested before, and
/// `a_log` is the checkpoint and the log as they stand in this tick. Returns the
/// highest ballot requested so far and an answer to each request, addressed to
/// the proposer that owns its ballot.
pub fn acceptor_p1<L: Snapshot>(
    a_max_ballot: Ballot,
    p_to_acceptors_p1a: &Vec<Ballot>,
    a_log: &(Option<usize>, L),
) -> (r: (Ballot, Vec<(MemberId<Proposer>, (Ballot, Result<(Option<usize>, L), Ballot>))>))
    ensures
        is_greatest(r.0, a_max_ballot, p_to_acceptors_p1a@),
        r.1.len() == p_to_acceptors_p1a.len(),
        forall|i: int|
            0 <= i < r.1.len() ==> answers_p1a(
                #[trigger] r.1[i],
                p_to_acceptors_p1a[i],
                r.0,
                *a_log,
            ),
{
    let max_ballot = greatest(a_max_ballot, p_to_acceptors_p1a);
    let mut replies: Vec<(MemberId<Proposer>, (Ballot, Result<(Option<usize>, L), Ballot>))> =
        Vec::new();
    for i in 0..p_to_acceptors_p1a.len()
        invariant
            replies.len() == i,
            forall|j: int|
                0 <= j < i ==> answers_p1a(
                    #[trigger] replies[j],
                    p_to_acceptors_p1a[j],
                    max_ballot,
                    *a_log,
                ),
    {
        let ballot = p_to_acceptors_p1a[i];
        let answer = if ballot == max_ballot {
            Ok((a_log.0, a_log.1.snapshot()))
        } else {
            Err(max_ballot)
        };
        replies.push((ballot.proposer_id, (ballot, answer)));
    }
    (max_ballot, replies)
}

/// The log after one request: the value goes in if the request's ballot is not
/// below `max_ballot` and is above the ballot of the entry that is there.
pub open spec fn place<P, S>(
    log: Map<usize, LogValue<P>>,
    p2a: P2a<P, S>,
    max_ballot: Ballot,
) -> Map<usize, LogValue<P>> {
    if max_ballot.le_spec(p2a.ballot) && (!log.contains_key(p2a.slot)
        || log[p2a.slot].ballot.lt_spec(p2a.ballot)) {
        log.insert(p2a.slot, LogValue { ballot: p2a.ballot, value: p2a.value })
    } else {
        log
    }
}

/// The log after a batch of requests, taken in order.
pub open spec fn place_all<P, S>(
    log: Map<usize, LogValue<P>>,
    p2as: Seq<P2a<P, S>>,
    max_ballot: Ballot,
) -> Map<usize, LogValue<P>>
    decreases p2as.len(),
{
    if p2as.len() == 0 {
        log
    } else {
        place(place_all(log, p2as.drop_last(), max_ballot), p2as.last(), max_ballot)
    }
}

/// The part of a log from the checkpoint on.
pub open spec fn from_checkpoint<P>(
    log: Map<usize, LogValue<P>>,
    checkpoint: Option<usize>,
) -> Map<usize, LogValue<P>> {
    match checkpoint {
        Some(c) => log.restrict(Set::new(|k: usize| c <= k)),
        None => log,
    }
}

/// What an acceptor answers to a request: agreement if the request's ballot is
/// the highest that it has been asked to follow, otherwise that ballot.
pub open spec fn p2b_spec<P, S>(p2a: P2a<P, S>, max_ballot: Ballot) -> (
    MemberId<S>,
    ((usize, Ballot), Result<(), Ballot>),
) {
    (
        p2a.sender,
        (
            (p2a.slot, p2a.ballot),
            if p2a.ballot == max_ballot {
                Ok(())
            } else {
                Err(max_ballot)
            },
        ),
    )
}

/// Drops the entries before the checkpoint.
fn drop_before<P>(log: &mut HashMap<usize, LogValue<P>>, checkpoint: Option<usize>)
    ensures
        final(log)@ == from_checkpoint(old(log)@, checkpoint),
{
    match checkpoint {
        None => {},
        Some(c) => {
            let ks = slots(log);
            let ghost before = log@;
            for i in 0..ks.len()
                invariant
                    before == old(log)@,
                    forall|k: usize| ks@.contains(k) <==> before.contains_key(k),
                    forall|k: usize| #[trigger]
                        log@.contains_key(k) <==> before.contains_key(k) && !(k < c
                            && ks@.take(i as int).contains(k)),
                    forall|k: usize| #[trigger] log@.contains_key(k) ==> log@[k] == before[k],
            {
                let k: usize = ks[i];
                proof {
                    broadcast use vstd::seq_lib::group_seq_properties;

                    assert(ks@.take(i + 1) =~= ks@.take(i as int).push(k));
                    assert forall|x: usize|
                        ks@.take(i + 1).contains(x) <==> ks@.take(i as int).contains(x) || x
                            == k by {}
                }
                if k < c {
                    log.remove(&k);
                }
            }
            assert(ks@.take(ks.len() as int) =~= ks@);
            assert(log@ =~= from_checkpoint(before, checkpoint));
        },
    }
}

/// Takes the requests to fill slots that arrived in this tick.
///
/// `a_log` is the checkpoint and the log. The values that may enter are placed
/// into the log before any of them is confirmed; then the entries before the
/// checkpoint are dropped. Returns an answer to each request, addressed to its
/// sender.
pub fn acceptor_p2<P: PaxosPayload, S>(
    a_log: &mut (Option<usize>, HashMap<usize, LogValue<P>>),
    a_max_ballot: Ballot,
    p_to_acceptors_p2a: Vec<P2a<P, S>>,
    a_checkpoint: Option<usize>,
) -> (p2bs: Vec<(MemberId<S>, ((usize, Ballot), Result<(), Ballot>))>)
    ensures
        final(a_log).0 == a_checkpoint,
        final(a_log).1@ == from_checkpoint(
            place_all(old(a_log).1@, p_to_acceptors_p2a@, a_max_ballot),
            a_checkpoint,
        ),
        p2bs@ == p_to_acceptors_p2a@.map_values(|p2a: P2a<P, S>| p2b_spec(p2a, a_max_ballot)),
{
    let mut p2bs: Vec<(MemberId<S>, ((usize, Ballot), Result<(), Ballot>))> = Vec::new();
    for i in 0..p_to_acceptors_p2a.len()
        invariant
            p2bs.len() == i,
            forall|j: int|
                0 <= j < i ==> #[trigger] p2bs[j] == p2b_spec(p_to_acceptors_p2a[j], a_max_ballot),
            a_log.1@ == place_all(old(a_log).1@, p_to_acceptors_p2a@.take(i as int), a_max_ballot),
    {
        let p2a = &p_to_acceptors_p2a[i];
        proof {
            let done = p_to_acceptors_p2a@.take(i + 1);
            assert(done.drop_last() =~= p_to_acceptors_p2a@.take(i as int));
            assert(done.last() == *p2a);
        }
        if p2a.ballot >= a_max_ballot {
            let replace = match a_log.1.get(&p2a.slot) {
                Some(prev_entry) => p2a.ballot > prev_entry.ballot,
                None => true,
            };
            if replace {
                a_log.1.insert(
                    p2a.slot,
                    LogValue { ballot: p2a.ballot, value: p2a.value.dup() },
                );
            }
        }
        let answer = if p2a.ballot == a_max_ballot {
            Ok(())
        } else {
            Err(a_max_ballot)
        };
        p2bs.push((p2a.sender, ((p2a.slot, p2a.ballot), answer)));
    }
    assert(p_to_acceptors_p2a@.take(p_to_acceptors_p2a.len() as int) =~= p_to_acceptors_p2a@);
    drop_before(&mut a_log.1, a_checkpoint);
    a_log.0 = a_checkpoint;
    p2bs
}

/// Every entry of a log after a batch of requests comes from the old log or from a
/// request that is not below the highest ballot; no entry goes to a lower ballot; and each request that is not below the
/// highest ballot is there, unless a higher ballot has taken its place.
pub proof fn law_place_all<P, S>(
    log: Map<usize, LogValue<P>>,
    p2as: Seq<P2a<P, S>>,
    max_ballot: Ballot,
)
    ensures
        forall|s: usize| #[trigger]
            place_all(log, p2as, max_ballot).contains_key(s) ==> (log.contains_key(s)
                && place_all(log, p2as, max_ballot)[s] == log[s]) || exists|i: int|
                0 <= i < p2as.len() && (#[trigger] p2as[i]).slot == s && max_ballot.le_spec(
                    p2as[i].ballot,
                ) && place_all(
                    log,
                    p2as,
                    max_ballot,
                )[s] == (LogValue { ballot: p2as[i].ballot, value: p2as[i].value }),
        forall|s: usize| #[trigger]
            log.contains_key(s) ==> place_all(log, p2as, max_ballot).contains_key(s)
                && log[s].ballot.le_spec(place_all(log, p2as, max_ballot)[s].ballot),
        forall|i: int|
            0 <= i < p2as.len() && max_ballot.le_spec((#[trigger] p2as[i]).ballot) ==> place_all(
                log,
                p2as,
                max_ballot,
            ).contains_key(p2as[i].slot) && p2as[i].ballot.le_spec(
                place_all(log, p2as, max_ballot)[p2as[i].slot].ballot,
            ),
    decreases p2as.len(),
{
    if p2as.len() > 0 {
        let rest = p2as.drop_last();
        let last = p2as.last();
        let n = p2as.len() - 1;
        let before = place_all(log, rest, max_ballot);
        let after = place_all(log, p2as, max_ballot);
        law_place_all(log, rest, max_ballot);
        assert forall|s: usize| #[trigger] after.contains_key(s) implies (log.contains_key(s)
            && after[s] == log[s]) || exists|i: int|
            0 <= i < p2as.len() && (#[trigger] p2as[i]).slot == s && max_ballot.le_spec(
                p2as[i].ballot,
            ) && after[s] == (LogValue {
                ballot: p2as[i].ballot,
                value: p2as[i].value,
            }) by {
            if before.contains_key(s) && after[s] == before[s] {
                if !(log.contains_key(s) && before[s] == log[s]) {
                    let i = choose|i: int|
                        0 <= i < rest.len() && (#[trigger] rest[i]).slot == s
                            && max_ballot.le_spec(rest[i].ballot) && before[s] == (
                        LogValue { ballot: rest[i].ballot, value: rest[i].value });
                    assert(p2as[i].slot == s);
                }
            } else {
                assert(p2as[n].slot == s);
            }
        }
        assert forall|i: int|
            0 <= i < p2as.len() && max_ballot.le_spec(
                (#[trigger] p2as[i]).ballot,
            ) implies after.contains_key(p2as[i].slot) && p2as[i].ballot.le_spec(
            after[p2as[i].slot].ballot,
        ) by {
            if i < n {
                assert(rest[i] == p2as[i]);
            }
        }
    }
}

/// What reaches an acceptor in a tick that matters for its log: the requests to fill slots, the
/// highest ballot that it follows, and the checkpoint.
pub ghost struct LogTick<P, S> {
    pub p2as: Seq<P2a<P, S>>,
    pub max_ballot: Ballot,
    pub checkpoint: Option<usize>,
}

/// The log after a number of ticks, if it was empty at first.
pub open spec fn log_after<P, S>(ticks: Seq<LogTick<P, S>>) -> Map<usize, LogValue<P>>
    decreases ticks.len(),
{
    if ticks.len() == 0 {
        Map::empty()
    } else {
        let last = ticks.last();
        from_checkpoint(
            place_all(log_after(ticks.drop_last()), last.p2as, last.max_ballot),
            last.checkpoint,
        )
    }
}

/// Whether a request of some tick was accepted for the slot: its ballot was not below the
/// highest one at that time.
pub open spec fn is_accepted<P, S>(
    ticks: Seq<LogTick<P, S>>,
    k: int,
    i: int,
    slot: usize,
) -> bool {
    &&& 0 <= k < ticks.len()
    &&& 0 <= i < ticks[k].p2as.len()
    &&& ticks[k].p2as[i].slot == slot
    &&& ticks[k].max_ballot.le_spec(ticks[k].p2as[i].ballot)
}

/// As long as no checkpoint passes a slot, its entry tells what was accepted: there is one
/// exactly if some request was accepted for the slot; it holds the ballot and the value of
/// such a request; and no accepted request had a higher ballot.
pub proof fn law_log_over_ticks<P, S>(ticks: Seq<LogTick<P, S>>, slot: usize)
    requires
        forall|k: int|
            0 <= k < ticks.len() ==> ((#[trigger] ticks[k]).checkpoint matches Some(c) ==> c
                <= slot),
    ensures
        log_after(ticks).contains_key(slot) <==> exists|k: int, i: int| #[trigger]
            is_accepted(ticks, k, i, slot),
        log_after(ticks).contains_key(slot) ==> exists|k: int, i: int| #[trigger]
            is_accepted(ticks, k, i, slot) && log_after(ticks)[slot] == (LogValue {
                ballot: ticks[k].p2as[i].ballot,
                value: ticks[k].p2as[i].value,
            }),
        forall|k: int, i: int| #[trigger]
            is_accepted(ticks, k, i, slot) ==> ticks[k].p2as[i].ballot.le_spec(
                log_after(ticks)[slot].ballot,
            ),
    decreases ticks.len(),
{
    if ticks.len() > 0 {
        let rest = ticks.drop_last();
        let n = ticks.len() - 1;
        let last = ticks.last();
        assert(ticks[n] == last);
        assert forall|k: int| 0 <= k < rest.len() implies ((
        #[trigger] rest[k]).checkpoint matches Some(c) ==> c <= slot) by {
            assert(rest[k] == ticks[k]);
        }
        law_log_over_ticks(rest, slot);
        let before = log_after(rest);
        let placed = place_all(before, last.p2as, last.max_ballot);
        let after = log_after(ticks);
        law_place_all(before, last.p2as, last.max_ballot);
        assert(after.contains_key(slot) <==> placed.contains_key(slot));
        assert(placed.contains_key(slot) ==> after[slot] == placed[slot]);
        assert forall|k: int, i: int| #[trigger] is_accepted(ticks, k, i, slot) implies {
            &&& placed.contains_key(slot)
            &&& ticks[k].p2as[i].ballot.le_spec(placed[slot].ballot)
        } by {
            if k < n {
                assert(is_accepted(rest, k, i, slot));
                assert(before.contains_key(slot));
            }
        }
        if placed.contains_key(slot) {
            if before.contains_key(slot) && placed[slot] == before[slot] {
                let (k, i) = choose|k: int, i: int| #[trigger]
                    is_accepted(rest, k, i, slot) && before[slot] == (LogValue {
                        ballot: rest[k].p2as[i].ballot,
                        value: rest[k].p2as[i].value,
                    });
                assert(is_accepted(ticks, k, i, slot));
            } else {
                let i = choose|i: int|
                    0 <= i < last.p2as.len() && (#[trigger] last.p2as[i]).slot == slot
                        && last.max_ballot.le_spec(last.p2as[i].ballot) && placed[slot] == (
                    LogValue { ballot: last.p2as[i].ballot, value: last.p2as[i].value });
                assert(is_accepted(ticks, n, i, slot));
            }
        }
    }
}

} // verus!
