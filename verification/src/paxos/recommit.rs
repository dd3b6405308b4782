//! What a new leader commits again: the entries and the holes that it finds in
//! the logs of a quorum of acceptors.
use super::ballot::{Ballot, PaxosPayload};
use super::log::{increasing, insert_in_order, slots, LogValue};
use crate::datum::{Datum, Dup};
use crate::seqs::lemma_take_next;
use std::collections::HashMap;
use vstd::prelude::*;

verus! {

broadcast use vstd::std_specs::hash::group_hash_axioms;

/// The contents of the checkpoints and logs that a quorum reported.
pub open spec fn reports<P>(
    logs: Seq<(Option<usize>, HashMap<usize, LogValue<P>>)>,
) -> Seq<(Option<usize>, Map<usize, LogValue<P>>)> {
    logs.map_values(|l: (Option<usize>, HashMap<usize, LogValue<P>>)| (l.0, l.1@))
}

/// The greater of two checkpoints.
pub open spec fn later_checkpoint(a: Option<usize>, b: Option<usize>) -> Option<usize> {
    match (a, b) {
        (Some(x), Some(y)) => if x < y {
            b
        } else {
            a
        },
        (Some(_), None) => a,
        (None, _) => b,
    }
}

/// The greatest checkpoint that was reported, if any was.
pub open spec fn max_checkpoint<P>(
    logs: Seq<(Option<usize>, Map<usize, LogValue<P>>)>,
) -> Option<usize>
    decreases logs.len(),
{
    if logs.len() == 0 {
        None
    } else {
        later_checkpoint(max_checkpoint(logs.drop_last()), logs.last().0)
    }
}

/// Whether some log has an entry for the slot.
pub open spec fn is_proposed<P>(
    logs: Seq<(Option<usize>, Map<usize, LogValue<P>>)>,
    slot: usize,
) -> bool {
    exists|i: int| 0 <= i < logs.len() && (#[trigger] logs[i]).1.contains_key(slot)
}

/// The entry with the highest ballot for a slot, over all logs; among entries with the same
/// ballot, the first.
pub open spec fn highest<P>(
    logs: Seq<(Option<usize>, Map<usize, LogValue<P>>)>,
    slot: usize,
) -> Option<LogValue<P>>
    decreases logs.len(),
{
    if logs.len() == 0 {
        None
    } else {
        let before = highest(logs.drop_last(), slot);
        if !logs.last().1.contains_key(slot) {
            before
        } else {
            match before {
                Some(kept) => if kept.ballot.lt_spec(logs.last().1[slot].ballot) {
                    Some(logs.last().1[slot])
                } else {
                    before
                },
                None => Some(logs.last().1[slot]),
            }
        }
    }
}

/// Whether the log holds the value in the slot.
pub open spec fn holds_value<P>(
    log: (Option<usize>, Map<usize, LogValue<P>>),
    slot: usize,
    value: Option<P>,
) -> bool {
    log.1.contains_key(slot) && log.1[slot].value == value
}

/// How many logs hold the value in the slot.
pub open spec fn count_value<P>(
    logs: Seq<(Option<usize>, Map<usize, LogValue<P>>)>,
    slot: usize,
    value: Option<P>,
) -> nat
    decreases logs.len(),
{
    if logs.len() == 0 {
        0
    } else {
        count_value(logs.drop_last(), slot, value) + if holds_value(logs.last(), slot, value) {
            1nat
        } else {
            0nat
        }
    }
}

/// The entry with the highest ballot for a slot, over all logs, and how many logs hold its
/// value.
pub open spec fn tally<P>(
    logs: Seq<(Option<usize>, Map<usize, LogValue<P>>)>,
    slot: usize,
) -> Option<(nat, LogValue<P>)> {
    match highest(logs, slot) {
        Some(entry) => Some((count_value(logs, slot, entry.value), entry)),
        None => None,
    }
}

/// Whether the slot lies after the checkpoint.
pub open spec fn is_after(checkpoint: Option<usize>, slot: usize) -> bool {
    checkpoint matches Some(c) ==> c < slot
}

/// Whether the value found for the slot has to be committed again: not enough logs hold it
/// for it to be known as committed, and the slot is after every checkpoint.
pub open spec fn is_recommitted<P>(
    logs: Seq<(Option<usize>, Map<usize, LogValue<P>>)>,
    f: usize,
    slot: usize,
    value: Option<P>,
) -> bool {
    tally(logs, slot) matches Some((count, entry)) && count <= f && is_after(
        max_checkpoint(logs),
        slot,
    ) && value == entry.value
}

/// Whether the slot is a hole: after every checkpoint, in no log, and before a
/// slot that is in some log.
pub open spec fn is_hole<P>(
    logs: Seq<(Option<usize>, Map<usize, LogValue<P>>)>,
    slot: usize,
) -> bool {
    &&& is_after(max_checkpoint(logs), slot)
    &&& !is_proposed(logs, slot)
    &&& exists|m: usize| slot < m && is_proposed(logs, m)
}

/// Whether the value has to be proposed for the slot again: one that was found, or nothing for
/// a hole.
pub open spec fn is_again<P>(
    logs: Seq<(Option<usize>, Map<usize, LogValue<P>>)>,
    f: usize,
    slot: usize,
    value: Option<P>,
) -> bool {
    is_recommitted(logs, f, slot, value) || (value is None && is_hole(logs, slot))
}

/// Whether the slots between the last checkpoint and the last entry can be numbered: there is
/// no entry if no slot comes after the checkpoint.
pub open spec fn can_recommit<P>(logs: Seq<(Option<usize>, Map<usize, LogValue<P>>)>) -> bool {
    max_checkpoint(logs) == Some(usize::MAX) ==> forall|s: usize| !is_proposed(logs, s)
}

/// Whether `m` is the last slot that is in some log, or `None` if no log has any.
pub open spec fn is_max_slot<P>(
    logs: Seq<(Option<usize>, Map<usize, LogValue<P>>)>,
    m: Option<usize>,
) -> bool {
    match m {
        Some(last) => is_proposed(logs, last) && forall|s: usize|
            is_proposed(logs, s) ==> s <= last,
        None => forall|s: usize| !is_proposed(logs, s),
    }
}

/// The last slot that is in some log, if any is.
pub open spec fn max_slot<P>(logs: Seq<(Option<usize>, Map<usize, LogValue<P>>)>) -> Option<usize> {
    choose|m: Option<usize>| is_max_slot(logs, m)
}

/// There is only one last slot.
pub proof fn lemma_max_slot<P>(
    logs: Seq<(Option<usize>, Map<usize, LogValue<P>>)>,
    m: Option<usize>,
)
    requires
        is_max_slot(logs, m),
    ensures
        max_slot(logs) == m,
{
    let n = max_slot(logs);
    assert(is_max_slot(logs, n));
    match (m, n) {
        (Some(a), Some(b)) => {
            assert(is_proposed(logs, a) && is_proposed(logs, b));
        },
        (Some(a), None) => {
            assert(is_proposed(logs, a));
        },
        (None, Some(b)) => {
            assert(is_proposed(logs, b));
        },
        (None, None) => {},
    }
}

proof fn lemma_max_slot_below<P>(
    logs: Seq<(Option<usize>, Map<usize, LogValue<P>>)>,
    n: nat,
)
    requires
        forall|s: usize| is_proposed(logs, s) ==> s < n,
    ensures
        exists|m: Option<usize>| is_max_slot(logs, m),
    decreases n,
{
    if n == 0 {
        assert(is_max_slot(logs, None));
    } else if n - 1 <= usize::MAX && is_proposed(logs, (n - 1) as usize) {
        assert(is_max_slot(logs, Some((n - 1) as usize)));
    } else {
        lemma_max_slot_below(logs, (n - 1) as nat);
    }
}

/// There is a last slot, or none at all.
pub proof fn lemma_has_max_slot<P>(logs: Seq<(Option<usize>, Map<usize, LogValue<P>>)>)
    ensures
        exists|m: Option<usize>| is_max_slot(logs, m),
        is_max_slot(logs, max_slot(logs)),
{
    lemma_max_slot_below(logs, (usize::MAX + 1) as nat);
}

/// Whether `out` is what a leader with the given ballot has to propose again: each
/// slot at most once, and exactly the entries and holes that need it.
pub open spec fn is_recommitment<P>(
    logs: Seq<(Option<usize>, Map<usize, LogValue<P>>)>,
    f: usize,
    p_ballot: Ballot,
    out: Seq<((usize, Ballot), Option<P>)>,
) -> bool {
    &&& forall|i: int, j: int|
        0 <= i < j < out.len() ==> (#[trigger] out[i]).0.0 != (#[trigger] out[j]).0.0
    &&& forall|slot: usize, ballot: Ballot, value: Option<P>| #[trigger]
        out.contains(((slot, ballot), value)) <==> ballot == p_ballot && is_again(
            logs,
            f,
            slot,
            value,
        )
}

/// A slot has a tally exactly if some log has an entry for it.
pub proof fn lemma_tally_some<P>(
    logs: Seq<(Option<usize>, Map<usize, LogValue<P>>)>,
    slot: usize,
)
    ensures
        tally(logs, slot) is Some <==> is_proposed(logs, slot),
    decreases logs.len(),
{
    if logs.len() > 0 {
        let rest = logs.drop_last();
        lemma_tally_some(rest, slot);
        if is_proposed(rest, slot) {
            let i = choose|i: int| 0 <= i < rest.len() && (#[trigger] rest[i]).1.contains_key(slot);
            assert(logs[i].1.contains_key(slot));
        }
        if is_proposed(logs, slot) && !logs.last().1.contains_key(slot) {
            let i = choose|i: int| 0 <= i < logs.len() && (#[trigger] logs[i]).1.contains_key(slot);
            assert(rest[i].1.contains_key(slot));
        }
        if logs.last().1.contains_key(slot) {
            assert(logs[logs.len() - 1].1.contains_key(slot));
        }
    }
}

/// The entry that a tally keeps is in one of the logs, and no log has an entry
/// with a higher ballot for the slot.
pub proof fn lemma_tally_is_highest<P>(
    logs: Seq<(Option<usize>, Map<usize, LogValue<P>>)>,
    slot: usize,
)
    ensures
        highest(logs, slot) matches Some(entry) ==> {
            &&& exists|i: int|
                0 <= i < logs.len() && (#[trigger] logs[i]).1.contains_key(slot)
                    && logs[i].1[slot] == entry
            &&& forall|i: int|
                0 <= i < logs.len() && (#[trigger] logs[i]).1.contains_key(slot)
                    ==> logs[i].1[slot].ballot.le_spec(entry.ballot)
        },
    decreases logs.len(),
{
    if logs.len() > 0 {
        let rest = logs.drop_last();
        let n = logs.len() - 1;
        lemma_tally_is_highest(rest, slot);
        lemma_tally_some(rest, slot);
        if let Some(entry) = highest(logs, slot) {
            if let Some(kept) = highest(rest, slot) {
                if entry == kept {
                    let i = choose|i: int|
                        0 <= i < rest.len() && (#[trigger] rest[i]).1.contains_key(slot)
                            && rest[i].1[slot] == kept;
                    assert(logs[i].1[slot] == entry);
                } else {
                    assert(logs[n].1[slot] == entry);
                }
                assert forall|i: int|
                    0 <= i < logs.len() && (#[trigger] logs[i]).1.contains_key(
                        slot,
                    ) implies logs[i].1[slot].ballot.le_spec(entry.ballot) by {
                    if i < n {
                        assert(rest[i].1.contains_key(slot));
                    }
                }
            } else {
                assert(logs[n].1[slot] == entry);
                assert forall|i: int|
                    0 <= i < logs.len() && (#[trigger] logs[i]).1.contains_key(
                        slot,
                    ) implies i == n by {
                    if i < n {
                        assert(rest[i].1.contains_key(slot));
                        assert(is_proposed(rest, slot));
                    }
                }
            }
        }
    }
}

proof fn lemma_count_remove<P>(
    logs: Seq<(Option<usize>, Map<usize, LogValue<P>>)>,
    i: int,
    slot: usize,
    value: Option<P>,
)
    requires
        0 <= i < logs.len(),
    ensures
        count_value(logs, slot, value) == count_value(logs.remove(i), slot, value)
            + if holds_value(logs[i], slot, value) {
            1nat
        } else {
            0nat
        },
    decreases logs.len(),
{
    let rest = logs.drop_last();
    if i == logs.len() - 1 {
        assert(logs.remove(i) =~= rest);
    } else {
        lemma_count_remove(rest, i, slot, value);
        assert(logs.remove(i).drop_last() =~= rest.remove(i));
        assert(logs.remove(i).last() == logs.last());
    }
}

proof fn lemma_count_permuted<P>(
    a: Seq<(Option<usize>, Map<usize, LogValue<P>>)>,
    b: Seq<(Option<usize>, Map<usize, LogValue<P>>)>,
    slot: usize,
    value: Option<P>,
)
    requires
        a.to_multiset() == b.to_multiset(),
    ensures
        count_value(a, slot, value) == count_value(b, slot, value),
    decreases a.len(),
{
    broadcast use vstd::seq_lib::group_to_multiset_ensures;

    assert(a.to_multiset().len() == a.len() && b.to_multiset().len() == b.len());
    if a.len() > 0 {
        let x = a.last();
        assert(a[a.len() - 1] == x);
        assert(a.contains(x));
        assert(b.to_multiset().count(x) > 0);
        assert(b.contains(x));
        let i = choose|i: int| 0 <= i < b.len() && b[i] == x;
        assert(a.remove(a.len() - 1) =~= a.drop_last());
        assert(a.drop_last().to_multiset() =~= b.remove(i).to_multiset());
        lemma_count_remove(b, i, slot, value);
        lemma_count_permuted(a.drop_last(), b.remove(i), slot, value);
    }
}

proof fn lemma_max_checkpoint_reported<P>(
    logs: Seq<(Option<usize>, Map<usize, LogValue<P>>)>,
)
    ensures
        max_checkpoint(logs) matches Some(m) ==> exists|i: int|
            0 <= i < logs.len() && (#[trigger] logs[i]).0 == Some(m),
    decreases logs.len(),
{
    if logs.len() > 0 {
        let rest = logs.drop_last();
        lemma_max_checkpoint_reported(rest);
        if let Some(m) = max_checkpoint(logs) {
            if logs.last().0 == Some(m) {
                assert(logs[logs.len() - 1].0 == Some(m));
            } else {
                let i = choose|i: int| 0 <= i < rest.len() && (#[trigger] rest[i]).0 == Some(m);
                assert(logs[i].0 == Some(m));
            }
        }
    }
}

/// Whether entries of one slot with equal ballots hold equal values.
pub open spec fn ballots_agree<P>(logs: Seq<(Option<usize>, Map<usize, LogValue<P>>)>) -> bool {
    forall|i: int, j: int, slot: usize|
        0 <= i < logs.len() && 0 <= j < logs.len() && #[trigger] logs[i].1.contains_key(slot)
            && #[trigger] logs[j].1.contains_key(slot) && logs[i].1[slot].ballot
            == logs[j].1[slot].ballot ==> logs[i].1[slot].value == logs[j].1[slot].value
}

/// A log that was reported is still there in another order.
proof fn lemma_still_reported<P>(
    a: Seq<(Option<usize>, Map<usize, LogValue<P>>)>,
    b: Seq<(Option<usize>, Map<usize, LogValue<P>>)>,
    i: int,
) -> (j: int)
    requires
        a.to_multiset() == b.to_multiset(),
        0 <= i < a.len(),
    ensures
        0 <= j < b.len(),
        b[j] == a[i],
{
    broadcast use vstd::seq_lib::group_to_multiset_ensures;

    assert(a.contains(a[i]));
    assert(a.to_multiset().count(a[i]) > 0);
    assert(b.contains(a[i]));
    choose|j: int| 0 <= j < b.len() && b[j] == a[i]
}

proof fn lemma_permuted_checkpoint<P>(
    a: Seq<(Option<usize>, Map<usize, LogValue<P>>)>,
    b: Seq<(Option<usize>, Map<usize, LogValue<P>>)>,
)
    requires
        a.to_multiset() == b.to_multiset(),
    ensures
        max_checkpoint(a) matches Some(m) ==> (max_checkpoint(b) matches Some(n) && m <= n),
{
    lemma_max_checkpoint_reported(a);
    if let Some(m) = max_checkpoint(a) {
        let i = choose|i: int| 0 <= i < a.len() && (#[trigger] a[i]).0 == Some(m);
        let j = lemma_still_reported(a, b, i);
        lemma_max_checkpoint(b, j);
    }
}

proof fn lemma_permuted_proposed<P>(
    a: Seq<(Option<usize>, Map<usize, LogValue<P>>)>,
    b: Seq<(Option<usize>, Map<usize, LogValue<P>>)>,
    slot: usize,
)
    requires
        a.to_multiset() == b.to_multiset(),
        is_proposed(a, slot),
    ensures
        is_proposed(b, slot),
{
    let i = choose|i: int| 0 <= i < a.len() && (#[trigger] a[i]).1.contains_key(slot);
    let j = lemma_still_reported(a, b, i);
    assert(b[j].1.contains_key(slot));
}

/// What permuted logs have in common: the slots, the greatest checkpoint, and the tallies.
proof fn lemma_permuted<P>(
    a: Seq<(Option<usize>, Map<usize, LogValue<P>>)>,
    b: Seq<(Option<usize>, Map<usize, LogValue<P>>)>,
    slot: usize,
)
    requires
        a.to_multiset() == b.to_multiset(),
        ballots_agree(a),
    ensures
        is_proposed(a, slot) <==> is_proposed(b, slot),
        max_checkpoint(a) == max_checkpoint(b),
        tally(a, slot) == tally(b, slot),
{
    lemma_permuted_checkpoint(a, b);
    lemma_permuted_checkpoint(b, a);
    if is_proposed(a, slot) {
        lemma_permuted_proposed(a, b, slot);
    }
    if is_proposed(b, slot) {
        lemma_permuted_proposed(b, a, slot);
    }
    lemma_tally_some(a, slot);
    lemma_tally_some(b, slot);
    lemma_tally_is_highest(a, slot);
    lemma_tally_is_highest(b, slot);
    if is_proposed(a, slot) {
        let x = highest(a, slot)->0;
        let y = highest(b, slot)->0;
        let i = choose|i: int|
            0 <= i < a.len() && (#[trigger] a[i]).1.contains_key(slot) && a[i].1[slot] == x;
        let j = choose|j: int|
            0 <= j < b.len() && (#[trigger] b[j]).1.contains_key(slot) && b[j].1[slot] == y;
        let i2 = lemma_still_reported(b, a, j);
        let j2 = lemma_still_reported(a, b, i);
        assert(b[j2].1.contains_key(slot));
        assert(a[i2].1.contains_key(slot));
        assert(x.ballot.le_spec(y.ballot) && y.ballot.le_spec(x.ballot));
        assert(x.ballot == y.ballot);
        assert(a[i].1[slot].value == a[i2].1[slot].value);
        lemma_count_permuted(a, b, slot, x.value);
    }
}

/// The order in which logs were reported does not matter: what a leader proposes again, and
/// the last slot, are the same.
pub proof fn law_recommitment_ignores_order<P>(
    a: Seq<(Option<usize>, Map<usize, LogValue<P>>)>,
    b: Seq<(Option<usize>, Map<usize, LogValue<P>>)>,
    f: usize,
    p_ballot: Ballot,
    from_a: Seq<((usize, Ballot), Option<P>)>,
    from_b: Seq<((usize, Ballot), Option<P>)>,
)
    requires
        a.to_multiset() == b.to_multiset(),
        ballots_agree(a),
        is_recommitment(a, f, p_ballot, from_a),
        is_recommitment(b, f, p_ballot, from_b),
    ensures
        max_slot(a) == max_slot(b),
        forall|e: ((usize, Ballot), Option<P>)| #[trigger]
            from_a.contains(e) <==> from_b.contains(e),
{
    assert forall|s: usize| is_proposed(a, s) <==> is_proposed(b, s) by {
        lemma_permuted(a, b, s);
    }
    assert forall|m: Option<usize>| #[trigger] is_max_slot(a, m) <==> is_max_slot(b, m) by {}
    assert(max_slot(a) == max_slot(b)) by {
        if exists|m: Option<usize>| is_max_slot(a, m) {
            let m = choose|m: Option<usize>| is_max_slot(a, m);
            assert(is_max_slot(b, m));
            lemma_max_slot(a, m);
            lemma_max_slot(b, m);
        } else {
            lemma_has_max_slot(a);
        }
    }
    assert forall|e: ((usize, Ballot), Option<P>)| #[trigger]
        from_a.contains(e) <==> from_b.contains(e) by {
        let ((slot, ballot), value) = e;
        assert(e == ((slot, ballot), value));
        lemma_permuted(a, b, slot);
        assert(from_a.contains(((slot, ballot), value)) <==> from_b.contains(
            ((slot, ballot), value),
        )) by {
            assert(is_recommitted(a, f, slot, value) <==> is_recommitted(b, f, slot, value));
            assert(is_hole(a, slot) <==> is_hole(b, slot));
        }
    }
}

/// Every reported checkpoint is at most the greatest one.
pub proof fn lemma_max_checkpoint<P>(
    logs: Seq<(Option<usize>, Map<usize, LogValue<P>>)>,
    i: int,
)
    requires
        0 <= i < logs.len(),
    ensures
        logs[i].0 matches Some(c) ==> (max_checkpoint(logs) matches Some(m) && c <= m),
    decreases logs.len(),
{
    if i < logs.len() - 1 {
        assert(logs.drop_last()[i] == logs[i]);
        lemma_max_checkpoint(logs.drop_last(), i);
    }
}

/// The greater of two checkpoints.
pub fn later_of(a: Option<usize>, b: Option<usize>) -> (r: Option<usize>)
    ensures
        r == later_checkpoint(a, b),
{
    match (a, b) {
        (Some(x), Some(y)) => if x < y {
            Some(y)
        } else {
            Some(x)
        },
        (Some(x), None) => Some(x),
        (None, c) => c,
    }
}

/// The greatest checkpoint that was reported.
pub fn find_max_checkpoint<P>(logs: &Vec<(Option<usize>, HashMap<usize, LogValue<P>>)>) -> (r: Option<
    usize,
>)
    ensures
        r == max_checkpoint(reports(logs@)),
{
    let mut r: Option<usize> = None;
    for i in 0..logs.len()
        invariant
            r == max_checkpoint(reports(logs@).take(i as int)),
    {
        proof {
            let next = reports(logs@).take(i + 1);
            assert(next.drop_last() =~= reports(logs@).take(i as int));
            assert(next.last() == reports(logs@)[i as int]);
        }
        r = later_of(r, logs[i].0);
    }
    assert(reports(logs@).take(logs.len() as int) =~= reports(logs@));
    r
}

/// The slots that are in some log, in increasing order.
fn proposed_slots<P>(logs: &Vec<(Option<usize>, HashMap<usize, LogValue<P>>)>) -> (r: Vec<usize>)
    ensures
        increasing(r@),
        forall|s: usize| r@.contains(s) <==> is_proposed(reports(logs@), s),
{
    let mut all: Vec<usize> = Vec::new();
    for i in 0..logs.len()
        invariant
            increasing(all@),
            forall|s: usize| #[trigger]
                all@.contains(s) <==> is_proposed(reports(logs@).take(i as int), s),
    {
        let ks = slots(&logs[i].1);
        let ghost before = all@;
        for j in 0..ks.len()
            invariant
                increasing(all@),
                forall|s: usize| #[trigger]
                    all@.contains(s) <==> before.contains(s) || ks@.take(j as int).contains(s),
        {
            let ghost prev = all@;
            insert_in_order(&mut all, ks[j]);
            proof {
                lemma_take_next(ks@, j as int);
                assert forall|s: usize|
                    all@.contains(s) <==> before.contains(s) || ks@.take(j + 1).contains(s) by {
                    assert(all@.contains(s) <==> prev.contains(s) || s == ks[j as int]);
                }
            }
        }
        proof {
            assert(ks@.take(ks.len() as int) =~= ks@);
            let old_logs = reports(logs@).take(i as int);
            let new_logs = reports(logs@).take(i + 1);
            assert(new_logs[i as int].1 == logs[i as int].1@);
            assert forall|s: usize| all@.contains(s) <==> is_proposed(new_logs, s) by {
                assert(all@.contains(s) <==> before.contains(s) || ks@.contains(s));
                if is_proposed(old_logs, s) {
                    let k = choose|k: int|
                        0 <= k < old_logs.len() && (#[trigger] old_logs[k]).1.contains_key(s);
                    assert(new_logs[k].1.contains_key(s));
                }
                if is_proposed(new_logs, s) {
                    let k = choose|k: int|
                        0 <= k < new_logs.len() && (#[trigger] new_logs[k]).1.contains_key(s);
                    if k < i {
                        assert(old_logs[k].1.contains_key(s));
                    }
                }
                if ks@.contains(s) {
                    assert(new_logs[i as int].1.contains_key(s));
                }
            }
        }
    }
    assert(reports(logs@).take(logs.len() as int) =~= reports(logs@));
    all
}

/// The entry with the highest ballot for a slot, and how many logs hold its value.
fn find_tally<P: PaxosPayload>(
    logs: &Vec<(Option<usize>, HashMap<usize, LogValue<P>>)>,
    slot: usize,
) -> (r: Option<(usize, LogValue<P>)>)
    ensures
        match tally(reports(logs@), slot) {
            None => r is None,
            Some((count, entry)) => r matches Some((n, e)) && n == count && e == entry,
        },
{
    let ghost all = reports(logs@);
    let mut current: Option<LogValue<P>> = None;
    for i in 0..logs.len()
        invariant
            all == reports(logs@),
            current == highest(all.take(i as int), slot),
    {
        proof {
            lemma_take_next(all, i as int);
        }
        if let Some(new_entry) = logs[i].1.get(&slot) {
            let replace = match &current {
                Some(kept) => new_entry.ballot > kept.ballot,
                None => true,
            };
            if replace {
                current = Some(new_entry.dup());
            }
        }
    }
    assert(all.take(logs.len() as int) =~= all);
    match current {
        None => None,
        Some(entry) => {
            let mut count: usize = 0;
            for i in 0..logs.len()
                invariant
                    all == reports(logs@),
                    count == count_value(all.take(i as int), slot, entry.value),
                    count <= i,
            {
                proof {
                    lemma_take_next(all, i as int);
                }
                if let Some(other) = logs[i].1.get(&slot) {
                    if other.value.same(&entry.value) {
                        count += 1;
                    }
                }
            }
            Some((count, entry))
        },
    }
}

/// Whether an increasing list holds a slot.
fn holds(v: &Vec<usize>, slot: usize) -> (b: bool)
    ensures
        b == v@.contains(slot),
{
    for i in 0..v.len()
        invariant
            forall|j: int| 0 <= j < i ==> v[j] != slot,
    {
        if v[i] == slot {
            assert(v@[i as int] == slot);
            return true;
        }
    }
    false
}

/// The proposals that a new leader makes from the logs of a quorum, each under
/// its own ballot, and the last slot that occurs in those logs.
///
/// Every slot is proposed at most once. The values come from the entries with the
/// highest ballots; holes are filled with `None`.
pub fn recommit_after_leader_election<P: PaxosPayload>(
    accepted_logs: &Vec<(Option<usize>, HashMap<usize, LogValue<P>>)>,
    p_ballot: Ballot,
    f: usize,
) -> (r: (Vec<((usize, Ballot), Option<P>)>, Option<usize>))
    requires
        can_recommit(reports(accepted_logs@)),
    ensures
        r.1 == max_slot(reports(accepted_logs@)),
        is_recommitment(reports(accepted_logs@), f, p_ballot, r.0@),
{
    let ghost logs = reports(accepted_logs@);
    let checkpoint = find_max_checkpoint(accepted_logs);
    let proposed = proposed_slots(accepted_logs);
    let mut out: Vec<((usize, Ballot), Option<P>)> = Vec::new();
    for i in 0..proposed.len()
        invariant
            logs == reports(accepted_logs@),
            checkpoint == max_checkpoint(logs),
            increasing(proposed@),
            forall|s: usize| proposed@.contains(s) <==> is_proposed(logs, s),
            forall|k: int|
                0 <= k < out.len() ==> {
                    &&& (#[trigger] out[k]).0.1 == p_ballot
                    &&& proposed@.take(i as int).contains(out[k].0.0)
                    &&& is_recommitted(logs, f, out[k].0.0, out[k].1)
                },
            forall|k: int, l: int|
                0 <= k < l < out.len() ==> (#[trigger] out[k]).0.0 < (#[trigger] out[l]).0.0,
            forall|s: usize, v: Option<P>|
                proposed@.take(i as int).contains(s) && is_recommitted(logs, f, s, v)
                    ==> #[trigger] out@.contains(((s, p_ballot), v)),
    {
        let slot: usize = proposed[i];
        let ghost before = out@;
        proof {
            lemma_take_next(proposed@, i as int);
        }
        if let Some((count, entry)) = find_tally(accepted_logs, slot) {
            let after = match checkpoint {
                Some(c) => c < slot,
                None => true,
            };
            if count <= f && after {
                out.push(((slot, p_ballot), entry.value));
            }
        }
        proof {
            assert forall|s: usize, v: Option<P>|
                proposed@.take(i + 1).contains(s) && is_recommitted(logs, f, s, v) implies #[trigger] out@.contains(
            ((s, p_ballot), v)) by {
                if s == slot {
                    assert(out@[out.len() - 1] == ((s, p_ballot), v));
                } else {
                    assert(before.contains(((s, p_ballot), v)));
                    let k = choose|k: int|
                        0 <= k < before.len() && before[k] == ((s, p_ballot), v);
                    assert(out@[k] == ((s, p_ballot), v));
                }
            }
        }
    }
    assert(proposed@.take(proposed.len() as int) =~= proposed@);
    let ghost recommitted = out@;
    if proposed.len() == 0 {
        proof {
            assert forall|s: usize| !is_proposed(logs, s) by {
                assert(!proposed@.contains(s));
            }
            assert forall|s: usize| tally(logs, s) is None by {
                lemma_tally_some(logs, s);
            }
            if out.len() > 0 {
                assert(proposed@.contains(out[0].0.0));
            }
            lemma_max_slot(logs, None);
        }
        return (out, None);
    }
    let max_slot: usize = proposed[proposed.len() - 1];
    assert(proposed@.contains(max_slot));
    assert(is_proposed(logs, max_slot));
    assert forall|s: usize| is_proposed(logs, s) implies s <= max_slot by {
        assert(proposed@.contains(s));
    }
    let first: usize = match checkpoint {
        Some(c) => c + 1,
        None => 0,
    };
    let mut slot: usize = first;
    while slot < max_slot
        invariant
            logs == reports(accepted_logs@),
            first <= slot,
            forall|s: usize| is_after(max_checkpoint(logs), s) <==> first <= s,
            is_proposed(logs, max_slot),
            forall|s: usize| proposed@.contains(s) <==> is_proposed(logs, s),
            recommitted.len() <= out.len(),
            recommitted =~= out@.take(recommitted.len() as int),
            forall|k: int| 0 <= k < recommitted.len() ==> is_proposed(logs, (#[trigger] recommitted[k]).0.0),
            forall|k: int|
                recommitted.len() <= k < out.len() ==> {
                    &&& (#[trigger] out[k]).0.1 == p_ballot
                    &&& out[k].0.0 < slot
                    &&& out[k].1 is None
                    &&& is_hole(logs, out[k].0.0)
                },
            forall|k: int, l: int|
                0 <= k < l < out.len() ==> (#[trigger] out[k]).0.0 != (#[trigger] out[l]).0.0,
            forall|s: usize|
                first <= s < slot && !is_proposed(logs, s) ==> #[trigger] out@.contains(
                    ((s, p_ballot), None),
                ),
        decreases max_slot - slot,
    {
        let ghost before = out@;
        if !holds(&proposed, slot) {
            assert(is_hole(logs, slot));
            assert forall|k: int| 0 <= k < out.len() implies (#[trigger] out[k]).0.0 != slot by {
                if k < recommitted.len() {
                    assert(recommitted[k] == out[k]);
                }
            }
            out.push(((slot, p_ballot), None));
        }
        proof {
            assert forall|s: usize|
                first <= s < slot + 1 && !is_proposed(logs, s) implies #[trigger] out@.contains(
                ((s, p_ballot), None),
            ) by {
                if s == slot {
                    assert(out@[out.len() - 1] == ((s, p_ballot), None::<P>));
                } else {
                    assert(before.contains(((s, p_ballot), None::<P>)));
                    let k = choose|k: int|
                        0 <= k < before.len() && before[k] == ((s, p_ballot), None::<P>);
                    assert(out@[k] == ((s, p_ballot), None::<P>));
                }
            }
        }
        slot += 1;
    }
    proof {
        assert forall|s: usize, b: Ballot, v: Option<P>| #[trigger]
            out@.contains(((s, b), v)) <==> b == p_ballot && (is_recommitted(logs, f, s, v) || (
            v is None && is_hole(logs, s))) by {
            if out@.contains(((s, b), v)) {
                let k = choose|k: int| 0 <= k < out@.len() && out@[k] == ((s, b), v);
                if k < recommitted.len() {
                    assert(recommitted[k] == out@[k]);
                }
            }
            if is_recommitted(logs, f, s, v) {
                lemma_tally_some(logs, s);
                assert(proposed@.contains(s));
                assert(recommitted.contains(((s, p_ballot), v)));
                let k = choose|k: int|
                    0 <= k < recommitted.len() && recommitted[k] == ((s, p_ballot), v);
                assert(out@[k] == ((s, p_ballot), v));
            }
            if v is None && is_hole(logs, s) {
                assert(s < max_slot);
            }
        }
        lemma_max_slot(logs, Some(max_slot));
    }
    (out, Some(max_slot))
}

} // verus!
