//! What the aggregator makes of the results of all clients.
use super::histogram::{recorded, SerializableHistogramWrapper};
use super::throughput::{any_positive, Samples};
use crate::datum::Datum;
use crate::location::member_id::MemberId;
use crate::location::MembershipEvent;
use crate::trace::laws::lemma_flatten_next;
use vstd::multiset::Multiset;
use vstd::prelude::*;

verus! {

/// A list with the value of one key replaced, or with an entry for a new key.
pub open spec fn with_latest<K, V>(s: Seq<(K, V)>, k: K, v: V) -> Seq<(K, V)>
    decreases s.len(),
{
    if s.len() == 0 {
        seq![(k, v)]
    } else if s.last().0 == k {
        s.drop_last().push((k, v))
    } else {
        with_latest(s.drop_last(), k, v).push(s.last())
    }
}

/// Whether no key has two entries.
pub open spec fn one_per_key<K, V>(s: Seq<(K, V)>) -> bool {
    forall|i: int, j: int|
        0 <= i < j < s.len() ==> (#[trigger] s[i]).0 != (#[trigger] s[j]).0
}

proof fn lemma_replaced<K, V>(s: Seq<(K, V)>, i: int, k: K, v: V)
    requires
        0 <= i < s.len(),
        s[i].0 == k,
        forall|j: int| i < j < s.len() ==> (#[trigger] s[j]).0 != k,
    ensures
        with_latest(s, k, v) == s.update(i, (k, v)),
    decreases s.len(),
{
    if i == s.len() - 1 {
        assert(s.drop_last().push((k, v)) =~= s.update(i, (k, v)));
    } else {
        lemma_replaced(s.drop_last(), i, k, v);
        assert(s.drop_last().update(i, (k, v)).push(s.last()) =~= s.update(i, (k, v)));
    }
}

proof fn lemma_appended<K, V>(s: Seq<(K, V)>, k: K, v: V)
    requires
        forall|j: int| 0 <= j < s.len() ==> (#[trigger] s[j]).0 != k,
    ensures
        with_latest(s, k, v) == seq![(k, v)] + s,
    decreases s.len(),
{
    if s.len() > 0 {
        lemma_appended(s.drop_last(), k, v);
        assert((seq![(k, v)] + s.drop_last()).push(s.last()) =~= seq![(k, v)] + s);
    } else {
        assert(seq![(k, v)] + s =~= seq![(k, v)]);
    }
}

/// Only the latest value of each key is kept: each key has one entry, the given key has the
/// given value, and the others keep theirs.
pub proof fn law_latest_is_kept<K, V>(s: Seq<(K, V)>, k: K, v: V)
    requires
        one_per_key(s),
    ensures
        one_per_key(with_latest(s, k, v)),
        with_latest(s, k, v).contains((k, v)),
        forall|e: (K, V)|
            e.0 != k ==> (#[trigger] with_latest(s, k, v).contains(e) <==> s.contains(e)),
{
    if exists|i: int| 0 <= i < s.len() && (#[trigger] s[i]).0 == k {
        let i = choose|i: int| 0 <= i < s.len() && (#[trigger] s[i]).0 == k;
        lemma_replaced(s, i, k, v);
        let r = s.update(i, (k, v));
        assert(r[i] == (k, v));
        assert forall|e: (K, V)| e.0 != k implies (#[trigger] r.contains(e) <==> s.contains(e)) by {
            if s.contains(e) {
                let j = choose|j: int| 0 <= j < s.len() && s[j] == e;
                assert(r[j] == e);
            }
            if r.contains(e) {
                let j = choose|j: int| 0 <= j < r.len() && r[j] == e;
                assert(s[j] == e);
            }
        }
    } else {
        lemma_appended(s, k, v);
        let r = seq![(k, v)] + s;
        assert(r[0] == (k, v));
        assert forall|e: (K, V)| e.0 != k implies (#[trigger] r.contains(e) <==> s.contains(e)) by {
            if s.contains(e) {
                let j = choose|j: int| 0 <= j < s.len() && s[j] == e;
                assert(r[j + 1] == e);
            }
            if r.contains(e) {
                let j = choose|j: int| 0 <= j < r.len() && r[j] == e;
                assert(s[j - 1] == e);
            }
        }
    }
}

/// Whatever comes in, one after the other, what is kept for a key is the last that came for it,
/// and there is something for each key for which anything came.
pub proof fn law_latest_of_each<K, V>(
    events: Seq<(K, V)>,
    states: Seq<Seq<(K, V)>>,
    n: int,
)
    requires
        states.len() == events.len() + 1,
        states[0] == Seq::<(K, V)>::empty(),
        forall|i: int|
            0 <= i < events.len() ==> states[i + 1] == with_latest(
                states[i],
                (#[trigger] events[i]).0,
                events[i].1,
            ),
        0 <= n <= events.len(),
    ensures
        one_per_key(states[n]),
        forall|k: K, v: V| #[trigger]
            states[n].contains((k, v)) <==> exists|i: int|
                0 <= i < n && #[trigger] events[i] == (k, v) && forall|j: int|
                    i < j < n ==> (#[trigger] events[j]).0 != k,
    decreases n,
{
    if n > 0 {
        law_latest_of_each(events, states, n - 1);
        let (k0, v0) = events[n - 1];
        let old = states[n - 1];
        law_latest_is_kept(old, k0, v0);
        assert(states[n - 1 + 1] == with_latest(old, k0, v0));
        assert forall|k: K, v: V| #[trigger]
            states[n].contains((k, v)) <==> exists|i: int|
                0 <= i < n && #[trigger] events[i] == (k, v) && forall|j: int|
                    i < j < n ==> (#[trigger] events[j]).0 != k by {
            if k == k0 {
                if states[n].contains((k, v)) {
                    let a = choose|a: int| 0 <= a < states[n].len() && states[n][a] == (k, v);
                    let b = choose|b: int| 0 <= b < states[n].len() && states[n][b] == (k0, v0);
                    assert(a == b);
                    assert(events[n - 1] == (k, v));
                }
                if exists|i: int|
                    0 <= i < n && #[trigger] events[i] == (k, v) && forall|j: int|
                        i < j < n ==> (#[trigger] events[j]).0 != k {
                    let i = choose|i: int|
                        0 <= i < n && #[trigger] events[i] == (k, v) && forall|j: int|
                            i < j < n ==> (#[trigger] events[j]).0 != k;
                    if i < n - 1 {
                        assert(events[n - 1].0 != k);
                    }
                }
            } else {
                assert(states[n].contains((k, v)) <==> old.contains((k, v)));
                if old.contains((k, v)) {
                    let i = choose|i: int|
                        0 <= i < n - 1 && #[trigger] events[i] == (k, v) && forall|j: int|
                            i < j < n - 1 ==> (#[trigger] events[j]).0 != k;
                    assert(events[i] == (k, v));
                    assert forall|j: int| i < j < n implies (#[trigger] events[j]).0 != k by {
                        if j == n - 1 {
                            assert(events[j].0 == k0);
                        }
                    }
                }
                if exists|i: int|
                    0 <= i < n && #[trigger] events[i] == (k, v) && forall|j: int|
                        i < j < n ==> (#[trigger] events[j]).0 != k {
                    let i = choose|i: int|
                        0 <= i < n && #[trigger] events[i] == (k, v) && forall|j: int|
                            i < j < n ==> (#[trigger] events[j]).0 != k;
                    assert(i < n - 1);
                    assert(events[i] == (k, v));
                }
            }
        }
    }
}

/// Keeps the latest value of the key.
fn keep_latest<K: Datum, V>(list: &mut Vec<(K, V)>, k: K, v: V)
    ensures
        final(list)@ == with_latest(old(list)@, k, v),
{
    let ghost s = list@;
    let mut i: usize = list.len();
    while i > 0
        invariant
            0 <= i <= list.len(),
            list@ == s,
            s == old(list)@,
            forall|j: int| i <= j < s.len() ==> (#[trigger] s[j]).0 != k,
        decreases i,
    {
        i -= 1;
        if list[i].0.same(&k) {
            proof {
                lemma_replaced(s, i as int, k, v);
            }
            list.set(i, (k, v));
            return ;
        }
    }
    proof {
        lemma_appended(s, k, v);
        assert(s.insert(0, (k, v)) =~= seq![(k, v)] + s);
    }
    list.insert(0, (k, v));
}

/// What the aggregator knows of the clients.
pub struct Aggregator<Client> {
    /// Which members there are, or were.
    pub members: Vec<(MemberId<Client>, bool)>,
    /// The latest samples of each client.
    pub throughputs: Vec<(MemberId<Client>, Samples)>,
    /// The latest histogram of each client.
    pub latencies: Vec<(MemberId<Client>, SerializableHistogramWrapper)>,
}

/// How many members there are.
pub open spec fn client_count<Client>(members: Seq<(MemberId<Client>, bool)>) -> nat
    decreases members.len(),
{
    if members.len() == 0 {
        0
    } else {
        client_count(members.drop_last()) + if members.last().1 {
            1nat
        } else {
            0
        }
    }
}

/// The members that there are.
pub open spec fn joined<Client>(members: Seq<(MemberId<Client>, bool)>) -> Set<MemberId<Client>>
    decreases members.len(),
{
    if members.len() == 0 {
        Set::empty()
    } else if members.last().1 {
        joined(members.drop_last()).insert(members.last().0)
    } else {
        joined(members.drop_last())
    }
}

/// Each client counts once: the number of clients is that of the members whose latest event
/// was that they joined.
pub proof fn law_clients_count_once<Client>(members: Seq<(MemberId<Client>, bool)>)
    requires
        one_per_key(members),
    ensures
        joined(members).finite(),
        client_count(members) == joined(members).len(),
        forall|id: MemberId<Client>| #[trigger]
            joined(members).contains(id) <==> members.contains((id, true)),
    decreases members.len(),
{
    if members.len() > 0 {
        let rest = members.drop_last();
        let last = members.last();
        assert(one_per_key(rest)) by {
            assert forall|i: int, j: int| 0 <= i < j < rest.len() implies (#[trigger] rest[i]).0 != (
            #[trigger] rest[j]).0 by {
                assert(rest[i] == members[i] && rest[j] == members[j]);
            }
        }
        law_clients_count_once(rest);
        assert(!rest.contains((last.0, true))) by {
            if rest.contains((last.0, true)) {
                let i = choose|i: int| 0 <= i < rest.len() && rest[i] == (last.0, true);
                assert(members[i].0 != members[members.len() - 1].0);
            }
        }
        assert forall|id: MemberId<Client>| #[trigger]
            joined(members).contains(id) <==> members.contains((id, true)) by {
            if rest.contains((id, true)) {
                let i = choose|i: int| 0 <= i < rest.len() && rest[i] == (id, true);
                assert(members[i] == (id, true));
            }
            if members.contains((id, true)) {
                let i = choose|i: int| 0 <= i < members.len() && members[i] == (id, true);
                if i < rest.len() {
                    assert(rest[i] == (id, true));
                }
            }
            if last == (id, true) {
                assert(members[members.len() - 1] == (id, true));
            }
        }
    }
}

/// How many clients have completed any requests.
pub open spec fn active_count<Client>(throughputs: Seq<(MemberId<Client>, Samples)>) -> nat
    decreases throughputs.len(),
{
    if throughputs.len() == 0 {
        0
    } else {
        active_count(throughputs.drop_last()) + if any_positive(throughputs.last().1@) {
            1nat
        } else {
            0
        }
    }
}

/// The clients whose latest samples have a positive one are counted, each once.
pub proof fn law_active_count<Client>(
    throughputs: Seq<(MemberId<Client>, Samples)>,
    active: Set<MemberId<Client>>,
)
    requires
        one_per_key(throughputs),
        active.finite(),
        forall|id: MemberId<Client>| #[trigger]
            active.contains(id) <==> exists|i: int|
                0 <= i < throughputs.len() && (#[trigger] throughputs[i]).0 == id && exists|k: int|
                    0 <= k < throughputs[i].1@.len() && #[trigger] throughputs[i].1@[k] > 0,
    ensures
        active_count(throughputs) == active.len(),
    decreases throughputs.len(),
{
    if throughputs.len() == 0 {
        assert(active =~= Set::empty());
    } else {
        let rest = throughputs.drop_last();
        let last = throughputs.last();
        let fewer = active.remove(last.0);
        assert(one_per_key(rest)) by {
            assert forall|i: int, j: int| 0 <= i < j < rest.len() implies (#[trigger] rest[i]).0 != (
            #[trigger] rest[j]).0 by {
                assert(rest[i] == throughputs[i] && rest[j] == throughputs[j]);
            }
        }
        assert forall|i: int| 0 <= i < rest.len() implies (#[trigger] rest[i]).0 != last.0 by {
            assert(rest[i] == throughputs[i]);
            assert(throughputs[i].0 != throughputs[throughputs.len() - 1].0);
        }
        assert forall|id: MemberId<Client>| #[trigger]
            fewer.contains(id) <==> exists|i: int|
                0 <= i < rest.len() && (#[trigger] rest[i]).0 == id && exists|k: int|
                    0 <= k < rest[i].1@.len() && #[trigger] rest[i].1@[k] > 0 by {
            if fewer.contains(id) {
                assert(active.contains(id));
                let i = choose|i: int|
                    0 <= i < throughputs.len() && (#[trigger] throughputs[i]).0 == id && exists|
                        k: int,
                    |
                        0 <= k < throughputs[i].1@.len() && #[trigger] throughputs[i].1@[k] > 0;
                assert(rest[i] == throughputs[i]);
            }
            if exists|i: int|
                0 <= i < rest.len() && (#[trigger] rest[i]).0 == id && exists|k: int|
                    0 <= k < rest[i].1@.len() && #[trigger] rest[i].1@[k] > 0 {
                let i = choose|i: int|
                    0 <= i < rest.len() && (#[trigger] rest[i]).0 == id && exists|k: int|
                        0 <= k < rest[i].1@.len() && #[trigger] rest[i].1@[k] > 0;
                assert(rest[i] == throughputs[i]);
                assert(throughputs[i].0 == id);
                assert(active.contains(id));
            }
        }
        law_active_count(rest, fewer);
        if any_positive(last.1@) {
            assert(throughputs[throughputs.len() - 1].0 == last.0);
            assert(active.contains(last.0));
        } else {
            if active.contains(last.0) {
                let i = choose|i: int|
                    0 <= i < throughputs.len() && (#[trigger] throughputs[i]).0 == last.0
                        && exists|k: int|
                        0 <= k < throughputs[i].1@.len() && #[trigger] throughputs[i].1@[k] > 0;
                if i < rest.len() {
                    assert(rest[i].0 != last.0);
                }
                let k = choose|k: int|
                    0 <= k < throughputs[i].1@.len() && #[trigger] throughputs[i].1@[k] > 0;
                assert(last.1@[k] > 0);
                assert(false);
            }
            assert(fewer =~= active);
        }
    }
}

/// How many clients have not completed any requests yet, if any.
pub open spec fn waiting_for<Client>(a: Aggregator<Client>) -> Option<usize> {
    let clients = client_count(a.members@);
    let active = active_count(a.throughputs@);
    if clients > active {
        Some((clients - active) as usize)
    } else {
        None
    }
}

/// The samples of all clients.
pub open spec fn combined_samples<Client>(throughputs: Seq<(MemberId<Client>, Samples)>) -> Seq<
    usize,
>
    decreases throughputs.len(),
{
    if throughputs.len() == 0 {
        Seq::empty()
    } else {
        combined_samples(throughputs.drop_last()) + throughputs.last().1@
    }
}

/// The latencies of all clients.
pub open spec fn combined_latencies<Client>(
    latencies: Seq<(MemberId<Client>, SerializableHistogramWrapper)>,
) -> Multiset<u64>
    decreases latencies.len(),
{
    if latencies.len() == 0 {
        Multiset::empty()
    } else {
        combined_latencies(latencies.drop_last()).add(recorded(latencies.last().1))
    }
}

/// The samples of all clients are those of each client, one after the other.
pub proof fn law_combined_samples<Client>(throughputs: Seq<(MemberId<Client>, Samples)>)
    ensures
        combined_samples(throughputs) == throughputs.map_values(
            |e: (MemberId<Client>, Samples)| e.1@,
        ).flatten(),
    decreases throughputs.len(),
{
    let g = |e: (MemberId<Client>, Samples)| e.1@;
    if throughputs.len() > 0 {
        let init = throughputs.drop_last();
        law_combined_samples(init);
        assert(throughputs.map_values(g) =~= init.map_values(g).push(g(throughputs.last())));
        lemma_flatten_next(init.map_values(g), g(throughputs.last()));
    } else {
        assert(throughputs.map_values(g) =~= Seq::empty());
    }
}

/// All clients together have measured a latency as often as each of them has, added up.
pub proof fn law_combined_latencies<Client>(
    latencies: Seq<(MemberId<Client>, SerializableHistogramWrapper)>,
    v: u64,
)
    ensures
        combined_latencies(latencies).count(v) == latencies.map_values(
            |e: (MemberId<Client>, SerializableHistogramWrapper)| recorded(e.1).count(v),
        ).fold_left(0, |sum: nat, n: nat| sum + n),
    decreases latencies.len(),
{
    let g = |e: (MemberId<Client>, SerializableHistogramWrapper)| recorded(e.1).count(v);
    let plus = |sum: nat, n: nat| sum + n;
    if latencies.len() > 0 {
        law_combined_latencies(latencies.drop_last(), v);
        let all = latencies.map_values(g);
        assert(all.drop_last() =~= latencies.drop_last().map_values(g));
        assert(all.last() == g(latencies.last()));
        assert(all.fold_left(0, plus) == plus(all.drop_last().fold_left(0, plus), all.last()));
    } else {
        assert(latencies.map_values(g).len() == 0);
    }
}

/// Whether this is what the aggregator reports.
pub open spec fn is_report<Client>(a: Aggregator<Client>, r: AggregateBenchResult) -> bool {
    &&& r.waiting_for_clients == waiting_for(a)
    &&& r.throughput is Some <==> waiting_for(a) is None && combined_samples(a.throughputs@).len()
        > 2
    &&& r.throughput matches Some(t) ==> t.0@ == combined_samples(a.throughputs@) && t.1
        == client_count(a.members@)
    &&& r.latency is Some <==> waiting_for(a) is None && a.latencies@.len() > 0
    &&& r.latency matches Some(h) ==> h.wf() && (combined_latencies(a.latencies@).len() <= u64::MAX
        ==> recorded(h) == combined_latencies(a.latencies@))
}

/// The aggregator waits as long as fewer clients have made progress than have joined, and tells
/// how many are missing; meanwhile it reports neither throughput nor latency. Otherwise it
/// reports the samples of all clients, once there are more than two, with the number of clients
/// that have joined; and the latencies of all clients, once there are any, each as often as the
/// clients have measured it together.
pub proof fn law_report<Client>(
    a: Aggregator<Client>,
    r: AggregateBenchResult,
    there: Set<MemberId<Client>>,
    active: Set<MemberId<Client>>,
)
    requires
        a.wf(),
        is_report(a, r),
        there.finite(),
        forall|id: MemberId<Client>| #[trigger]
            there.contains(id) <==> a.members@.contains((id, true)),
        active.finite(),
        forall|id: MemberId<Client>| #[trigger]
            active.contains(id) <==> exists|i: int|
                0 <= i < a.throughputs@.len() && (#[trigger] a.throughputs@[i]).0 == id && exists|
                    k: int,
                |
                    0 <= k < a.throughputs@[i].1@.len() && #[trigger] a.throughputs@[i].1@[k] > 0,
        there.len() <= usize::MAX,
    ensures
        r.waiting_for_clients is Some <==> there.len() > active.len(),
        r.waiting_for_clients matches Some(n) ==> n > 0 && there.len() == active.len() + n,
        there.len() > active.len() ==> r.throughput is None && r.latency is None,
        there.len() <= active.len() ==> {
            let samples = a.throughputs@.map_values(
                |e: (MemberId<Client>, Samples)| e.1@,
            ).flatten();
            &&& r.throughput is Some <==> samples.len() > 2
            &&& r.throughput matches Some(t) ==> t.0@ == samples && t.1 == there.len()
            &&& r.latency is Some <==> a.latencies@.len() > 0
            &&& r.latency matches Some(h) ==> h.wf() && (combined_latencies(a.latencies@).len()
                <= u64::MAX ==> forall|v: u64| #[trigger]
                recorded(h).count(v) == a.latencies@.map_values(
                    |e: (MemberId<Client>, SerializableHistogramWrapper)| recorded(e.1).count(v),
                ).fold_left(0, |sum: nat, n: nat| sum + n))
        },
{
    law_clients_count_once(a.members@);
    assert(joined(a.members@) =~= there);
    law_active_count(a.throughputs@, active);
    law_combined_samples(a.throughputs@);
    if let Some(h) = r.latency {
        if combined_latencies(a.latencies@).len() <= u64::MAX {
            assert forall|v: u64| #[trigger] recorded(h).count(v) == a.latencies@.map_values(
                |e: (MemberId<Client>, SerializableHistogramWrapper)| recorded(e.1).count(v),
            ).fold_left(0, |sum: nat, n: nat| sum + n) by {
                law_combined_latencies(a.latencies@, v);
            }
        }
    }
}

/// What the aggregator reports.
pub struct AggregateBenchResult {
    /// How many clients have not completed any requests yet, if any.
    pub waiting_for_clients: Option<usize>,
    /// The samples of all clients, with the number of clients.
    pub throughput: Option<(Samples, usize)>,
    /// The latencies of all clients.
    pub latency: Option<SerializableHistogramWrapper>,
}

impl<Client> Aggregator<Client> {
    /// Each member has one entry in each list, and all histograms can be added up.
    pub open spec fn wf(self) -> bool {
        &&& one_per_key(self.members@)
        &&& one_per_key(self.throughputs@)
        &&& one_per_key(self.latencies@)
        &&& forall|i: int|
            0 <= i < self.latencies@.len() ==> (#[trigger] self.latencies@[i]).1.wf()
    }

    /// Nothing is known yet.
    pub fn new() -> (r: Self)
        ensures
            r.wf(),
            r.members@ == Seq::<(MemberId<Client>, bool)>::empty(),
            r.throughputs@ == Seq::<(MemberId<Client>, Samples)>::empty(),
            r.latencies@ == Seq::<(MemberId<Client>, SerializableHistogramWrapper)>::empty(),
    {
        Aggregator { members: Vec::new(), throughputs: Vec::new(), latencies: Vec::new() }
    }

    /// A member has joined or left.
    pub fn track_member(&mut self, id: MemberId<Client>, event: MembershipEvent)
        requires
            old(self).wf(),
        ensures
            final(self).wf(),
            final(self).members@ == with_latest(
                old(self).members@,
                id,
                event == MembershipEvent::Joined,
            ),
            final(self).throughputs == old(self).throughputs,
            final(self).latencies == old(self).latencies,
    {
        let joined = match event {
            MembershipEvent::Joined => true,
            MembershipEvent::Left => false,
        };
        proof {
            law_latest_is_kept(self.members@, id, joined);
        }
        keep_latest(&mut self.members, id, joined);
    }

    /// A client has reported its throughput.
    pub fn receive_throughput(&mut self, id: MemberId<Client>, throughput: Samples)
        requires
            old(self).wf(),
        ensures
            final(self).wf(),
            final(self).throughputs@ == with_latest(old(self).throughputs@, id, throughput),
            final(self).members == old(self).members,
            final(self).latencies == old(self).latencies,
    {
        proof {
            law_latest_is_kept(self.throughputs@, id, throughput);
        }
        keep_latest(&mut self.throughputs, id, throughput);
    }

    /// A client has reported its latencies.
    pub fn receive_latency(&mut self, id: MemberId<Client>, latency: SerializableHistogramWrapper)
        requires
            old(self).wf(),
            latency.wf(),
        ensures
            final(self).wf(),
            final(self).latencies@ == with_latest(old(self).latencies@, id, latency),
            final(self).members == old(self).members,
            final(self).throughputs == old(self).throughputs,
    {
        proof {
            lemma_latest_wf(self.latencies@, id, latency);
            law_latest_is_kept(self.latencies@, id, latency);
        }
        keep_latest(&mut self.latencies, id, latency);
    }
}

proof fn lemma_latest_wf<Client>(
    s: Seq<(MemberId<Client>, SerializableHistogramWrapper)>,
    id: MemberId<Client>,
    h: SerializableHistogramWrapper,
)
    requires
        h.wf(),
        forall|i: int| 0 <= i < s.len() ==> (#[trigger] s[i]).1.wf(),
    ensures
        forall|i: int|
            0 <= i < with_latest(s, id, h).len() ==> (#[trigger] with_latest(s, id, h)[i]).1.wf(),
    decreases s.len(),
{
    let r = with_latest(s, id, h);
    if s.len() > 0 {
        let init = s.drop_last();
        lemma_latest_wf(init, id, h);
        assert(s.last() == s[s.len() - 1]);
        assert forall|i: int| 0 <= i < r.len() implies (#[trigger] r[i]).1.wf() by {
            if s.last().0 == id {
                if i < init.len() {
                    assert(r[i] == s[i]);
                }
            } else if i < r.len() - 1 {
                assert(r[i] == with_latest(init, id, h)[i]);
            }
        }
    }
}

/// Returns the throughput and the latencies of all clients together.
///
/// Nothing is reported while some client has not completed any requests yet. The throughput
/// is reported once there are more than two samples.
pub fn aggregate_bench_results<Client>(a: &Aggregator<Client>) -> (r: AggregateBenchResult)
    requires
        a.wf(),
    ensures
        r.waiting_for_clients == waiting_for(*a),
        r.throughput is Some <==> waiting_for(*a) is None && combined_samples(a.throughputs@).len()
            > 2,
        r.throughput matches Some(t) ==> t.0@ == combined_samples(a.throughputs@) && t.1
            == client_count(a.members@),
        r.latency is Some <==> waiting_for(*a) is None && a.latencies@.len() > 0,
        r.latency matches Some(h) ==> h.wf() && (combined_latencies(a.latencies@).len() <= u64::MAX
            ==> recorded(h) == combined_latencies(a.latencies@)),
        is_report(*a, r),
{
    let mut clients: usize = 0;
    for i in 0..a.members.len()
        invariant
            clients == client_count(a.members@.take(i as int)),
            clients <= i,
    {
        proof {
            crate::seqs::lemma_take_next(a.members@, i as int);
        }
        if a.members[i].1 {
            clients += 1;
        }
    }
    assert(a.members@.take(a.members.len() as int) =~= a.members@);
    let mut active: usize = 0;
    let mut samples = Samples::new();
    for i in 0..a.throughputs.len()
        invariant
            active == active_count(a.throughputs@.take(i as int)),
            active <= i,
            samples@ == combined_samples(a.throughputs@.take(i as int)),
    {
        proof {
            crate::seqs::lemma_take_next(a.throughputs@, i as int);
        }
        if a.throughputs[i].1.has_progress() {
            active += 1;
        }
        samples.add(&a.throughputs[i].1);
    }
    assert(a.throughputs@.take(a.throughputs.len() as int) =~= a.throughputs@);
    if clients > active {
        return AggregateBenchResult {
            waiting_for_clients: Some(clients - active),
            throughput: None,
            latency: None,
        };
    }
    let throughput = if samples.sample_count() > 2 {
        Some((samples, clients))
    } else {
        None
    };
    let latency = if a.latencies.len() > 0 {
        let mut combined = SerializableHistogramWrapper::new();
        for i in 0..a.latencies.len()
            invariant
                a.wf(),
                combined.wf(),
                combined_latencies(a.latencies@.take(i as int)).len() <= u64::MAX ==> recorded(
                    combined,
                ) == combined_latencies(a.latencies@.take(i as int)),
        {
            proof {
                crate::seqs::lemma_take_next(a.latencies@, i as int);
            }
            combined.add(&a.latencies[i].1);
        }
        assert(a.latencies@.take(a.latencies.len() as int) =~= a.latencies@);
        Some(combined)
    } else {
        None
    };
    AggregateBenchResult { waiting_for_clients: None, throughput, latency }
}

} // verus!
