//! The log of an acceptor: a map from slots to entries.
use super::ballot::Ballot;
use crate::datum::{Datum, Dup};
use std::collections::HashMap;
use vstd::prelude::*;

verus! {

broadcast use vstd::std_specs::hash::group_hash_axioms;

/// An entry of the log.
#[derive(Debug)]
pub struct LogValue<P> {
    pub ballot: Ballot,
    /// The payload, or `None` for a hole.
    pub value: Option<P>,
}

impl<P: Dup> Dup for LogValue<P> {
    fn dup(&self) -> (r: Self) {
        LogValue { ballot: self.ballot, value: self.value.dup() }
    }
}

impl<P: Datum> Datum for LogValue<P> {
    fn same(&self, other: &Self) -> (b: bool) {
        self.ballot == other.ballot && self.value.same(&other.value)
    }
}

/// State that can be copied out, such as the log that an acceptor reports.
pub trait Snapshot: View + Sized {
    /// A copy with the same contents.
    fn snapshot(&self) -> (r: Self)
        ensures
            r@ == self@,
    ;
}

pub open spec fn increasing(v: Seq<usize>) -> bool {
    forall|i: int, j: int| 0 <= i < j < v.len() ==> v[i] < v[j]
}

/// Adds `k` to an increasing list, unless it is there.
pub fn insert_in_order(v: &mut Vec<usize>, k: usize)
    requires
        increasing(old(v)@),
    ensures
        increasing(final(v)@),
        forall|x: usize| #[trigger] final(v)@.contains(x) <==> old(v)@.contains(x) || x == k,
{
    let mut i: usize = 0;
    while i < v.len() && v[i] < k
        invariant
            0 <= i <= v.len(),
            v@ == old(v)@,
            forall|j: int| 0 <= j < i ==> v[j] < k,
        decreases v.len() - i,
    {
        i += 1;
    }
    if i < v.len() && v[i] == k {
        assert(v@.contains(k));
        return ;
    }
    let ghost before = v@;
    v.insert(i, k);
    proof {
        assert forall|x: usize| #[trigger] v@.contains(x) <==> before.contains(x) || x == k by {
            if v@.contains(x) {
                let j = choose|j: int| 0 <= j < v@.len() && v@[j] == x;
                if j < i {
                    assert(before[j] == x);
                } else if j > i {
                    assert(before[j - 1] == x);
                }
            }
            if before.contains(x) {
                let j = choose|j: int| 0 <= j < before.len() && before[j] == x;
                if j < i {
                    assert(v@[j] == x);
                } else {
                    assert(v@[j + 1] == x);
                }
            }
            assert(v@[i as int] == k);
        }
    }
}

/// The slots of a log, in increasing order.
pub fn slots<V>(log: &HashMap<usize, V>) -> (r: Vec<usize>)
    ensures
        increasing(r@),
        forall|k: usize| r@.contains(k) <==> log@.contains_key(k),
{
    let mut v: Vec<usize> = Vec::new();
    for k in it: log.keys()
        invariant
            increasing(v@),
            it.seq().unref().to_set() == log@.dom(),
            forall|x: usize| #[trigger] v@.contains(x) <==> it.seq().unref().take(it.index()).contains(x),
            it.index() == it.seq().len() ==> it.seq().unref().take(it.index()) =~= it.seq().unref(),
            forall|x: usize|
                it.seq().unref().to_set().contains(x) <==> it.seq().unref().contains(x),
    {
        let ghost all = it.seq().unref();
        let ghost n = it.index();
        insert_in_order(&mut v, *k);
        proof {
            assert(all.take(n + 1) =~= all.take(n).push(*k));
            assert forall|x: usize| v@.contains(x) <==> all.take(n + 1).contains(x) by {
                broadcast use vstd::seq_lib::group_seq_properties;

            }
        }
    }
    v
}

impl<P: Datum> Snapshot for HashMap<usize, LogValue<P>> {
    fn snapshot(&self) -> (r: Self) {
        let ks = slots(self);
        let mut copy: HashMap<usize, LogValue<P>> = HashMap::new();
        for i in 0..ks.len()
            invariant
                increasing(ks@),
                forall|k: usize| ks@.contains(k) <==> self@.contains_key(k),
                forall|k: usize| #[trigger] copy@.contains_key(k) <==> ks@.take(i as int).contains(k),
                forall|k: usize| copy@.contains_key(k) ==> copy@[k] == self@[k],
        {
            let k: usize = ks[i];
            assert(ks@.contains(k));
            assert(ks@.take(i + 1) =~= ks@.take(i as int).push(k));
            match self.get(&k) {
                Some(entry) => {
                    copy.insert(k, entry.dup());
                },
                None => {},
            }
            proof {
                broadcast use vstd::seq_lib::group_seq_properties;

                assert forall|x: usize| copy@.contains_key(x) <==> ks@.take(i + 1).contains(x) by {
                    assert(ks@.take(i + 1).contains(x) <==> ks@.take(i as int).contains(x) || x
                        == k);
                }
            }
        }
        proof {
            assert(ks@.take(ks.len() as int) =~= ks@);
            assert(copy@ =~= self@);
        }
        copy
    }
}

} // verus!
