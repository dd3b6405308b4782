//! Ballots and the other values that the protocol exchanges.
use crate::datum::{Datum, Dup};
use crate::location::member_id::MemberId;
use std::cmp::Ordering;
use vstd::prelude::*;

verus! {

/// Tag of the cluster of proposers.
#[derive(Clone, Copy, Debug, PartialEq, Eq, PartialOrd, Ord, Hash)]
pub struct Proposer {}

/// Tag of the cluster of acceptors.
#[derive(Clone, Copy, Debug, PartialEq, Eq, PartialOrd, Ord, Hash)]
pub struct Acceptor {}

/// The parameters of a deployment.
#[derive(Clone, Copy, Debug, PartialEq, Eq)]
pub struct PaxosConfig {
    /// Maximum number of faulty nodes.
    pub f: usize,
    /// How often to send "I am leader" heartbeats, in seconds.
    pub i_am_leader_send_timeout: u64,
    /// How often to check if the leader has expired, in seconds.
    pub i_am_leader_check_timeout: u64,
    /// Initial delay, multiplied by the proposer's number, that staggers the
    /// proposers' checks.
    pub i_am_leader_check_timeout_delay_multiplier: usize,
}

/// A ballot: a number, made unique by the proposer that owns it.
#[derive(Clone, Copy, Debug, Eq, Ord, Hash)]
pub struct Ballot {
    pub num: u32,
    pub proposer_id: MemberId<Proposer>,
}

impl Ballot {
    /// Ballots are ordered by number, then by proposer.
    pub open spec fn lt_spec(self, other: Ballot) -> bool {
        self.num < other.num || (self.num == other.num && self.proposer_id.raw_id
            < other.proposer_id.raw_id)
    }

    pub open spec fn le_spec(self, other: Ballot) -> bool {
        self == other || self.lt_spec(other)
    }

    /// The least ballot of all: number zero, first proposer.
    pub open spec fn least_spec() -> Ballot {
        Ballot { num: 0, proposer_id: MemberId { raw_id: 0, tag: core::marker::PhantomData } }
    }

    pub fn least() -> (r: Ballot)
        ensures
            r == Self::least_spec(),
    {
        Ballot { num: 0, proposer_id: MemberId::from_raw_id(0) }
    }
}

impl PartialEq for Ballot {
    fn eq(&self, other: &Self) -> (r: bool) {
        self.num == other.num && self.proposer_id.raw_id == other.proposer_id.raw_id
    }
}

impl vstd::std_specs::cmp::PartialEqSpecImpl for Ballot {
    open spec fn obeys_eq_spec() -> bool {
        true
    }

    open spec fn eq_spec(&self, other: &Self) -> bool {
        *self == *other
    }
}

impl PartialOrd for Ballot {
    fn partial_cmp(&self, other: &Self) -> (r: Option<Ordering>) {
        if self.num < other.num {
            Some(Ordering::Less)
        } else if self.num > other.num {
            Some(Ordering::Greater)
        } else if self.proposer_id.raw_id < other.proposer_id.raw_id {
            Some(Ordering::Less)
        } else if self.proposer_id.raw_id > other.proposer_id.raw_id {
            Some(Ordering::Greater)
        } else {
            Some(Ordering::Equal)
        }
    }
}

impl vstd::std_specs::cmp::PartialOrdSpecImpl for Ballot {
    open spec fn obeys_partial_cmp_spec() -> bool {
        true
    }

    open spec fn partial_cmp_spec(&self, other: &Self) -> Option<Ordering> {
        if self.lt_spec(*other) {
            Some(Ordering::Less)
        } else if *self == *other {
            Some(Ordering::Equal)
        } else {
            Some(Ordering::Greater)
        }
    }
}

impl Dup for Ballot {
    fn dup(&self) -> (r: Self) {
        *self
    }
}

impl Datum for Ballot {
    fn same(&self, other: &Self) -> (b: bool) {
        *self == *other
    }
}

/// A higher number makes a higher ballot, whoever owns it. Of two ballots with the same number the
/// one of the later proposer is higher. So of any two different ballots exactly one is higher,
/// and none is below the least one.
pub proof fn law_ballot_order(a: Ballot, b: Ballot, c: Ballot)
    ensures
        a.num < b.num ==> a.lt_spec(b),
        a.num == b.num ==> (a.lt_spec(b) <==> a.proposer_id.raw_id < b.proposer_id.raw_id),
        a.lt_spec(b) ==> !b.lt_spec(a) && a != b,
        a.lt_spec(b) || a == b || b.lt_spec(a),
        a.lt_spec(b) && b.lt_spec(c) ==> a.lt_spec(c),
        a.le_spec(b) <==> !b.lt_spec(a),
        !a.lt_spec(Ballot::least_spec()),
{
}

/// A value that can be put into the log.
pub trait PaxosPayload: Datum {

}

impl<T: Datum> PaxosPayload for T {

}

} // verus!
