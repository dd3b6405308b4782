//! What all locations have in common.
use super::key::LocationKey;
use vstd::prelude::*;

verus! {

/// The unique identifier of a location.
#[derive(Debug)]
pub enum LocationId {
    Process(LocationKey),
    Cluster(LocationKey),
    Tick(usize, Box<LocationId>),
    Atomic(Box<LocationId>),
}

impl LocationId {
    pub fn dup(&self) -> (r: Self)
        ensures
            r == *self,
        decreases *self,
    {
        match self {
            LocationId::Process(k) => LocationId::Process(*k),
            LocationId::Cluster(k) => LocationId::Cluster(*k),
            LocationId::Tick(n, l) => LocationId::Tick(*n, Box::new(l.dup())),
            LocationId::Atomic(l) => LocationId::Atomic(Box::new(l.dup())),
        }
    }

    /// Whether two identifiers are equal.
    pub fn same(&self, other: &Self) -> (b: bool)
        ensures
            b == (*self == *other),
        decreases *self,
    {
        match (self, other) {
            (LocationId::Process(k), LocationId::Process(m)) => k.ffi == m.ffi,
            (LocationId::Cluster(k), LocationId::Cluster(m)) => k.ffi == m.ffi,
            (LocationId::Tick(n, l), LocationId::Tick(o, m)) => *n == *o && l.same(m),
            (LocationId::Atomic(l), LocationId::Atomic(m)) => l.same(m),
            _ => false,
        }
    }
}

/// A location, as far as the live collections at it need to know it.
pub trait DynLocation: Sized {
    spec fn id_spec(&self) -> LocationId;

    /// How many rounds a run is followed for at this location.
    spec fn horizon_spec(&self) -> nat;

    /// Whether this kind of location is outside of ticks. There, state is kept from
    /// round to round; inside a tick it is not.
    spec fn is_top_level_spec() -> bool;

    /// The unique identifier of this location.
    fn location_id(&self) -> (r: LocationId)
        ensures
            r == self.id_spec(),
    ;

    fn horizon(&self) -> (r: usize)
        ensures
            r == self.horizon_spec(),
    ;

    fn is_top_level() -> (r: bool)
        ensures
            r == Self::is_top_level_spec(),
    ;

    /// A second handle of this location.
    fn dup(&self) -> (r: Self)
        ensures
            r == *self,
    ;
}

/// Whether two handles are of the same location.
pub open spec fn same_location<L: DynLocation>(a: L, b: L) -> bool {
    a.id_spec() == b.id_spec() && a.horizon_spec() == b.horizon_spec()
}

/// Whether two handles are of the same location.
pub fn check_matching_location<L: DynLocation>(l1: &L, l2: &L) -> (b: bool)
    ensures
        b == same_location(*l1, *l2),
{
    l1.location_id().same(&l2.location_id()) && l1.horizon() == l2.horizon()
}

} // verus!
