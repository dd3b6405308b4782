//! Logical clocks.
use super::cluster::Cluster;
use super::dynamic::{DynLocation, LocationId};
use super::process::Process;
use vstd::prelude::*;

verus! {

/// A logical clock at a location. What runs in it runs once per tick, on the data of
/// that tick.
pub struct Tick<L> {
    pub id: usize,
    pub l: L,
}

/// A context whose data is processed synchronously with a tick, but with state that is
/// kept from tick to tick.
pub struct Atomic<L> {
    pub tick: Tick<L>,
}

impl<L: DynLocation> Tick<L> {
    /// The location to which this clock belongs.
    pub fn outer(&self) -> (r: &L)
        ensures
            *r == self.l,
    {
        &self.l
    }
}

impl<L: DynLocation> DynLocation for Tick<L> {
    open spec fn id_spec(&self) -> LocationId {
        LocationId::Tick(self.id, Box::new(self.l.id_spec()))
    }

    open spec fn horizon_spec(&self) -> nat {
        self.l.horizon_spec()
    }

    open spec fn is_top_level_spec() -> bool {
        false
    }

    fn location_id(&self) -> (r: LocationId) {
        LocationId::Tick(self.id, Box::new(self.l.location_id()))
    }

    fn horizon(&self) -> (r: usize) {
        self.l.horizon()
    }

    fn is_top_level() -> (r: bool) {
        false
    }

    fn dup(&self) -> (r: Self) {
        Tick { id: self.id, l: self.l.dup() }
    }
}

impl<L: DynLocation> DynLocation for Atomic<L> {
    open spec fn id_spec(&self) -> LocationId {
        LocationId::Atomic(Box::new(self.tick.id_spec()))
    }

    open spec fn horizon_spec(&self) -> nat {
        self.tick.l.horizon_spec()
    }

    open spec fn is_top_level_spec() -> bool {
        true
    }

    fn location_id(&self) -> (r: LocationId) {
        LocationId::Atomic(Box::new(self.tick.location_id()))
    }

    fn horizon(&self) -> (r: usize) {
        self.tick.l.horizon()
    }

    fn is_top_level() -> (r: bool) {
        true
    }

    fn dup(&self) -> (r: Self) {
        Atomic { tick: self.tick.dup() }
    }
}

/// A location with the location in which it is nested.
pub trait Rooted: DynLocation {
    /// The root location: the location itself, unless it is nested in another one.
    type Root: DynLocation;

    spec fn root_spec(&self) -> Self::Root;

    /// Returns the root location for this location.
    fn root(&self) -> (r: Self::Root)
        ensures
            r == self.root_spec(),
    ;
}

impl<Tag> Rooted for Process<Tag> {
    type Root = Process<Tag>;

    open spec fn root_spec(&self) -> Process<Tag> {
        *self
    }

    fn root(&self) -> (r: Process<Tag>) {
        self.dup()
    }
}

impl<Tag> Rooted for Cluster<Tag> {
    type Root = Cluster<Tag>;

    open spec fn root_spec(&self) -> Cluster<Tag> {
        *self
    }

    fn root(&self) -> (r: Cluster<Tag>) {
        self.dup()
    }
}

impl<L: Rooted> Rooted for Tick<L> {
    type Root = L::Root;

    open spec fn root_spec(&self) -> L::Root {
        self.l.root_spec()
    }

    fn root(&self) -> (r: L::Root) {
        self.l.root()
    }
}

impl<L: Rooted> Rooted for Atomic<L> {
    type Root = L::Root;

    open spec fn root_spec(&self) -> L::Root {
        self.tick.l.root_spec()
    }

    fn root(&self) -> (r: L::Root) {
        self.tick.l.root()
    }
}

/// A location that is not inside a tick.
pub trait NoTick: DynLocation {
    proof fn is_outside()
        ensures
            Self::is_top_level_spec(),
    ;
}

/// A location that is not an atomic context.
pub trait NoAtomic: DynLocation {

}

impl<Tag> NoTick for Process<Tag> {
    proof fn is_outside() {
    }
}

impl<Tag> NoTick for Cluster<Tag> {
    proof fn is_outside() {
    }
}

impl<Tag> NoAtomic for Process<Tag> {

}

impl<Tag> NoAtomic for Cluster<Tag> {

}

impl<L: DynLocation> NoAtomic for Tick<L> {

}

} // verus!
