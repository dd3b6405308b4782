//! Single nodes.
use super::dynamic::{DynLocation, LocationId};
use super::key::LocationKey;
use core::marker::PhantomData;
use vstd::prelude::*;

verus! {

/// A single node.
pub struct Process<Tag> {
    pub key: LocationKey,
    /// How many rounds a run is followed for.
    pub horizon: usize,
    pub tag: PhantomData<Tag>,
}

impl<Tag> DynLocation for Process<Tag> {
    open spec fn id_spec(&self) -> LocationId {
        LocationId::Process(self.key)
    }

    open spec fn horizon_spec(&self) -> nat {
        self.horizon as nat
    }

    open spec fn is_top_level_spec() -> bool {
        true
    }

    fn location_id(&self) -> (r: LocationId) {
        LocationId::Process(self.key)
    }

    fn horizon(&self) -> (r: usize) {
        self.horizon
    }

    fn is_top_level() -> (r: bool) {
        true
    }

    fn dup(&self) -> (r: Self) {
        Process { key: self.key, horizon: self.horizon, tag: PhantomData }
    }
}

} // verus!
