//! Going back from an atomic context into its tick.
use vstd::prelude::*;

verus! {

/// A collection in an atomic context that can be seen from inside its tick.
pub trait BatchAtomic: Sized {
    /// The collection inside the tick.
    type Batched;

    spec fn batch_ok(self) -> bool;

    /// Whether `r` is this collection as seen from inside the tick.
    spec fn is_batched(self, r: Self::Batched) -> bool;

    /// This collection as seen from inside the tick.
    fn batched_atomic(self) -> (r: Self::Batched)
        requires
            self.batch_ok(),
        ensures
            self.is_batched(r),
    ;
}

} // verus!
