//! Whether a collection stops changing.
use crate::compile::ir::BoundKind;
use vstd::prelude::*;

verus! {

/// A marker for whether a collection is bounded.
pub trait Boundedness: Sized {
    spec fn bound_spec() -> BoundKind;

    fn bound_kind() -> (r: BoundKind)
        ensures
            r == Self::bound_spec(),
    ;
}

/// Marks a collection whose contents are complete and frozen.
pub enum Bounded {
    Marker,
}

/// Marks a collection whose contents grow or change asynchronously.
pub enum Unbounded {
    Marker,
}

impl Boundedness for Bounded {
    open spec fn bound_spec() -> BoundKind {
        BoundKind::Bounded
    }

    fn bound_kind() -> (r: BoundKind) {
        BoundKind::Bounded
    }
}

impl Boundedness for Unbounded {
    open spec fn bound_spec() -> BoundKind {
        BoundKind::Unbounded
    }

    fn bound_kind() -> (r: BoundKind) {
        BoundKind::Unbounded
    }
}

} // verus!
