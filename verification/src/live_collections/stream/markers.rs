//! The guarantees that a stream gives, as types.
use crate::compile::ir::{StreamOrder, StreamRetry};
use vstd::prelude::*;

verus! {

/// A marker for whether the order of elements is fixed: [`TotalOrder`] or [`NoOrder`].
pub trait StreamOrdering: Sized {
    spec fn ordering_spec() -> StreamOrder;

    /// The [`StreamOrder`] corresponding to this type.
    fn ordering_kind() -> (r: StreamOrder)
        ensures
            r == Self::ordering_spec(),
    ;
}

/// Marks the stream as being totally ordered: no non-determinism affects the order of its
/// elements.
pub enum TotalOrder {
    Marker,
}

/// Marks the stream as having no order: the order of its elements may be affected by
/// non-determinism.
pub enum NoOrder {
    Marker,
}

impl StreamOrdering for TotalOrder {
    open spec fn ordering_spec() -> StreamOrder {
        StreamOrder::TotalOrder
    }

    fn ordering_kind() -> (r: StreamOrder) {
        StreamOrder::TotalOrder
    }
}

impl StreamOrdering for NoOrder {
    open spec fn ordering_spec() -> StreamOrder {
        StreamOrder::NoOrder
    }

    fn ordering_kind() -> (r: StreamOrder) {
        StreamOrder::NoOrder
    }
}

/// The weaker of two orderings: a total order if and only if both are.
pub trait MinOrder<Other: StreamOrdering>: StreamOrdering {
    type Min: StreamOrdering;

    proof fn min_is_weaker()
        ensures
            Self::Min::ordering_spec() == StreamOrder::TotalOrder <==> Self::ordering_spec()
                == StreamOrder::TotalOrder && Other::ordering_spec() == StreamOrder::TotalOrder,
    ;
}

impl<O: StreamOrdering> MinOrder<O> for TotalOrder {
    type Min = O;

    proof fn min_is_weaker() {
    }
}

impl<O: StreamOrdering> MinOrder<O> for NoOrder {
    type Min = NoOrder;

    proof fn min_is_weaker() {
    }
}

/// An ordering that is no stronger than `Other`: a stream with the guarantee `Other` can
/// always be used as one with the guarantee `Self`.
pub trait WeakerOrderingThan<Other: StreamOrdering>: StreamOrdering {
    proof fn is_weaker()
        ensures
            Self::ordering_spec() == StreamOrder::NoOrder || Self::ordering_spec()
                == Other::ordering_spec(),
    ;
}

impl WeakerOrderingThan<TotalOrder> for TotalOrder {
    proof fn is_weaker() {
    }
}

impl<O: StreamOrdering> WeakerOrderingThan<O> for NoOrder {
    proof fn is_weaker() {
    }
}

/// A marker for whether elements may repeat: [`ExactlyOnce`] or [`AtLeastOnce`].
pub trait Retries: Sized {
    spec fn retries_spec() -> StreamRetry;

    /// The [`StreamRetry`] corresponding to this type.
    fn retries_kind() -> (r: StreamRetry)
        ensures
            r == Self::retries_spec(),
    ;
}

/// Marks the stream as having no duplicates.
pub enum ExactlyOnce {
    Marker,
}

/// Marks the stream as one in which elements may repeat, but are not dropped.
pub enum AtLeastOnce {
    Marker,
}

impl Retries for ExactlyOnce {
    open spec fn retries_spec() -> StreamRetry {
        StreamRetry::ExactlyOnce
    }

    fn retries_kind() -> (r: StreamRetry) {
        StreamRetry::ExactlyOnce
    }
}

impl Retries for AtLeastOnce {
    open spec fn retries_spec() -> StreamRetry {
        StreamRetry::AtLeastOnce
    }

    fn retries_kind() -> (r: StreamRetry) {
        StreamRetry::AtLeastOnce
    }
}

/// The weaker of two retry guarantees: no repetitions if and only if neither has any.
pub trait MinRetries<Other: Retries>: Retries {
    type Min: Retries;

    proof fn min_is_weaker()
        ensures
            Self::Min::retries_spec() == StreamRetry::ExactlyOnce <==> Self::retries_spec()
                == StreamRetry::ExactlyOnce && Other::retries_spec() == StreamRetry::ExactlyOnce,
    ;
}

impl<R: Retries> MinRetries<R> for ExactlyOnce {
    type Min = R;

    proof fn min_is_weaker() {
    }
}

impl<R: Retries> MinRetries<R> for AtLeastOnce {
    type Min = AtLeastOnce;

    proof fn min_is_weaker() {
    }
}

/// A retry guarantee that is no stronger than `Other`.
pub trait WeakerRetryThan<Other: Retries>: Retries {
    proof fn is_weaker()
        ensures
            Self::retries_spec() == StreamRetry::AtLeastOnce || Self::retries_spec()
                == Other::retries_spec(),
    ;
}

impl WeakerRetryThan<ExactlyOnce> for ExactlyOnce {
    proof fn is_weaker() {
    }
}

impl<R: Retries> WeakerRetryThan<R> for AtLeastOnce {
    proof fn is_weaker() {
    }
}

} // verus!
