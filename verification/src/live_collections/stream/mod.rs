//! Streams: sequences of elements that grow while the program runs.
use super::boundedness::{Boundedness, Unbounded};
use crate::compile::ir::{node_spec, BoundKind, CollectionKind, HydroNode, HydroOp};
use crate::datum::Dup;
use crate::location::dynamic::DynLocation;
use crate::trace::{only_first_round, Trace};
use core::marker::PhantomData;
use std::rc::Rc;
use vstd::prelude::*;

pub mod aggregate;
pub mod combine;
pub mod keyed;
pub mod laws;
pub mod markers;
pub mod sampling;
pub mod timing;
pub mod transform;

pub use markers::{
    AtLeastOnce, ExactlyOnce, MinOrder, MinRetries, NoOrder, Retries, StreamOrdering, TotalOrder,
    WeakerOrderingThan, WeakerRetryThan,
};

verus! {

/// Streaming sequence of elements with type `Type`.
///
/// The stream is materialized at the location `Loc`. `Bound` tells whether it is bounded;
/// `Order` and `Retry` tell which guarantees it gives about the order of its elements and
/// about repetitions.
pub struct Stream<Type, Loc, Bound = Unbounded, Order = TotalOrder, Retry = ExactlyOnce> {
    pub location: Loc,
    /// The plan that yields this stream.
    pub ir_node: HydroNode,
    /// The elements that arrive in a run, round by round.
    pub trace: Trace<Type>,
    pub markers: PhantomData<(Bound, Order, Retry)>,
}

impl<T, L: DynLocation, B: Boundedness, O: StreamOrdering, R: Retries> Stream<T, L, B, O, R> {
    pub open spec fn kind_spec() -> CollectionKind {
        CollectionKind::Stream {
            bound: B::bound_spec(),
            order: O::ordering_spec(),
            retry: R::retries_spec(),
        }
    }

    /// Whether a trace can be that of such a stream at the location: it has one entry per
    /// round, and outside of ticks a bounded stream is complete after the first round.
    pub open spec fn trace_ok(location: L, t: Seq<Seq<T>>) -> bool {
        &&& t.len() == location.horizon_spec()
        &&& t.len() >= 1
        &&& L::is_top_level_spec() && B::bound_spec() == BoundKind::Bounded ==> only_first_round(t)
    }

    /// The plan and the trace fit to the location and to the guarantees.
    pub open spec fn wf(self) -> bool {
        &&& self.ir_node.metadata.location_id == self.location.id_spec()
        &&& self.ir_node.metadata.collection_kind == Self::kind_spec()
        &&& Self::trace_ok(self.location, self.trace@)
    }

    /// Whether this is the stream that the operation yields at the location.
    pub open spec fn is_built(self, location: L, op: HydroOp) -> bool {
        &&& self.wf()
        &&& self.location == location
        &&& self.ir_node == node_spec(op, location.id_spec(), Self::kind_spec())
    }

    pub fn collection_kind() -> (r: CollectionKind)
        ensures
            r == Self::kind_spec(),
    {
        CollectionKind::Stream {
            bound: B::bound_kind(),
            order: O::ordering_kind(),
            retry: R::retries_kind(),
        }
    }

    /// The stream that the operation yields at the location.
    pub fn new(location: L, op: HydroOp, trace: Trace<T>) -> (r: Self)
        requires
            Self::trace_ok(location, trace@),
        ensures
            r.is_built(location, op),
            r.trace == trace,
    {
        let ir_node = HydroNode::new(op, location.location_id(), Self::collection_kind());
        Stream { location, ir_node, trace, markers: PhantomData }
    }

    /// Returns the location where this stream is being materialized.
    pub fn location(&self) -> (r: &L)
        ensures
            *r == self.location,
    {
        &self.location
    }

    /// Gives the node of this stream a name.
    pub fn ir_node_named(self, name: &str) -> (r: Self)
        requires
            self.wf(),
        ensures
            r.wf(),
            r.location == self.location,
            r.trace == self.trace,
            r.ir_node.op == self.ir_node.op,
            r.ir_node.metadata.tag matches Some(t) && t@ == name@,
    {
        let mut node = self.ir_node;
        node.metadata.tag = Some(name.to_owned());
        Stream {
            location: self.location,
            ir_node: node,
            trace: self.trace,
            markers: PhantomData,
        }
    }

    /// A second stream with the same elements. Both then share one node of the plan.
    pub fn clone(&mut self) -> (r: Self) where T: Dup
        requires
            old(self).wf(),
        ensures
            r.wf(),
            final(self).wf(),
            r.location == old(self).location,
            final(self).location == old(self).location,
            r.trace@ == old(self).trace@,
            final(self).trace == old(self).trace,
            r.ir_node == final(self).ir_node,
            old(self).ir_node.op is Tee ==> final(self).ir_node == old(self).ir_node,
            !(old(self).ir_node.op is Tee) ==> final(self).ir_node == node_spec(
                HydroOp::Tee { shared: Rc::new(old(self).ir_node) },
                old(self).location.id_spec(),
                Self::kind_spec(),
            ),
    {
        let is_tee = match &self.ir_node.op {
            HydroOp::Tee { .. } => true,
            _ => false,
        };
        if !is_tee {
            let mut node = HydroNode::new(
                HydroOp::CycleSource { ident: String::new() },
                self.location.location_id(),
                Self::collection_kind(),
            );
            std::mem::swap(&mut node, &mut self.ir_node);
            self.ir_node = HydroNode::new(
                HydroOp::Tee { shared: Rc::new(node) },
                self.location.location_id(),
                Self::collection_kind(),
            );
        }
        let shared = match &self.ir_node.op {
            HydroOp::Tee { shared } => HydroOp::Tee { shared: shared.clone() },
            _ => HydroOp::CycleSource { ident: String::new() },
        };
        Stream {
            location: self.location.dup(),
            ir_node: HydroNode { op: shared, metadata: self.ir_node.metadata.dup() },
            trace: self.trace.dup(),
            markers: PhantomData,
        }
    }
}

} // verus!
