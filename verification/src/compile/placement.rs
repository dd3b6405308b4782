//! Where the nodes of a plan run.
use super::ir::{HydroNode, HydroOp};
use crate::location::dynamic::LocationId;
use vstd::prelude::*;

verus! {

/// Whether the location is a tick of the other one.
pub open spec fn is_tick_of(tick: LocationId, outer: LocationId) -> bool {
    tick matches LocationId::Tick(_, l) && *l == outer
}

/// Whether the location is that of atomic sections in a tick of the other one.
pub open spec fn is_atomic_of(atomic: LocationId, outer: LocationId) -> bool {
    atomic matches LocationId::Atomic(t) && is_tick_of(*t, outer)
}

/// Whether every node of a plan runs where its inputs are. Only a batch brings data into a tick,
/// from the tick's location or from its atomic sections; only yielding takes data out of a tick
/// again; and only beginning and ending an atomic section leads into one and out of it.
pub open spec fn is_placed(node: HydroNode) -> bool
    decreases node,
{
    let at = node.metadata.location_id;
    match node.op {
        HydroOp::Source { .. } => true,
        HydroOp::SingletonSource { .. } => true,
        HydroOp::CycleSource { .. } => true,
        HydroOp::ExternalInput { .. } => true,
        HydroOp::Tee { shared } => shared.metadata.location_id == at,
        HydroOp::MapEach { input, .. } => input.metadata.location_id == at && is_placed(*input),
        HydroOp::FlatMap { input, .. } => input.metadata.location_id == at && is_placed(*input),
        HydroOp::Filter { input, .. } => input.metadata.location_id == at && is_placed(*input),
        HydroOp::FilterMap { input, .. } => input.metadata.location_id == at && is_placed(*input),
        HydroOp::Inspect { input, .. } => input.metadata.location_id == at && is_placed(*input),
        HydroOp::CrossSingleton { left, right } => {
            &&& left.metadata.location_id == at && is_placed(*left)
            &&& right.metadata.location_id == at && is_placed(*right)
        },
        HydroOp::CrossProduct { left, right } => {
            &&& left.metadata.location_id == at && is_placed(*left)
            &&& right.metadata.location_id == at && is_placed(*right)
        },
        HydroOp::Unique { input } => input.metadata.location_id == at && is_placed(*input),
        HydroOp::Difference { pos, neg } => {
            &&& pos.metadata.location_id == at && is_placed(*pos)
            &&& neg.metadata.location_id == at && is_placed(*neg)
        },
        HydroOp::Cast { inner } => inner.metadata.location_id == at && is_placed(*inner),
        HydroOp::ObserveNonDet { inner, .. } => inner.metadata.location_id == at && is_placed(
            *inner,
        ),
        HydroOp::Fold { input, .. } => input.metadata.location_id == at && is_placed(*input),
        HydroOp::FoldKeyed { input, .. } => input.metadata.location_id == at && is_placed(*input),
        HydroOp::Reduce { input, .. } => input.metadata.location_id == at && is_placed(*input),
        HydroOp::Scan { input, .. } => input.metadata.location_id == at && is_placed(*input),
        HydroOp::Enumerate { input } => input.metadata.location_id == at && is_placed(*input),
        HydroOp::Chain { first, second } => {
            &&& first.metadata.location_id == at && is_placed(*first)
            &&& second.metadata.location_id == at && is_placed(*second)
        },
        HydroOp::ChainFirst { first, second } => {
            &&& first.metadata.location_id == at && is_placed(*first)
            &&& second.metadata.location_id == at && is_placed(*second)
        },
        HydroOp::Sort { input } => input.metadata.location_id == at && is_placed(*input),
        HydroOp::Join { left, right } => {
            &&& left.metadata.location_id == at && is_placed(*left)
            &&& right.metadata.location_id == at && is_placed(*right)
        },
        HydroOp::AntiJoin { pos, neg } => {
            &&& pos.metadata.location_id == at && is_placed(*pos)
            &&& neg.metadata.location_id == at && is_placed(*neg)
        },
        HydroOp::Batch { inner } => {
            &&& is_tick_of(at, inner.metadata.location_id) || inner.metadata.location_id
                == LocationId::Atomic(Box::new(at))
            &&& is_placed(*inner)
        },
        HydroOp::YieldConcat { inner } => {
            &&& is_tick_of(inner.metadata.location_id, at) || at == LocationId::Atomic(
                Box::new(inner.metadata.location_id),
            )
            &&& is_placed(*inner)
        },
        HydroOp::BeginAtomic { inner } => is_atomic_of(at, inner.metadata.location_id)
            && is_placed(*inner),
        HydroOp::EndAtomic { inner } => is_atomic_of(inner.metadata.location_id, at) && is_placed(
            *inner,
        ),
        HydroOp::DeferTick { input } => input.metadata.location_id == at && at is Tick && is_placed(
            *input,
        ),
        HydroOp::ResolveFutures { input } => input.metadata.location_id == at && is_placed(*input),
        HydroOp::ResolveFuturesOrdered { input } => input.metadata.location_id == at && is_placed(
            *input,
        ),
    }
}

} // verus!
