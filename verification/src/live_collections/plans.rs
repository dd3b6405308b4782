//! What holds of the plans that operators build up.
use super::boundedness::{Bounded, Boundedness};
use super::optional::is_absence_node;
use super::singleton::timing::{is_sample_plan, snapshot_node};
use super::singleton::{is_signal_plan, is_zip_in_place, is_zip_through_tick, Singleton};
use super::stream::aggregate::is_made_deterministic;
use super::stream::keyed::{is_keys_plan, is_trusted_keys};
use super::stream::sampling::{
    is_passed_plan, is_sampled_plan, is_timeout_plan, is_timer_signal, is_value_sampled_plan,
};
use super::stream::{Retries, StreamOrdering};
use crate::compile::ir::{BoundKind, HydroNode, HydroOp, StreamOrder, StreamRetry};
use crate::compile::placement::is_placed;
use crate::forward_handle::with_initial;
use crate::location::dynamic::{DynLocation, LocationId};
use crate::location::tick::Tick;
use vstd::prelude::*;

verus! {

/// Zipping through a tick takes both values into the tick and the pair out of it again.
pub proof fn law_zip_is_placed<L: DynLocation, B: Boundedness>(
    node: HydroNode,
    left: HydroNode,
    right: HydroNode,
    tick: Tick<L>,
)
    requires
        is_placed(left),
        is_placed(right),
        left.metadata.location_id == tick.l.id_spec(),
        right.metadata.location_id == tick.l.id_spec(),
        is_zip_through_tick(node, left, right, tick) || is_zip_in_place(
            node,
            left,
            right,
            tick.l.id_spec(),
            B::bound_spec(),
        ) || is_signal_plan::<L, B>(node, left, right, tick),
    ensures
        is_placed(node),
        node.metadata.location_id == tick.l.id_spec(),
{
    reveal_with_fuel(is_placed, 6);
}

/// Samples of a value are taken out of the tick in which the value was looked at.
pub proof fn law_samples_are_placed<L: DynLocation>(node: HydroNode, source: HydroNode, tick: Tick<L>)
    requires
        is_placed(source),
        source.metadata.location_id == tick.l.id_spec(),
        node.metadata.location_id == tick.l.id_spec(),
        is_sample_plan(node.op, snapshot_node(source, tick), tick),
    ensures
        is_placed(node),
{
    reveal_with_fuel(is_placed, 6);
}

proof fn lemma_timer_is_placed<L: DynLocation>(node: HydroNode, interval: Seq<char>, tick: Tick<L>)
    requires
        is_timer_signal(node, interval, tick),
    ensures
        is_placed(node),
        node.metadata.location_id == tick.id_spec(),
{
    reveal_with_fuel(is_placed, 5);
}

/// What is sampled by a timer goes into the tick together with the timer, and comes out of it
/// again.
pub proof fn law_sampling_is_placed<L: DynLocation, O: StreamOrdering, R: Retries>(
    node: HydroNode,
    source: HydroNode,
    interval: Seq<char>,
    tick: Tick<L>,
)
    requires
        is_placed(source),
        source.metadata.location_id == tick.l.id_spec(),
        is_sampled_plan::<L, O, R>(node, source, interval, tick),
    ensures
        is_placed(node),
        node.metadata.location_id == tick.l.id_spec(),
{
    if R::retries_spec() == StreamRetry::ExactlyOnce {
        if let HydroOp::Cast { inner } = node.op {
            lemma_passed_is_placed::<L, O, R>(*inner, source, interval, tick);
        }
    } else {
        lemma_passed_is_placed::<L, O, R>(node, source, interval, tick);
    }
}

proof fn lemma_passed_is_placed<L: DynLocation, O: StreamOrdering, R: Retries>(
    node: HydroNode,
    source: HydroNode,
    interval: Seq<char>,
    tick: Tick<L>,
)
    requires
        is_placed(source),
        source.metadata.location_id == tick.l.id_spec(),
        is_passed_plan::<L, O, R>(node, source, interval, tick),
    ensures
        is_placed(node),
        node.metadata.location_id == tick.l.id_spec(),
{
    if let HydroOp::YieldConcat { inner } = node.op {
        if let HydroOp::MapEach { f, input } = inner.op {
            if let HydroOp::CrossSingleton { left, right } = input.op {
                lemma_timer_is_placed(*right, interval, tick);
                assert(is_placed(*left));
                assert(is_placed(*input));
                assert(is_placed(*inner));
            }
        }
    }
}

/// A value that is sampled by a timer is looked at in the tick, and the samples come out of it.
pub proof fn law_value_sampling_is_placed<L: DynLocation>(
    node: HydroNode,
    source: HydroNode,
    interval: Seq<char>,
    tick: Tick<L>,
)
    requires
        is_placed(source),
        source.metadata.location_id == tick.l.id_spec(),
        is_value_sampled_plan(node, source, interval, tick),
    ensures
        is_placed(node),
        node.metadata.location_id == tick.l.id_spec(),
{
    if let HydroOp::Cast { inner: outside } = node.op {
        if let HydroOp::YieldConcat { inner: listed } = outside.op {
            if let HydroOp::Cast { inner: passed } = listed.op {
                if let HydroOp::MapEach { f, input } = passed.op {
                    if let HydroOp::CrossSingleton { left, right } = input.op {
                        lemma_timer_is_placed(*right, interval, tick);
                        assert(is_placed(*left));
                        assert(is_placed(*input));
                        assert(is_placed(*passed));
                        assert(is_placed(*listed));
                        assert(is_placed(*outside));
                    }
                }
            }
        }
    }
}

/// A timeout is noticed in the tick and told outside of it.
pub proof fn law_timeout_is_placed<L: DynLocation>(
    node: HydroNode,
    source: HydroNode,
    bound: BoundKind,
    order: StreamOrder,
    retry: StreamRetry,
    duration: Seq<char>,
    tick: Tick<L>,
)
    requires
        is_placed(source),
        source.metadata.location_id == tick.l.id_spec(),
        is_timeout_plan(node, source, bound, order, retry, duration, tick),
    ensures
        is_placed(node),
        node.metadata.location_id == tick.l.id_spec(),
{
    reveal_with_fuel(is_placed, 8);
}

/// Listing keys and making a stream deterministic happen where the stream is.
pub proof fn law_casts_are_placed<L: DynLocation, O: StreamOrdering, R: Retries>(
    node: HydroNode,
    source: HydroNode,
    tick: Tick<L>,
    bound: BoundKind,
    order_trusted: bool,
    retry_trusted: bool,
)
    requires
        is_placed(source),
        source.metadata.location_id == tick.id_spec(),
        is_keys_plan::<L, O, R>(node, source, tick) || is_trusted_keys::<R>(
            node,
            tick.id_spec(),
            source,
        ) || is_made_deterministic(
            node,
            source,
            tick.id_spec(),
            bound,
            O::ordering_spec(),
            R::retries_spec(),
            order_trusted,
            retry_trusted,
        ),
    ensures
        is_placed(node),
        node.metadata.location_id == tick.id_spec(),
{
    reveal_with_fuel(is_placed, 6);
}

/// The absence of a value is told where the value is.
pub proof fn law_absence_is_placed(
    node: HydroNode,
    location_id: LocationId,
    bound: BoundKind,
    source: HydroNode,
)
    requires
        is_placed(source),
        source.metadata.location_id == location_id,
        is_absence_node(node, location_id, bound, source),
    ensures
        is_placed(node),
        node.metadata.location_id == location_id,
{
    reveal_with_fuel(is_placed, 6);
}

/// A cycle with an initial value looks first at the value of the last tick, and at the initial one
/// only if there is none.
pub proof fn law_initial_comes_second<T, L: DynLocation>(
    node: HydroNode,
    ident: String,
    initial: Singleton<T, Tick<L>, Bounded>,
    location: Tick<L>,
)
    requires
        is_placed(initial.ir_node),
        initial.ir_node.metadata.location_id == location.id_spec(),
        initial.location.id_spec() == location.id_spec(),
        node.metadata.location_id == location.id_spec(),
        node.op == with_initial(ident, initial, location),
    ensures
        is_placed(node),
        node.op matches HydroOp::Cast { inner } && (
        inner.op matches HydroOp::ChainFirst { first, second } && (
        first.op matches HydroOp::DeferTick { input } && input.op == HydroOp::CycleSource { ident })
            && (second.op matches HydroOp::Cast { inner: given } && *given == initial.ir_node)),
{
    reveal_with_fuel(is_placed, 6);
}

} // verus!
