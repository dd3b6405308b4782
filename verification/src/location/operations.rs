//! What can be done at a location: creating clocks, sources and ports.
use super::cluster::Cluster;
use super::dynamic::{DynLocation, LocationId};
use super::external_process::{
    External, ExternalBincodeBidi, ExternalBincodeSink, ExternalBytesPort, Many, NotMany,
    SimSender,
};
use super::key::{decimal, key_text, LocationKey};
use super::member_id::{MemberId, TaglessMemberId};
use super::tick::{NoTick, Tick};
use super::{MembershipEvent, NetworkHint};
use crate::compile::builder::{cycle_ident, FlowBuilder};
use crate::compile::ir::{
    is_at, node_spec, ordered_kind, BoundKind, CollectionKind, DebugExpr, HydroNode, HydroOp,
    HydroRoot, HydroSource, StreamOrder, StreamRetry,
};
use crate::datum::Dup;
use crate::forward_handle::{CycleCollection, ForwardHandle};
use crate::live_collections::boundedness::{Bounded, Unbounded};
use crate::live_collections::keyed_stream::{is_value_mapped, on_values, KeyedStream};
use crate::live_collections::quoted::Quoted;
use crate::live_collections::singleton::Singleton;
use crate::live_collections::stream::{
    ExactlyOnce, NoOrder, Stream, TotalOrder, WeakerOrderingThan, WeakerRetryThan,
};
use crate::nondet::NonDet;
use crate::text::{decimal_text, text_of_parts};
use crate::trace::{is_flat_mapped, is_mapped, Trace};
use core::marker::PhantomData;
use vstd::prelude::*;
use vstd::string::StringExecFns;

verus! {

/// Whether a trace has as many rounds as a run at the location.
pub open spec fn covers<T, L: DynLocation>(location: L, t: Seq<Seq<T>>) -> bool {
    t.len() == location.horizon_spec() && t.len() >= 1
}

/// The plan of an ordered source without repetitions.
pub open spec fn source_node<T, L: DynLocation>(location: L, source: HydroSource) -> HydroNode {
    node_spec(
        HydroOp::Source { source },
        location.id_spec(),
        Stream::<T, L, Unbounded, TotalOrder, ExactlyOnce>::kind_spec(),
    )
}

/// Where data can be materialized and computation can be executed.
pub trait Location: DynLocation {
    /// Returns the unique identifier for this location.
    fn id(&self) -> (r: LocationId)
        ensures
            r == self.id_spec(),
    {
        self.location_id()
    }

    /// Attempts to create a new clock at this location. There is none if this location is
    /// already inside a tick.
    fn try_tick(&self, flow: &mut FlowBuilder) -> (r: Option<Tick<Self>>)
        requires
            old(flow).next_clock_id < usize::MAX,
        ensures
            if Self::is_top_level_spec() {
                &&& r == Some(Tick { id: old(flow).next_clock_id, l: *self })
                &&& *final(flow) == (FlowBuilder {
                    next_clock_id: (old(flow).next_clock_id + 1) as usize,
                    ..*old(flow)
                })
            } else {
                r is None && *final(flow) == *old(flow)
            },
    {
        if Self::is_top_level() {
            Some(flow.next_tick(self))
        } else {
            None
        }
    }

    /// Creates a new clock at this location.
    fn tick(&self, flow: &mut FlowBuilder) -> (r: Tick<Self>) where Self: NoTick
        requires
            old(flow).next_clock_id < usize::MAX,
        ensures
            r == (Tick { id: old(flow).next_clock_id, l: *self }),
            *final(flow) == (FlowBuilder {
                next_clock_id: (old(flow).next_clock_id + 1) as usize,
                ..*old(flow)
            }),
    {
        flow.next_tick(self)
    }

    /// Creates a stream that continuously emits unit values, one per round.
    fn spin(&self) -> (r: Stream<(), Self, Unbounded, TotalOrder, ExactlyOnce>) where Self: NoTick
        requires
            self.horizon_spec() >= 1,
        ensures
            r.is_built(*self, HydroOp::Source { source: HydroSource::Spin }),
            forall|i: int| 0 <= i < r.trace@.len() ==> #[trigger] r.trace@[i] == seq![()],
    {
        let trace = repeat_each(self.horizon(), &());
        Stream::new(self.dup(), HydroOp::Source { source: HydroSource::Spin }, trace)
    }

    /// Creates a stream from an asynchronous source, given by its expression and by what
    /// arrives from it.
    fn source_stream<T>(&self, e: DebugExpr, arrivals: Trace<T>) -> (r: Stream<
        T,
        Self,
        Unbounded,
        TotalOrder,
        ExactlyOnce,
    >) where Self: NoTick
        requires
            covers(*self, arrivals@),
        ensures
            r.is_built(*self, HydroOp::Source { source: HydroSource::Stream(e) }),
            r.trace == arrivals,
    {
        Stream::new(
            self.dup(),
            HydroOp::Source { source: HydroSource::Stream(e) },
            arrivals,
        )
    }

    /// Creates a bounded stream from a list. All elements are emitted in order.
    fn source_iter<T>(&self, e: Quoted<Vec<T>>) -> (r: Stream<
        T,
        Self,
        Bounded,
        TotalOrder,
        ExactlyOnce,
    >) where Self: NoTick
        requires
            self.horizon_spec() >= 1,
        ensures
            r.is_built(*self, HydroOp::Source { source: HydroSource::Iter(e.code) }),
            r.trace@[0] == e.value@,
    {
        let trace = Trace::at_first(self.horizon(), e.value);
        Stream::new(
            self.dup(),
            HydroOp::Source { source: HydroSource::Iter(e.code) },
            trace,
        )
    }

    /// Creates a stream of the membership events of a cluster, by member.
    fn source_cluster_members<C>(
        &self,
        cluster: &Cluster<C>,
        events: Trace<(TaglessMemberId, MembershipEvent)>,
    ) -> (r: KeyedStream<MemberId<C>, MembershipEvent, Self, Unbounded, TotalOrder, ExactlyOnce>)
        where Self: NoTick
        requires
            covers(*self, events@),
        ensures
            r.wf(),
            r.location == *self,
            r.ir_node.metadata.tag is None,
            r.ir_node.op matches HydroOp::Cast { inner } && is_at(
                *inner,
                self.id_spec(),
                ordered_kind(BoundKind::Unbounded),
            ) && (inner.op matches HydroOp::MapEach { f, input } && f.code@ == "|(k, v)| (MemberId::from_tagless(k), v)"@ && *input
                == source_node::<(TaglessMemberId, MembershipEvent), Self>(
                *self,
                HydroSource::ClusterMembers(cluster.id_spec()),
            )),
            forall|i: int|
                0 <= i < r.trace@.len() ==> #[trigger] r.trace@[i] == tag_members::<C>(events@[i]),
    {
        let ghost t = events@;
        let source = Stream::<_, Self, Unbounded, TotalOrder, ExactlyOnce>::new(
            self.dup(),
            HydroOp::Source { source: HydroSource::ClusterMembers(cluster.location_id()) },
            events,
        );
        let tag = |e: (TaglessMemberId, MembershipEvent)| -> (r: (MemberId<C>, MembershipEvent))
            ensures
                r == (MemberId::<C> { raw_id: e.0.raw_id, tag: PhantomData }, e.1),
            { (MemberId::from_tagless(e.0), e.1) };
        let tagged = source.map(Quoted::new("|(k, v)| (MemberId::from_tagless(k), v)", tag));
        proof {
            assert forall|i: int| 0 <= i < tagged.trace@.len() implies #[trigger] tagged.trace@[i]
                == tag_members::<C>(t[i]) by {
                assert(is_mapped(tag, t[i], tagged.trace@[i]));
                assert forall|j: int| 0 <= j < t[i].len() implies tagged.trace@[i][j]
                    == tag_members::<C>(t[i])[j] by {
                    assert(tag.ensures((t[i][j],), tagged.trace@[i][j]));
                }
                assert(tagged.trace@[i] =~= tag_members::<C>(t[i]));
            }
        }
        tagged.into_keyed()
    }

    /// Constructs a singleton with the given static value.
    fn singleton<T: Dup>(&self, e: Quoted<T>) -> (r: Singleton<T, Self, Bounded>)
        requires
            self.horizon_spec() >= 1,
        ensures
            r.is_built(*self, HydroOp::SingletonSource { value: e.code }),
            r.trace@[0] == seq![e.value],
            !Self::is_top_level_spec() ==> forall|i: int|
                0 <= i < r.trace@.len() ==> #[trigger] r.trace@[i] == seq![e.value],
    {
        let trace = if Self::is_top_level() {
            let mut one: Vec<T> = Vec::new();
            one.push(e.value);
            assert(one@ =~= seq![e.value]);
            Trace::at_first(self.horizon(), one)
        } else {
            repeat_each(self.horizon(), &e.value)
        };
        Singleton::new(self.dup(), HydroOp::SingletonSource { value: e.code }, trace)
    }

    /// Creates a forward reference. Returns a handle that must be completed with the actual
    /// collection, and a placeholder that can be used before that. `expected` is what comes
    /// back of the actual collection.
    fn forward_ref<S: CycleCollection<Location = Self>>(
        &self,
        flow: &mut FlowBuilder,
        expected: Trace<S::Item>,
    ) -> (r: (ForwardHandle<S>, S))
        requires
            S::source_ok(*self, expected@),
            old(flow).next_cycle_id < usize::MAX,
        ensures
            r.0.ident@ == cycle_ident(old(flow).next_cycle_id),
            r.0.expected_location == self.id_spec(),
            r.0.expected@ == Some(expected@),
            r.1.is_source(r.0.ident, *self, expected),
            *final(flow) == (FlowBuilder {
                next_cycle_id: (old(flow).next_cycle_id + 1) as usize,
                ..*old(flow)
            }),
    {
        let ident = flow.next_cycle();
        let handle = ForwardHandle {
            ident: ident.clone(),
            expected_location: self.location_id(),
            collection: PhantomData,
            expected: Ghost(Some(expected@)),
        };
        (handle, S::create_source(ident, self.dup(), expected))
    }

    /// Generates a stream with unit values emitted at a fixed interval.
    fn source_interval(&self, interval: &DebugExpr, samples: Trace<()>) -> (r: Stream<
        (),
        Self,
        Unbounded,
        TotalOrder,
        ExactlyOnce,
    >) where Self: NoTick
        requires
            covers(*self, samples@),
        ensures
            r.wf(),
            r.location == *self,
            is_stream_source(r.ir_node, self.id_spec(), ordered_kind(BoundKind::Unbounded), interval_text(interval.code@)),
            r.trace == samples,
    {
        let code = text_of_parts(
            "tokio_stream::StreamExt::map(tokio_stream::wrappers::IntervalStream::new(tokio::time::interval(",
            interval.code.as_str(),
            ")), |_| ())",
        );
        self.source_stream(DebugExpr { code }, samples)
    }

    /// Generates a stream with unit values emitted at a fixed interval, with an initial delay
    /// before the first value.
    fn source_interval_delayed(
        &self,
        delay: &DebugExpr,
        interval: &DebugExpr,
        samples: Trace<()>,
    ) -> (r: Stream<(), Self, Unbounded, TotalOrder, ExactlyOnce>) where Self: NoTick
        requires
            covers(*self, samples@),
        ensures
            r.wf(),
            r.location == *self,
            is_stream_source(r.ir_node, self.id_spec(), ordered_kind(BoundKind::Unbounded), delayed_text(delay.code@, interval.code@)),
            r.trace == samples,
    {
        let start = text_of_parts(
            "tokio_stream::StreamExt::map(tokio_stream::wrappers::IntervalStream::new(tokio::time::interval_at(tokio::time::Instant::now() + ",
            delay.code.as_str(),
            ", ",
        );
        let code = text_of_parts(start.as_str(), interval.code.as_str(), ")), |_| ())");
        self.source_stream(DebugExpr { code }, samples)
    }

    /// Generates a stream with values emitted at a fixed interval, each being the time at
    /// which it is emitted. Which times these are, only a run tells.
    fn source_interval_with_time(
        &self,
        interval: &DebugExpr,
        times: Trace<u64>,
        nondet: NonDet,
    ) -> (r: Stream<u64, Self, Unbounded, TotalOrder, ExactlyOnce>) where Self: NoTick
        requires
            covers(*self, times@),
        ensures
            r.wf(),
            r.location == *self,
            is_stream_source(r.ir_node, self.id_spec(), ordered_kind(BoundKind::Unbounded), interval_time_text(interval.code@)),
            r.trace == times,
    {
        let code = text_of_parts(
            "tokio_stream::wrappers::IntervalStream::new(tokio::time::interval(",
            interval.code.as_str(),
            "))",
        );
        self.source_stream(DebugExpr { code }, times)
    }

    /// Like [`Location::source_interval_with_time`], with an initial delay before the first
    /// value.
    fn source_interval_delayed_with_time(
        &self,
        delay: &DebugExpr,
        interval: &DebugExpr,
        times: Trace<u64>,
        nondet: NonDet,
    ) -> (r: Stream<u64, Self, Unbounded, TotalOrder, ExactlyOnce>) where Self: NoTick
        requires
            covers(*self, times@),
        ensures
            r.wf(),
            r.location == *self,
            is_stream_source(r.ir_node, self.id_spec(), ordered_kind(BoundKind::Unbounded), delayed_time_text(delay.code@, interval.code@)),
            r.trace == times,
    {
        let start = text_of_parts(
            "tokio_stream::wrappers::IntervalStream::new(tokio::time::interval_at(tokio::time::Instant::now() + ",
            delay.code.as_str(),
            ", ",
        );
        let code = text_of_parts(start.as_str(), interval.code.as_str(), "))");
        self.source_stream(DebugExpr { code }, times)
    }

    /// Establishes a server on this location to receive a bidirectional connection from a
    /// single client. Returns a port, the stream of incoming messages, and a handle for the
    /// outgoing messages. `received` is what the codec makes of the bytes that arrive; what it
    /// could not make out is dropped.
    fn bind_single_client<E, In, Error, Out>(
        &self,
        flow: &mut FlowBuilder,
        from: &External<E>,
        codec: &str,
        port_hint: NetworkHint,
        received: Trace<Result<In, Error>>,
    ) -> (r: (
        ExternalBytesPort<NotMany>,
        Stream<In, Self, Unbounded, TotalOrder, ExactlyOnce>,
        ForwardHandle<Stream<Out, Self, Unbounded, TotalOrder, ExactlyOnce>>,
    )) where Self: NoTick
        requires
            covers(*self, received@),
            old(flow).next_external_port < usize::MAX,
            old(flow).next_cycle_id < usize::MAX,
        ensures
            r.0.process_key == from.key,
            r.0.port_id == old(flow).next_external_port,
            r.1.wf(),
            r.1.location == *self,
            r.1.ir_node.metadata.tag is None,
            r.1.ir_node.op matches HydroOp::FlatMap { f, input } && f.code@ == "|d| d"@
                && is_port_input(
                *input,
                self.id_spec(),
                ordered_kind(BoundKind::Unbounded),
                from.key,
                old(flow).next_external_port,
                false,
                codec@,
                port_hint,
                None,
            ),
            forall|i: int|
                0 <= i < r.1.trace@.len() ==> #[trigger] r.1.trace@[i] == decoded(received@[i]),
            is_reply_handle(r.2, *self, *old(flow)),
            port_opened(*old(flow), *final(flow)),
            is_port_output(
                final(flow).roots@.last(),
                from.key,
                old(flow).next_external_port,
                false,
                None,
                reply_node::<Stream<Out, Self, Unbounded, TotalOrder, ExactlyOnce>, Self>(
                    r.2.ident,
                    *self,
                    Stream::<Out, Self, Unbounded, TotalOrder, ExactlyOnce>::kind_spec(),
                ),
            ),
    {
        let port_id: usize = flow.next_port();
        let silence: Trace<Out> = Trace::empty(self.horizon());
        let (handle, to_sink) = self.forward_ref::<
            Stream<Out, Self, Unbounded, TotalOrder, ExactlyOnce>,
        >(flow, silence);
        flow.push_root(
            HydroRoot::SendExternal {
                to_external_key: from.key,
                to_port_id: port_id,
                to_many: false,
                unpaired: false,
                serialize_fn: None,
                input: Box::new(to_sink.ir_node),
            },
        );
        assert(flow.roots@.drop_last() =~= old(flow).roots@);
        let raw_stream = Stream::<
            Result<In, Error>,
            Self,
            Unbounded,
            TotalOrder,
            ExactlyOnce,
        >::new(
            self.dup(),
            HydroOp::ExternalInput {
                from_external_key: from.key,
                from_port_id: port_id,
                from_many: false,
                codec_type: codec.to_owned(),
                port_hint,
                deserialize_fn: None,
            },
            received,
        );
        let port = ExternalBytesPort { process_key: from.key, port_id, clients: PhantomData };
        (port, keep_decoded(raw_stream), handle.for_output())
    }

    /// Creates a one-way connection from an external process to receive raw bytes.
    fn source_external_bytes<E, Error>(
        &self,
        flow: &mut FlowBuilder,
        from: &External<E>,
        received: Trace<Result<Vec<u8>, Error>>,
    ) -> (r: (
        ExternalBytesPort<NotMany>,
        Stream<Vec<u8>, Self, Unbounded, TotalOrder, ExactlyOnce>,
    )) where Self: NoTick
        requires
            covers(*self, received@),
            old(flow).next_external_port < usize::MAX,
            old(flow).next_cycle_id < usize::MAX,
        ensures
            r.0.process_key == from.key,
            r.0.port_id == old(flow).next_external_port,
            r.1.wf(),
            r.1.location == *self,
            r.1.ir_node.metadata.tag is None,
            r.1.ir_node.op matches HydroOp::FlatMap { f, input } && f.code@ == "|d| d"@
                && is_port_input(
                *input,
                self.id_spec(),
                ordered_kind(BoundKind::Unbounded),
                from.key,
                old(flow).next_external_port,
                false,
                length_delimited(),
                NetworkHint::Auto,
                None,
            ),
            forall|i: int|
                0 <= i < r.1.trace@.len() ==> #[trigger] r.1.trace@[i] == decoded(received@[i]),
            one_way_opened::<Vec<u8>, Self>(
                *old(flow),
                *final(flow),
                *self,
                from.key,
                None,
            ),
    {
        let (port, stream, sink) = self.bind_single_client::<E, Vec<u8>, Error, Vec<u8>>(
            flow,
            from,
            "tokio_util::codec::LengthDelimitedCodec",
            NetworkHint::Auto,
            received,
        );
        let nothing: Vec<Vec<u8>> = Vec::new();
        sink.complete(flow, self.source_iter(Quoted::new("[]", nothing)).into_unbounded());
        assert(flow.roots@.take(old(flow).roots@.len() as int) =~= old(flow).roots@);
        (port, stream)
    }

    /// Establishes a bidirectional connection from a single external client, with serialized
    /// values. The types of the values are given by their source text, and `received` is what
    /// arrives. A value that cannot be read stops the program.
    fn bind_single_client_bincode<E, InT, OutT>(
        &self,
        flow: &mut FlowBuilder,
        from: &External<E>,
        in_type: &str,
        out_type: &str,
        received: Trace<InT>,
    ) -> (r: (
        ExternalBincodeBidi<InT, OutT, NotMany>,
        Stream<InT, Self, Unbounded, TotalOrder, ExactlyOnce>,
        ForwardHandle<Stream<OutT, Self, Unbounded, TotalOrder, ExactlyOnce>>,
    )) where Self: NoTick
        requires
            covers(*self, received@),
            old(flow).next_external_port < usize::MAX,
            old(flow).next_cycle_id < usize::MAX,
        ensures
            r.0.process_key == from.key,
            r.0.port_id == old(flow).next_external_port,
            r.1.wf(),
            r.1.location == *self,
            is_port_input(
                r.1.ir_node,
                self.id_spec(),
                ordered_kind(BoundKind::Unbounded),
                from.key,
                old(flow).next_external_port,
                false,
                length_delimited(),
                NetworkHint::Auto,
                Some(deserialize_text(old(flow).crate_root@, in_type@)),
            ),
            r.1.trace == received,
            is_reply_handle(r.2, *self, *old(flow)),
            port_opened(*old(flow), *final(flow)),
            is_port_output(
                final(flow).roots@.last(),
                from.key,
                old(flow).next_external_port,
                false,
                Some(serialize_text(old(flow).crate_root@, out_type@)),
                reply_node::<Stream<OutT, Self, Unbounded, TotalOrder, ExactlyOnce>, Self>(
                    r.2.ident,
                    *self,
                    Stream::<OutT, Self, Unbounded, TotalOrder, ExactlyOnce>::kind_spec(),
                ),
            ),
    {
        let port_id: usize = flow.next_port();
        let silence: Trace<OutT> = Trace::empty(self.horizon());
        let (handle, to_sink) = self.forward_ref::<
            Stream<OutT, Self, Unbounded, TotalOrder, ExactlyOnce>,
        >(flow, silence);
        let ser_fn = serialize_code(flow.crate_root.as_str(), out_type);
        flow.push_root(
            HydroRoot::SendExternal {
                to_external_key: from.key,
                to_port_id: port_id,
                to_many: false,
                unpaired: false,
                serialize_fn: Some(DebugExpr { code: ser_fn }),
                input: Box::new(to_sink.ir_node),
            },
        );
        assert(flow.roots@.drop_last() =~= old(flow).roots@);
        let deser_fn = deserialize_code(flow.crate_root.as_str(), in_type);
        let raw_stream = Stream::new(
            self.dup(),
            HydroOp::ExternalInput {
                from_external_key: from.key,
                from_port_id: port_id,
                from_many: false,
                codec_type: "tokio_util::codec::LengthDelimitedCodec".to_owned(),
                port_hint: NetworkHint::Auto,
                deserialize_fn: Some(DebugExpr { code: deser_fn }),
            },
            received,
        );
        let port = ExternalBincodeBidi { process_key: from.key, port_id, markers: PhantomData };
        (port, raw_stream, handle.for_output())
    }

    /// Creates a one-way connection from an external process to receive serialized values.
    fn source_external_bincode<
        E,
        T,
        O: WeakerOrderingThan<TotalOrder>,
        R: WeakerRetryThan<ExactlyOnce>,
    >(
        &self,
        flow: &mut FlowBuilder,
        from: &External<E>,
        in_type: &str,
        received: Trace<T>,
    ) -> (r: (ExternalBincodeSink<T, NotMany, O, R>, Stream<T, Self, Unbounded, O, R>)) where
        Self: NoTick,

        requires
            covers(*self, received@),
            old(flow).next_external_port < usize::MAX,
            old(flow).next_cycle_id < usize::MAX,
        ensures
            r.0.process_key == from.key,
            r.0.port_id == old(flow).next_external_port,
            r.1.wf(),
            r.1.location == *self,
            is_weakened_input(
                r.1.ir_node,
                self.id_spec(),
                O::ordering_spec() == StreamOrder::TotalOrder,
                R::retries_spec() == StreamRetry::ExactlyOnce,
                from.key,
                old(flow).next_external_port,
                deserialize_text(old(flow).crate_root@, in_type@),
            ),
            r.1.trace == received,
            one_way_opened::<(), Self>(
                *old(flow),
                *final(flow),
                *self,
                from.key,
                Some(serialize_text(old(flow).crate_root@, "()"@)),
            ),
    {
        let (port, stream, sink) = self.bind_single_client_bincode::<E, T, ()>(
            flow,
            from,
            in_type,
            "()",
            received,
        );
        let nothing: Vec<()> = Vec::new();
        sink.complete(flow, self.source_iter(Quoted::new("[]", nothing)).into_unbounded());
        let handle = ExternalBincodeSink {
            process_key: from.key,
            port_id: port.port_id,
            markers: PhantomData,
        };
        assert(flow.roots@.take(old(flow).roots@.len() as int) =~= old(flow).roots@);
        proof {
            reveal_with_fuel(is_weakened_input, 3);
        }
        (handle, stream.weaken_ordering::<O>().weaken_retries::<R>())
    }

    /// Sets up a simulated input port on this location: one for the first external process.
    fn sim_input<T, O: WeakerOrderingThan<TotalOrder>, R: WeakerRetryThan<ExactlyOnce>>(
        &self,
        flow: &mut FlowBuilder,
        in_type: &str,
        received: Trace<T>,
    ) -> (r: (SimSender<T, O, R>, Stream<T, Self, Unbounded, O, R>)) where Self: NoTick
        requires
            covers(*self, received@),
            old(flow).next_external_port < usize::MAX,
            old(flow).next_cycle_id < usize::MAX,
        ensures
            r.0.port_id == old(flow).next_external_port,
            r.1.wf(),
            r.1.location == *self,
            is_weakened_input(
                r.1.ir_node,
                self.id_spec(),
                O::ordering_spec() == StreamOrder::TotalOrder,
                R::retries_spec() == StreamRetry::ExactlyOnce,
                (LocationKey { ffi: 0x0000_0001_0000_0001 }),
                old(flow).next_external_port,
                deserialize_text(old(flow).crate_root@, in_type@),
            ),
            r.1.trace == received,
            one_way_opened::<(), Self>(
                *old(flow),
                *final(flow),
                *self,
                (LocationKey { ffi: 0x0000_0001_0000_0001 }),
                Some(serialize_text(old(flow).crate_root@, "()"@)),
            ),
    {
        let external_location: External<()> = External {
            key: LocationKey::first(),
            tag: PhantomData,
        };
        let (external, stream) = self.source_external_bincode::<(), T, O, R>(
            flow,
            &external_location,
            in_type,
            received,
        );
        (SimSender { port_id: external.port_id, markers: PhantomData }, stream)
    }

    /// Establishes a server on this location to receive bidirectional connections from
    /// multiple external clients, with raw bytes. Each client is assigned a unique number.
    ///
    /// Returns a port, the incoming messages and the membership events by client, and a handle
    /// for the outgoing messages.
    fn bidi_external_many_bytes<E, In, Error, Out>(
        &self,
        flow: &mut FlowBuilder,
        from: &External<E>,
        codec: &str,
        port_hint: NetworkHint,
        received: Trace<Result<(u64, In), Error>>,
        membership: Trace<(u64, bool)>,
    ) -> (r: (
        ExternalBytesPort<Many>,
        KeyedStream<u64, In, Self, Unbounded, TotalOrder, ExactlyOnce>,
        KeyedStream<u64, MembershipEvent, Self, Unbounded, TotalOrder, ExactlyOnce>,
        ForwardHandle<KeyedStream<u64, Out, Self, Unbounded, NoOrder, ExactlyOnce>>,
    )) where Self: NoTick
        requires
            covers(*self, received@),
            covers(*self, membership@),
            old(flow).next_external_port < usize::MAX,
            old(flow).next_cycle_id < usize::MAX,
        ensures
            r.0.process_key == from.key,
            r.0.port_id == old(flow).next_external_port,
            r.1.wf(),
            r.1.location == *self,
            r.1.ir_node.metadata.tag is None,
            r.1.ir_node.op matches HydroOp::Cast { inner } && is_at(
                *inner,
                self.id_spec(),
                ordered_kind(BoundKind::Unbounded),
            ) && (inner.op matches HydroOp::FlatMap { f, input } && f.code@ == "|d| d"@
                && is_port_input(
                *input,
                self.id_spec(),
                ordered_kind(BoundKind::Unbounded),
                from.key,
                old(flow).next_external_port,
                true,
                codec@,
                port_hint,
                None,
            )),
            forall|i: int|
                0 <= i < r.1.trace@.len() ==> #[trigger] r.1.trace@[i] == decoded(received@[i]),
            is_membership(r.2, *self, from.key, old(flow).next_external_port, membership@),
            is_reply_handle(r.3, *self, *old(flow)),
            port_opened(*old(flow), *final(flow)),
            is_port_output(
                final(flow).roots@.last(),
                from.key,
                old(flow).next_external_port,
                true,
                None,
                keyed_reply_node::<Out, Self>(r.3.ident, *self),
            ),
    {
        let port_id: usize = flow.next_port();
        let silence: Trace<(u64, Out)> = Trace::empty(self.horizon());
        let (handle, to_sink) = self.forward_ref::<
            KeyedStream<u64, Out, Self, Unbounded, NoOrder, ExactlyOnce>,
        >(flow, silence);
        flow.push_root(
            HydroRoot::SendExternal {
                to_external_key: from.key,
                to_port_id: port_id,
                to_many: true,
                unpaired: false,
                serialize_fn: None,
                input: Box::new(to_sink.entries().ir_node),
            },
        );
        assert(flow.roots@.drop_last() =~= old(flow).roots@);
        let raw_stream = Stream::<
            Result<(u64, In), Error>,
            Self,
            Unbounded,
            TotalOrder,
            ExactlyOnce,
        >::new(
            self.dup(),
            HydroOp::ExternalInput {
                from_external_key: from.key,
                from_port_id: port_id,
                from_many: true,
                codec_type: codec.to_owned(),
                port_hint,
                deserialize_fn: None,
            },
            received,
        );
        let joins = membership_stream(self, &from.key, port_id, membership);
        let port = ExternalBytesPort { process_key: from.key, port_id, clients: PhantomData };
        (port, keep_decoded(raw_stream).into_keyed(), joins, handle.for_output())
    }

    /// Establishes a server on this location to receive bidirectional connections from
    /// multiple external clients, with serialized values. Each client is assigned a unique
    /// number.
    ///
    /// Returns a port, the incoming messages and the membership events by client, and a handle
    /// for the outgoing messages.
    fn bidi_external_many_bincode<E, InT, OutT>(
        &self,
        flow: &mut FlowBuilder,
        from: &External<E>,
        in_type: &str,
        out_type: &str,
        received: Trace<(u64, InT)>,
        membership: Trace<(u64, bool)>,
    ) -> (r: (
        ExternalBincodeBidi<InT, OutT, Many>,
        KeyedStream<u64, InT, Self, Unbounded, TotalOrder, ExactlyOnce>,
        KeyedStream<u64, MembershipEvent, Self, Unbounded, TotalOrder, ExactlyOnce>,
        ForwardHandle<KeyedStream<u64, OutT, Self, Unbounded, NoOrder, ExactlyOnce>>,
    )) where Self: NoTick
        requires
            covers(*self, received@),
            covers(*self, membership@),
            old(flow).next_external_port < usize::MAX,
            old(flow).next_cycle_id < usize::MAX,
        ensures
            r.0.process_key == from.key,
            r.0.port_id == old(flow).next_external_port,
            r.1.wf(),
            r.1.location == *self,
            is_port_input(
                r.1.ir_node,
                self.id_spec(),
                KeyedStream::<u64, InT, Self, Unbounded, TotalOrder, ExactlyOnce>::kind_spec(),
                from.key,
                old(flow).next_external_port,
                true,
                length_delimited(),
                NetworkHint::Auto,
                Some(deserialize_many_text(old(flow).crate_root@, in_type@)),
            ),
            r.1.trace == received,
            is_membership(r.2, *self, from.key, old(flow).next_external_port, membership@),
            is_reply_handle(r.3, *self, *old(flow)),
            port_opened(*old(flow), *final(flow)),
            is_port_output(
                final(flow).roots@.last(),
                from.key,
                old(flow).next_external_port,
                true,
                Some(serialize_many_text(old(flow).crate_root@, out_type@)),
                keyed_reply_node::<OutT, Self>(r.3.ident, *self),
            ),
    {
        let port_id: usize = flow.next_port();
        let silence: Trace<(u64, OutT)> = Trace::empty(self.horizon());
        let (handle, to_sink) = self.forward_ref::<
            KeyedStream<u64, OutT, Self, Unbounded, NoOrder, ExactlyOnce>,
        >(flow, silence);
        let ser_fn = serialize_many_code(flow.crate_root.as_str(), out_type);
        flow.push_root(
            HydroRoot::SendExternal {
                to_external_key: from.key,
                to_port_id: port_id,
                to_many: true,
                unpaired: false,
                serialize_fn: Some(DebugExpr { code: ser_fn }),
                input: Box::new(to_sink.entries().ir_node),
            },
        );
        assert(flow.roots@.drop_last() =~= old(flow).roots@);
        let deser_fn = deserialize_many_code(flow.crate_root.as_str(), in_type);
        let raw_stream = KeyedStream::new(
            self.dup(),
            HydroOp::ExternalInput {
                from_external_key: from.key,
                from_port_id: port_id,
                from_many: true,
                codec_type: "tokio_util::codec::LengthDelimitedCodec".to_owned(),
                port_hint: NetworkHint::Auto,
                deserialize_fn: Some(DebugExpr { code: deser_fn }),
            },
            received,
        );
        let joins = membership_stream(self, &from.key, port_id, membership);
        let port = ExternalBincodeBidi { process_key: from.key, port_id, markers: PhantomData };
        (port, raw_stream, joins, handle.for_output())
    }
}

/// Whether the node is a source with the given text.
pub open spec fn is_stream_source(
    node: HydroNode,
    location_id: LocationId,
    kind: CollectionKind,
    text: Seq<char>,
) -> bool {
    &&& is_at(node, location_id, kind)
    &&& node.op matches HydroOp::Source { source } && (source matches HydroSource::Stream(e)
        && e.code@ == text)
}

/// The source of a timer.
pub open spec fn interval_text(interval: Seq<char>) -> Seq<char> {
    "tokio_stream::StreamExt::map(tokio_stream::wrappers::IntervalStream::new(tokio::time::interval("@
        + interval + ")), |_| ())"@
}

/// The source of a timer that starts after a delay.
pub open spec fn delayed_text(delay: Seq<char>, interval: Seq<char>) -> Seq<char> {
    "tokio_stream::StreamExt::map(tokio_stream::wrappers::IntervalStream::new(tokio::time::interval_at(tokio::time::Instant::now() + "@
        + delay + ", "@ + interval + ")), |_| ())"@
}

/// The source of a timer that tells the time.
pub open spec fn interval_time_text(interval: Seq<char>) -> Seq<char> {
    "tokio_stream::wrappers::IntervalStream::new(tokio::time::interval("@ + interval + "))"@
}

/// The source of a timer that starts after a delay and tells the time.
pub open spec fn delayed_time_text(delay: Seq<char>, interval: Seq<char>) -> Seq<char> {
    "tokio_stream::wrappers::IntervalStream::new(tokio::time::interval_at(tokio::time::Instant::now() + "@
        + delay + ", "@ + interval + "))"@
}

/// The codec that puts the length before each message.
pub open spec fn length_delimited() -> Seq<char> {
    "tokio_util::codec::LengthDelimitedCodec"@
}

/// The function that turns a value into bytes, where `root` names the crate of the runtime.
pub open spec fn serialize_text(root: Seq<char>, out_type: Seq<char>) -> Seq<char> {
    (root + "::runtime_support::stageleft::runtime_support::fn1_type_hint::<"@ + out_type) + (
    ", _>(|b| "@ + root + "::runtime_support::bincode::serialize(&b).unwrap().into())"@)
}

/// The function that turns bytes into a value.
pub open spec fn deserialize_text(root: Seq<char>, in_type: Seq<char>) -> Seq<char> {
    ("|res| { let b = res.unwrap(); "@ + root + "::runtime_support::bincode::deserialize::<"@) + (
    in_type + ">(&b).unwrap() }"@)
}

/// The function that turns a client's value into bytes.
pub open spec fn serialize_many_text(root: Seq<char>, out_type: Seq<char>) -> Seq<char> {
    (root + "::runtime_support::stageleft::runtime_support::fn1_type_hint::<(u64, "@ + out_type) + (
    "), _>(|(id, b)| (id, "@ + root
        + "::runtime_support::bincode::serialize(&b).unwrap().into()))"@)
}

/// The function that turns a client's bytes into a value.
pub open spec fn deserialize_many_text(root: Seq<char>, in_type: Seq<char>) -> Seq<char> {
    ("|res| { let (id, b) = res.unwrap(); (id, "@ + root
        + "::runtime_support::bincode::deserialize::<"@) + (in_type + ">(&b).unwrap()) }"@)
}

/// One text behind another.
fn joined_text(a: String, b: String) -> (r: String)
    ensures
        r@ == a@ + b@,
{
    let mut r = a;
    r.append(b.as_str());
    r
}

fn serialize_code(root: &str, out_type: &str) -> (r: String)
    ensures
        r@ == serialize_text(root@, out_type@),
{
    joined_text(
        text_of_parts(
            root,
            "::runtime_support::stageleft::runtime_support::fn1_type_hint::<",
            out_type,
        ),
        text_of_parts(
            ", _>(|b| ",
            root,
            "::runtime_support::bincode::serialize(&b).unwrap().into())",
        ),
    )
}

fn deserialize_code(root: &str, in_type: &str) -> (r: String)
    ensures
        r@ == deserialize_text(root@, in_type@),
{
    let start = text_of_parts(
        "|res| { let b = res.unwrap(); ",
        root,
        "::runtime_support::bincode::deserialize::<",
    );
    let mut rest = in_type.to_owned();
    rest.append(">(&b).unwrap() }");
    joined_text(start, rest)
}

fn serialize_many_code(root: &str, out_type: &str) -> (r: String)
    ensures
        r@ == serialize_many_text(root@, out_type@),
{
    joined_text(
        text_of_parts(
            root,
            "::runtime_support::stageleft::runtime_support::fn1_type_hint::<(u64, ",
            out_type,
        ),
        text_of_parts(
            "), _>(|(id, b)| (id, ",
            root,
            "::runtime_support::bincode::serialize(&b).unwrap().into()))",
        ),
    )
}

fn deserialize_many_code(root: &str, in_type: &str) -> (r: String)
    ensures
        r@ == deserialize_many_text(root@, in_type@),
{
    let start = text_of_parts(
        "|res| { let (id, b) = res.unwrap(); (id, ",
        root,
        "::runtime_support::bincode::deserialize::<",
    );
    let mut rest = in_type.to_owned();
    rest.append(">(&b).unwrap()) }");
    joined_text(start, rest)
}

/// The text of an expression that may be absent.
pub open spec fn text_of(e: Option<DebugExpr>) -> Option<Seq<char>> {
    match e {
        Some(e) => Some(e.code@),
        None => None,
    }
}

/// Whether the node receives what a port's clients send.
pub open spec fn is_port_input(
    node: HydroNode,
    location_id: LocationId,
    kind: CollectionKind,
    key: LocationKey,
    port_id: usize,
    many: bool,
    codec: Seq<char>,
    hint: NetworkHint,
    deserialize: Option<Seq<char>>,
) -> bool {
    &&& is_at(node, location_id, kind)
    &&& node.op matches HydroOp::ExternalInput {
        from_external_key,
        from_port_id,
        from_many,
        codec_type,
        port_hint,
        deserialize_fn,
    } && from_external_key == key && from_port_id == port_id && from_many == many && codec_type@
        == codec && port_hint == hint && text_of(deserialize_fn) == deserialize
}

/// Whether the root sends what the node yields to a port's clients.
pub open spec fn is_port_output(
    root: HydroRoot,
    key: LocationKey,
    port_id: usize,
    many: bool,
    serialize: Option<Seq<char>>,
    node: HydroNode,
) -> bool {
    root matches HydroRoot::SendExternal {
        to_external_key,
        to_port_id,
        to_many,
        unpaired,
        serialize_fn,
        input,
    } && to_external_key == key && to_port_id == port_id && to_many == many && !unpaired && text_of(
        serialize_fn,
    ) == serialize && *input == node
}

/// Whether one port and one cycle are new, and one root.
pub open spec fn port_opened(before: FlowBuilder, after: FlowBuilder) -> bool {
    &&& after.horizon == before.horizon
    &&& after.crate_root == before.crate_root
    &&& after.next_location == before.next_location
    &&& after.next_clock_id == before.next_clock_id
    &&& after.next_cycle_id == before.next_cycle_id + 1
    &&& after.next_external_port == before.next_external_port + 1
    &&& after.roots@.len() == before.roots@.len() + 1
    &&& after.roots@.drop_last() == before.roots@
}

/// Whether the handle is that of the next cycle, at the location, and takes any messages.
pub open spec fn is_reply_handle<S: CycleCollection, L: DynLocation>(
    handle: ForwardHandle<S>,
    location: L,
    before: FlowBuilder,
) -> bool {
    &&& handle.ident@ == cycle_ident(before.next_cycle_id)
    &&& handle.expected_location == location.id_spec()
    &&& handle.expected@ is None
}

/// The node that stands for the outgoing messages.
pub open spec fn reply_node<S, L: DynLocation>(
    ident: String,
    location: L,
    kind: CollectionKind,
) -> HydroNode {
    node_spec(HydroOp::CycleSource { ident }, location.id_spec(), kind)
}

/// The node that stands for the outgoing messages, with their clients.
pub open spec fn keyed_reply_node<T, L: DynLocation>(ident: String, location: L) -> HydroNode {
    node_spec(
        HydroOp::Cast {
            inner: Box::new(
                node_spec(
                    HydroOp::CycleSource { ident },
                    location.id_spec(),
                    KeyedStream::<u64, T, L, Unbounded, NoOrder, ExactlyOnce>::kind_spec(),
                ),
            ),
        },
        location.id_spec(),
        Stream::<(u64, T), L, Unbounded, NoOrder, ExactlyOnce>::kind_spec(),
    )
}

/// Whether a port was opened on which nothing is ever sent back.
pub open spec fn one_way_opened<T, L: DynLocation>(
    before: FlowBuilder,
    after: FlowBuilder,
    location: L,
    key: LocationKey,
    serialize: Option<Seq<char>>,
) -> bool {
    &&& after.horizon == before.horizon
    &&& after.crate_root == before.crate_root
    &&& after.next_location == before.next_location
    &&& after.next_clock_id == before.next_clock_id
    &&& after.next_cycle_id == before.next_cycle_id + 1
    &&& after.next_external_port == before.next_external_port + 1
    &&& after.roots@.len() == before.roots@.len() + 2
    &&& after.roots@.take(before.roots@.len() as int) == before.roots@
    &&& after.roots@.last() matches HydroRoot::CycleSink { ident, input } && {
        &&& ident@ == cycle_ident(before.next_cycle_id)
        &&& is_port_output(
            after.roots@[before.roots@.len() as int],
            key,
            before.next_external_port,
            false,
            serialize,
            reply_node::<T, L>(
                ident,
                location,
                Stream::<T, L, Unbounded, TotalOrder, ExactlyOnce>::kind_spec(),
            ),
        )
        &&& is_at(*input, location.id_spec(), ordered_kind(BoundKind::Unbounded))
        &&& input.op matches HydroOp::Cast { inner } && is_at(
            *inner,
            location.id_spec(),
            Stream::<T, L, Bounded, TotalOrder, ExactlyOnce>::kind_spec(),
        ) && (inner.op matches HydroOp::Source { source } && (
        source matches HydroSource::Iter(e) && e.code@ == "[]"@))
    }
}

/// Whether the node yields what arrives on a port, with weaker guarantees.
pub open spec fn is_weakened_input(
    node: HydroNode,
    location_id: LocationId,
    ordered: bool,
    once: bool,
    key: LocationKey,
    port_id: usize,
    deserialize_fn: Seq<char>,
) -> bool
    decreases (if ordered { 0int } else { 1 }) + (if once { 0int } else { 1 }),
{
    let kind = CollectionKind::Stream {
        bound: BoundKind::Unbounded,
        order: if ordered {
            StreamOrder::TotalOrder
        } else {
            StreamOrder::NoOrder
        },
        retry: if once {
            StreamRetry::ExactlyOnce
        } else {
            StreamRetry::AtLeastOnce
        },
    };
    if !once {
        &&& is_at(node, location_id, kind)
        &&& node.op matches HydroOp::Cast { inner } && is_weakened_input(
            *inner,
            location_id,
            ordered,
            true,
            key,
            port_id,
            deserialize_fn,
        )
    } else if !ordered {
        &&& is_at(node, location_id, kind)
        &&& node.op matches HydroOp::Cast { inner } && is_weakened_input(
            *inner,
            location_id,
            true,
            true,
            key,
            port_id,
            deserialize_fn,
        )
    } else {
        is_port_input(
            node,
            location_id,
            kind,
            key,
            port_id,
            false,
            length_delimited(),
            NetworkHint::Auto,
            Some(deserialize_fn),
        )
    }
}

/// The messages that could be decoded.
pub open spec fn decoded<T, E>(s: Seq<Result<T, E>>) -> Seq<T>
    decreases s.len(),
{
    if s.len() == 0 {
        Seq::empty()
    } else {
        match s.last() {
            Ok(x) => decoded(s.drop_last()).push(x),
            Err(_) => decoded(s.drop_last()),
        }
    }
}

proof fn lemma_decoded<T, E, F: Fn(Result<T, E>) -> Vec<T>>(
    f: F,
    s: Seq<Result<T, E>>,
    r: Seq<T>,
)
    requires
        is_flat_mapped(f, s, r),
        forall|m: Result<T, E>, v: Vec<T>| #[trigger]
            f.ensures((m,), v) ==> v@ == (match m {
                Ok(x) => seq![x],
                Err(_) => Seq::empty(),
            }),
    ensures
        r == decoded(s),
    decreases s.len(),
{
    if s.len() > 0 {
        let v = choose|v: Vec<T>|
            #![trigger f.ensures((s.last(),), v)]
            f.ensures((s.last(),), v) && v@.len() <= r.len() && r.skip(r.len() - v@.len()) == v@
                && is_flat_mapped(f, s.drop_last(), r.take(r.len() - v@.len()));
        lemma_decoded(f, s.drop_last(), r.take(r.len() - v@.len()));
        assert(r =~= r.take(r.len() - v@.len()) + v@);
    }
}

/// Drops the messages that could not be decoded.
fn keep_decoded<T, E, L: DynLocation>(
    s: Stream<Result<T, E>, L, Unbounded, TotalOrder, ExactlyOnce>,
) -> (r: Stream<T, L, Unbounded, TotalOrder, ExactlyOnce>)
    requires
        s.wf(),
    ensures
        r.wf(),
        r.location == s.location,
        r.ir_node.metadata.tag is None,
        r.ir_node.op matches HydroOp::FlatMap { f, input } && f.code@ == "|d| d"@ && *input
            == s.ir_node,
        forall|i: int| 0 <= i < r.trace@.len() ==> #[trigger] r.trace@[i] == decoded(s.trace@[i]),
{
    let ghost t = s.trace@;
    let keep = |m: Result<T, E>| -> (r: Vec<T>)
        ensures
            r@ == (match m {
                Ok(x) => seq![x],
                Err(_) => Seq::empty(),
            }),
        {
            let mut v: Vec<T> = Vec::new();
            if let Ok(x) = m {
                v.push(x);
            }
            v
        };
    let r = s.flat_map_ordered(Quoted::new("|d| d", keep));
    proof {
        assert forall|i: int| 0 <= i < r.trace@.len() implies #[trigger] r.trace@[i] == decoded(
            t[i],
        ) by {
            lemma_decoded(keep, t[i], r.trace@[i]);
        }
    }
    r
}

/// The name of the source that tells which clients a port has.
pub open spec fn membership_ident(key: LocationKey, port_id: usize) -> Seq<char> {
    "__hydro_deploy_many_"@ + (seq!['l', 'o', 'c'] + key_text(key.ffi)) + "_"@ + decimal(
        port_id as nat,
    ) + "_membership"@
}

/// Joins and leaves, from whether a client is there.
pub open spec fn joins_of(s: Seq<(u64, bool)>) -> Seq<(u64, MembershipEvent)> {
    s.map_values(
        |e: (u64, bool)|
            (
                e.0,
                if e.1 {
                    MembershipEvent::Joined
                } else {
                    MembershipEvent::Left
                },
            ),
    )
}

/// The code that makes an event of whether a client is there.
pub open spec fn join_text() -> Seq<char> {
    "|join| { if join { MembershipEvent::Joined } else { MembershipEvent::Left } }"@
}

/// Whether this is the stream of the membership events of a port.
pub open spec fn is_membership<L: DynLocation>(
    r: KeyedStream<u64, MembershipEvent, L, Unbounded, TotalOrder, ExactlyOnce>,
    location: L,
    key: LocationKey,
    port_id: usize,
    t: Seq<Seq<(u64, bool)>>,
) -> bool {
    &&& r.wf()
    &&& r.location == location
    &&& r.ir_node.metadata.tag is None
    &&& r.ir_node.op matches HydroOp::MapEach { f, input } && f.code@ == on_values(join_text())
        && is_stream_source(
        *input,
        location.id_spec(),
        KeyedStream::<u64, bool, L, Unbounded, TotalOrder, ExactlyOnce>::kind_spec(),
        membership_ident(key, port_id),
    )
    &&& forall|i: int| 0 <= i < r.trace@.len() ==> #[trigger] r.trace@[i] == joins_of(t[i])
}

/// The membership events of a port.
fn membership_stream<L: DynLocation>(
    location: &L,
    key: &LocationKey,
    port_id: usize,
    membership: Trace<(u64, bool)>,
) -> (r: KeyedStream<u64, MembershipEvent, L, Unbounded, TotalOrder, ExactlyOnce>)
    requires
        covers(*location, membership@),
    ensures
        is_membership(r, *location, *key, port_id, membership@),
{
    let ghost t = membership@;
    let mut ident = text_of_parts("__hydro_deploy_many_", key.to_text().as_str(), "_");
    ident.append(decimal_text(port_id).as_str());
    ident.append("_membership");
    let raw = KeyedStream::<u64, bool, L, Unbounded, TotalOrder, ExactlyOnce>::new(
        location.dup(),
        HydroOp::Source { source: HydroSource::Stream(DebugExpr { code: ident }) },
        membership,
    );
    let event = |join: bool| -> (r: MembershipEvent)
        ensures
            r == (if join {
                MembershipEvent::Joined
            } else {
                MembershipEvent::Left
            }),
        {
            if join {
                MembershipEvent::Joined
            } else {
                MembershipEvent::Left
            }
        };
    let r = raw.map(
        Quoted::new(
            "|join| { if join { MembershipEvent::Joined } else { MembershipEvent::Left } }",
            event,
        ),
    );
    proof {
        assert forall|i: int| 0 <= i < r.trace@.len() implies #[trigger] r.trace@[i] == joins_of(
            t[i],
        ) by {
            assert(is_value_mapped(event, t[i], r.trace@[i]));
            assert forall|j: int| 0 <= j < t[i].len() implies r.trace@[i][j] == joins_of(
                t[i],
            )[j] by {
                assert(event.ensures((t[i][j].1,), r.trace@[i][j].1));
            }
            assert(r.trace@[i] =~= joins_of(t[i]));
        }
    }
    r
}

/// The membership events, with the cluster's tag on the members.
pub open spec fn tag_members<C>(s: Seq<(TaglessMemberId, MembershipEvent)>) -> Seq<
    (MemberId<C>, MembershipEvent),
> {
    s.map_values(
        |e: (TaglessMemberId, MembershipEvent)|
            (MemberId::<C> { raw_id: e.0.raw_id, tag: PhantomData }, e.1),
    )
}

/// A trace that has the value in each of `n` rounds.
fn repeat_each<T: Dup>(n: usize, value: &T) -> (r: Trace<T>)
    ensures
        r@.len() == n,
        forall|i: int| 0 <= i < n ==> #[trigger] r@[i] == seq![*value],
{
    let mut r: Trace<T> = Trace::new();
    for i in 0..n
        invariant
            r@.len() == i,
            forall|j: int| 0 <= j < i ==> #[trigger] r@[j] == seq![*value],
    {
        let mut one: Vec<T> = Vec::new();
        one.push(value.dup());
        assert(one@ =~= seq![*value]);
        r.push(one);
    }
    r
}

impl<L: DynLocation> Location for L {

}

/// A message comes through exactly if it could be decoded, in order.
pub proof fn law_decoded<T, E>(s: Seq<Result<T, E>>)
    ensures
        decoded(s) == s.filter(|m: Result<T, E>| m is Ok).map_values(|m: Result<T, E>| m->Ok_0),
    decreases s.len(),
{
    reveal(Seq::filter);
    let p = |m: Result<T, E>| m is Ok;
    let v = |m: Result<T, E>| m->Ok_0;
    if s.len() > 0 {
        let init = s.drop_last();
        law_decoded(init);
        if p(s.last()) {
            assert(s.filter(p).map_values(v) =~= init.filter(p).map_values(v).push(v(s.last())));
        } else {
            assert(s.filter(p) == init.filter(p));
        }
    } else {
        assert(s.filter(p).map_values(v) =~= Seq::empty());
    }
}

/// Each change of a client becomes one event of that client, in order: it joins if it is there
/// now, and leaves if it is not.
pub proof fn law_joins(s: Seq<(u64, bool)>)
    ensures
        joins_of(s).len() == s.len(),
        forall|i: int|
            0 <= i < s.len() ==> (#[trigger] joins_of(s)[i]).0 == s[i].0 && (joins_of(s)[i].1
                is Joined <==> s[i].1) && (joins_of(s)[i].1 is Left <==> !s[i].1),
{
}

/// A tag on a member changes neither who it is nor what happened to it.
pub proof fn law_tagged_members<C>(s: Seq<(TaglessMemberId, MembershipEvent)>)
    ensures
        tag_members::<C>(s).len() == s.len(),
        forall|i: int|
            0 <= i < s.len() ==> (#[trigger] tag_members::<C>(s)[i]).0.raw_id == s[i].0.raw_id
                && tag_members::<C>(s)[i].1 == s[i].1,
{
}

/// A port that is opened has a number and a cycle that no earlier port has, and leaves all other
/// parts of the plan as they are.
pub proof fn law_ports_are_new<T, L: DynLocation>(
    before: FlowBuilder,
    after: FlowBuilder,
    location: L,
    key: LocationKey,
    serialize: Option<Seq<char>>,
)
    requires
        port_opened(before, after) || one_way_opened::<T, L>(
            before,
            after,
            location,
            key,
            serialize,
        ),
    ensures
        before.next_external_port < after.next_external_port,
        before.next_cycle_id < after.next_cycle_id,
        before.next_location == after.next_location,
        before.next_clock_id == after.next_clock_id,
        before.roots@.len() < after.roots@.len(),
        forall|i: int|
            0 <= i < before.roots@.len() ==> #[trigger] after.roots@[i] == before.roots@[i],
{
    let n = before.roots@.len() as int;
    assert forall|i: int| 0 <= i < n implies #[trigger] after.roots@[i] == before.roots@[i] by {
        if port_opened(before, after) {
            assert(after.roots@.drop_last()[i] == before.roots@[i]);
        } else {
            assert(after.roots@.take(n)[i] == before.roots@[i]);
        }
    }
}

/// What a port without replies sends back is a cycle that nothing ever goes into: the port sends
/// what the cycle yields, and the cycle is completed with an empty list.
pub proof fn law_nothing_is_sent_back<T, L: DynLocation>(
    before: FlowBuilder,
    after: FlowBuilder,
    location: L,
    key: LocationKey,
    serialize: Option<Seq<char>>,
)
    requires
        one_way_opened::<T, L>(before, after, location, key, serialize),
    ensures
        after.roots@[before.roots@.len() as int] matches HydroRoot::SendExternal {
            to_external_key,
            to_port_id,
            to_many,
            unpaired,
            serialize_fn,
            input,
        } && {
            &&& to_external_key == key
            &&& to_port_id == before.next_external_port
            &&& !to_many
            &&& !unpaired
            &&& after.roots@.last() matches HydroRoot::CycleSink { ident, input: empty } && {
                &&& input.op == HydroOp::CycleSource { ident }
                &&& empty.op matches HydroOp::Cast { inner } && (
                inner.op matches HydroOp::Source { source } && (
                source matches HydroSource::Iter(e) && e.code@ == "[]"@))
            }
        },
{
}

/// A weaker guarantee is a cast around the input of the port: the node has the order and the
/// retries that were asked for, and below as many casts as guarantees were given up stands the
/// input, with all guarantees.
pub proof fn law_weakened_input(
    node: HydroNode,
    location_id: LocationId,
    ordered: bool,
    once: bool,
    key: LocationKey,
    port_id: usize,
    deserialize_fn: Seq<char>,
)
    requires
        is_weakened_input(node, location_id, ordered, once, key, port_id, deserialize_fn),
    ensures
        ordered && once ==> node.op is ExternalInput,
        ordered != once ==> (node.op matches HydroOp::Cast { inner } && inner.op is ExternalInput),
        !ordered && !once ==> (node.op matches HydroOp::Cast { inner } && (
        inner.op matches HydroOp::Cast { inner: input } && input.op is ExternalInput)),
        is_at(
            node,
            location_id,
            CollectionKind::Stream {
                bound: BoundKind::Unbounded,
                order: if ordered {
                    StreamOrder::TotalOrder
                } else {
                    StreamOrder::NoOrder
                },
                retry: if once {
                    StreamRetry::ExactlyOnce
                } else {
                    StreamRetry::AtLeastOnce
                },
            },
        ),
{
    reveal_with_fuel(is_weakened_input, 3);
}

} // verus!
