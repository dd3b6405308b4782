//! The nodes of a plan.
use crate::location::dynamic::LocationId;
use crate::location::key::LocationKey;
use crate::location::NetworkHint;
use std::rc::Rc;
use vstd::prelude::*;

verus! {

/// The source text of an expression that runs when the program does.
#[derive(Debug, PartialEq, Eq)]
pub struct DebugExpr {
    pub code: String,
}

impl DebugExpr {
    pub fn dup(&self) -> (r: Self)
        ensures
            r == *self,
    {
        DebugExpr { code: self.code.clone() }
    }
}

/// Whether a collection stops changing.
#[derive(Clone, Copy, Debug, PartialEq, Eq, Structural)]
pub enum BoundKind {
    Unbounded,
    Bounded,
}

/// Whether the order of a stream's elements is fixed.
#[derive(Clone, Copy, Debug, PartialEq, Eq, Structural)]
pub enum StreamOrder {
    NoOrder,
    TotalOrder,
}

/// Whether a stream's elements may repeat.
#[derive(Clone, Copy, Debug, PartialEq, Eq, Structural)]
pub enum StreamRetry {
    AtLeastOnce,
    ExactlyOnce,
}

/// Which live collection a node stands for, with its guarantees.
#[derive(Clone, Copy, Debug, PartialEq, Eq, Structural)]
pub enum CollectionKind {
    Stream { bound: BoundKind, order: StreamOrder, retry: StreamRetry },
    Singleton { bound: BoundKind },
    Optional { bound: BoundKind },
    KeyedStream { bound: BoundKind, value_order: StreamOrder, value_retry: StreamRetry },
    KeyedSingleton { bound: BoundKind },
}

/// Where a node runs and what it yields.
#[derive(Debug)]
pub struct HydroIrMetadata {
    pub location_id: LocationId,
    pub collection_kind: CollectionKind,
    pub tag: Option<String>,
}

/// Where data enters a program.
#[derive(Debug)]
pub enum HydroSource {
    /// An asynchronous stream, by its expression.
    Stream(DebugExpr),
    /// An iterator that is run once, by its expression.
    Iter(DebugExpr),
    /// Unit values without end.
    Spin,
    /// Membership events of a cluster.
    ClusterMembers(LocationId),
}

/// A node: an operation on other nodes, and what it yields.
#[derive(Debug)]
pub struct HydroNode {
    pub op: HydroOp,
    pub metadata: HydroIrMetadata,
}

/// The operation of a node.
#[derive(Debug)]
pub enum HydroOp {
    Source { source: HydroSource },
    SingletonSource { value: DebugExpr },
    CycleSource { ident: String },
    Tee { shared: Rc<HydroNode> },
    MapEach { f: DebugExpr, input: Box<HydroNode> },
    FlatMap { f: DebugExpr, input: Box<HydroNode> },
    Filter { f: DebugExpr, input: Box<HydroNode> },
    FilterMap { f: DebugExpr, input: Box<HydroNode> },
    Inspect { f: DebugExpr, input: Box<HydroNode> },
    CrossSingleton { left: Box<HydroNode>, right: Box<HydroNode> },
    CrossProduct { left: Box<HydroNode>, right: Box<HydroNode> },
    Unique { input: Box<HydroNode> },
    Difference { pos: Box<HydroNode>, neg: Box<HydroNode> },
    Cast { inner: Box<HydroNode> },
    ObserveNonDet { inner: Box<HydroNode>, trusted: bool },
    Fold { init: DebugExpr, acc: DebugExpr, input: Box<HydroNode> },
    FoldKeyed { init: DebugExpr, acc: DebugExpr, input: Box<HydroNode> },
    Reduce { f: DebugExpr, input: Box<HydroNode> },
    Scan { init: DebugExpr, acc: DebugExpr, input: Box<HydroNode> },
    Enumerate { input: Box<HydroNode> },
    Chain { first: Box<HydroNode>, second: Box<HydroNode> },
    ChainFirst { first: Box<HydroNode>, second: Box<HydroNode> },
    Sort { input: Box<HydroNode> },
    Join { left: Box<HydroNode>, right: Box<HydroNode> },
    AntiJoin { pos: Box<HydroNode>, neg: Box<HydroNode> },
    Batch { inner: Box<HydroNode> },
    YieldConcat { inner: Box<HydroNode> },
    BeginAtomic { inner: Box<HydroNode> },
    EndAtomic { inner: Box<HydroNode> },
    DeferTick { input: Box<HydroNode> },
    ResolveFutures { input: Box<HydroNode> },
    ResolveFuturesOrdered { input: Box<HydroNode> },
    ExternalInput {
        from_external_key: LocationKey,
        from_port_id: usize,
        from_many: bool,
        codec_type: String,
        port_hint: NetworkHint,
        deserialize_fn: Option<DebugExpr>,
    },
}

/// Where data leaves a program, or goes back to a node that stands before.
#[derive(Debug)]
pub enum HydroRoot {
    ForEach { f: DebugExpr, input: Box<HydroNode> },
    DestSink { sink: DebugExpr, input: Box<HydroNode> },
    CycleSink { ident: String, input: Box<HydroNode> },
    SendExternal {
        to_external_key: LocationKey,
        to_port_id: usize,
        to_many: bool,
        unpaired: bool,
        serialize_fn: Option<DebugExpr>,
        input: Box<HydroNode>,
    },
}

/// A node without a name.
pub open spec fn node_spec(op: HydroOp, location_id: LocationId, kind: CollectionKind) -> HydroNode {
    HydroNode {
        op,
        metadata: HydroIrMetadata { location_id, collection_kind: kind, tag: None },
    }
}

/// Whether the node runs at the location, yields such a collection, and has no name.
pub open spec fn is_at(node: HydroNode, location_id: LocationId, kind: CollectionKind) -> bool {
    node.metadata == (HydroIrMetadata { location_id, collection_kind: kind, tag: None })
}

/// The kind of a stream in order and without repetitions.
pub open spec fn ordered_kind(bound: BoundKind) -> CollectionKind {
    CollectionKind::Stream {
        bound,
        order: StreamOrder::TotalOrder,
        retry: StreamRetry::ExactlyOnce,
    }
}

impl HydroNode {
    /// A node without a name.
    pub fn new(op: HydroOp, location_id: LocationId, kind: CollectionKind) -> (r: Self)
        ensures
            r == node_spec(op, location_id, kind),
    {
        HydroNode {
            op,
            metadata: HydroIrMetadata { location_id, collection_kind: kind, tag: None },
        }
    }
}

impl HydroIrMetadata {
    pub fn dup(&self) -> (r: Self)
        ensures
            r == *self,
    {
        let tag = match &self.tag {
            Some(t) => Some(t.clone()),
            None => None,
        };
        HydroIrMetadata {
            location_id: self.location_id.dup(),
            collection_kind: self.collection_kind,
            tag,
        }
    }
}

} // verus!
