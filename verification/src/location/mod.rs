//! Locations: where the pieces of a program run.
use vstd::prelude::*;

pub mod cluster;
pub mod dynamic;
pub mod external_process;
pub mod key;
pub mod member_id;
pub mod operations;
pub mod process;
pub mod tick;

pub use cluster::Cluster;
pub use external_process::External;
pub use key::LocationKey;
pub use member_id::{MemberId, TaglessMemberId};
pub use operations::Location;
pub use process::Process;
pub use tick::{Atomic, NoAtomic, NoTick, Rooted, Tick};

verus! {

/// A change in the membership of a cluster.
#[derive(Clone, Copy, Debug, PartialEq, Eq, Hash, Structural)]
pub enum MembershipEvent {
    Joined,
    Left,
}

/// How a port is to be reached.
#[derive(Clone, Copy, Debug, PartialEq, Eq, Hash, Structural)]
pub enum NetworkHint {
    Auto,
    TcpPort(Option<u16>),
}

/// The kinds of root locations.
#[derive(Clone, Copy, Debug, PartialEq, Eq, Hash, Structural)]
pub enum LocationType {
    /// A process (single node).
    Process,
    /// A cluster (multiple nodes).
    Cluster,
    /// An external client.
    External,
}

} // verus!
