//! Multi-decree Paxos: a cluster of proposers and a cluster of acceptors that
//! together put payloads into a log, one per slot.
pub mod acceptor;
pub mod ballot;
pub mod cluster;
pub mod laws;
pub mod log;
pub mod members;
pub mod proposer;
pub mod recommit;
pub mod safety;
pub mod sequence;

pub use acceptor::{acceptor_p1, acceptor_p2, P2a};
pub use ballot::{Acceptor, Ballot, PaxosConfig, PaxosPayload, Proposer};
pub use log::LogValue;
pub use members::{acceptor_core, paxos_core, CorePaxos};
pub use proposer::{leader_election, p_ballot_calc, p_leader_heartbeat, p_p1b};
pub use recommit::recommit_after_leader_election;
pub use sequence::{index_payloads, sequence_payload};
