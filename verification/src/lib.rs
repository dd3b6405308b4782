//! Live collections for distributed dataflow programs, and a Paxos and a
//! benchmark client built in the same style.
pub mod bench_client;
pub mod compile;
pub mod datum;
pub mod forward_handle;
pub mod live_collections;
pub mod location;
pub mod nondet;
pub mod paxos;
pub mod quorum;
pub mod request_response;
pub mod seqs;
pub mod text;
pub mod trace;
