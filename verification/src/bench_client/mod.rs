//! Measuring a protocol: clients that keep it busy, and what their latencies tell.
pub mod aggregate;
pub mod clients;
pub mod histogram;
pub mod throughput;

pub use aggregate::{aggregate_bench_results, AggregateBenchResult, Aggregator};
pub use clients::{bench_client, BenchClients};
pub use histogram::SerializableHistogramWrapper;
pub use throughput::{compute_throughput_latency, BenchResult, Measurement, Measuring, Samples};
