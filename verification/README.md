# hydro

Live collections for distributed dataflow programs, written in Verus: every operator has a
contract, and the contracts are proved.

A live collection is a stream, a singleton, an optional value or a keyed collection whose
contents change while the program runs. Operators on it do two things at once. They add a node
to the plan of the program, and they transform a trace, which lists what the collection yields
in each round of a run. Contracts speak of both. Where the outcome is not determined (how a
stream is cut into batches, in which order elements arrive, when a snapshot is taken), the
operator takes a `NonDet` that holds the choices, so each possible run is a value of it.

Two programs stand beside the collections: a multi-decree Paxos and a benchmark client that
measures throughput and latency. They are steps on plain values: a function takes the state of a
member and what has reached it in one tick, and returns what it sends. For Paxos,
`src/paxos/cluster.rs` follows any number of such ticks of all members, with messages that are
lost, repeated or late and checkpoints that never go back, and proves that no two proposers ever
commit different values for one slot. `src/paxos/safety.rs` holds the argument about quorums that this rests on.

## Layout

- `src/location/`: processes, clusters, external clients, ticks, and the sources of data.
- `src/live_collections/`: streams, singletons, optionals and keyed collections.
- `src/trace/`: what collections yield over time, and what operators make of it.
- `src/compile/`: plans, and the builder that collects them.
- `src/quorum.rs`, `src/request_response.rs`: counting answers, and matching them with requests.
- `src/paxos/`: ballots, logs, acceptors, proposers, and the proof that they agree.
- `src/bench_client/`: virtual clients, histograms of latencies, and aggregation.
- `tests/`: examples that run.
- `app/`: messages on the wire, code for the compiler, clocks and printed reports. None of it
  is verified.

## What is trusted

Contracts of functions marked `external_body` are believed. They stand in
`src/location/key.rs` (keys of `slotmap`) and `src/bench_client/histogram.rs` (histograms of
`hdrhistogram`, and `flate2`, with which it compresses them).
