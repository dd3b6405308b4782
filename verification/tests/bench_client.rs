use hydro::bench_client::{
    aggregate_bench_results, bench_client, compute_throughput_latency, Aggregator, BenchClients,
    Measurement, Measuring, Samples, SerializableHistogramWrapper,
};
use hydro::location::{MemberId, MembershipEvent};
use hdrhistogram::serialization::{Serializer, V2DeflateSerializer, V2Serializer};
use std::io::Write;

#[test]
fn virtual_clients_come_one_per_tick_up_to_the_limit() {
    let mut state = BenchClients::new(2);
    let mut spawned = Vec::new();
    for now in 0..5 {
        let (inputs, latencies) =
            bench_client(2, &mut state, Vec::<(u32, u32)>::new(), now, |requests| requests);
        assert!(latencies.is_empty());
        spawned.push(inputs);
    }
    assert_eq!(
        spawned,
        vec![vec![(0, None)], vec![(1, None)], vec![], vec![], vec![]]
    );
    let mut nobody = BenchClients::new(0);
    let (inputs, _) =
        bench_client(0, &mut nobody, Vec::<(u32, u32)>::new(), 0, |requests| requests);
    assert!(inputs.is_empty());
}

#[test]
fn latencies_are_measured_from_the_last_request() {
    let mut state = BenchClients::new(1);
    let next = |requests: Vec<(u32, Option<u32>)>| -> Vec<(u32, u32)> {
        requests.into_iter().map(|(id, last)| (id, last.unwrap_or(100) + 1)).collect()
    };
    let (inputs, latencies) = bench_client(1, &mut state, vec![], 10, next);
    assert_eq!(inputs, vec![(0, 101)]);
    assert!(latencies.is_empty());
    let (inputs, latencies) = bench_client(1, &mut state, vec![(0, 5)], 25, next);
    assert_eq!(inputs, vec![(0, 6)]);
    assert_eq!(latencies, vec![(0, (5, 15))]);
    let (_, latencies) = bench_client(1, &mut state, vec![(0, 6), (0, 7), (3, 1)], 30, next);
    // only the latest output counts, and a client that sent nothing has no latency
    assert_eq!(latencies, vec![(0, (7, 5))]);
}

#[test]
fn windows_without_requests_give_no_sample() {
    let mut state = Measuring::new();
    compute_throughput_latency(
        &mut state,
        vec![
            Measurement::WindowOver,
            Measurement::Batch(vec![10, 20]),
            Measurement::Batch(vec![30]),
            Measurement::WindowOver,
            Measurement::WindowOver,
            Measurement::Batch(vec![40]),
        ],
    );
    assert_eq!(state.result.throughput.totals, vec![3]);
    assert_eq!(state.total, 1);
    assert_eq!(state.result.latency_histogram.len(), 4);
}

#[test]
fn histograms_survive_the_network() {
    let mut histogram = SerializableHistogramWrapper::new();
    assert_eq!(histogram.len(), 0);
    histogram.record(1);
    histogram.record(5_000_000);
    histogram.record(u64::MAX);
    assert_eq!(histogram.len(), 3);
    let bytes = histogram.serialize().unwrap();
    let mut again = SerializableHistogramWrapper::deserialize(&bytes).unwrap();
    assert!(again.is_standard());
    assert_eq!(again.len(), 3);
    assert_eq!(again.serialize().unwrap(), bytes);
    // others can be added to it, also larger values
    let mut other = SerializableHistogramWrapper::new();
    other.record(7);
    other.add(&again);
    again.add(&other);
    again.record(u64::MAX - 1);
    assert_eq!(again.len(), 8);
}

#[test]
fn the_values_of_a_histogram_are_kept() {
    // the bytes tell what was counted
    let mut histogram = SerializableHistogramWrapper::new();
    histogram.record(1000);
    histogram.record(5_000_000);
    let bytes = histogram.serialize().unwrap();
    let mut rest: &[u8] = &bytes;
    let read: hdrhistogram::Histogram<u64> =
        hdrhistogram::serialization::Deserializer::new().deserialize(&mut rest).unwrap();
    assert_eq!(read.count_at(1000), 1);
    assert_eq!(read.count_at(1001), 0);
    assert_eq!(read.count_at(5_000_000), 1);
    assert_eq!(read.lowest_equivalent(5_000_000), 4_997_120);
    assert_eq!((read.low(), read.sigfig()), (1, 3));
}

#[test]
fn bytes_that_are_not_a_histogram() {
    assert!(SerializableHistogramWrapper::deserialize(&vec![]).is_none());
    assert!(SerializableHistogramWrapper::deserialize(&vec![1, 2, 3, 4, 5]).is_none());
    assert!(SerializableHistogramWrapper::deserialize(&vec![0x1c, 0x84, 0x93, 0x13]).is_none());
    // a counter with all its bits set
    let mut bytes = histogram(vec![]).serialize().unwrap();
    bytes.truncate(40);
    bytes[4..8].copy_from_slice(&[0, 0, 0, 9]);
    bytes.extend(vec![0xff; 9]);
    assert!(SerializableHistogramWrapper::deserialize(&bytes).is_none());
    assert!(SerializableHistogramWrapper::deserialize(&compressed(&bytes)).is_none());
    // said to be compressed, but not so
    let mut bytes = histogram(vec![5]).serialize().unwrap();
    bytes[3] = 0x14;
    assert!(SerializableHistogramWrapper::deserialize(&bytes).is_none());
    // something else that is compressed
    assert!(SerializableHistogramWrapper::deserialize(&compressed(&vec![7; 50])).is_none());
    // less than it says
    let bytes = histogram(vec![5]).serialize().unwrap();
    let short = bytes[..bytes.len() - 1].to_vec();
    assert!(SerializableHistogramWrapper::deserialize(&short).is_none());
    assert!(SerializableHistogramWrapper::deserialize(&compressed(&short)).is_none());
}

/// A histogram as a compressed one is written.
fn compressed(plain: &Vec<u8>) -> Vec<u8> {
    let mut encoder =
        flate2::write::ZlibEncoder::new(Vec::new(), flate2::Compression::default());
    encoder.write_all(plain).unwrap();
    let packed = encoder.finish().unwrap();
    let mut bytes = vec![0x1c, 0x84, 0x93, 0x14];
    bytes.extend((packed.len() as u32).to_be_bytes());
    bytes.extend(packed);
    bytes
}

#[test]
fn compressed_histograms_are_read() {
    let mut source: hdrhistogram::Histogram<u64> = hdrhistogram::Histogram::new(3).unwrap();
    source.record(5).unwrap();
    source.record(7).unwrap();
    let mut bytes: Vec<u8> = Vec::new();
    V2DeflateSerializer::new().serialize(&source, &mut bytes).unwrap();
    let mut read = SerializableHistogramWrapper::deserialize(&bytes).unwrap();
    assert!(read.is_standard());
    assert_eq!(read.len(), 2);
    // it grows
    read.record(1 << 40);
    assert_eq!(read.len(), 3);
    let plain = read.serialize().unwrap();
    let again = SerializableHistogramWrapper::deserialize(&compressed(&plain)).unwrap();
    assert_eq!(again.serialize().unwrap(), plain);
}

#[test]
fn other_settings_are_told_apart() {
    let mut source: hdrhistogram::Histogram<u64> =
        hdrhistogram::Histogram::new_with_bounds(1, 1000, 2).unwrap();
    source.record(5).unwrap();
    let mut bytes: Vec<u8> = Vec::new();
    V2Serializer::new().serialize(&source, &mut bytes).unwrap();
    let read = SerializableHistogramWrapper::deserialize(&bytes).unwrap();
    assert!(!read.is_standard());
    assert_eq!(read.len(), 1);
}

#[test]
fn what_follows_a_histogram_is_ignored() {
    let mut bytes = histogram(vec![5, 7]).serialize().unwrap();
    bytes.extend(vec![0xff; 9]);
    let again = SerializableHistogramWrapper::deserialize(&bytes).unwrap();
    assert_eq!(again.len(), 2);
}

fn samples(totals: Vec<usize>) -> Samples {
    Samples { totals }
}

fn histogram(values: Vec<u64>) -> SerializableHistogramWrapper {
    let mut h = SerializableHistogramWrapper::new();
    for v in values {
        h.record(v);
    }
    h
}

#[test]
fn nothing_is_reported_while_clients_are_missing() {
    let mut a: Aggregator<()> = Aggregator::new();
    let id = |n: u32| MemberId::from_raw_id(n);
    a.track_member(id(0), MembershipEvent::Joined);
    a.track_member(id(1), MembershipEvent::Joined);
    a.track_member(id(2), MembershipEvent::Joined);
    a.track_member(id(2), MembershipEvent::Left);
    a.receive_throughput(id(0), samples(vec![4, 6]));
    a.receive_throughput(id(1), samples(vec![]));
    a.receive_latency(id(0), histogram(vec![1, 2]));
    let r = aggregate_bench_results(&a);
    assert_eq!(r.waiting_for_clients, Some(1));
    assert!(r.throughput.is_none() && r.latency.is_none());
    // a client that joins again counts once
    a.track_member(id(1), MembershipEvent::Joined);
    assert_eq!(a.members.len(), 3);
    assert_eq!(aggregate_bench_results(&a).waiting_for_clients, Some(1));

    // with the second client there are still only two samples
    a.receive_throughput(id(0), samples(vec![4]));
    a.receive_throughput(id(1), samples(vec![5]));
    let r = aggregate_bench_results(&a);
    assert_eq!(r.waiting_for_clients, None);
    assert!(r.throughput.is_none());
    assert_eq!(r.latency.unwrap().len(), 2);

    a.receive_throughput(id(0), samples(vec![4, 6]));
    a.receive_latency(id(1), histogram(vec![3]));
    a.receive_latency(id(0), histogram(vec![1, 2, 9]));
    let r = aggregate_bench_results(&a);
    let (combined, clients) = r.throughput.unwrap();
    let mut totals = combined.totals;
    totals.sort();
    assert_eq!((totals, clients), (vec![4, 5, 6], 2));
    assert_eq!(r.latency.unwrap().len(), 4);
}

#[test]
fn no_clients_and_no_results() {
    let a: Aggregator<()> = Aggregator::new();
    let r = aggregate_bench_results(&a);
    assert!(r.waiting_for_clients.is_none() && r.throughput.is_none() && r.latency.is_none());
}
