use hydro::compile::builder::FlowBuilder;
use hydro::compile::ir::{DebugExpr, HydroOp, HydroRoot, HydroSource};
use hydro::live_collections::stream::{ExactlyOnce, NoOrder, TotalOrder};
use hydro::live_collections::{KeyedStream, Quoted, Stream, Unbounded};
use hydro::location::dynamic::{check_matching_location, DynLocation, LocationId};
use hydro::location::key::{LocationKeyError, NumberError};
use hydro::location::{
    Cluster, Location, LocationKey, MemberId, MembershipEvent, NetworkHint, Process, Rooted,
    TaglessMemberId,
};
use hydro::nondet::NonDet;
use hydro::trace::Trace;

const CODEC: &str = "tokio_util::codec::LengthDelimitedCodec";

fn text(code: &str) -> DebugExpr {
    DebugExpr { code: code.to_owned() }
}

fn received<T>(rounds: Vec<Vec<T>>) -> Trace<Result<T, ()>> {
    Trace {
        rounds: rounds.into_iter().map(|r| r.into_iter().map(Ok).collect()).collect(),
    }
}

#[test]
fn top_level_singleton_replay_cardinality() {
    let mut flow = FlowBuilder::new(2);
    let node: Process<()> = flow.process();
    let external = flow.external::<()>();
    let input = node
        .source_external_bincode::<(), i32, TotalOrder, ExactlyOnce>(
            &mut flow,
            &external,
            "i32",
            Trace { rounds: vec![vec![1], vec![2]] },
        )
        .1;
    let mut singleton = node.singleton(Quoted::new("123", 123));
    let tick = node.tick(&mut flow);
    let value = singleton.clone().snapshot(&tick, NonDet::none()).into_optional();
    let count = singleton.snapshot(&tick, NonDet::none()).into_stream().count().into_optional();
    let out = input
        .batch(&tick, NonDet::none())
        .cross_singleton(value)
        .cross_singleton(count)
        .all_ticks();
    assert_eq!(out.trace.rounds, vec![vec![((1, 123), 1)], vec![((2, 123), 1)]]);
}

#[test]
fn tick_singleton_replay_cardinality() {
    let mut flow = FlowBuilder::new(2);
    let node: Process<()> = flow.process();
    let external = flow.external::<()>();
    let input = node
        .source_external_bincode::<(), i32, TotalOrder, ExactlyOnce>(
            &mut flow,
            &external,
            "i32",
            Trace { rounds: vec![vec![1], vec![2]] },
        )
        .1;
    let tick = node.tick(&mut flow);
    let mut singleton = tick.singleton(Quoted::new("123", 123));
    let out = input
        .batch(&tick, NonDet::none())
        .cross_singleton(singleton.clone().into_optional())
        .cross_singleton(singleton.into_stream().count().into_optional())
        .all_ticks();
    assert_eq!(out.trace.rounds, vec![vec![((1, 123), 1)], vec![((2, 123), 1)]]);
}

#[test]
fn external_bytes() {
    let mut flow = FlowBuilder::new(1);
    let first_node: Process<()> = flow.process();
    let external = flow.external::<()>();
    let (in_port, input) = first_node.source_external_bytes(
        &mut flow,
        &external,
        received(vec![vec![vec![1, 2, 3]]]),
    );
    assert_eq!(input.trace.rounds.concat(), vec![vec![1, 2, 3]]);
    assert_eq!(in_port.process_key, external.key);
    assert_eq!(in_port.port_id, 0);
    assert_eq!(flow.roots.len(), 2);
}

#[test]
fn multi_external_source() {
    let mut flow = FlowBuilder::new(1);
    let first_node: Process<()> = flow.process();
    let external = flow.external::<()>();
    let (in_port, input, _membership, complete_sink) = first_node
        .bidi_external_many_bincode::<(), i32, ()>(
            &mut flow,
            &external,
            "i32",
            "()",
            Trace { rounds: vec![vec![(0, 123), (1, 456)]] },
            Trace { rounds: vec![vec![(0, true), (1, true)]] },
        );
    let mut entries = input.entries().trace.rounds.concat();
    entries.sort();
    assert_eq!(entries, vec![(0, 123), (1, 456)]);
    let nothing: Vec<(u64, ())> = Vec::new();
    complete_sink.complete(
        &mut flow,
        first_node
            .source_iter(Quoted::new("[]", nothing))
            .into_unbounded()
            .into_keyed()
            .weaken_ordering::<NoOrder>(),
    );
    assert_eq!(in_port.process_key, external.key);
    let Some(HydroRoot::CycleSink { ident, .. }) = flow.roots.last() else {
        panic!("not completed")
    };
    assert_eq!(ident, "cycle_0");
}

#[test]
fn second_connection_only_multi_source() {
    let mut flow = FlowBuilder::new(1);
    let first_node: Process<()> = flow.process();
    let external = flow.external::<()>();
    let (_, input, _membership, _complete_sink) = first_node
        .bidi_external_many_bincode::<(), i32, ()>(
            &mut flow,
            &external,
            "i32",
            "()",
            Trace { rounds: vec![vec![(1, 456)]] },
            Trace { rounds: vec![vec![(0, true), (1, true)]] },
        );
    assert_eq!(input.entries().trace.rounds.concat(), vec![(1, 456)]);
}

#[test]
fn multi_external_bytes() {
    let mut flow = FlowBuilder::new(1);
    let first_node: Process<()> = flow.process();
    let external = flow.external::<()>();
    let (_, input, membership, _sink) = first_node
        .bidi_external_many_bytes::<(), Vec<u8>, (), Vec<u8>>(
            &mut flow,
            &external,
            CODEC,
            NetworkHint::Auto,
            received(vec![vec![(0, vec![1, 2, 3]), (1, vec![4, 5])]]),
            Trace { rounds: vec![vec![(0, true), (1, true), (0, false)]] },
        );
    assert_eq!(
        input.entries().trace.rounds.concat(),
        vec![(0, vec![1, 2, 3]), (1, vec![4, 5])]
    );
    let HydroOp::MapEach { input: source, .. } = membership.ir_node.op else {
        panic!("not mapped")
    };
    assert!(matches!(
        &source.op,
        HydroOp::Source { source: HydroSource::Stream(e) }
            if e.code == "__hydro_deploy_many_loc2v1_0_membership"
    ));
    assert_eq!(
        membership.trace.rounds.concat(),
        vec![
            (0, MembershipEvent::Joined),
            (1, MembershipEvent::Joined),
            (0, MembershipEvent::Left)
        ]
    );
}

#[test]
fn single_client_external_bytes() {
    let mut flow = FlowBuilder::new(1);
    let first_node: Process<()> = flow.process();
    let external = flow.external::<()>();
    let (port, input, complete_sink) = first_node
        .bind_single_client::<(), Vec<u8>, (), Vec<u8>>(
            &mut flow,
            &external,
            CODEC,
            NetworkHint::Auto,
            received(vec![vec![vec![1, 2, 3]]]),
        );
    let HydroOp::FlatMap { input: raw, .. } = &input.ir_node.op else { panic!("not flattened") };
    assert!(matches!(
        raw.op,
        HydroOp::ExternalInput { port_hint: NetworkHint::Auto, from_many: false, .. }
    ));
    let replies = input.map(Quoted::new("push 42", |data: Vec<u8>| {
        let mut resp = data;
        resp.push(42);
        resp
    }));
    assert_eq!(replies.trace.rounds.concat(), vec![vec![1, 2, 3, 42]]);
    complete_sink.complete(&mut flow, replies);
    assert_eq!(port.port_id, 0);
    assert!(matches!(
        flow.roots[0],
        HydroRoot::SendExternal { to_many: false, unpaired: false, serialize_fn: None, .. }
    ));
    assert!(matches!(flow.roots[1], HydroRoot::CycleSink { .. }));
}

#[test]
fn echo_external_bytes() {
    let mut flow = FlowBuilder::new(1);
    let first_node: Process<()> = flow.process();
    let external = flow.external::<()>();
    let (_, input, _membership, complete_sink) = first_node
        .bidi_external_many_bytes::<(), Vec<u8>, (), Vec<u8>>(
            &mut flow,
            &external,
            CODEC,
            NetworkHint::Auto,
            received(vec![vec![(0, vec![1, 2, 3]), (1, vec![4, 5])]]),
            Trace { rounds: vec![vec![(0, true), (1, true)]] },
        );
    let replies = input.map(Quoted::new("add one", |bytes: Vec<u8>| {
        bytes.into_iter().map(|x| x + 1).collect::<Vec<u8>>()
    }));
    assert_eq!(replies.trace.rounds.concat(), vec![(0, vec![2, 3, 4]), (1, vec![5, 6])]);
    complete_sink.complete(&mut flow, replies.weaken_ordering::<NoOrder>());
}

#[test]
fn echo_external_bincode() {
    let mut flow = FlowBuilder::new(1);
    let first_node: Process<()> = flow.process();
    let external = flow.external::<()>();
    let (_, input, _membership, complete_sink) = first_node
        .bidi_external_many_bincode::<(), String, String>(
            &mut flow,
            &external,
            "String",
            "String",
            Trace { rounds: vec![vec![(0, "hi".to_owned()), (1, "hello".to_owned())]] },
            Trace { rounds: vec![vec![(0, true), (1, true)]] },
        );
    let replies = input.map(Quoted::new("upper case", |text: String| text.to_uppercase()));
    assert_eq!(
        replies.trace.rounds.concat(),
        vec![(0, "HI".to_owned()), (1, "HELLO".to_owned())]
    );
    complete_sink.complete(&mut flow, replies.weaken_ordering::<NoOrder>());
    let HydroRoot::SendExternal { serialize_fn: Some(f), to_many: true, .. } = &flow.roots[0]
    else {
        panic!("nothing is sent")
    };
    assert_eq!(
        f.code,
        "hydro_lang::runtime_support::stageleft::runtime_support::fn1_type_hint::<(u64, String), _>(|(id, b)| (id, hydro_lang::runtime_support::bincode::serialize(&b).unwrap().into()))"
    );
}

#[test]
fn generated_code_names_the_runtime() {
    let mut flow = FlowBuilder::new(1).with_crate_root("dataflow");
    let node: Process<()> = flow.process();
    let external = flow.external::<()>();
    let input = node
        .source_external_bincode::<(), u32, TotalOrder, ExactlyOnce>(
            &mut flow,
            &external,
            "u32",
            Trace { rounds: vec![vec![3]] },
        )
        .1;
    let HydroOp::ExternalInput { deserialize_fn: Some(f), .. } = &input.ir_node.op else {
        panic!("no input")
    };
    assert_eq!(
        f.code,
        "|res| { let b = res.unwrap(); dataflow::runtime_support::bincode::deserialize::<u32>(&b).unwrap() }"
    );
    let HydroRoot::SendExternal { serialize_fn: Some(f), .. } = &flow.roots[0] else {
        panic!("nothing is sent")
    };
    assert_eq!(
        f.code,
        "dataflow::runtime_support::stageleft::runtime_support::fn1_type_hint::<(), _>(|b| dataflow::runtime_support::bincode::serialize(&b).unwrap().into())"
    );
}

#[test]
fn messages_that_cannot_be_decoded_are_dropped() {
    let mut flow = FlowBuilder::new(1);
    let node: Process<()> = flow.process();
    let external = flow.external::<()>();
    let (_, input, _) = node.bind_single_client::<(), u8, &str, u8>(
        &mut flow,
        &external,
        CODEC,
        NetworkHint::Auto,
        Trace { rounds: vec![vec![Ok(1), Err("frame too long"), Ok(2)]] },
    );
    assert_eq!(input.trace.rounds, vec![vec![1, 2]]);
}

#[test]
fn serialized_values_from_one_client() {
    let mut flow = FlowBuilder::new(1);
    let node: Process<()> = flow.process();
    let external = flow.external::<()>();
    let (port, input, handle) = node.bind_single_client_bincode::<(), u32, char>(
        &mut flow,
        &external,
        "u32",
        "char",
        Trace { rounds: vec![vec![7]] },
    );
    assert_eq!(port.port_id, 0);
    assert_eq!(input.trace.rounds, vec![vec![7]]);
    assert_eq!(handle.ident, "cycle_0");
    let HydroOp::ExternalInput { deserialize_fn: Some(f), codec_type, .. } = input.ir_node.op
    else {
        panic!("nothing is received")
    };
    assert_eq!(codec_type, CODEC);
    assert_eq!(
        f.code,
        "|res| { let b = res.unwrap(); hydro_lang::runtime_support::bincode::deserialize::<u32>(&b).unwrap() }"
    );
    let again = node.bind_single_client_bincode::<(), u32, char>(
        &mut flow,
        &external,
        "u32",
        "char",
        Trace { rounds: vec![vec![]] },
    );
    assert_eq!(again.0.port_id, 1);
    assert_eq!(again.2.ident, "cycle_1");
}

#[test]
fn sources() {
    let mut flow = FlowBuilder::new(2);
    let node: Process<()> = flow.process();
    assert_eq!(node.spin().trace.rounds, vec![vec![()], vec![()]]);
    let timer = node.source_interval(
        &text("Duration::from_secs(1)"),
        Trace { rounds: vec![vec![()], vec![]] },
    );
    assert!(matches!(
        &timer.ir_node.op,
        HydroOp::Source { source: HydroSource::Stream(e) } if e.code
            == "tokio_stream::StreamExt::map(tokio_stream::wrappers::IntervalStream::new(tokio::time::interval(Duration::from_secs(1))), |_| ())"
    ));
    let delayed = node.source_interval_delayed(
        &text("d"),
        &text("i"),
        Trace { rounds: vec![vec![], vec![()]] },
    );
    assert!(matches!(
        &delayed.ir_node.op,
        HydroOp::Source { source: HydroSource::Stream(e) } if e.code
            == "tokio_stream::StreamExt::map(tokio_stream::wrappers::IntervalStream::new(tokio::time::interval_at(tokio::time::Instant::now() + d, i)), |_| ())"
    ));
    let times = node.source_interval_with_time(
        &text("i"),
        Trace { rounds: vec![vec![5], vec![6]] },
        NonDet::none(),
    );
    assert_eq!(times.trace.rounds, vec![vec![5], vec![6]]);
    let delayed_times = node.source_interval_delayed_with_time(
        &text("d"),
        &text("i"),
        Trace { rounds: vec![vec![], vec![6]] },
        NonDet::none(),
    );
    assert!(matches!(
        &delayed_times.ir_node.op,
        HydroOp::Source { source: HydroSource::Stream(e) } if e.code
            == "tokio_stream::wrappers::IntervalStream::new(tokio::time::interval_at(tokio::time::Instant::now() + d, i))"
    ));
}

#[test]
fn members_of_a_cluster() {
    let mut flow = FlowBuilder::new(1);
    let node: Process<()> = flow.process();
    let workers: Cluster<u8> = flow.cluster();
    let members: KeyedStream<MemberId<u8>, MembershipEvent, Process<()>, Unbounded> = node
        .source_cluster_members(
            &workers,
            Trace {
                rounds: vec![vec![
                    (TaglessMemberId { raw_id: 0 }, MembershipEvent::Joined),
                    (TaglessMemberId { raw_id: 2 }, MembershipEvent::Left),
                ]],
            },
        );
    let seen: Vec<(u32, MembershipEvent)> =
        members.trace.rounds.concat().into_iter().map(|(id, e)| (id.get_raw_id(), e)).collect();
    assert_eq!(seen, vec![(0, MembershipEvent::Joined), (2, MembershipEvent::Left)]);
}

#[test]
fn clocks_are_numbered() {
    let mut flow = FlowBuilder::new(1);
    let node: Process<()> = flow.process();
    let first = node.tick(&mut flow);
    let second = node.tick(&mut flow);
    assert_eq!((first.id, second.id), (0, 1));
    assert!(node.try_tick(&mut flow).is_some());
    assert!(first.try_tick(&mut flow).is_none());
    assert_eq!(flow.next_clock_id, 3);
    assert!(check_matching_location(&node, first.outer()));
    assert!(!check_matching_location(&first, &second));
    assert!(node.root().key == node.key && first.root().key == node.key);
    assert!(matches!(first.id(), LocationId::Tick(0, _)));
}

#[test]
fn forward_references() {
    let mut flow = FlowBuilder::new(2);
    let node: Process<()> = flow.process();
    let (handle, later) = node
        .forward_ref::<Stream<i32, Process<()>, Unbounded, TotalOrder, ExactlyOnce>>(
            &mut flow,
            Trace { rounds: vec![vec![], vec![1]] },
        );
    assert_eq!(later.trace.rounds, vec![vec![], vec![1]]);
    assert!(matches!(&later.ir_node.op, HydroOp::CycleSource { ident } if ident == "cycle_0"));
    assert!(handle.expected_location.same(&node.location_id()));
    let actual = node.source_stream(text("s"), Trace { rounds: vec![vec![], vec![1]] });
    handle.complete(&mut flow, actual);
    assert_eq!(flow.roots.len(), 1);
}

#[test]
fn keys_as_text() {
    let first = LocationKey::first();
    assert_eq!(first.to_text(), "loc1v1");
    assert_eq!(LocationKey::from_str("loc1v1"), Ok(first));
    // the upper half is made odd
    assert_eq!(LocationKey::from_ffi(0x0000_0002_0000_0007).to_text(), "loc7v3");
    let key = LocationKey::from_ffi(0x0000_00ff_0000_0002);
    assert_eq!(key.to_text(), "loc2v255");
    assert_eq!(LocationKey::from_str("loc2v255"), Ok(key));
    assert_eq!(LocationKey::from_str("loc+2v+255"), Ok(key));
    let greatest = LocationKey::from_ffi(0x0000_0001_ffff_ffff);
    assert_eq!(greatest.to_text(), "locnull");
    assert_eq!(LocationKey::from_str("locnull"), Err(LocationKeyError::Format));
    assert_eq!(
        first.to_tokens("hydro_lang"),
        "hydro_lang::location::LocationKey::from(hydro_lang::runtime_support::slotmap::KeyData::from_ffi(4294967297u64))"
    );
}

#[test]
fn texts_that_are_not_keys() {
    assert_eq!(LocationKey::from_str("1v1"), Err(LocationKeyError::Format));
    assert_eq!(LocationKey::from_str("loc11"), Err(LocationKeyError::Format));
    assert_eq!(
        LocationKey::from_str("locv1"),
        Err(LocationKeyError::Number(NumberError::Empty))
    );
    assert_eq!(
        LocationKey::from_str("loc1v"),
        Err(LocationKeyError::Number(NumberError::Empty))
    );
    assert_eq!(
        LocationKey::from_str("loc1vx"),
        Err(LocationKeyError::Number(NumberError::InvalidDigit))
    );
    assert_eq!(
        LocationKey::from_str("loc-1v1"),
        Err(LocationKeyError::Number(NumberError::InvalidDigit))
    );
    assert_eq!(
        LocationKey::from_str("loc18446744073709551616v1"),
        Err(LocationKeyError::Number(NumberError::Overflow))
    );
}
