use hydro::compile::builder::FlowBuilder;
use hydro::compile::ir::{DebugExpr, HydroOp, HydroRoot};
use hydro::live_collections::stream::{ExactlyOnce, TotalOrder};
use hydro::live_collections::Quoted;
use hydro::location::{External, Location, Process};
use hydro::nondet::NonDet;
use hydro::trace::Trace;

fn all_choices(len: usize, below: usize) -> Vec<Vec<usize>> {
    let mut all = vec![Vec::new()];
    for _ in 0..len {
        let mut longer = Vec::new();
        for prefix in &all {
            for c in 0..below {
                let mut next: Vec<usize> = prefix.clone();
                next.push(c);
                longer.push(next);
            }
        }
        all = longer;
    }
    all
}

fn outcomes<T: Ord>(len: usize, below: usize, run: impl Fn(NonDet) -> T) -> Vec<T> {
    let mut all: Vec<T> = all_choices(len, below)
        .into_iter()
        .map(|c| run(NonDet::new(c)))
        .collect();
    all.sort();
    all.dedup();
    all
}

fn text(code: &str) -> DebugExpr {
    DebugExpr { code: code.to_owned() }
}

#[test]
fn tick_cycle_cardinality() {
    let mut flow = FlowBuilder::new(2);
    let node: Process<()> = flow.process();
    let external: External<()> = flow.external();
    let input = node
        .source_external_bincode::<(), (), TotalOrder, ExactlyOnce>(
            &mut flow,
            &external,
            "()",
            Trace { rounds: vec![vec![()], vec![()]] },
        )
        .1;
    let node_tick = node.tick(&mut flow);
    let initial = node_tick.singleton(Quoted::new("0", 0));
    let later = vec![vec![0], vec![0]];
    let (complete_cycle, mut singleton) =
        node_tick.cycle_with_initial(&mut flow, initial, Trace { rounds: later.clone() });
    let trigger = input.batch(&node_tick, NonDet::none()).first();
    let counts = singleton
        .clone()
        .into_stream()
        .count()
        .filter_if_some(&mut flow, trigger)
        .all_ticks();
    assert_eq!(counts.trace.rounds, vec![vec![1], vec![1]]);
    assert_eq!(singleton.trace.rounds, later);
    let ident = complete_cycle.ident.clone();
    complete_cycle.complete(&mut flow, singleton);
    assert!(matches!(
        flow.roots.last(),
        Some(HydroRoot::CycleSink { ident: completed, .. }) if *completed == ident
    ));
}

#[test]
fn a_tick_cycle_yields_what_the_tick_before_completed() {
    let mut flow = FlowBuilder::new(3);
    let node: Process<()> = flow.process();
    let tick = node.tick(&mut flow);
    let initial = tick.singleton(Quoted::new("1", 1));
    let later = vec![vec![2], vec![4], vec![8]];
    let (handle, previous) =
        tick.cycle_with_initial(&mut flow, initial, Trace { rounds: later.clone() });
    assert_eq!(previous.trace.rounds, vec![vec![1], vec![2], vec![4]]);
    let doubled = previous.map(Quoted::new("|v| v * 2", |v: i32| v * 2));
    assert_eq!(doubled.trace.rounds, later);
    handle.complete(&mut flow, doubled);
}

fn sums(n: usize, nondet: NonDet) -> Vec<i32> {
    let mut flow = FlowBuilder::new(n);
    let node: Process<()> = flow.process();
    let mut rounds = vec![Vec::new(); n];
    rounds[0] = vec![1, 2, 3, 4];
    let source = node.source_stream(text("tokio_stream::iter(vec![1, 2, 3, 4])"), Trace { rounds });
    let folded = source.fold(
        Quoted::new("|| 0", || 0),
        Quoted::new("|a, b| *a += b", |a: i32, b: i32| a + b),
    );
    let tick = node.tick(&mut flow);
    folded.snapshot(&tick, nondet).all_ticks().trace.rounds.concat()
}

#[test]
#[should_panic]
fn sim_fold_intermediate_states() {
    for choices in all_choices(4, 5) {
        assert_eq!(sums(5, NonDet::new(choices))[0], 10);
    }
}

#[test]
fn sim_fold_intermediate_state_count() {
    let all = outcomes(4, 5, |nondet| {
        let mut out = sums(5, nondet);
        assert_eq!(out.last(), Some(&10));
        out.dedup();
        out
    });
    // any of the states before the last one can be seen, the initial one too
    assert_eq!(all.len(), 16)
}

#[test]
fn sim_fold_no_repeat_initial() {
    let all = outcomes(2, 3, |nondet| {
        let mut flow = FlowBuilder::new(2);
        let node: Process<()> = flow.process();
        let input = node
            .sim_input::<i32, TotalOrder, ExactlyOnce>(
                &mut flow,
                "i32",
                Trace { rounds: vec![vec![], vec![123]] },
            )
            .1;
        let folded = input.fold(
            Quoted::new("|| 0", || 0),
            Quoted::new("|a, b| *a += b", |a: i32, b: i32| a + b),
        );
        let tick = node.tick(&mut flow);
        folded.snapshot(&tick, nondet).all_ticks().trace.rounds.concat()
    });
    assert_eq!(all, vec![vec![0, 123]]);
}

#[test]
#[should_panic]
fn sim_fold_repeats_snapshots() {
    for batching in all_choices(3, 5) {
        for showing in all_choices(3, 5) {
            let mut flow = FlowBuilder::new(4);
            let node: Process<()> = flow.process();
            let mut rounds = vec![Vec::new(); 4];
            rounds[0] = vec![1, 2, 3, 4];
            let mut source =
                node.source_stream(text("tokio_stream::iter(vec![1, 2, 3, 4])"), Trace { rounds });
            let folded = source.clone().fold(
                Quoted::new("|| 0", || 0),
                Quoted::new("|a, b| *a += b", |a: i32, b: i32| a + b),
            );
            let tick = node.tick(&mut flow);
            let sum = folded.snapshot(&tick, NonDet::new(showing)).into_optional();
            let out = source
                .batch(&tick, NonDet::new(batching.clone()))
                .cross_singleton(sum)
                .all_ticks();
            let batches: Vec<Vec<(i32, i32)>> =
                out.trace.rounds.into_iter().filter(|b| !b.is_empty()).collect();
            if batches[0] == vec![(1, 3)] && batches[1].first() == Some(&(2, 3)) {
                panic!("repeated snapshot");
            }
        }
    }
}

#[test]
fn sim_fold_repeats_snapshots_count() {
    let mut instances: Vec<Vec<(Vec<i32>, i32)>> = Vec::new();
    for batching in all_choices(4, 3) {
        for showing in all_choices(4, 3) {
            let mut flow = FlowBuilder::new(5);
            let node: Process<()> = flow.process();
            let mut rounds = vec![Vec::new(); 5];
            rounds[0] = vec![1, 2];
            let mut source =
                node.source_stream(text("tokio_stream::iter(vec![1, 2])"), Trace { rounds });
            let folded = source.clone().fold(
                Quoted::new("|| 0", || 0),
                Quoted::new("|a, b| *a += b", |a: i32, b: i32| a + b),
            );
            let tick = node.tick(&mut flow);
            let mut sum = folded.snapshot(&tick, NonDet::new(showing));
            let shown = sum.clone().trace.rounds.concat();
            let mut batch = source.batch(&tick, NonDet::new(batching.clone()));
            let batches = batch.clone().trace.rounds;
            let out = batch.cross_singleton(sum.into_optional()).all_ticks();
            // a tick runs if there is something in its batch, or a snapshot not seen before
            let mut instance: Vec<(Vec<i32>, i32)> = Vec::new();
            for (elements, state) in batches.into_iter().zip(shown) {
                let last = instance.last().map(|t| t.1);
                if !elements.is_empty() || last != Some(state) {
                    instance.push((elements, state));
                }
            }
            let mut paired = Vec::new();
            for (elements, state) in &instance {
                paired.extend(elements.iter().map(|x| (*x, *state)));
            }
            assert_eq!(out.trace.rounds.concat(), paired);
            instances.push(instance);
        }
    }
    instances.sort();
    instances.dedup();
    assert_eq!(instances.len(), 52);
}

#[test]
fn sim_top_level_singleton_exhaustive() {
    let all = outcomes(3, 3, |nondet| {
        let mut flow = FlowBuilder::new(3);
        let node: Process<()> = flow.process();
        let singleton = node.singleton(Quoted::new("1", 1));
        let tick = node.tick(&mut flow);
        let mut out = singleton.snapshot(&tick, nondet).all_ticks().trace.rounds.concat();
        out.dedup();
        out
    });
    assert_eq!(all.len(), 1);
}

#[test]
fn sim_top_level_singleton_join_count() {
    let all = outcomes(4, 5, |nondet| {
        let mut flow = FlowBuilder::new(5);
        let node: Process<()> = flow.process();
        let source_iter = node.source_iter(Quoted::new("vec![1, 2, 3, 4]", vec![1, 2, 3, 4]));
        let tick = node.tick(&mut flow);
        let value = node.singleton(Quoted::new("123", 123)).clone_into_tick(&tick);
        let out = source_iter
            .batch(&tick, nondet)
            .cross_singleton(value.into_optional())
            .all_ticks();
        let mut batches = out.trace.rounds;
        assert_eq!(batches.concat(), vec![(1, 123), (2, 123), (3, 123), (4, 123)]);
        let later = batches.split_off(1);
        batches.extend(later.into_iter().filter(|b| !b.is_empty()));
        batches
    });
    // the ways to split four elements, where the first batch may be empty
    assert_eq!(all.len(), 16)
}

#[test]
fn top_level_singleton_into_stream_no_replay() {
    let mut flow = FlowBuilder::new(3);
    let node: Process<()> = flow.process();
    let source_iter = node.source_iter(Quoted::new("vec![1, 2, 3, 4]", vec![1, 2, 3, 4]));
    let folded = source_iter.fold(
        Quoted::new("|| 0", || 0),
        Quoted::new("|a, b| *a += b", |a: i32, b: i32| a + b),
    );
    assert_eq!(folded.into_stream().trace.rounds.concat(), vec![10]);
}

#[test]
fn snapshots_never_go_back() {
    for choices in all_choices(4, 5) {
        let shown = sums(5, NonDet::new(choices));
        assert!(shown.windows(2).all(|w| w[0] <= w[1]));
    }
}

#[test]
fn zip_of_singletons() {
    let mut flow = FlowBuilder::new(2);
    let node: Process<()> = flow.process();
    let tick = node.tick(&mut flow);
    let a = tick.singleton(Quoted::new("1", 1));
    let b = tick.singleton(Quoted::new("2", 2));
    let zipped = a.zip(&mut flow, b);
    assert_eq!(zipped.trace.rounds, vec![vec![(1, 2)], vec![(1, 2)]]);
    assert_eq!(flow.next_clock_id, 1);
    assert!(matches!(zipped.ir_node.op, HydroOp::Cast { .. }));

    let c = node.singleton(Quoted::new("3", 3));
    let d = node.singleton(Quoted::new("4", 4));
    let outside = c.zip(&mut flow, d);
    assert_eq!(outside.trace.rounds, vec![vec![(3, 4)], vec![]]);
    assert_eq!(flow.next_clock_id, 2);
}

#[test]
fn zip_with_an_optional() {
    let mut flow = FlowBuilder::new(2);
    let node: Process<()> = flow.process();
    let tick = node.tick(&mut flow);
    let numbers = node.source_iter(Quoted::new("vec![123, 456]", vec![123, 456]));
    let mut batch = numbers.batch(&tick, NonDet::none());
    let count = batch.clone().count();
    let max = batch.max();
    let both = count.zip_optional(&mut flow, max).all_ticks();
    assert_eq!(both.trace.rounds, vec![vec![(2, 456)], vec![]]);
}

#[test]
fn filters_by_a_signal() {
    let mut flow = FlowBuilder::new(2);
    let node: Process<()> = flow.process();
    let tick = node.tick(&mut flow);
    let numbers = node.source_iter(Quoted::new("vec![7]", vec![7]));
    let mut signal = numbers.batch(&tick, NonDet::none()).first();
    let on = tick.singleton(Quoted::new("5", 5)).filter_if_some(&mut flow, signal.clone());
    let off = tick.singleton(Quoted::new("5", 5)).filter_if_none(&mut flow, signal);
    assert_eq!(on.all_ticks().trace.rounds, vec![vec![5], vec![]]);
    assert_eq!(off.all_ticks().trace.rounds, vec![vec![], vec![5]]);
}

#[test]
fn maps_and_filters_values() {
    let mut flow = FlowBuilder::new(1);
    let node: Process<()> = flow.process();
    let tick = node.tick(&mut flow);
    let doubled = tick.singleton(Quoted::new("5", 5)).map(Quoted::new("|v| v * 2", |v: i32| v * 2));
    assert_eq!(doubled.all_ticks().trace.rounds, vec![vec![10]]);
    let kept = tick.singleton(Quoted::new("5", 5)).filter(Quoted::new("|&x| x > 3", |x: &i32| *x > 3));
    assert_eq!(kept.all_ticks().trace.rounds, vec![vec![5]]);
    let dropped =
        tick.singleton(Quoted::new("5", 5)).filter(Quoted::new("|&x| x > 9", |x: &i32| *x > 9));
    assert_eq!(dropped.all_ticks().trace.rounds, vec![Vec::<i32>::new()]);
    let parsed = tick
        .singleton(Quoted::new("42", 42u32))
        .filter_map(Quoted::new("half", |x: u32| if x % 2 == 0 { Some(x / 2) } else { None }));
    assert_eq!(parsed.all_ticks().trace.rounds, vec![vec![21]]);
    let listed = tick
        .singleton(Quoted::new("3", 3))
        .flat_map_ordered(Quoted::new("|v| 1..=v", |v: i32| (1..=v).collect::<Vec<i32>>()));
    assert_eq!(listed.all_ticks().trace.rounds, vec![vec![1, 2, 3]]);
}

#[test]
fn latest_follows_the_value() {
    let mut flow = FlowBuilder::new(2);
    let node: Process<()> = flow.process();
    let tick = node.tick(&mut flow);
    let input = node.source_stream(
        text("input"),
        Trace { rounds: vec![vec![1], vec![1, 2, 3]] },
    );
    let mut counts = input.batch(&tick, NonDet::none()).count();
    let again = counts.clone();
    let outside = counts.latest().sample_eager(&mut flow, NonDet::none());
    assert_eq!(outside.trace.rounds.concat(), vec![1, 3]);
    let atomic = again.latest_atomic().snapshot_atomic(NonDet::none());
    assert_eq!(atomic.trace.rounds, vec![vec![1], vec![3]]);
}

#[test]
fn samples_a_value_when_the_timer_goes_off() {
    let mut flow = FlowBuilder::new(3);
    let node: Process<()> = flow.process();
    let value = node
        .source_stream(text("input"), Trace { rounds: vec![vec![1], vec![2], vec![3]] })
        .fold(Quoted::new("|| 0", || 0), Quoted::new("sum", |a: i32, b: i32| a + b));
    let out = value.sample_every(
        &mut flow,
        &text("Duration::from_secs(1)"),
        Trace { rounds: vec![vec![], vec![()], vec![]] },
        NonDet::none(),
        NonDet::none(),
    );
    assert_eq!(out.trace.rounds, vec![vec![], vec![3], vec![]]);
}

#[test]
fn a_fixed_value_can_be_taken_for_a_changing_one() {
    let mut flow = FlowBuilder::new(2);
    let node: Process<()> = flow.process();
    let value = node.singleton(Quoted::new("8", 8)).into_unbounded(&mut flow);
    assert_eq!(value.trace.rounds, vec![vec![8], vec![8]]);
    assert!(matches!(value.ir_node.op, HydroOp::YieldConcat { .. }));
}

#[test]
fn atomic_values_come_back() {
    let mut flow = FlowBuilder::new(1);
    let node: Process<()> = flow.process();
    let tick = node.tick(&mut flow);
    let value = node.singleton(Quoted::new("8", 8)).atomic(&tick).end_atomic();
    assert_eq!(value.trace.rounds, vec![vec![8]]);
    assert!(matches!(value.ir_node.op, HydroOp::EndAtomic { .. }));
    let named = value.ir_node_named("answer");
    assert_eq!(named.ir_node.metadata.tag, Some("answer".to_owned()));
}
