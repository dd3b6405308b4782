use hydro::compile::builder::FlowBuilder;
use hydro::compile::ir::{DebugExpr, HydroOp, HydroRoot, HydroSource};
use hydro::live_collections::stream::timing::Deferred;
use hydro::live_collections::stream::{AtLeastOnce, ExactlyOnce, NoOrder, TotalOrder};
use hydro::live_collections::{Bounded, Quoted, Singleton, Stream, Unbounded};
use hydro::location::{Atomic, Location, Process, Tick};
use hydro::nondet::NonDet;
use hydro::trace::Trace;

type Input<T> = Stream<T, Process<()>, Unbounded, TotalOrder, ExactlyOnce>;

fn text(code: &str) -> DebugExpr {
    DebugExpr { code: code.to_owned() }
}

fn program(n: usize) -> (FlowBuilder, Process<()>) {
    let mut flow = FlowBuilder::new(n);
    let node = flow.process();
    (flow, node)
}

fn input<T>(flow: &mut FlowBuilder, node: &Process<()>, rounds: Vec<Vec<T>>) -> Input<T> {
    let external = flow.external::<()>();
    node.source_external_bincode::<(), T, TotalOrder, ExactlyOnce>(
        flow,
        &external,
        "T",
        Trace { rounds },
    )
    .1
}

fn batch<T>(
    flow: &mut FlowBuilder,
    node: &Process<()>,
    tick: &Tick<Process<()>>,
    rounds: Vec<Vec<T>>,
) -> Stream<T, Tick<Process<()>>, Bounded, TotalOrder, ExactlyOnce> {
    input(flow, node, rounds).batch(tick, NonDet::none())
}

#[test]
fn first_cardinality() {
    let (mut flow, node) = program(1);
    let tick = node.tick(&mut flow);
    let listed = tick
        .singleton(Quoted::new("()", ()))
        .flat_map_ordered(Quoted::new("|_| [1, 2, 3]", |_: ()| vec![1, 2, 3]));
    let count = listed.first().into_stream().count().all_ticks();
    assert_eq!(count.trace.rounds.concat(), vec![1]);
}

#[test]
fn unbounded_reduce_remembers_state() {
    let (mut flow, node) = program(2);
    let out = input(&mut flow, &node, vec![vec![1], vec![2]])
        .reduce(Quoted::new("|acc, v| *acc += v", |acc: i32, v: i32| acc + v));
    let tick = node.tick(&mut flow);
    let seen = out.snapshot(&tick, NonDet::none()).all_ticks();
    assert_eq!(seen.trace.rounds, vec![vec![1], vec![3]]);
}

#[test]
fn top_level_bounded_cross_singleton() {
    let (mut flow, node) = program(2);
    let sum = node.source_iter(Quoted::new("vec![1, 2, 3]", vec![1, 2, 3])).fold(
        Quoted::new("|| 0", || 0),
        Quoted::new("|acc, v| *acc += v", |acc: i32, v: i32| acc + v),
    );
    let out = input(&mut flow, &node, vec![vec![1], vec![2]]).cross_singleton(sum.into_optional());
    assert_eq!(out.trace.rounds, vec![vec![(1, 6)], vec![(2, 6)]]);
}

#[test]
fn top_level_bounded_reduce_cardinality() {
    let (mut flow, node) = program(2);
    let tick = node.tick(&mut flow);
    let v = node
        .source_iter(Quoted::new("vec![1, 2, 3]", vec![1, 2, 3]))
        .reduce(Quoted::new("|acc, v| *acc += v", |acc: i32, v: i32| acc + v))
        .snapshot(&tick, NonDet::none());
    let count = v.into_stream().count();
    let out = batch(&mut flow, &node, &tick, vec![vec![1], vec![2]])
        .cross_singleton(count.into_optional())
        .all_ticks();
    assert_eq!(out.trace.rounds, vec![vec![(1, 1)], vec![(2, 1)]]);
}

#[test]
fn top_level_bounded_into_singleton_cardinality() {
    let (mut flow, node) = program(2);
    let tick = node.tick(&mut flow);
    let v = node
        .source_iter(Quoted::new("vec![1, 2, 3]", vec![1, 2, 3]))
        .reduce(Quoted::new("|acc, v| *acc += v", |acc: i32, v: i32| acc + v))
        .into_singleton()
        .snapshot(&tick, NonDet::none());
    let count = v.into_stream().count();
    let out = batch(&mut flow, &node, &tick, vec![vec![1], vec![2]])
        .cross_singleton(count.into_optional())
        .all_ticks();
    assert_eq!(out.trace.rounds, vec![vec![(1, 1)], vec![(2, 1)]]);
}

#[test]
fn atomic_fold_replays_each_tick() {
    let (mut flow, node) = program(2);
    let tick = node.tick(&mut flow);
    let sum = node
        .source_iter(Quoted::new("vec![1, 2, 3]", vec![1, 2, 3]))
        .atomic(&tick)
        .fold(
            Quoted::new("|| 0", || 0),
            Quoted::new("|acc, v| *acc += v", |acc: i32, v: i32| acc + v),
        )
        .snapshot_atomic(NonDet::none());
    let out = batch(&mut flow, &node, &tick, vec![vec![1], vec![2]])
        .cross_singleton(sum.into_optional())
        .all_ticks();
    assert_eq!(out.trace.rounds, vec![vec![(1, 6)], vec![(2, 6)]]);
}

#[test]
fn unbounded_scan_remembers_state() {
    let (mut flow, node) = program(2);
    let out = input(&mut flow, &node, vec![vec![1], vec![2]]).scan(
        Quoted::new("|| 0", || 0),
        Quoted::new("running sum", |acc: i32, v: i32| (acc + v, Some(acc + v))),
    );
    assert_eq!(out.trace.rounds, vec![vec![1], vec![3]]);
}

#[test]
fn scans_can_end_early() {
    let (mut flow, node) = program(2);
    let out = input(&mut flow, &node, vec![vec![1, 2], vec![3, 4]]).scan(
        Quoted::new("|| 1", || 1),
        Quoted::new("product up to 6", |acc: i32, v: i32| {
            (acc * v, if acc * v > 6 { None } else { Some(acc * v) })
        }),
    );
    assert_eq!(out.trace.rounds, vec![vec![1, 2], vec![6]]);
}

#[test]
fn unbounded_enumerate_remembers_state() {
    let (mut flow, node) = program(2);
    let out = input(&mut flow, &node, vec![vec![1], vec![2]]).enumerate();
    assert_eq!(out.trace.rounds, vec![vec![(0, 1)], vec![(1, 2)]]);
}

#[test]
fn unbounded_unique_remembers_state() {
    let (mut flow, node) = program(3);
    let out = input(&mut flow, &node, vec![vec![1], vec![2], vec![1, 3]]).unique();
    assert_eq!(out.trace.rounds, vec![vec![1], vec![2], vec![3]]);
}

#[test]
fn operators_inside_ticks_start_anew() {
    let (mut flow, node) = program(2);
    let tick = node.tick(&mut flow);
    let rounds = vec![vec![1, 1], vec![1, 2]];
    let numbered = batch(&mut flow, &node, &tick, rounds.clone()).enumerate();
    assert_eq!(numbered.trace.rounds, vec![vec![(0, 1), (1, 1)], vec![(0, 1), (1, 2)]]);
    let unique = batch(&mut flow, &node, &tick, rounds.clone()).unique();
    assert_eq!(unique.trace.rounds, vec![vec![1], vec![1, 2]]);
    let count = batch(&mut flow, &node, &tick, rounds).count();
    assert_eq!(count.trace.rounds, vec![vec![2], vec![2]]);
}

#[test]
fn element_by_element() {
    let (mut flow, node) = program(2);
    let rounds = vec![vec![1, 2], vec![3]];
    let doubled =
        input(&mut flow, &node, rounds.clone()).map(Quoted::new("|n| n * 2", |n: i32| n * 2));
    assert_eq!(doubled.trace.rounds, vec![vec![2, 4], vec![6]]);
    assert!(matches!(&doubled.ir_node.op, HydroOp::MapEach { f, .. } if f.code == "|n| n * 2"));
    let odd =
        input(&mut flow, &node, rounds.clone()).filter(Quoted::new("odd", |n: &i32| n % 2 == 1));
    assert_eq!(odd.trace.rounds, vec![vec![1], vec![3]]);
    let halves = input(&mut flow, &node, rounds.clone()).filter_map(Quoted::new(
        "half",
        |n: i32| if n % 2 == 0 { Some(n / 2) } else { None },
    ));
    assert_eq!(halves.trace.rounds, vec![vec![1], vec![]]);
    let repeated = input(&mut flow, &node, rounds.clone())
        .flat_map_ordered(Quoted::new("twice", |n: i32| vec![n, n]));
    assert_eq!(repeated.trace.rounds, vec![vec![1, 1, 2, 2], vec![3, 3]]);
    let flat = input(&mut flow, &node, vec![vec![vec![1, 2], vec![]], vec![vec![3]]])
        .flatten_ordered();
    assert_eq!(flat.trace.rounds, vec![vec![1, 2], vec![3]]);
    let seen = input(&mut flow, &node, rounds.clone()).inspect(Quoted::new("look", |_: &i32| {}));
    assert_eq!(seen.trace.rounds, rounds);
    let copied = input(&mut flow, &node, vec![vec![&1, &2], vec![&3]]).cloned();
    assert_eq!(copied.trace.rounds, rounds);
}

#[test]
fn guarantees_can_be_weakened() {
    let (mut flow, node) = program(1);
    let weak = input(&mut flow, &node, vec![vec![2, 1]])
        .weaken_ordering::<NoOrder>()
        .weaken_retries::<AtLeastOnce>();
    assert_eq!(weak.trace.rounds, vec![vec![2, 1]]);
    let HydroOp::Cast { inner } = weak.ir_node.op else { panic!("not a cast") };
    let HydroOp::Cast { inner } = inner.op else { panic!("not a cast") };
    assert!(matches!(inner.op, HydroOp::ExternalInput { .. }));
    let same = input(&mut flow, &node, vec![vec![2, 1]]).weaken_ordering::<TotalOrder>();
    assert!(matches!(same.ir_node.op, HydroOp::ExternalInput { .. }));
    let strong = input(&mut flow, &node, vec![vec![2, 1]])
        .weakest_ordering()
        .assume_ordering::<TotalOrder>(NonDet::new(vec![1]));
    assert_eq!(strong.trace.rounds, vec![vec![1, 2]]);
    assert!(matches!(strong.ir_node.op, HydroOp::ObserveNonDet { trusted: false, .. }));
    let counted = input(&mut flow, &node, vec![vec![2, 1]]).weakest_ordering().count();
    let HydroOp::Fold { input: source, .. } = counted.ir_node.op else { panic!("not a fold") };
    assert!(matches!(source.op, HydroOp::ObserveNonDet { trusted: true, .. }));
    let repeated = input(&mut flow, &node, vec![vec![2, 1]]).weakest_retries();
    assert_eq!(repeated.trace.rounds, vec![vec![2, 1]]);
    assert!(matches!(repeated.ir_node.op, HydroOp::Cast { .. }));
}

#[test]
fn accumulating() {
    let (mut flow, node) = program(2);
    let rounds = vec![vec![3, 1], vec![2]];
    let max = input(&mut flow, &node, rounds.clone()).max();
    assert_eq!(max.trace.rounds, vec![vec![None, Some(3), Some(3)], vec![Some(3)]]);
    let min = input(&mut flow, &node, rounds.clone()).min();
    assert_eq!(min.trace.rounds, vec![vec![None, Some(3), Some(1)], vec![Some(1)]]);
    let first = input(&mut flow, &node, rounds.clone()).first();
    assert_eq!(first.trace.rounds, vec![vec![None, Some(3), Some(3)], vec![Some(3)]]);
    let last = input(&mut flow, &node, rounds.clone()).last();
    assert_eq!(last.trace.rounds, vec![vec![None, Some(3), Some(1)], vec![Some(2)]]);
    let count = input(&mut flow, &node, rounds.clone()).count();
    assert_eq!(count.trace.rounds, vec![vec![0, 1, 2], vec![3]]);
    let all = input(&mut flow, &node, rounds).collect_vec();
    assert_eq!(
        all.trace.rounds,
        vec![vec![vec![], vec![3], vec![3, 1]], vec![vec![3, 1, 2]]]
    );
    let none = input(&mut flow, &node, vec![Vec::<i32>::new(), vec![]]).max();
    assert_eq!(none.trace.rounds, vec![vec![None], vec![]]);
}

#[test]
fn products_remember_earlier_elements() {
    let (mut flow, node) = program(2);
    let left = input(&mut flow, &node, vec![vec![1], vec![2]]);
    let right = input(&mut flow, &node, vec![vec!['a'], vec!['b']]);
    let mut all = left.cross_product(right).trace.rounds.concat();
    all.sort();
    assert_eq!(all, vec![(1, 'a'), (1, 'b'), (2, 'a'), (2, 'b')]);
}

#[test]
fn products_inside_ticks_do_not() {
    let (mut flow, node) = program(2);
    let tick = node.tick(&mut flow);
    let left = batch(&mut flow, &node, &tick, vec![vec![1, 2], vec![3]]);
    let right = batch(&mut flow, &node, &tick, vec![vec!['a', 'b'], vec!['c']]);
    let out = left.cross_product_nested_loop(right);
    assert_eq!(
        out.trace.rounds,
        vec![vec![(1, 'a'), (1, 'b'), (2, 'a'), (2, 'b')], vec![(3, 'c')]]
    );
}

#[test]
fn joins() {
    let (mut flow, node) = program(2);
    let left = input(&mut flow, &node, vec![vec![(1, 'a'), (2, 'b')], vec![]]);
    let right = input(&mut flow, &node, vec![vec![(1, 'x')], vec![(2, 'y'), (3, 'z')]]);
    let mut all = left.join(right).trace.rounds.concat();
    all.sort();
    assert_eq!(all, vec![(1, ('a', 'x')), (2, ('b', 'y'))]);
}

#[test]
fn differences() {
    let (mut flow, node) = program(1);
    let tick = node.tick(&mut flow);
    let some = batch(&mut flow, &node, &tick, vec![vec![1, 2, 3, 4]]);
    let others = batch(&mut flow, &node, &tick, vec![vec![1, 2]]);
    assert_eq!(some.filter_not_in(others).trace.rounds, vec![vec![3, 4]]);
    let entries =
        batch(&mut flow, &node, &tick, vec![vec![(1, 'a'), (2, 'b'), (3, 'c'), (4, 'd')]]);
    let keys = batch(&mut flow, &node, &tick, vec![vec![1, 2]]);
    assert_eq!(entries.anti_join(keys).trace.rounds, vec![vec![(3, 'c'), (4, 'd')]]);
}

#[test]
fn putting_streams_together() {
    let (mut flow, node) = program(2);
    let tick = node.tick(&mut flow);
    let a = batch(&mut flow, &node, &tick, vec![vec![4, 1], vec![]]);
    let b = batch(&mut flow, &node, &tick, vec![vec![3], vec![5]]);
    let chained = a.chain(b);
    assert_eq!(chained.trace.rounds, vec![vec![4, 1, 3], vec![5]]);
    assert_eq!(chained.sort().trace.rounds, vec![vec![1, 3, 4], vec![5]]);
    let c = input(&mut flow, &node, vec![vec![1], vec![2]]);
    let d = input(&mut flow, &node, vec![vec![], vec![9]]);
    let mut mixed = c.interleave(d).trace.rounds.concat();
    mixed.sort();
    assert_eq!(mixed, vec![1, 2, 9]);
}

#[test]
fn passing_on_by_a_signal() {
    let (mut flow, node) = program(2);
    let tick = node.tick(&mut flow);
    let mut signal = batch(&mut flow, &node, &tick, vec![vec![()], vec![]]).first();
    let on = batch(&mut flow, &node, &tick, vec![vec![1], vec![2]]).filter_if_some(signal.clone());
    let off = batch(&mut flow, &node, &tick, vec![vec![1], vec![2]]).filter_if_none(signal);
    assert_eq!(on.trace.rounds, vec![vec![1], vec![]]);
    assert_eq!(off.trace.rounds, vec![vec![], vec![2]]);
}

#[test]
fn keys_and_entries() {
    let (mut flow, node) = program(1);
    let tick = node.tick(&mut flow);
    let entries = batch(&mut flow, &node, &tick, vec![vec![(1, 2), (2, 3), (1, 3), (2, 4)]]);
    assert_eq!(entries.keys().trace.rounds, vec![vec![1, 2]]);
    let units = batch(&mut flow, &node, &tick, vec![vec![(1, ()), (2, ())]])
        .into_keyed()
        .fold_units();
    let values = batch(&mut flow, &node, &tick, vec![vec!['a', 'b']]);
    let repeated = values.repeat_with_keys(units).entries();
    assert_eq!(
        repeated.trace.rounds,
        vec![vec![(1, 'a'), (1, 'b'), (2, 'a'), (2, 'b')]]
    );
}

#[test]
fn deferring_to_the_next_tick() {
    let (mut flow, node) = program(3);
    let tick = node.tick(&mut flow);
    let later =
        batch(&mut flow, &node, &tick, vec![vec![1], vec![2, 3], vec![4]]).defer_tick();
    assert_eq!(later.trace.rounds, vec![vec![], vec![1], vec![2, 3]]);
}

#[test]
fn state_across_ticks() {
    let (mut flow, node) = program(2);
    let tick = node.tick(&mut flow);
    let numbers = batch(&mut flow, &node, &tick, vec![vec![1, 2], vec![3]]);
    let total: Singleton<i32, Tick<Process<()>>, Bounded> = numbers.across_ticks(
        |s: Stream<i32, Atomic<Process<()>>, Unbounded, TotalOrder, ExactlyOnce>| {
            s.fold(Quoted::new("|| 0", || 0), Quoted::new("sum", |a: i32, b: i32| a + b))
        },
    );
    assert_eq!(total.trace.rounds, vec![vec![3], vec![6]]);
}

#[test]
fn atomic_batches_come_back() {
    let (mut flow, node) = program(2);
    let tick = node.tick(&mut flow);
    let rounds = vec![vec![1], vec![2, 3]];
    let inside = input(&mut flow, &node, rounds.clone()).atomic(&tick).batch_atomic(NonDet::none());
    assert_eq!(inside.trace.rounds, rounds);
    let outside = inside.all_ticks_atomic().end_atomic();
    assert_eq!(outside.trace.rounds, rounds);
    assert!(matches!(outside.ir_node.op, HydroOp::EndAtomic { .. }));
}

#[test]
fn texts_can_be_copied() {
    let (mut flow, node) = program(1);
    let tick = node.tick(&mut flow);
    let mut names = input(&mut flow, &node, vec![vec!["a".to_owned(), "b".to_owned()]]);
    let again = names.clone();
    assert_eq!(again.trace.rounds, names.trace.rounds);
    let greeting = tick.singleton(Quoted::new("hello", "hello".to_owned())).into_optional();
    let out = names.batch(&tick, NonDet::none()).cross_singleton(greeting);
    assert_eq!(
        out.trace.rounds,
        vec![vec![
            ("a".to_owned(), "hello".to_owned()),
            ("b".to_owned(), "hello".to_owned())
        ]]
    );
}

#[test]
fn samples_keep_the_order() {
    let (mut flow, node) = program(3);
    let out = input(&mut flow, &node, vec![vec![1, 2], vec![3], vec![4]]).sample_every(
        &mut flow,
        &text("Duration::from_secs(1)"),
        Trace { rounds: vec![vec![()], vec![], vec![()]] },
        NonDet::none(),
        NonDet::none(),
    );
    assert_eq!(out.trace.rounds, vec![vec![1, 2], vec![], vec![4]]);
    // the clock can miss a signal that it sees later, whatever the stream has
    let (mut flow, node) = program(3);
    let out = input(&mut flow, &node, vec![vec![1, 2], vec![3], vec![4]]).sample_every(
        &mut flow,
        &text("Duration::from_secs(1)"),
        Trace { rounds: vec![vec![()], vec![], vec![]] },
        NonDet::none(),
        NonDet::new(vec![1]),
    );
    assert_eq!(out.trace.rounds, vec![vec![], vec![3], vec![]]);
}

#[test]
fn timeouts() {
    let (mut flow, node) = program(4);
    let out = input(&mut flow, &node, vec![vec![], vec!['x'], vec![], vec!['y']]).timeout(
        &mut flow,
        Quoted::new("Duration::from_millis(10)", 10),
        &Trace { rounds: vec![vec![], vec![100], vec![], vec![130]] },
        &vec![50, 105, 111, 140],
        NonDet::none(),
    );
    // nothing yet; five ago; eleven ago; ten ago
    assert_eq!(out.trace.rounds, vec![vec![Some(())], vec![None], vec![Some(())], vec![None]]);
}

#[test]
fn values_come_when_they_are_available() {
    let (mut flow, node) = program(3);
    let deferred = |value: i32, delay: usize| Deferred { value, delay };
    let rounds = || vec![vec![deferred(1, 2), deferred(2, 0)], vec![deferred(3, 0)], vec![]];
    let any = input(&mut flow, &node, rounds()).resolve_futures();
    assert_eq!(any.trace.rounds, vec![vec![2], vec![3], vec![1]]);
    let in_order = input(&mut flow, &node, rounds()).resolve_futures_ordered();
    assert_eq!(in_order.trace.rounds, vec![vec![], vec![], vec![1, 2, 3]]);
}

#[test]
fn sharing_a_stream() {
    let (mut flow, node) = program(1);
    let mut one = input(&mut flow, &node, vec![vec![1]]);
    let two = one.clone();
    let three = one.clone();
    assert!(matches!(one.ir_node.op, HydroOp::Tee { .. }));
    let HydroOp::Tee { shared } = two.ir_node.op else { panic!("not shared") };
    assert!(matches!(shared.op, HydroOp::ExternalInput { .. }));
    assert_eq!(three.trace.rounds, vec![vec![1]]);
}

#[test]
fn leaving_the_program() {
    let (mut flow, node) = program(1);
    let seen = std::cell::RefCell::new(Vec::new());
    node.source_iter(Quoted::new("vec![1, 2]", vec![1, 2]))
        .for_each(&mut flow, Quoted::new("print", |x: i32| seen.borrow_mut().push(x)));
    assert_eq!(*seen.borrow(), vec![1, 2]);
    assert!(matches!(flow.roots.last(), Some(HydroRoot::ForEach { f, .. }) if f.code == "print"));
    node.source_iter(Quoted::new("vec![3]", vec![3])).dest_sink(&mut flow, text("sink"));
    let Some(HydroRoot::DestSink { sink, input }) = flow.roots.last() else {
        panic!("not a sink")
    };
    assert_eq!(sink.code, "sink");
    assert!(matches!(
        &input.op,
        HydroOp::Source { source: HydroSource::Iter(e) } if e.code == "vec![3]"
    ));
}
