use hydro::compile::builder::FlowBuilder;
use hydro::live_collections::stream::{ExactlyOnce, NoOrder, TotalOrder};
use hydro::live_collections::{Quoted, Stream, Unbounded};
use hydro::location::{Location, Process};
use hydro::nondet::NonDet;
use hydro::trace::Trace;

/// All lists of `len` choices below `below`.
fn all_choices(len: usize, below: usize) -> Vec<Vec<usize>> {
    let mut all = vec![Vec::new()];
    for _ in 0..len {
        let mut longer = Vec::new();
        for prefix in &all {
            for c in 0..below {
                let mut next: Vec<usize> = prefix.clone();
                next.push(c);
                longer.push(next);
            }
        }
        all = longer;
    }
    all
}

/// The different results of a run under all choices.
fn outcomes<T: Ord>(len: usize, below: usize, run: impl Fn(NonDet) -> T) -> Vec<T> {
    let mut all: Vec<T> = all_choices(len, below)
        .into_iter()
        .map(|c| run(NonDet::new(c)))
        .collect();
    all.sort();
    all.dedup();
    all
}

fn everything_at_once(n: usize, elements: Vec<i32>) -> Trace<i32> {
    let mut rounds = vec![Vec::new(); n];
    rounds[0] = elements;
    Trace { rounds }
}

fn unordered(
    flow: &mut FlowBuilder,
    node: &Process<()>,
    arrivals: Trace<i32>,
) -> Stream<i32, Process<()>, Unbounded, NoOrder, ExactlyOnce> {
    node.sim_input::<i32, NoOrder, ExactlyOnce>(flow, "i32", arrivals).1
}

fn ordered(
    flow: &mut FlowBuilder,
    node: &Process<()>,
    arrivals: Trace<i32>,
) -> Stream<i32, Process<()>, Unbounded, TotalOrder, ExactlyOnce> {
    node.sim_input::<i32, TotalOrder, ExactlyOnce>(flow, "i32", arrivals).1
}

/// The batches that are not empty.
fn non_empty(rounds: Vec<Vec<i32>>) -> Vec<Vec<i32>> {
    rounds.into_iter().filter(|b| !b.is_empty()).collect()
}

/// Whether all that was sent is received, and nothing in or before the round it was sent in.
fn comes_later(sent: &Vec<Vec<i32>>, received: &Vec<Vec<i32>>) -> bool {
    let counts = |rounds: &[Vec<i32>], x: i32| rounds.concat().iter().filter(|y| **y == x).count();
    let elements = [sent.concat(), received.concat()].concat();
    let n = sent.len();
    elements.iter().all(|x| {
        counts(&sent[..], *x) == counts(&received[..], *x)
            && (0..n).all(|i| counts(&received[..i + 1], *x) <= counts(&sent[..i], *x))
    })
}

/// All rounds in which 0, 2, 1 and 3 can arrive, where 1 comes after 0 and 3 after 2.
fn cycle_schedules(n: usize, one_by_one: bool) -> Vec<Vec<usize>> {
    all_choices(4, n)
        .into_iter()
        .filter(|at| at[0] < at[2] && at[1] < at[3])
        .filter(|at| !one_by_one || (0..4).all(|i| (0..i).all(|j| at[i] != at[j])))
        .collect()
}

/// What arrives, and what comes back, if 0, 2, 1 and 3 arrive in the given rounds.
fn rounds_of(n: usize, at: &Vec<usize>) -> (Vec<Vec<i32>>, Vec<Vec<i32>>) {
    let mut arrivals = vec![Vec::new(); n];
    arrivals[at[0]].push(0);
    arrivals[at[1]].push(2);
    let mut returned = vec![Vec::new(); n];
    returned[at[2]].push(1);
    returned[at[3]].push(3);
    (arrivals, returned)
}

/// How many elements can be left waiting in each round but the last.
fn all_batchings(arriving: &Vec<usize>) -> Vec<Vec<usize>> {
    let mut all: Vec<Vec<usize>> = vec![Vec::new()];
    for arrive in arriving.iter().take(arriving.len() - 1) {
        let mut longer = Vec::new();
        for prefix in &all {
            let waiting = prefix.last().copied().unwrap_or(0) + arrive;
            for left in 0..=waiting {
                let mut next = prefix.clone();
                next.push(left);
                longer.push(next);
            }
        }
        all = longer;
    }
    all
}

#[test]
#[should_panic]
fn sim_batch_nondet_size() {
    for choices in all_choices(2, 4) {
        let mut flow = FlowBuilder::new(3);
        let node: Process<()> = flow.process();
        let arrivals = Trace { rounds: vec![vec![(), (), ()], vec![], vec![]] };
        let input = node.sim_input::<(), TotalOrder, ExactlyOnce>(&mut flow, "()", arrivals).1;
        let tick = node.tick(&mut flow);
        let out = input.batch(&tick, NonDet::new(choices)).count().all_ticks();
        let sizes: Vec<usize> = out.trace.rounds.concat().into_iter().filter(|n| *n > 0).collect();
        assert_eq!(sizes[0], 3); // fails, since batches can be smaller
    }
}

#[test]
fn sim_batch_preserves_order() {
    let all = outcomes(3, 4, |nondet| {
        let mut flow = FlowBuilder::new(4);
        let node: Process<()> = flow.process();
        let input = ordered(&mut flow, &node, everything_at_once(4, vec![1, 2, 3]));
        let tick = node.tick(&mut flow);
        let out = input.batch(&tick, nondet).all_ticks();
        assert_eq!(out.trace.rounds.concat(), vec![1, 2, 3]);
        non_empty(out.trace.rounds)
    });
    // the ways to split three elements
    assert_eq!(all.len(), 4);
}

#[test]
#[should_panic]
fn sim_batch_unordered_shuffles() {
    for choices in all_choices(4, 4) {
        let mut flow = FlowBuilder::new(2);
        let node: Process<()> = flow.process();
        let input = unordered(&mut flow, &node, everything_at_once(2, vec![1, 2, 3]));
        let tick = node.tick(&mut flow);
        let mut batch = input.batch(&tick, NonDet::new(choices));
        let least = batch.clone().min();
        let greatest = batch.max();
        let both: Vec<(Option<i32>, Option<i32>)> = least
            .trace
            .rounds
            .concat()
            .into_iter()
            .zip(greatest.trace.rounds.concat())
            .collect();
        if both == vec![(Some(1), Some(3)), (Some(2), Some(2))] {
            panic!("saw both (1, 3) and (2, 2), so batching must have shuffled the order");
        }
    }
}

fn unordered_batches(nondet: NonDet) -> Vec<Vec<i32>> {
    let mut flow = FlowBuilder::new(4);
    let node: Process<()> = flow.process();
    let input = unordered(&mut flow, &node, everything_at_once(4, vec![1, 2, 3, 4]));
    let tick = node.tick(&mut flow);
    let out = input.batch(&tick, nondet).all_ticks();
    let mut sorted = out.trace.rounds.concat();
    sorted.sort();
    assert_eq!(sorted, vec![1, 2, 3, 4]);
    non_empty(out.trace.rounds)
}

#[test]
fn sim_batch_unordered_shuffles_count() {
    let all = outcomes(7, 5, |nondet| {
        let mut batches = unordered_batches(nondet);
        for b in batches.iter_mut() {
            b.sort();
        }
        batches
    });
    assert_eq!(all.len(), 75); // the ordered partitions of four elements
}

#[test]
#[should_panic]
fn sim_observe_order_batched() {
    for choices in all_choices(4, 4) {
        let mut flow = FlowBuilder::new(1);
        let node: Process<()> = flow.process();
        let input = unordered(&mut flow, &node, everything_at_once(1, vec![1, 2, 3, 4]));
        let tick = node.tick(&mut flow);
        let out = input
            .batch(&tick, NonDet::none())
            .assume_ordering::<TotalOrder>(NonDet::new(choices))
            .all_ticks();
        assert_eq!(out.trace.rounds.concat(), vec![1, 2, 3, 4]); // fails with assume_ordering
    }
}

#[test]
fn sim_observe_order_batched_count() {
    let mut all: Vec<Vec<Vec<i32>>> = Vec::new();
    let mut seen: Vec<Vec<Vec<i32>>> = Vec::new();
    for batching in all_choices(7, 5) {
        let mut sets = unordered_batches(NonDet::new(batching.clone()));
        for b in sets.iter_mut() {
            b.sort();
        }
        if seen.contains(&sets) {
            continue;
        }
        seen.push(sets);
        for ordering in all_choices(4, 4) {
            let mut flow = FlowBuilder::new(4);
            let node: Process<()> = flow.process();
            let input = unordered(&mut flow, &node, everything_at_once(4, vec![1, 2, 3, 4]));
            let tick = node.tick(&mut flow);
            let out = input
                .batch(&tick, NonDet::new(batching.clone()))
                .assume_ordering::<TotalOrder>(NonDet::new(ordering))
                .all_ticks();
            all.push(non_empty(out.trace.rounds));
        }
    }
    all.sort();
    all.dedup();
    assert_eq!(all.len(), 192); // all orders of four elements, split in all ways
}

#[test]
fn sim_unordered_count_instance_count() {
    let all = outcomes(4, 5, |nondet| {
        let mut flow = FlowBuilder::new(5);
        let node: Process<()> = flow.process();
        let input = unordered(&mut flow, &node, everything_at_once(5, vec![1, 2, 3, 4]));
        let tick = node.tick(&mut flow);
        let out = input.count().snapshot(&tick, nondet).all_ticks();
        let mut shown = out.trace.rounds.concat();
        assert!(shown.last().unwrap() == &4);
        shown.dedup();
        shown
    });
    // any of 0, 1, 2 and 3 can be seen before the last snapshot
    assert_eq!(all.len(), 16);
}

#[test]
fn sim_top_level_assume_ordering() {
    let all = outcomes(3, 3, |nondet| {
        let mut flow = FlowBuilder::new(1);
        let node: Process<()> = flow.process();
        let input = unordered(&mut flow, &node, everything_at_once(1, vec![1, 2, 3]));
        let out = input.assume_ordering::<TotalOrder>(nondet);
        let mut sorted = out.trace.rounds.concat();
        sorted.sort();
        assert_eq!(sorted, vec![1, 2, 3]);
        out.trace.rounds
    });
    assert_eq!(all.len(), 6)
}

#[test]
fn sim_top_level_assume_ordering_cycle_back() {
    // one element comes per round; what is sent back comes after what it was made from
    let mut instances: Vec<Vec<i32>> = Vec::new();
    let mut saw = false;
    for at in cycle_schedules(4, true) {
        let mut flow = FlowBuilder::new(4);
        let node: Process<()> = flow.process();
        let (arrivals, returned) = rounds_of(4, &at);
        let input = unordered(&mut flow, &node, Trace { rounds: arrivals });
        let (complete_cycle_back, cycle_back) = node
            .forward_ref::<Stream<i32, Process<()>, Unbounded, NoOrder, ExactlyOnce>>(
                &mut flow,
                Trace { rounds: returned.clone() },
            );
        let mut ordered =
            input.interleave(cycle_back).assume_ordering::<TotalOrder>(NonDet::none());
        let back = ordered
            .clone()
            .map(Quoted::new("|v| v + 1", |v: i32| v + 1))
            .filter(Quoted::new("|v| v % 2 == 1", |v: &i32| v % 2 == 1))
            .weaken_ordering::<NoOrder>();
        assert!(comes_later(&back.trace.rounds, &returned));
        complete_cycle_back.complete(&mut flow, back);
        let out = ordered.trace.rounds.concat();
        if out.starts_with(&[0, 1, 2]) {
            saw = true;
        }
        if !instances.contains(&out) {
            instances.push(out);
        }
    }
    assert!(saw, "did not see an instance with 0, 1, 2 in order");
    assert_eq!(instances.len(), 6)
}

#[test]
fn merging_keeps_both_orders() {
    let all = outcomes(4, 2, |nondet| {
        let mut flow = FlowBuilder::new(1);
        let node: Process<()> = flow.process();
        let left = ordered(&mut flow, &node, everything_at_once(1, vec![1, 2]));
        let right = ordered(&mut flow, &node, everything_at_once(1, vec![10, 20]));
        let out = left.merge_ordered(right, nondet).trace.rounds.concat();
        let small: Vec<i32> = out.iter().copied().filter(|x| *x < 10).collect();
        let large: Vec<i32> = out.iter().copied().filter(|x| *x >= 10).collect();
        assert_eq!(small, vec![1, 2]);
        assert_eq!(large, vec![10, 20]);
        out
    });
    assert_eq!(all.len(), 6);
}

#[test]
fn commutative_folds_do_not_depend_on_the_order() {
    let all = outcomes(3, 3, |nondet| {
        let mut flow = FlowBuilder::new(1);
        let node: Process<()> = flow.process();
        let input = unordered(&mut flow, &node, everything_at_once(1, vec![1, 2, 4]));
        let sum = input.assume_ordering::<TotalOrder>(nondet).fold(
            Quoted::new("|| 0", || 0),
            Quoted::new("|a, b| *a += b", |a: i32, b: i32| a + b),
        );
        *sum.trace.rounds.concat().last().unwrap()
    });
    assert_eq!(all, vec![7]);
}

#[test]
fn idempotent_folds_do_not_depend_on_repeats() {
    let mut flow = FlowBuilder::new(1);
    let node: Process<()> = flow.process();
    let max = |a: i32, b: i32| if a < b { b } else { a };
    let once = ordered(&mut flow, &node, everything_at_once(1, vec![3, 5, 2]))
        .fold(Quoted::new("|| 0", || 0), Quoted::new("max", max));
    let twice = ordered(&mut flow, &node, everything_at_once(1, vec![3, 5, 5, 2]))
        .fold(Quoted::new("|| 0", || 0), Quoted::new("max", max));
    assert_eq!(once.trace.rounds.concat().last(), Some(&5));
    assert_eq!(twice.trace.rounds.concat().last(), Some(&5));
}

#[test]
fn sim_top_level_assume_ordering_cycle_back_tick() {
    let mut instances: Vec<Vec<(bool, Vec<i32>)>> = Vec::new();
    let mut saw = false;
    for at in cycle_schedules(6, true) {
        let mut arriving = vec![0; 6];
        for round in &at {
            arriving[*round] += 1;
        }
        for batching in all_batchings(&arriving) {
            let mut flow = FlowBuilder::new(6);
            let node: Process<()> = flow.process();
            let (arrivals, returned) = rounds_of(6, &at);
            let input = unordered(&mut flow, &node, Trace { rounds: arrivals });
            let (complete_cycle_back, cycle_back) = node
                .forward_ref::<Stream<i32, Process<()>, Unbounded, NoOrder, ExactlyOnce>>(
                    &mut flow,
                    Trace { rounds: returned.clone() },
                );
            let mut ordered =
                input.interleave(cycle_back).assume_ordering::<TotalOrder>(NonDet::none());
            let tick = node.tick(&mut flow);
            let batch = ordered.clone().batch(&tick, NonDet::new(batching));
            let batches = batch.trace.rounds.clone();
            let back = batch
                .all_ticks()
                .map(Quoted::new("|v| v + 1", |v: i32| v + 1))
                .filter(Quoted::new("|v| v % 2 == 1", |v: &i32| v % 2 == 1))
                .weaken_ordering::<NoOrder>();
            if !comes_later(&back.trace.rounds, &returned) {
                continue;
            }
            complete_cycle_back.complete(&mut flow, back);
            if ordered.trace.rounds.concat().starts_with(&[0, 1, 2]) {
                saw = true;
            }
            // what happens one after the other: an element gets its place, or a tick runs
            let mut events = Vec::new();
            for (one, batch) in ordered.trace.rounds.into_iter().zip(batches) {
                if !one.is_empty() {
                    events.push((false, one));
                }
                if !batch.is_empty() {
                    events.push((true, batch));
                }
            }
            instances.push(events);
        }
    }
    instances.sort();
    instances.dedup();
    assert!(saw, "did not see an instance with 0, 1, 2 in order");
    assert_eq!(instances.len(), 58)
}

#[test]
fn sim_top_level_assume_ordering_multiple() {
    let n = 6;
    let mut saw = false;
    let mut seen: Vec<Vec<i32>> = Vec::new();
    let mut instances: Vec<Vec<(Vec<i32>, Vec<i32>)>> = Vec::new();
    // the rounds in which 0, 1 and 3 reach the first ordering, and 3, 4 and 6 the second one
    for at in all_choices(6, n) {
        let one_by_one = at[0] != at[1]
            && at[0] != at[2]
            && at[1] != at[2]
            && at[3] != at[4]
            && at[3] != at[5]
            && at[4] != at[5];
        if !one_by_one || at[3] <= at[0] || at[2] <= at[3] || at[5] <= at[2] || at[4] <= at[1] {
            continue;
        }
        let mut flow = FlowBuilder::new(n);
        let node: Process<()> = flow.process();
        let mut arrivals = vec![Vec::new(); n];
        arrivals[at[0]] = vec![0];
        arrivals[at[1]] = vec![1];
        let mut returned = vec![Vec::new(); n];
        returned[at[2]] = vec![3];
        let mut moved = vec![Vec::new(); n];
        moved[at[3]] = vec![3];
        moved[at[4]] = vec![4];
        moved[at[5]] = vec![6];
        let mut input = unordered(&mut flow, &node, Trace { rounds: arrivals });
        let input2 = unordered(&mut flow, &node, Trace { rounds: vec![Vec::new(); n] });
        let (complete_cycle_back, cycle_back) = node
            .forward_ref::<Stream<i32, Process<()>, Unbounded, NoOrder, ExactlyOnce>>(
                &mut flow,
                Trace { rounds: returned.clone() },
            );
        let mut input1_ordered =
            input.clone().interleave(cycle_back).assume_ordering::<TotalOrder>(NonDet::none());
        let increased = input1_ordered
            .clone()
            .map(Quoted::new("|v| v + 3", |v: i32| v + 3))
            .weaken_ordering::<NoOrder>();
        // on its way to the second ordering an element can take its time
        let (complete_way, way) = node
            .forward_ref::<Stream<i32, Process<()>, Unbounded, NoOrder, ExactlyOnce>>(
                &mut flow,
                Trace { rounds: moved.clone() },
            );
        assert!(comes_later(&increased.trace.rounds, &moved));
        complete_way.complete(&mut flow, increased);
        let mut foo = way.interleave(input2).assume_ordering::<TotalOrder>(NonDet::none());
        let back = foo
            .clone()
            .filter(Quoted::new("|v| *v == 3", |v: &i32| *v == 3))
            .weaken_ordering::<NoOrder>();
        assert!(comes_later(&back.trace.rounds, &returned));
        complete_cycle_back.complete(&mut flow, back);
        let out = input1_ordered.trace.rounds.concat();
        if out.starts_with(&[0, 3, 1]) {
            saw = true;
        }
        seen.push(out);
        // what the two orderings release, step by step
        let steps = input1_ordered.trace.rounds.into_iter().zip(foo.trace.rounds);
        instances.push(steps.filter(|s| !s.0.is_empty() || !s.1.is_empty()).collect());
    }
    seen.sort();
    seen.dedup();
    instances.sort();
    instances.dedup();
    assert!(saw, "did not see an instance with 0, 3, 1 in order");
    assert_eq!(seen, vec![vec![0, 1, 3], vec![0, 3, 1], vec![1, 0, 3]]);
    assert_eq!(instances.len(), 24)
}

#[test]
fn sim_atomic_assume_ordering_cycle_back() {
    let mut instances: Vec<Vec<Vec<i32>>> = Vec::new();
    for at in cycle_schedules(4, false) {
        for ordering in all_choices(4, 2) {
            let mut flow = FlowBuilder::new(4);
            let node: Process<()> = flow.process();
            let (arrivals, returned) = rounds_of(4, &at);
            let input = unordered(&mut flow, &node, Trace { rounds: arrivals });
            let (complete_cycle_back, cycle_back) = node
                .forward_ref::<Stream<i32, Process<()>, Unbounded, NoOrder, ExactlyOnce>>(
                    &mut flow,
                    Trace { rounds: returned.clone() },
                );
            let tick = node.tick(&mut flow);
            let mut ordered = input
                .interleave(cycle_back)
                .atomic(&tick)
                .assume_ordering::<TotalOrder>(NonDet::new(ordering))
                .end_atomic();
            let back = ordered
                .clone()
                .map(Quoted::new("|v| v + 1", |v: i32| v + 1))
                .filter(Quoted::new("|v| v % 2 == 1", |v: &i32| v % 2 == 1))
                .weaken_ordering::<NoOrder>();
            assert!(comes_later(&back.trace.rounds, &returned));
            complete_cycle_back.complete(&mut flow, back);
            assert_eq!(ordered.trace.rounds.concat().len(), 4);
            instances.push(non_empty(ordered.trace.rounds));
        }
    }
    instances.sort();
    instances.dedup();
    assert_eq!(instances.len(), 22)
}

#[test]
fn merging_keeps_both_orders_over_all_rounds() {
    let all = outcomes(6, 2, |nondet| {
        let mut flow = FlowBuilder::new(2);
        let node: Process<()> = flow.process();
        let left = ordered(&mut flow, &node, Trace { rounds: vec![vec![1, 2], vec![3]] });
        let right = ordered(&mut flow, &node, Trace { rounds: vec![vec![10], vec![20, 30]] });
        let out = left.merge_ordered(right, nondet).trace.rounds.concat();
        let small: Vec<i32> = out.iter().copied().filter(|x| *x < 10).collect();
        let large: Vec<i32> = out.iter().copied().filter(|x| *x >= 10).collect();
        assert_eq!(small, vec![1, 2, 3]);
        assert_eq!(large, vec![10, 20, 30]);
        out
    });
    assert_eq!(all.len(), 9);
}
