//! Virtual clients, each of which has one request in flight.
use crate::datum::Dup;
use std::collections::HashMap;
use vstd::prelude::*;

verus! {

broadcast use vstd::std_specs::hash::group_hash_axioms;

/// What a node remembers of its virtual clients.
pub struct BenchClients {
    /// The virtual client that comes next, if there is one.
    pub next_virtual_client: Option<u32>,
    /// When each virtual client sent its last request.
    pub start_times: HashMap<u32, u64>,
}

/// The first virtual client, if there is to be one.
pub open spec fn first_client(num_clients: usize) -> Option<u32> {
    if num_clients > 0 {
        Some(0)
    } else {
        None
    }
}

/// The virtual client that comes after another one, until the limit is reached.
pub open spec fn client_after(num_clients: usize, client: Option<u32>) -> Option<u32> {
    match client {
        Some(id) => if id + 1 < num_clients && id < u32::MAX {
            Some((id + 1) as u32)
        } else {
            None
        },
        None => None,
    }
}

/// The virtual client that comes after a number of ticks.
pub open spec fn client_at(num_clients: usize, ticks: nat) -> Option<u32>
    decreases ticks,
{
    if ticks == 0 {
        first_client(num_clients)
    } else {
        client_after(num_clients, client_at(num_clients, (ticks - 1) as nat))
    }
}

/// One virtual client comes per tick, and each has its own number, until there are as many as
/// asked for; after that none comes any more.
pub proof fn law_client_limit(num_clients: usize, ticks: nat)
    ensures
        client_at(num_clients, ticks) == (if ticks < num_clients && ticks <= u32::MAX {
            Some(ticks as u32)
        } else {
            None
        }),
    decreases ticks,
{
    if ticks > 0 {
        law_client_limit(num_clients, (ticks - 1) as nat);
    }
}

impl BenchClients {
    /// No virtual client yet.
    pub fn new(num_clients_per_node: usize) -> (r: Self)
        ensures
            r.next_virtual_client == first_client(num_clients_per_node),
            r.start_times@ == Map::<u32, u64>::empty(),
    {
        let next_virtual_client: Option<u32> = if num_clients_per_node > 0 {
            Some(0)
        } else {
            None
        };
        BenchClients { next_virtual_client, start_times: HashMap::new() }
    }

    /// Whether no request was sent after the given time.
    pub open spec fn is_past(self, now: u64) -> bool {
        forall|id: u32| #[trigger]
            self.start_times@.dom().contains(id) ==> self.start_times@[id] <= now
    }
}

/// What the workload generator gets: the new virtual client, without an output, and the
/// outputs that came back.
pub open spec fn to_generate<Output>(new: Option<u32>, outputs: Seq<(u32, Output)>) -> Seq<
    (u32, Option<Output>),
> {
    let returned = outputs.map_values(|o: (u32, Output)| (o.0, Some(o.1)));
    match new {
        Some(id) => seq![(id, None::<Output>)] + returned,
        None => returned,
    }
}

/// Whether these are inputs that the workload generator makes.
pub open spec fn is_generated<
    Input,
    Output,
    W: Fn(Vec<(u32, Option<Output>)>) -> Vec<(u32, Input)>,
>(
    workload_generator: W,
    new: Option<u32>,
    outputs: Seq<(u32, Output)>,
    inputs: Vec<(u32, Input)>,
) -> bool {
    exists|requests: Vec<(u32, Option<Output>)>| #[trigger]
        workload_generator.ensures((requests,), inputs) && requests@ == to_generate(new, outputs)
}

/// Whether the requests that the workload generator gets are those of a tick: one with the
/// output for each output that came back, in order, and one without an output for the new
/// virtual client, if there is one; and no others.
pub open spec fn asks_for_all<Output>(
    requests: Seq<(u32, Option<Output>)>,
    new: Option<u32>,
    outputs: Seq<(u32, Output)>,
) -> bool {
    match new {
        Some(id) => {
            &&& requests.len() == outputs.len() + 1
            &&& requests[0] == (id, None::<Output>)
            &&& forall|i: int|
                0 <= i < outputs.len() ==> requests[i + 1] == (
                    (#[trigger] outputs[i]).0,
                    Some(outputs[i].1),
                )
        },
        None => {
            &&& requests.len() == outputs.len()
            &&& forall|i: int|
                0 <= i < outputs.len() ==> requests[i] == (
                    (#[trigger] outputs[i]).0,
                    Some(outputs[i].1),
                )
        },
    }
}

/// What the workload generator gets in a tick holds `(id, Some(output))` for every output that
/// came back, whether or not a new client starts, and `(id, None)` for the new client if there
/// is one, and nothing else. So every client whose answer is back gets its next request.
pub proof fn law_generator_gets_everything<
    Input,
    Output,
    W: Fn(Vec<(u32, Option<Output>)>) -> Vec<(u32, Input)>,
>(
    workload_generator: W,
    new: Option<u32>,
    outputs: Seq<(u32, Output)>,
    inputs: Vec<(u32, Input)>,
)
    requires
        is_generated(workload_generator, new, outputs, inputs),
    ensures
        exists|requests: Vec<(u32, Option<Output>)>| #[trigger]
            workload_generator.ensures((requests,), inputs) && {
                &&& requests@.len() == outputs.len() + (if new is Some {
                    1int
                } else {
                    0
                })
                &&& forall|id: u32, o: Output|
                    outputs.contains((id, o)) <==> #[trigger] requests@.contains((id, Some(o)))
                &&& forall|id: u32|
                    new == Some(id) <==> #[trigger] requests@.contains((id, None::<Output>))
                &&& asks_for_all(requests@, new, outputs)
            },
{
    let requests = choose|requests: Vec<(u32, Option<Output>)>| #[trigger]
        workload_generator.ensures((requests,), inputs) && requests@ == to_generate(new, outputs);
    law_requests(requests@, new, outputs);
    assert(workload_generator.ensures((requests,), inputs));
}

/// The requests of a tick, by their contents: each output is in them with its client, the new
/// client without an output, and nothing else.
pub proof fn law_requests<Output>(
    requests: Seq<(u32, Option<Output>)>,
    new: Option<u32>,
    outputs: Seq<(u32, Output)>,
)
    requires
        requests == to_generate(new, outputs),
    ensures
        asks_for_all(requests, new, outputs),
        forall|id: u32, o: Output|
            outputs.contains((id, o)) <==> #[trigger] requests.contains((id, Some(o))),
        forall|id: u32| new == Some(id) <==> #[trigger] requests.contains((id, None::<Output>)),
{
    let first: int = if new is Some {
        1
    } else {
        0
    };
    assert(asks_for_all(requests, new, outputs));
    assert forall|id: u32, o: Output|
        outputs.contains((id, o)) <==> #[trigger] requests.contains((id, Some(o))) by {
        if outputs.contains((id, o)) {
            let i = choose|i: int| 0 <= i < outputs.len() && outputs[i] == (id, o);
            assert(requests[first + i] == (id, Some(o)));
        }
        if requests.contains((id, Some(o))) {
            let i = choose|i: int| 0 <= i < requests.len() && requests[i] == (id, Some(o));
            assert(outputs[i - first] == (id, o));
        }
    }
    assert forall|id: u32| new == Some(id) <==> #[trigger] requests.contains(
        (id, None::<Output>),
    ) by {
        if new == Some(id) {
            assert(requests[0] == (id, None::<Output>));
        }
        if requests.contains((id, None::<Output>)) {
            let i = choose|i: int| 0 <= i < requests.len() && requests[i] == (id, None::<Output>);
            if i >= first {
                assert(requests[i] == (outputs[i - first].0, Some(outputs[i - first].1)));
            }
        }
    }
}

/// Whether an entry for the key is in the list.
pub open spec fn mentions<V>(s: Seq<(u32, V)>, id: u32) -> bool {
    exists|i: int| 0 <= i < s.len() && (#[trigger] s[i]).0 == id
}

/// The latest output of each client, with how long ago the client sent its request.
pub open spec fn measured<Output>(
    outputs: Seq<(u32, Output)>,
    starts: Map<u32, u64>,
    now: u64,
) -> Seq<(u32, (Output, u64))>
    decreases outputs.len(),
{
    if outputs.len() == 0 {
        Seq::empty()
    } else {
        let (id, output) = outputs[0];
        let rest = outputs.skip(1);
        if !mentions(rest, id) && starts.dom().contains(id) {
            seq![(id, (output, (now - starts[id]) as u64))] + measured(rest, starts, now)
        } else {
            measured(rest, starts, now)
        }
    }
}

/// If no client has two outputs, and each has sent its request, then there is one latency for
/// each output: the time since the request.
pub proof fn law_one_latency_per_output<Output>(
    outputs: Seq<(u32, Output)>,
    starts: Map<u32, u64>,
    now: u64,
)
    requires
        forall|i: int, j: int|
            0 <= i < j < outputs.len() ==> (#[trigger] outputs[i]).0 != (#[trigger] outputs[j]).0,
        forall|i: int|
            0 <= i < outputs.len() ==> starts.dom().contains((#[trigger] outputs[i]).0),
    ensures
        measured(outputs, starts, now) == outputs.map_values(
            |o: (u32, Output)| (o.0, (o.1, (now - starts[o.0]) as u64)),
        ),
    decreases outputs.len(),
{
    if outputs.len() > 0 {
        let rest = outputs.skip(1);
        assert(!mentions(rest, outputs[0].0)) by {
            assert forall|i: int| 0 <= i < rest.len() implies (#[trigger] rest[i]).0
                != outputs[0].0 by {
                assert(rest[i] == outputs[i + 1]);
            }
        }
        assert(starts.dom().contains(outputs[0].0));
        law_one_latency_per_output(rest, starts, now);
    }
    assert(measured(outputs, starts, now) =~= outputs.map_values(
        |o: (u32, Output)| (o.0, (o.1, (now - starts[o.0]) as u64)),
    ));
}

/// Whether an output is the last one of its client, and the client has sent a request.
pub open spec fn is_measured<Output>(
    outputs: Seq<(u32, Output)>,
    starts: Map<u32, u64>,
    i: int,
) -> bool {
    &&& starts.contains_key(outputs[i].0)
    &&& forall|j: int| i < j < outputs.len() ==> (#[trigger] outputs[j]).0 != outputs[i].0
}

/// What is measured are the last outputs of the clients that have sent a request, in order, each
/// once, with the time that has passed since the request.
pub proof fn law_latencies<Output>(outputs: Seq<(u32, Output)>, starts: Map<u32, u64>, now: u64)
    ensures
        forall|id: u32, o: Output, latency: u64| #[trigger]
            measured(outputs, starts, now).contains((id, (o, latency))) <==> exists|i: int|
                0 <= i < outputs.len() && #[trigger] outputs[i] == (id, o) && is_measured(
                    outputs,
                    starts,
                    i,
                ) && latency == (now - starts[id]) as u64,
        forall|i: int, j: int|
            0 <= i < j < measured(outputs, starts, now).len() ==> (#[trigger] measured(
                outputs,
                starts,
                now,
            )[i]).0 != (#[trigger] measured(outputs, starts, now)[j]).0,
    decreases outputs.len(),
{
    if outputs.len() > 0 {
        let (id0, o0) = outputs[0];
        let rest = outputs.skip(1);
        let later = measured(rest, starts, now);
        let all = measured(outputs, starts, now);
        law_latencies(rest, starts, now);
        let kept = !mentions(rest, id0) && starts.dom().contains(id0);
        assert(is_measured(outputs, starts, 0) <==> kept) by {
            if mentions(rest, id0) {
                let i = choose|i: int| 0 <= i < rest.len() && (#[trigger] rest[i]).0 == id0;
                assert(outputs[i + 1].0 == id0);
            } else if is_measured(outputs, starts, 0) != kept {
                assert forall|j: int| 0 < j < outputs.len() implies (#[trigger] outputs[j]).0
                    != outputs[0].0 by {
                    assert(rest[j - 1].0 != id0);
                }
            }
        }
        assert forall|i: int| 0 <= i < rest.len() implies (is_measured(rest, starts, i)
            <==> #[trigger] is_measured(outputs, starts, i + 1)) by {
            assert(rest[i] == outputs[i + 1]);
            if is_measured(rest, starts, i) {
                assert forall|j: int| i + 1 < j < outputs.len() implies (#[trigger] outputs[j]).0
                    != outputs[i + 1].0 by {
                    assert(rest[j - 1].0 != rest[i].0);
                }
            }
            if is_measured(outputs, starts, i + 1) {
                assert forall|j: int| i < j < rest.len() implies (#[trigger] rest[j]).0
                    != rest[i].0 by {
                    assert(outputs[j + 1].0 != outputs[i + 1].0);
                }
            }
        }
        let first = (id0, (o0, (now - starts[id0]) as u64));
        assert forall|id: u32, o: Output, latency: u64| #[trigger]
            all.contains((id, (o, latency))) <==> exists|i: int|
                0 <= i < outputs.len() && #[trigger] outputs[i] == (id, o) && is_measured(
                    outputs,
                    starts,
                    i,
                ) && latency == (now - starts[id]) as u64 by {
            if later.contains((id, (o, latency))) {
                let i = choose|i: int|
                    0 <= i < rest.len() && #[trigger] rest[i] == (id, o) && is_measured(
                        rest,
                        starts,
                        i,
                    ) && latency == (now - starts[id]) as u64;
                assert(is_measured(outputs, starts, i + 1));
                assert(outputs[i + 1] == (id, o));
            }
            if exists|i: int|
                0 <= i < outputs.len() && #[trigger] outputs[i] == (id, o) && is_measured(
                    outputs,
                    starts,
                    i,
                ) && latency == (now - starts[id]) as u64 {
                let i = choose|i: int|
                    0 <= i < outputs.len() && #[trigger] outputs[i] == (id, o) && is_measured(
                        outputs,
                        starts,
                        i,
                    ) && latency == (now - starts[id]) as u64;
                if i > 0 {
                    assert(is_measured(outputs, starts, i - 1 + 1));
                    assert(rest[i - 1] == (id, o));
                    assert(later.contains((id, (o, latency))));
                    let k = choose|k: int| 0 <= k < later.len() && later[k] == (id, (o, latency));
                    if kept {
                        assert(all[k + 1] == (id, (o, latency)));
                    } else {
                        assert(all[k] == (id, (o, latency)));
                    }
                } else {
                    assert(all[0] == (id, (o, latency)));
                }
            }
            if all.contains((id, (o, latency))) {
                let k = choose|k: int| 0 <= k < all.len() && all[k] == (id, (o, latency));
                if kept {
                    if k > 0 {
                        assert(later[k - 1] == (id, (o, latency)));
                        assert(later.contains((id, (o, latency))));
                    } else {
                        assert(outputs[0] == (id, o));
                    }
                } else {
                    assert(later[k] == (id, (o, latency)));
                    assert(later.contains((id, (o, latency))));
                }
            }
        }
        if kept {
            assert forall|i: int, j: int| 0 <= i < j < all.len() implies (#[trigger] all[i]).0 != (
            #[trigger] all[j]).0 by {
                assert(all[j] == later[j - 1]);
                if i == 0 {
                    let (id, (o, latency)) = later[j - 1];
                    assert(later.contains((id, (o, latency))));
                    let k = choose|k: int|
                        0 <= k < rest.len() && #[trigger] rest[k] == (id, o) && is_measured(
                            rest,
                            starts,
                            k,
                        ) && latency == (now - starts[id]) as u64;
                    assert(rest[k].0 != id0);
                } else {
                    assert(all[i] == later[i - 1]);
                }
            }
        }
    }
}

/// After requests were sent, the clients that have sent one are those that had before and those
/// of the requests; the latter have sent theirs now, the others when they did before.
pub proof fn law_started<Input>(starts: Map<u32, u64>, inputs: Seq<(u32, Input)>, now: u64)
    ensures
        forall|id: u32| #[trigger]
            started(starts, inputs, now).contains_key(id) <==> starts.contains_key(id) || exists|
                i: int,
            |
                0 <= i < inputs.len() && (#[trigger] inputs[i]).0 == id,
        forall|i: int|
            0 <= i < inputs.len() ==> started(starts, inputs, now)[(#[trigger] inputs[i]).0] == now,
        forall|id: u32|
            (forall|i: int| 0 <= i < inputs.len() ==> (#[trigger] inputs[i]).0 != id)
                ==> #[trigger] started(starts, inputs, now)[id] == starts[id],
    decreases inputs.len(),
{
    if inputs.len() > 0 {
        let init = inputs.drop_last();
        let last = inputs.last();
        law_started(starts, init, now);
        let all = started(starts, inputs, now);
        assert forall|id: u32| #[trigger]
            all.contains_key(id) <==> starts.contains_key(id) || exists|i: int|
                0 <= i < inputs.len() && (#[trigger] inputs[i]).0 == id by {
            assert(started(starts, init, now).contains_key(id) <==> starts.contains_key(id)
                || exists|i: int| 0 <= i < init.len() && (#[trigger] init[i]).0 == id);
            if exists|i: int| 0 <= i < init.len() && (#[trigger] init[i]).0 == id {
                let i = choose|i: int| 0 <= i < init.len() && (#[trigger] init[i]).0 == id;
                assert(inputs[i].0 == id);
            }
            if exists|i: int| 0 <= i < inputs.len() && (#[trigger] inputs[i]).0 == id {
                let i = choose|i: int| 0 <= i < inputs.len() && (#[trigger] inputs[i]).0 == id;
                if i < init.len() {
                    assert(init[i].0 == id);
                }
            }
            if last.0 == id {
                assert(inputs[inputs.len() - 1].0 == id);
            }
        }
        assert forall|i: int| 0 <= i < inputs.len() implies all[(#[trigger] inputs[i]).0]
            == now by {
            if i < init.len() {
                assert(init[i] == inputs[i]);
            }
        }
        assert forall|id: u32|
            (forall|i: int| 0 <= i < inputs.len() ==> (#[trigger] inputs[i]).0 != id) implies
            #[trigger] all[id] == starts[id] by {
            assert(inputs[inputs.len() - 1].0 != id);
            assert forall|i: int| 0 <= i < init.len() implies (#[trigger] init[i]).0 != id by {
                assert(inputs[i].0 != id);
            }
            assert(started(starts, init, now)[id] == starts[id]);
        }
    }
}

/// The time of the last request of each client, after requests were sent.
pub open spec fn started<Input>(
    starts: Map<u32, u64>,
    inputs: Seq<(u32, Input)>,
    now: u64,
) -> Map<u32, u64>
    decreases inputs.len(),
{
    if inputs.len() == 0 {
        starts
    } else {
        started(starts, inputs.drop_last(), now).insert(inputs.last().0, now)
    }
}

/// What happens in one tick of a node that benchmarks a protocol.
pub ghost struct BenchTick<Input, Output> {
    pub now: u64,
    /// The virtual client that starts, if one does.
    pub next_before: Option<u32>,
    /// When each virtual client had sent its last request, before the tick.
    pub starts_before: Map<u32, u64>,
    pub outputs: Seq<(u32, Output)>,
    pub inputs: Vec<(u32, Input)>,
    pub latencies: Seq<(u32, (Output, u64))>,
    /// The virtual client that starts in the next tick, if one does.
    pub next_after: Option<u32>,
    /// When each virtual client has sent its last request, after the tick.
    pub starts_after: Map<u32, u64>,
}

/// Whether a tick goes like this.
pub open spec fn is_bench_tick<
    Input,
    Output,
    W: Fn(Vec<(u32, Option<Output>)>) -> Vec<(u32, Input)>,
>(num_clients: usize, workload_generator: W, tick: BenchTick<Input, Output>) -> bool {
    &&& is_generated(workload_generator, tick.next_before, tick.outputs, tick.inputs)
    &&& tick.latencies == measured(tick.outputs, tick.starts_before, tick.now)
    &&& tick.starts_after == started(tick.starts_before, tick.inputs@, tick.now)
    &&& tick.next_after == client_after(num_clients, tick.next_before)
}

/// Whether a run of ticks goes like this, from the start.
pub open spec fn is_bench_run<
    Input,
    Output,
    W: Fn(Vec<(u32, Option<Output>)>) -> Vec<(u32, Input)>,
>(num_clients: usize, workload_generator: W, ticks: Seq<BenchTick<Input, Output>>) -> bool {
    &&& forall|k: int|
        0 <= k < ticks.len() ==> is_bench_tick(num_clients, workload_generator, #[trigger] ticks[k])
    &&& ticks.len() > 0 ==> ticks[0].next_before == first_client(num_clients)
        && ticks[0].starts_before == Map::<u32, u64>::empty()
    &&& forall|k: int|
        0 < k < ticks.len() ==> (#[trigger] ticks[k]).next_before == ticks[k - 1].next_after
            && ticks[k].starts_before == ticks[k - 1].starts_after
}

/// In a run, the tick with number `k` starts virtual client `k`, as long as `k` is below the
/// number of clients, and no client else.
pub proof fn law_one_client_per_tick<
    Input,
    Output,
    W: Fn(Vec<(u32, Option<Output>)>) -> Vec<(u32, Input)>,
>(num_clients: usize, workload_generator: W, ticks: Seq<BenchTick<Input, Output>>, k: int)
    requires
        is_bench_run(num_clients, workload_generator, ticks),
        0 <= k < ticks.len(),
    ensures
        ticks[k].next_before == (if k < num_clients && k <= u32::MAX {
            Some(k as u32)
        } else {
            None
        }),
    decreases k,
{
    if k > 0 {
        law_one_client_per_tick(num_clients, workload_generator, ticks, k - 1);
        assert(is_bench_tick(num_clients, workload_generator, ticks[k - 1]));
        assert(ticks[k].next_before == ticks[k - 1].next_after);
    }
}

/// In a run, the latency that is told for an output is the time since the client's last request
/// before: if the client got a request in tick `j`, none in the ticks between, and its output
/// is back in tick `k`, then the latency is the difference of the two times. And each output
/// that is the last one of its client in the tick gets its latency.
pub proof fn law_latency_is_time_since_request<
    Input,
    Output,
    W: Fn(Vec<(u32, Option<Output>)>) -> Vec<(u32, Input)>,
>(
    num_clients: usize,
    workload_generator: W,
    ticks: Seq<BenchTick<Input, Output>>,
    j: int,
    k: int,
    id: u32,
    o: Output,
)
    requires
        is_bench_run(num_clients, workload_generator, ticks),
        0 <= j < k < ticks.len(),
        ticks[j].now <= ticks[k].now,
        exists|i: int| 0 <= i < ticks[j].inputs@.len() && (#[trigger] ticks[j].inputs@[i]).0 == id,
        forall|m: int, i: int|
            j < m < k && 0 <= i < ticks[m].inputs@.len() ==> (#[trigger] ticks[m].inputs@[i]).0
                != id,
        exists|i: int|
            0 <= i < ticks[k].outputs.len() && #[trigger] ticks[k].outputs[i] == (id, o) && forall|
                i2: int,
            |
                i < i2 < ticks[k].outputs.len() ==> (#[trigger] ticks[k].outputs[i2]).0 != id,
    ensures
        ticks[k].latencies.contains((id, (o, (ticks[k].now - ticks[j].now) as u64))),
        forall|x: Output, latency: u64| #[trigger]
            ticks[k].latencies.contains((id, (x, latency))) ==> x == o && latency == ticks[k].now
                - ticks[j].now,
{
    lemma_start_stays(num_clients, workload_generator, ticks, j, k, id);
    let t = ticks[k];
    assert(is_bench_tick(num_clients, workload_generator, t));
    law_latencies(t.outputs, t.starts_before, t.now);
    let i = choose|i: int|
        0 <= i < t.outputs.len() && #[trigger] t.outputs[i] == (id, o) && forall|i2: int|
            i < i2 < t.outputs.len() ==> (#[trigger] t.outputs[i2]).0 != id;
    assert(is_measured(t.outputs, t.starts_before, i));
    assert(t.latencies.contains((id, (o, (t.now - t.starts_before[id]) as u64))));
    assert forall|x: Output, latency: u64| #[trigger]
        t.latencies.contains((id, (x, latency))) implies x == o && latency == t.now
        - ticks[j].now by {
        let i2 = choose|i2: int|
            0 <= i2 < t.outputs.len() && #[trigger] t.outputs[i2] == (id, x) && is_measured(
                t.outputs,
                t.starts_before,
                i2,
            ) && latency == (t.now - t.starts_before[id]) as u64;
        if i2 < i {
            assert(t.outputs[i].0 != t.outputs[i2].0);
        }
    }
}

proof fn lemma_start_stays<
    Input,
    Output,
    W: Fn(Vec<(u32, Option<Output>)>) -> Vec<(u32, Input)>,
>(
    num_clients: usize,
    workload_generator: W,
    ticks: Seq<BenchTick<Input, Output>>,
    j: int,
    k: int,
    id: u32,
)
    requires
        is_bench_run(num_clients, workload_generator, ticks),
        0 <= j < k < ticks.len(),
        exists|i: int| 0 <= i < ticks[j].inputs@.len() && (#[trigger] ticks[j].inputs@[i]).0 == id,
        forall|m: int, i: int|
            j < m < k && 0 <= i < ticks[m].inputs@.len() ==> (#[trigger] ticks[m].inputs@[i]).0
                != id,
    ensures
        ticks[k].starts_before.contains_key(id),
        ticks[k].starts_before[id] == ticks[j].now,
    decreases k - j,
{
    let t = ticks[k - 1];
    assert(is_bench_tick(num_clients, workload_generator, t));
    assert(ticks[k].starts_before == ticks[k - 1].starts_after);
    law_started(t.starts_before, t.inputs@, t.now);
    if j + 1 == k {
        let i = choose|i: int|
            0 <= i < ticks[j].inputs@.len() && (#[trigger] ticks[j].inputs@[i]).0 == id;
        assert(t.inputs@[i].0 == id);
        assert(t.starts_after.contains_key(id));
    } else {
        lemma_start_stays(num_clients, workload_generator, ticks, j, k - 1, id);
        assert forall|i: int| 0 <= i < t.inputs@.len() implies (#[trigger] t.inputs@[i]).0
            != id by {
            assert(ticks[k - 1].inputs@[i].0 != id);
        }
        assert(t.starts_after.contains_key(id));
        assert(t.starts_after[id] == t.starts_before[id]);
    }
}

/// If the workload generator makes one input for each request, for the same client, then each
/// client has one request in flight: in each tick the clients that get a request are exactly the
/// new one and those whose answers came back, once for each answer.
pub proof fn law_one_request_in_flight<
    Input,
    Output,
    W: Fn(Vec<(u32, Option<Output>)>) -> Vec<(u32, Input)>,
>(num_clients: usize, workload_generator: W, tick: BenchTick<Input, Output>)
    requires
        is_bench_tick(num_clients, workload_generator, tick),
        forall|requests: Vec<(u32, Option<Output>)>, inputs: Vec<(u32, Input)>| #[trigger]
            workload_generator.ensures((requests,), inputs) ==> inputs@.len() == requests@.len()
                && forall|i: int|
                0 <= i < inputs@.len() ==> (#[trigger] inputs@[i]).0 == requests@[i].0,
    ensures
        tick.next_before is None ==> tick.inputs@.len() == tick.outputs.len() && forall|i: int|
            0 <= i < tick.outputs.len() ==> tick.inputs@[i].0 == (#[trigger] tick.outputs[i]).0,
        tick.next_before matches Some(id) ==> tick.inputs@.len() == tick.outputs.len() + 1
            && tick.inputs@[0].0 == id && forall|i: int|
            0 <= i < tick.outputs.len() ==> tick.inputs@[i + 1].0 == (
            #[trigger] tick.outputs[i]).0,
{
    law_generator_gets_everything(
        workload_generator,
        tick.next_before,
        tick.outputs,
        tick.inputs,
    );
    let requests = choose|requests: Vec<(u32, Option<Output>)>| #[trigger]
        workload_generator.ensures((requests,), tick.inputs) && asks_for_all(
            requests@,
            tick.next_before,
            tick.outputs,
        );
    assert(workload_generator.ensures((requests,), tick.inputs));
    match tick.next_before {
        Some(id) => {
            assert forall|i: int| 0 <= i < tick.outputs.len() implies tick.inputs@[i + 1].0 == (
            #[trigger] tick.outputs[i]).0 by {
                assert(requests@[i + 1].0 == tick.outputs[i].0);
                assert(tick.inputs@[i + 1].0 == requests@[i + 1].0);
            }
        },
        None => {},
    }
}

fn mentions_from<V>(s: &Vec<(u32, V)>, from: usize, id: u32) -> (b: bool)
    requires
        from <= s.len(),
    ensures
        b == mentions(s@.skip(from as int), id),
{
    for i in from..s.len()
        invariant
            from <= s.len(),
            forall|j: int| from <= j < i ==> (#[trigger] s@[j]).0 != id,
    {
        if s[i].0 == id {
            assert(s@.skip(from as int)[i - from].0 == id);
            return true;
        }
    }
    proof {
        assert forall|j: int| 0 <= j < s@.skip(from as int).len() implies (#[trigger] s@.skip(
            from as int,
        )[j]).0 != id by {
            assert(s@[from + j].0 != id);
        }
    }
    false
}

/// The latest output of each client, with how long ago the client sent its request.
fn measure<Output: Dup>(
    outputs: &Vec<(u32, Output)>,
    starts: &HashMap<u32, u64>,
    now: u64,
) -> (r: Vec<(u32, (Output, u64))>)
    requires
        forall|id: u32| #[trigger] starts@.dom().contains(id) ==> starts@[id] <= now,
    ensures
        r@ == measured(outputs@, starts@, now),
{
    let mut r: Vec<(u32, (Output, u64))> = Vec::new();
    assert(outputs@.skip(0) =~= outputs@);
    for i in 0..outputs.len()
        invariant
            forall|id: u32| #[trigger] starts@.dom().contains(id) ==> starts@[id] <= now,
            r@ + measured(outputs@.skip(i as int), starts@, now) == measured(
                outputs@,
                starts@,
                now,
            ),
    {
        let ghost rest = outputs@.skip(i as int);
        assert(rest.skip(1) =~= outputs@.skip(i + 1));
        let id: u32 = outputs[i].0;
        if !mentions_from(outputs, i + 1, id) {
            if let Some(start) = starts.get(&id) {
                r.push((id, (outputs[i].1.dup(), now - *start)));
            }
        }
        assert(r@ + measured(outputs@.skip(i + 1), starts@, now) =~= measured(
            outputs@,
            starts@,
            now,
        ));
    }
    assert(outputs@.skip(outputs.len() as int) =~= Seq::empty());
    assert(r@ + measured(Seq::<(u32, Output)>::empty(), starts@, now) =~= r@);
    r
}

/// One tick of a node that benchmarks a protocol by concurrently submitting requests, up to
/// `num_clients_per_node` at a time.
///
/// `workload_generator` makes the next input of a virtual client from its previous output, or
/// from nothing if it is new. `outputs` are what the protocol has answered. Returns the inputs
/// to submit to the protocol, and for each answered client the output with its latency.
pub fn bench_client<
    Input,
    Output: Dup,
    W: Fn(Vec<(u32, Option<Output>)>) -> Vec<(u32, Input)>,
>(
    num_clients_per_node: usize,
    state: &mut BenchClients,
    outputs: Vec<(u32, Output)>,
    now: u64,
    workload_generator: W,
) -> (r: (Vec<(u32, Input)>, Vec<(u32, (Output, u64))>))
    requires
        old(state).is_past(now),
        forall|requests: Vec<(u32, Option<Output>)>|
            requests@ == to_generate(old(state).next_virtual_client, outputs@)
                ==> #[trigger] workload_generator.requires((requests,)),
    ensures
        final(state).next_virtual_client == client_after(
            num_clients_per_node,
            old(state).next_virtual_client,
        ),
        is_generated(workload_generator, old(state).next_virtual_client, outputs@, r.0),
        final(state).start_times@ == started(old(state).start_times@, r.0@, now),
        final(state).is_past(now),
        r.1@ == measured(outputs@, old(state).start_times@, now),
        is_bench_tick(
            num_clients_per_node,
            workload_generator,
            BenchTick {
                now,
                next_before: old(state).next_virtual_client,
                starts_before: old(state).start_times@,
                outputs: outputs@,
                inputs: r.0,
                latencies: r.1@,
                next_after: final(state).next_virtual_client,
                starts_after: final(state).start_times@,
            },
        ),
{
    let latencies = measure(&outputs, &state.start_times, now);
    let ghost outs = outputs@;
    let mut requests: Vec<(u32, Option<Output>)> = Vec::new();
    if let Some(id) = state.next_virtual_client {
        requests.push((id, None));
        state.next_virtual_client = if id < u32::MAX && (id as usize) + 1 < num_clients_per_node {
            Some(id + 1)
        } else {
            None
        };
    }
    let ghost new = requests@;
    for i in 0..outputs.len()
        invariant
            outputs@ == outs,
            requests@ == new + outs.take(i as int).map_values(
                |o: (u32, Output)| (o.0, Some(o.1)),
            ),
    {
        requests.push((outputs[i].0, Some(outputs[i].1.dup())));
        assert(requests@ =~= new + outs.take(i + 1).map_values(
            |o: (u32, Output)| (o.0, Some(o.1)),
        ));
    }
    assert(outs.take(outs.len() as int) =~= outs);
    assert(requests@ =~= to_generate(old(state).next_virtual_client, outs));
    let ghost asked = requests;
    let inputs = workload_generator(requests);
    assert(is_generated(
        workload_generator,
        old(state).next_virtual_client,
        outputs@,
        inputs,
    )) by {
        assert(workload_generator.ensures((asked,), inputs));
    }
    for i in 0..inputs.len()
        invariant
            state.start_times@ == started(
                old(state).start_times@,
                inputs@.take(i as int),
                now,
            ),
            state.next_virtual_client == client_after(
                num_clients_per_node,
                old(state).next_virtual_client,
            ),
            forall|id: u32| #[trigger]
                state.start_times@.dom().contains(id) ==> state.start_times@[id] <= now,
    {
        state.start_times.insert(inputs[i].0, now);
        assert(inputs@.take(i + 1).drop_last() =~= inputs@.take(i as int));
    }
    assert(inputs@.take(inputs.len() as int) =~= inputs@);
    (inputs, latencies)
}

} // verus!
