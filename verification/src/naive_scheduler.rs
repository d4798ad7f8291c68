use vstd::prelude::*;

use crate::graph::{ComputationGraph, OperationId, Partition, Subgraph, TensorId};
use crate::input_format::DeviceParameters;
use crate::partition::{model_fits, plan_stage};
use crate::performance_model::stage_cost;
use crate::rational::Rational;
use crate::tiling::{is_best, is_feasible};

verus! {

/// `op` runs alone in some step of `schedule`.
pub open spec fn scheduled<'a>(schedule: Seq<Vec<Partition<'a>>>, op: OperationId) -> bool {
    exists|k: int| 0 <= k < schedule.len() && (#[trigger] schedule[k])@[0].subgraph.node_seq() == seq![op]
}

/// `op` cannot run on its own: the subgraph of just `op` has no output, or no
/// tile is feasible for it with nothing kept in fast memory.
pub open spec fn untileable(g: ComputationGraph, dev: DeviceParameters, op: OperationId) -> bool {
    exists|s: Subgraph|
        #[trigger] s.node_seq() == seq![op] && s.wf() && s.graph() == g && (s.output_seq().len() == 0 || forall|
            c: (i64, i64, i64),
        | !is_feasible(s, dev, Seq::empty(), c))
}

/// Schedules each operation on its own, in topological order, at the best
/// tile for it with nothing kept in fast memory, skipping the operations for
/// which no tile fits. Gives the schedule, one single-operation partition per
/// step, and the latency of each step.
pub fn naive_schedule<'a>(graph: &'a ComputationGraph, device_params: &DeviceParameters) -> (r: (
    Vec<Vec<Partition<'a>>>,
    Vec<Rational>,
))
    requires
        model_fits(*graph, *device_params),
    ensures
        r.0.len() == r.1.len(),
        forall|k: int|
            0 <= k < r.0.len() ==> {
                let part = (#[trigger] r.0@[k])@[0];
                &&& r.0@[k].len() == 1
                &&& part.subgraph.wf()
                &&& part.subgraph.graph() == *graph
                &&& part.subgraph.node_seq().len() == 1
                &&& part.retained_outputs@ == Seq::<TensorId>::empty()
                &&& is_best(part.subgraph, *device_params, Seq::empty(), part.tile_size)
                &&& r.1@[k].pair() == stage_cost(part.subgraph, *device_params, part.tile_size, Seq::empty())
            },
        forall|a: int, b: int|
            0 <= a < b < r.0.len() ==> graph.pos(r.0@[a]@[0].subgraph.node_seq()[0]) < graph.pos(
                r.0@[b]@[0].subgraph.node_seq()[0],
            ),
        forall|i: int|
            0 <= i < graph.num_ops() ==> scheduled(r.0@, #[trigger] graph.topo().order_seq()[i]) || untileable(
                *graph,
                *device_params,
                graph.topo().order_seq()[i],
            ),
{
    let ghost dev = *device_params;
    let order = graph.topological_sort().order();
    let mut schedule: Vec<Vec<Partition<'a>>> = Vec::new();
    let mut latencies: Vec<Rational> = Vec::new();
    let no_retained: Vec<TensorId> = Vec::new();
    for i in 0..order.len()
        invariant
            model_fits(*graph, dev),
            dev == *device_params,
            order@ == graph.topo().order_seq(),
            graph.topo().wf(graph.num_ops()),
            no_retained@ == Seq::<TensorId>::empty(),
            schedule.len() == latencies.len(),
            forall|k: int|
                0 <= k < schedule.len() ==> {
                    let part = (#[trigger] schedule@[k])@[0];
                    &&& schedule@[k].len() == 1
                    &&& part.subgraph.wf()
                    &&& part.subgraph.graph() == *graph
                    &&& part.subgraph.node_seq().len() == 1
                    &&& part.retained_outputs@ == Seq::<TensorId>::empty()
                    &&& is_best(part.subgraph, dev, Seq::empty(), part.tile_size)
                    &&& latencies@[k].pair() == stage_cost(part.subgraph, dev, part.tile_size, Seq::empty())
                    &&& graph.pos(part.subgraph.node_seq()[0]) < i
                },
            forall|a: int, b: int|
                0 <= a < b < schedule.len() ==> graph.pos(schedule@[a]@[0].subgraph.node_seq()[0]) < graph.pos(
                    schedule@[b]@[0].subgraph.node_seq()[0],
                ),
            forall|j: int|
                0 <= j < i ==> scheduled(schedule@, #[trigger] graph.topo().order_seq()[j]) || untileable(
                    *graph,
                    dev,
                    graph.topo().order_seq()[j],
                ),
    {
        let op = order[i];
        let mut single: Vec<OperationId> = Vec::new();
        single.push(op);
        proof {
            assert(graph.topo().order_seq()[i as int].0 < graph.num_ops());
            assert(single@[0] == op);
            assert(single@.contains(op));
        }
        let subgraph = Subgraph::from_nodes(graph, single);
        proof {
            assert(subgraph.has(op));
            assert(subgraph.node_seq()[0] == op) by {
                assert(subgraph.node_seq().contains(subgraph.node_seq()[0]));
            }
            assert(graph.pos(op) == i);
        }
        proof {
            assert(subgraph.node_seq() =~= seq![op]);
        }
        let ghost s0 = schedule@;
        match plan_stage(&subgraph, device_params, &no_retained) {
            Some((tile, cost)) => {
                let ghost s0 = schedule@;
                let mut step: Vec<Partition<'a>> = Vec::new();
                step.push(Partition { subgraph, retained_outputs: Vec::new(), tile_size: tile });
                schedule.push(step);
                latencies.push(cost);
                proof {
                    assert forall|a: int, b: int| 0 <= a < b < schedule.len() implies graph.pos(
                        schedule@[a]@[0].subgraph.node_seq()[0],
                    ) < graph.pos(schedule@[b]@[0].subgraph.node_seq()[0]) by {
                        if b < s0.len() {
                            assert(schedule@[a] == s0[a] && schedule@[b] == s0[b]);
                        } else {
                            assert(schedule@[a] == s0[a]);
                        }
                    }
                    assert forall|k: int| 0 <= k < schedule.len() implies graph.pos(
                        (#[trigger] schedule@[k])@[0].subgraph.node_seq()[0],
                    ) < i + 1 by {
                        if k < s0.len() {
                            assert(schedule@[k] == s0[k]);
                        }
                    }
                }
            },
            None => {
                proof {
                    assert(untileable(*graph, dev, op));
                }
            },
        }
        proof {
            assert forall|j: int| 0 <= j < i + 1 implies scheduled(schedule@, #[trigger] graph.topo().order_seq()[j])
                || untileable(*graph, dev, graph.topo().order_seq()[j]) by {
                if j < i {
                    if scheduled(s0, graph.topo().order_seq()[j]) {
                        let k = choose|k: int|
                            0 <= k < s0.len() && (#[trigger] s0[k])@[0].subgraph.node_seq() == seq![graph.topo().order_seq()[j]];
                        assert(schedule@[k] == s0[k]);
                    }
                } else if schedule.len() > s0.len() {
                    assert(schedule@[s0.len() as int]@[0].subgraph.node_seq() == seq![op]);
                }
            }
        }
    }
    (schedule, latencies)
}

} // verus!
