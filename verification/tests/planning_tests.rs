use fraction::Fraction;
use std::collections::BTreeSet;
use tile_scheduler::graph::{ComputationGraph, OperationId, OperationType, Partition, Subgraph, TensorId};
use tile_scheduler::input_format::{DeviceParameters, InputFormat};
use tile_scheduler::local_optimization::{partition_subgraph, RetentionCandidates};
use tile_scheduler::naive_scheduler::naive_schedule;
use tile_scheduler::partition::{search_partition, try_partition_subgraph};
use tile_scheduler::rational::{rational_add_checked, rational_lt, rational_max, Rational};
use tile_scheduler::schedule::{cover_constraints, extract_convex_subgraphs};
use tile_scheduler::traversal::{snake_traversal, subgraph_order, topological_sort_subgraphs};

fn device(capacity: i64) -> DeviceParameters {
    DeviceParameters { fast_memory_capacity: capacity, slow_memory_bandwidth: 10, native_granularity: (128, 128) }
}

fn example1() -> InputFormat {
    InputFormat {
        widths: vec![128; 3],
        heights: vec![128; 3],
        inputs: vec![vec![TensorId(0)], vec![TensorId(1)]],
        outputs: vec![vec![TensorId(1)], vec![TensorId(2)]],
        base_costs: vec![1000, 100],
        op_types: vec![OperationType::Pointwise, OperationType::Pointwise],
        device_parameters: device(35_000),
    }
}

fn example3() -> InputFormat {
    InputFormat {
        widths: vec![128; 4],
        heights: vec![128; 4],
        inputs: vec![vec![TensorId(0)], vec![TensorId(1)], vec![TensorId(1), TensorId(2)]],
        outputs: vec![vec![TensorId(1)], vec![TensorId(2)], vec![TensorId(3)]],
        base_costs: vec![1500, 1500, 1500],
        op_types: vec![OperationType::Pointwise; 3],
        device_parameters: device(50_000),
    }
}

fn make_input(inputs: Vec<Vec<TensorId>>, outputs: Vec<Vec<TensorId>>, num_tensors: usize) -> InputFormat {
    let num_ops = inputs.len();
    InputFormat {
        widths: vec![1; num_tensors],
        heights: vec![1; num_tensors],
        inputs,
        outputs,
        base_costs: vec![1; num_ops],
        op_types: vec![OperationType::Pointwise; num_ops],
        device_parameters: DeviceParameters {
            fast_memory_capacity: 1,
            slow_memory_bandwidth: 1,
            native_granularity: (1, 1),
        },
    }
}

fn subgraph<'a>(graph: &'a ComputationGraph, ops: &[usize]) -> Subgraph<'a> {
    Subgraph::from_nodes(graph, ops.iter().map(|&o| OperationId(o)).collect())
}

fn frac(r: Rational) -> Fraction {
    Fraction::new(r.numer, r.denom)
}

fn node_list(s: &Subgraph) -> Vec<usize> {
    let mut v: Vec<usize> = s.nodes().iter().map(|o| o.0).collect();
    v.sort();
    v
}

fn plan_nodes(parts: &[Partition]) -> Vec<Vec<usize>> {
    parts.iter().map(|p| node_list(&p.subgraph)).collect()
}

#[test]
fn partition_example3_strategy_c_selective_residency() {
    let input = example3();
    let device = input.device_parameters;
    let graph = ComputationGraph::new(&input);
    let sg = subgraph(&graph, &[0, 1, 2]);
    let is_retained_edge = vec![(TensorId(1), OperationId(1), true), (TensorId(1), OperationId(2), true)];
    let (partitions, total_cost) = try_partition_subgraph(&sg, &device, &is_retained_edge).expect("partition succeeds");
    assert_eq!(partitions.len(), 2);
    let first = &partitions[0];
    assert_eq!(first.subgraph.nodes(), &[OperationId(0)]);
    assert_eq!(first.retained_outputs, vec![TensorId(1)]);
    assert_eq!(first.tile_size, (128, 128, 1));
    let second = &partitions[1];
    assert_eq!(second.subgraph.nodes(), &[OperationId(1), OperationId(2)]);
    assert!(second.retained_outputs.is_empty());
    assert_eq!(second.tile_size, (128, 128, 1));
    assert_eq!(frac(total_cost), Fraction::new(46384u64, 10u64));
}

#[test]
fn example3_strategy_b_flash_recomputation() {
    let input = example3();
    let device = input.device_parameters;
    let graph = ComputationGraph::new(&input);
    let sg = subgraph(&graph, &[0, 1, 2]);
    let is_retained_edge = vec![(TensorId(2), OperationId(2), true)];
    let (partitions, _total_cost) =
        try_partition_subgraph(&sg, &device, &is_retained_edge).expect("partition succeeds");
    assert_eq!(partitions.len(), 2);
    let first = &partitions[0];
    assert_eq!(first.subgraph.nodes(), &[OperationId(0), OperationId(1)]);
    assert_eq!(first.retained_outputs, vec![TensorId(2)]);
    let second = &partitions[1];
    assert_eq!(second.subgraph.nodes(), &[OperationId(0), OperationId(2)]);
    assert!(second.retained_outputs.is_empty());
}

#[test]
fn partition_without_retained_edges_is_one_part() {
    let input = example3();
    let device = input.device_parameters;
    let graph = ComputationGraph::new(&input);
    let sg = subgraph(&graph, &[0, 1, 2]);
    let (partitions, _cost) = try_partition_subgraph(&sg, &device, &Vec::new()).expect("partition succeeds");
    assert_eq!(plan_nodes(&partitions), vec![vec![0, 1, 2]]);
    assert!(partitions[0].retained_outputs.is_empty());
}

#[test]
fn later_edge_decision_overrides_earlier() {
    let input = example3();
    let device = input.device_parameters;
    let graph = ComputationGraph::new(&input);
    let sg = subgraph(&graph, &[0, 1, 2]);
    let edges = vec![(TensorId(2), OperationId(2), true), (TensorId(2), OperationId(2), false)];
    let (partitions, _cost) = try_partition_subgraph(&sg, &device, &edges).expect("partition succeeds");
    assert_eq!(partitions.len(), 1);
}

#[test]
fn search_partition_covers_the_subgraph() {
    let input = example3();
    let device = input.device_parameters;
    let graph = ComputationGraph::new(&input);
    let sg = subgraph(&graph, &[0, 1, 2]);
    let (partitions, cost) = search_partition(&sg, &device).expect("partition succeeds");
    assert!(!partitions.is_empty());
    let last = partitions.last().unwrap();
    assert!(last.subgraph.contains(OperationId(2)));
    assert!(frac(cost) > Fraction::from(0u64));
    assert!(frac(cost) <= Fraction::new(114688u64, 10u64));
}

#[test]
fn naive_example1_two_ops() {
    let input = example1();
    let graph = ComputationGraph::new(&input);
    let (schedule, latencies) = naive_schedule(&graph, &input.device_parameters);
    assert_eq!(schedule.len(), 2, "two ops → two single-op subgraphs");
    let total = latencies.iter().fold(Fraction::from(0u64), |acc, r| acc + frac(*r));
    assert!(total > Fraction::from(0u64));
}

#[test]
fn naive_schedule_runs_each_operation_at_its_best_tile() {
    let input = example1();
    let graph = ComputationGraph::new(&input);
    let (schedule, latencies) = naive_schedule(&graph, &input.device_parameters);
    assert_eq!(schedule[0][0].subgraph.nodes(), &[OperationId(0)]);
    assert_eq!(schedule[1][0].subgraph.nodes(), &[OperationId(1)]);
    assert_eq!(schedule[0][0].tile_size, (128, 128, 1));
    assert_eq!(frac(latencies[0]), Fraction::new(32768u64, 10u64));
    assert_eq!(frac(latencies[1]), Fraction::new(32768u64, 10u64));
}

#[test]
fn skip_connection_convex_subgraphs() {
    let input = make_input(
        vec![vec![TensorId(0)], vec![TensorId(1)], vec![TensorId(2)], vec![TensorId(3), TensorId(4)]],
        vec![vec![TensorId(1), TensorId(2)], vec![TensorId(3)], vec![TensorId(4)], vec![TensorId(5)]],
        6,
    );
    let graph = ComputationGraph::new(&input);
    let convex_subgraphs = extract_convex_subgraphs(&graph);
    let found: BTreeSet<Vec<usize>> = convex_subgraphs.iter().map(node_list).collect();
    assert_eq!(found.len(), convex_subgraphs.len());
    let expected: BTreeSet<Vec<usize>> = [
        vec![0],
        vec![1],
        vec![2],
        vec![3],
        vec![0, 1],
        vec![0, 2],
        vec![1, 3],
        vec![2, 3],
        vec![0, 1, 2],
        vec![1, 2, 3],
        vec![0, 1, 2, 3],
    ]
    .into_iter()
    .collect();
    assert_eq!(found, expected);
}

#[test]
fn cover_constraints_of_a_chain() {
    let input = example1();
    let graph = ComputationGraph::new(&input);
    let subs = vec![subgraph(&graph, &[0]), subgraph(&graph, &[1]), subgraph(&graph, &[0, 1])];
    let rows = cover_constraints(&graph, &subs);
    assert_eq!(rows.len(), 2);
    assert_eq!(rows[0].0, OperationId(0));
    assert_eq!(rows[0].1, vec![0, 2]);
    assert_eq!(rows[0].2, vec![1]);
    assert_eq!(rows[1].0, OperationId(1));
    assert_eq!(rows[1].1, vec![1, 2]);
    assert!(rows[1].2.is_empty());
}

#[test]
fn snake_traversal_reverses_odd_rows() {
    let input = InputFormat {
        widths: vec![256; 2],
        heights: vec![256; 2],
        inputs: vec![vec![TensorId(0)]],
        outputs: vec![vec![TensorId(1)]],
        base_costs: vec![10],
        op_types: vec![OperationType::Pointwise],
        device_parameters: device(100_000),
    };
    let graph = ComputationGraph::new(&input);
    let sg = subgraph(&graph, &[0]);
    assert_eq!(snake_traversal(&sg, (128, 128, 1)), Some(vec![0, 1, 3, 2]));
    assert_eq!(snake_traversal(&sg, (64, 128, 1)), Some(vec![0, 1, 3, 2, 4, 5, 7, 6]));
    assert_eq!(snake_traversal(&sg, (256, 128, 1)), None);
}

#[test]
fn subgraphs_sorted_producers_first() {
    let input = example1();
    let graph = ComputationGraph::new(&input);
    let later = subgraph(&graph, &[1]);
    let earlier = subgraph(&graph, &[0]);
    assert_eq!(subgraph_order(&vec![later.clone(), earlier.clone()]), Some(vec![1, 0]));
    let items = vec![(later, Vec::new()), (earlier.clone(), vec![Partition {
        subgraph: earlier,
        retained_outputs: Vec::new(),
        tile_size: (128, 128, 1),
    }])];
    let sorted = topological_sort_subgraphs(items).expect("no cycle");
    assert_eq!(sorted.len(), 2);
    assert_eq!(sorted[0].len(), 1);
    assert!(sorted[1].is_empty());
}

#[test]
fn subgraphs_in_a_cycle_have_no_order() {
    let input = example3();
    let graph = ComputationGraph::new(&input);
    let a = subgraph(&graph, &[0, 2]);
    let b = subgraph(&graph, &[1]);
    assert_eq!(subgraph_order(&vec![a, b]), None);
}

#[test]
fn partition_subgraph_of_a_chain() {
    let input = example1();
    let graph = ComputationGraph::new(&input);
    let sg = subgraph(&graph, &[0, 1]);
    let chain = partition_subgraph(&sg, &input.device_parameters).expect("a path exists");
    let mut covered: BTreeSet<usize> = BTreeSet::new();
    for (p, cost) in &chain {
        for o in p.subgraph.nodes() {
            covered.insert(o.0);
        }
        assert!(frac(*cost) > Fraction::from(0u64));
    }
    assert_eq!(covered, [0, 1].into_iter().collect());
    for w in chain.windows(2) {
        assert!(frac(w[0].1) <= frac(w[1].1));
    }
}

#[test]
fn retention_candidates_enumerate_fitting_subsets() {
    let mut it = RetentionCandidates::new(vec![(TensorId(3), 4), (TensorId(5), 5), (TensorId(7), 7)], 12, 2);
    let mut seen = Vec::new();
    while let Some(s) = it.next() {
        seen.push(s);
    }
    assert_eq!(
        seen,
        vec![
            vec![],
            vec![TensorId(3)],
            vec![TensorId(3), TensorId(5)],
            vec![TensorId(5)],
            vec![TensorId(7)],
        ]
    );
    let mut none = RetentionCandidates::new(vec![(TensorId(1), 1)], 1, 2);
    assert_eq!(none.next(), None);
}

#[test]
fn rational_helpers() {
    let a = Rational { numer: 1, denom: 3 };
    let b = Rational { numer: 1, denom: 6 };
    assert_eq!(frac(rational_add_checked(a, b).unwrap()), Fraction::new(1u64, 2u64));
    assert_eq!(frac(rational_max(a, b)), Fraction::new(1u64, 3u64));
    assert!(rational_lt(b, a));
    assert!(!rational_lt(a, b));
    let big = Rational { numer: u64::MAX, denom: 1 };
    assert_eq!(rational_add_checked(big, big), None);
}

fn fork() -> InputFormat {
    InputFormat {
        widths: vec![128; 4],
        heights: vec![128; 4],
        inputs: vec![vec![TensorId(0)], vec![TensorId(1)], vec![TensorId(1)]],
        outputs: vec![vec![TensorId(1)], vec![TensorId(2)], vec![TensorId(3)]],
        base_costs: vec![1500, 1500, 1500],
        op_types: vec![OperationType::Pointwise; 3],
        device_parameters: device(50_000),
    }
}

#[test]
fn forward_walk_gathers_other_consumers() {
    let input = fork();
    let device = input.device_parameters;
    let graph = ComputationGraph::new(&input);
    let sg = subgraph(&graph, &[0, 1, 2]);
    let edges = vec![(TensorId(1), OperationId(1), true), (TensorId(1), OperationId(2), true)];
    let (partitions, _cost) = try_partition_subgraph(&sg, &device, &edges).expect("partition succeeds");
    assert_eq!(plan_nodes(&partitions), vec![vec![0], vec![1, 2]]);
    assert_eq!(partitions[0].retained_outputs, vec![TensorId(1)]);
    assert!(partitions[1].retained_outputs.is_empty());
}

#[test]
fn disconnected_outputs_are_not_covered() {
    let input = InputFormat {
        widths: vec![128; 4],
        heights: vec![128; 4],
        inputs: vec![vec![TensorId(0)], vec![TensorId(2)]],
        outputs: vec![vec![TensorId(1)], vec![TensorId(3)]],
        base_costs: vec![1000, 1000],
        op_types: vec![OperationType::Pointwise; 2],
        device_parameters: device(50_000),
    };
    let device = input.device_parameters;
    let graph = ComputationGraph::new(&input);
    let sg = subgraph(&graph, &[0, 1]);
    assert!(try_partition_subgraph(&sg, &device, &Vec::new()).is_none());
    assert!(search_partition(&sg, &device).is_none());
    let one = subgraph(&graph, &[1]);
    assert!(try_partition_subgraph(&one, &device, &Vec::new()).is_some());
}

#[test]
fn partition_of_no_operations_is_empty() {
    let input = example1();
    let graph = ComputationGraph::new(&input);
    let sg = subgraph(&graph, &[]);
    let chain = partition_subgraph(&sg, &input.device_parameters).expect("nothing to run");
    assert!(chain.is_empty());
}

#[test]
fn partition_subgraph_runs_a_join_as_one_stage() {
    // op0 and op1 share no tensor; op2 reads both their outputs. The three
    // form one connected stage, which is the cheapest plan.
    let input = InputFormat {
        widths: vec![128; 5],
        heights: vec![128; 5],
        inputs: vec![vec![TensorId(0)], vec![TensorId(2)], vec![TensorId(1), TensorId(3)]],
        outputs: vec![vec![TensorId(1)], vec![TensorId(3)], vec![TensorId(4)]],
        base_costs: vec![1, 2400, 2400],
        op_types: vec![OperationType::Pointwise; 3],
        device_parameters: device(200_000),
    };
    let graph = ComputationGraph::new(&input);
    let sg = subgraph(&graph, &[0, 1, 2]);
    let chain = partition_subgraph(&sg, &input.device_parameters).expect("a path exists");
    assert_eq!(chain.len(), 1);
    assert_eq!(node_list(&chain[0].0.subgraph), vec![0, 1, 2]);
    assert!(chain[0].0.retained_outputs.is_empty());
    assert_eq!(chain[0].0.tile_size, (128, 128, 1));
    assert_eq!(frac(chain[0].1), Fraction::new(49152u64, 10u64));
}

#[test]
fn search_partition_follows_edge_by_edge_choices() {
    // Replays the edge search by hand with single partition trials and
    // checks that the plan found is the one the choices lead to.
    let input = example3();
    let device = input.device_parameters;
    let graph = ComputationGraph::new(&input);
    let sg = subgraph(&graph, &[0, 1, 2]);
    let inner = vec![(TensorId(1), OperationId(1)), (TensorId(1), OperationId(2)), (TensorId(2), OperationId(2))];
    let mut edges: Vec<(TensorId, OperationId, bool)> = Vec::new();
    let mut best: Option<Fraction> = None;
    for (t, op) in inner {
        let mut decision = false;
        for keep in [true, false] {
            edges.push((t, op, keep));
            if let Some((_, cost)) = try_partition_subgraph(&sg, &device, &edges) {
                let c = frac(cost);
                if best.map_or(true, |b| c < b) {
                    best = Some(c);
                    decision = keep;
                }
            }
        }
        edges.push((t, op, decision));
    }
    let (expected, expected_cost) = try_partition_subgraph(&sg, &device, &edges).expect("partition succeeds");
    let (partitions, cost) = search_partition(&sg, &device).expect("partition succeeds");
    assert_eq!(plan_nodes(&partitions), plan_nodes(&expected));
    assert_eq!(frac(cost), frac(expected_cost));
}

#[test]
fn partition_subgraph_example1_fuses_both_operations() {
    // The cheapest chain runs both operations as one stage at the native
    // tile, keeping nothing, at 3276.8.
    let input = example1();
    let graph = ComputationGraph::new(&input);
    let sg = subgraph(&graph, &[0, 1]);
    let chain = partition_subgraph(&sg, &input.device_parameters).expect("a path exists");
    assert_eq!(chain.len(), 1);
    assert_eq!(node_list(&chain[0].0.subgraph), vec![0, 1]);
    assert!(chain[0].0.retained_outputs.is_empty());
    assert_eq!(chain[0].0.tile_size, (128, 128, 1));
    assert_eq!(frac(chain[0].1), Fraction::new(32768u64, 10u64));
}
