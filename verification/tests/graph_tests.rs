use tile_scheduler::graph::{ComputationGraph, OperationId, OperationType, Subgraph, TensorId};
use tile_scheduler::input_format::{DeviceParameters, InputFormat};

fn make_input(inputs: Vec<Vec<TensorId>>, outputs: Vec<Vec<TensorId>>, num_tensors: usize) -> InputFormat {
    let num_ops = inputs.len();
    InputFormat {
        widths: vec![1; num_tensors],
        heights: vec![1; num_tensors],
        inputs,
        outputs,
        base_costs: vec![1; num_ops],
        op_types: vec![OperationType::Pointwise; num_ops],
        device_parameters: DeviceParameters {
            fast_memory_capacity: 1,
            slow_memory_bandwidth: 1,
            native_granularity: (1, 1),
        },
    }
}

fn subgraph<'a>(graph: &'a ComputationGraph, ops: &[usize]) -> Subgraph<'a> {
    Subgraph::from_nodes(graph, ops.iter().map(|&o| OperationId(o)).collect())
}

fn chain_input() -> InputFormat {
    make_input(
        vec![vec![TensorId(0)], vec![TensorId(1)], vec![TensorId(2)]],
        vec![vec![TensorId(1)], vec![TensorId(2)], vec![TensorId(3)]],
        4,
    )
}

fn branching_input() -> InputFormat {
    make_input(
        vec![vec![TensorId(0)], vec![TensorId(1)], vec![TensorId(2)], vec![TensorId(3), TensorId(4)]],
        vec![vec![TensorId(1), TensorId(2)], vec![TensorId(3)], vec![TensorId(4)], vec![TensorId(5)]],
        6,
    )
}

fn assert_is_topological_order(graph: &ComputationGraph, order: &[OperationId]) {
    let num_ops = graph.num_operations();
    let mut position = vec![None; num_ops];
    for (idx, op_id) in order.iter().copied().enumerate() {
        assert!(op_id.0 < num_ops, "operation id out of range: {}", op_id.0);
        assert!(position[op_id.0].is_none(), "operation appears more than once: {:?}", op_id);
        position[op_id.0] = Some(idx);
    }
    assert!(position.iter().all(|p| p.is_some()), "some operations are missing in the topological order");
    for (op_idx, op_outputs) in graph.outputs().iter().enumerate() {
        for &tensor_id in op_outputs {
            for &consumer in graph.consumer_ids_for(tensor_id) {
                assert!(
                    position[op_idx] < position[consumer.0],
                    "dependency violated: {:?} must come before {:?}",
                    op_idx,
                    consumer
                );
            }
        }
    }
}

#[test]
fn topological_sort_empty_graph() {
    let input = make_input(vec![], vec![], 0);
    let graph = ComputationGraph::new(&input);
    assert_eq!(*graph.topological_sort().order(), vec![]);
}

#[test]
fn topological_sort_linear_chain() {
    let graph = ComputationGraph::new(&chain_input());
    assert_eq!(*graph.topological_sort().order(), vec![OperationId(0), OperationId(1), OperationId(2)]);
}

#[test]
fn topological_sort_branching_dag() {
    let graph = ComputationGraph::new(&branching_input());
    let order = graph.topological_sort();
    assert_eq!(order.len(), 4);
    assert_is_topological_order(&graph, order.order());
}

#[test]
fn topological_sort_disconnected_components() {
    let input = make_input(
        vec![vec![TensorId(0)], vec![TensorId(2)], vec![TensorId(1)], vec![TensorId(4)]],
        vec![vec![TensorId(2)], vec![TensorId(3)], vec![TensorId(4)], vec![TensorId(5)]],
        6,
    );
    let graph = ComputationGraph::new(&input);
    let order = graph.topological_sort();
    assert_eq!(order.len(), 4);
    assert_is_topological_order(&graph, order.order());
}

#[test]
fn sort_empty_input() {
    let graph = ComputationGraph::new(&chain_input());
    let order = graph.topological_sort();
    assert_eq!(order.sort(vec![]), vec![]);
}

#[test]
fn sort_reverses_to_topological_order() {
    let graph = ComputationGraph::new(&chain_input());
    let order = graph.topological_sort();
    assert_eq!(
        order.sort(vec![OperationId(2), OperationId(1), OperationId(0)]),
        vec![OperationId(0), OperationId(1), OperationId(2)]
    );
}

#[test]
fn sort_subset_in_reverse_order() {
    let graph = ComputationGraph::new(&chain_input());
    let order = graph.topological_sort();
    assert_eq!(order.sort(vec![OperationId(2), OperationId(0)]), vec![OperationId(0), OperationId(2)]);
}

#[test]
fn sort_subset_of_branching_dag() {
    let graph = ComputationGraph::new(&branching_input());
    let order = graph.topological_sort();
    let sorted = order.sort(vec![OperationId(3), OperationId(1)]);
    assert_eq!(sorted.len(), 2);
    assert!(
        order.sort(vec![OperationId(3), OperationId(1)]) == order.sort(vec![OperationId(1), OperationId(3)]),
        "sort must be stable with respect to topological position"
    );
    let pos_op1 = sorted.iter().position(|&x| x == OperationId(1)).unwrap();
    let pos_op3 = sorted.iter().position(|&x| x == OperationId(3)).unwrap();
    assert!(pos_op1 < pos_op3);
}

#[test]
fn is_subset_proper_subset() {
    let graph = ComputationGraph::new(&chain_input());
    let sub = subgraph(&graph, &[0, 1]);
    let sup = subgraph(&graph, &[0, 1, 2]);
    assert!(sub.is_subset(&sup));
    assert!(!sup.is_subset(&sub));
}

#[test]
fn is_subset_equal_sets() {
    let graph = ComputationGraph::new(&chain_input());
    let a = subgraph(&graph, &[0, 1, 2]);
    let b = subgraph(&graph, &[0, 1, 2]);
    assert!(a.is_subset(&b));
    assert!(b.is_subset(&a));
}

#[test]
fn is_subset_empty_is_subset_of_any() {
    let graph = ComputationGraph::new(&chain_input());
    let empty = subgraph(&graph, &[]);
    let non_empty = subgraph(&graph, &[0, 1]);
    assert!(empty.is_subset(&non_empty));
    assert!(empty.is_subset(&empty));
}

#[test]
fn is_subset_disjoint_subgraphs() {
    let graph = ComputationGraph::new(&branching_input());
    let a = subgraph(&graph, &[1, 3]);
    let b = subgraph(&graph, &[0, 2]);
    assert!(!a.is_subset(&b));
    assert!(!b.is_subset(&a));
}

#[test]
fn is_subset_partial_overlap_in_dag() {
    let graph = ComputationGraph::new(&branching_input());
    let full = subgraph(&graph, &[0, 1, 2, 3]);
    let branch = subgraph(&graph, &[0, 2]);
    let single = subgraph(&graph, &[1]);
    assert!(branch.is_subset(&full));
    assert!(single.is_subset(&full));
    assert!(!full.is_subset(&branch));
}

#[test]
fn subtract_single_element() {
    let graph = ComputationGraph::new(&chain_input());
    let all = subgraph(&graph, &[0, 1, 2]);
    let mid = subgraph(&graph, &[1]);
    let result = all.subtract(&mid);
    assert_eq!(result.nodes(), &[OperationId(0), OperationId(2)]);
}

#[test]
fn subtract_equal_sets_gives_empty() {
    let graph = ComputationGraph::new(&chain_input());
    let a = subgraph(&graph, &[0, 1, 2]);
    let b = subgraph(&graph, &[0, 1, 2]);
    assert!(a.subtract(&b).nodes().is_empty());
}

#[test]
fn subtract_empty_is_identity() {
    let graph = ComputationGraph::new(&chain_input());
    let a = subgraph(&graph, &[0, 2]);
    let empty = subgraph(&graph, &[]);
    assert_eq!(a.subtract(&empty).nodes(), &[OperationId(0), OperationId(2)]);
}

#[test]
fn subtract_from_empty_gives_empty() {
    let graph = ComputationGraph::new(&chain_input());
    let empty = subgraph(&graph, &[]);
    let b = subgraph(&graph, &[0, 1]);
    assert!(empty.subtract(&b).nodes().is_empty());
}

#[test]
fn subtract_disjoint_result_in_dag() {
    let graph = ComputationGraph::new(&branching_input());
    let full = subgraph(&graph, &[0, 1, 2, 3]);
    let branch = subgraph(&graph, &[1, 3]);
    let result = full.subtract(&branch);
    assert_eq!(result.nodes(), &[OperationId(0), OperationId(2)]);
}

#[test]
fn components_empty_subgraph() {
    let input = make_input(vec![vec![TensorId(0)], vec![TensorId(1)]], vec![vec![TensorId(1)], vec![TensorId(2)]], 3);
    let graph = ComputationGraph::new(&input);
    let sub = subgraph(&graph, &[]);
    assert_eq!(sub.components(), 0);
}

#[test]
fn components_single_node() {
    let input = make_input(vec![vec![TensorId(0)]], vec![vec![TensorId(1)]], 2);
    let graph = ComputationGraph::new(&input);
    let sub = subgraph(&graph, &[0]);
    assert_eq!(sub.components(), 1);
}

#[test]
fn components_linear_chain() {
    let graph = ComputationGraph::new(&chain_input());
    let sub = subgraph(&graph, &[0, 1, 2]);
    assert_eq!(sub.components(), 1);
}

#[test]
fn components_broken_chain() {
    let graph = ComputationGraph::new(&chain_input());
    let sub = subgraph(&graph, &[0, 2]);
    assert_eq!(sub.components(), 2);
}

#[test]
fn components_two_disconnected_chains() {
    let input = make_input(
        vec![vec![TensorId(0)], vec![TensorId(2)], vec![TensorId(1)], vec![TensorId(4)]],
        vec![vec![TensorId(2)], vec![TensorId(3)], vec![TensorId(4)], vec![TensorId(5)]],
        6,
    );
    let graph = ComputationGraph::new(&input);
    let sub = subgraph(&graph, &[0, 1, 2, 3]);
    assert_eq!(sub.components(), 2);
}

#[test]
fn components_branching_dag_all_nodes() {
    let graph = ComputationGraph::new(&branching_input());
    let sub = subgraph(&graph, &[0, 1, 2, 3]);
    assert_eq!(sub.components(), 1);
}

#[test]
fn components_parallel_branches() {
    let graph = ComputationGraph::new(&branching_input());
    let sub = subgraph(&graph, &[1, 2]);
    assert_eq!(sub.components(), 2);
}

#[test]
fn components_branches_joined_by_sink() {
    let graph = ComputationGraph::new(&branching_input());
    let sub = subgraph(&graph, &[1, 2, 3]);
    assert_eq!(sub.components(), 1);
}

#[test]
fn subtract_with_non_overlapping_other() {
    let graph = ComputationGraph::new(&chain_input());
    let a = subgraph(&graph, &[0]);
    let b = subgraph(&graph, &[1, 2]);
    assert_eq!(a.subtract(&b).nodes(), &[OperationId(0)]);
}

#[test]
fn output_tensors_of_branching_subgraph() {
    let input = make_input(
        vec![vec![TensorId(0), TensorId(1)], vec![TensorId(2)], vec![TensorId(2), TensorId(3)]],
        vec![vec![TensorId(2)], vec![TensorId(4)], vec![TensorId(5)]],
        6,
    );
    let graph = ComputationGraph::new(&input);
    let sg = subgraph(&graph, &[0, 1]);
    let output_tensors = sg.output_tensor_ids();
    assert_eq!(output_tensors.len(), 2);
    assert!(output_tensors.contains(&TensorId(2)));
    assert!(output_tensors.contains(&TensorId(4)));
}

// Inserting an operation keeps the nodes in topological order.
#[test]
fn insert_keeps_topological_order() {
    let graph = ComputationGraph::new(&chain_input());
    let mut sg = subgraph(&graph, &[2, 0]);
    assert_eq!(sg.nodes(), &[OperationId(0), OperationId(2)]);
    sg.insert(OperationId(1));
    assert_eq!(sg.nodes(), &[OperationId(0), OperationId(1), OperationId(2)]);
    assert!(sg.contains(OperationId(1)));
}

// Inputs are the tensors consumed and not produced inside.
#[test]
fn input_tensors_of_branching_subgraph() {
    let graph = ComputationGraph::new(&branching_input());
    let sg = subgraph(&graph, &[1, 3]);
    assert_eq!(sg.input_tensor_ids(), vec![TensorId(1), TensorId(4)]);
    assert_eq!(sg.output_tensor_ids(), vec![TensorId(5)]);
}

// Producer and consumer lookups of the branching graph.
#[test]
fn producer_and_consumers() {
    let graph = ComputationGraph::new(&branching_input());
    assert_eq!(graph.producer_id_of(TensorId(0)), None);
    assert_eq!(graph.producer_id_of(TensorId(4)), Some(OperationId(2)));
    assert_eq!(graph.consumer_ids_for(TensorId(1)), &[OperationId(1)]);
    assert_eq!(graph.consumer_ids_for(TensorId(5)), &[] as &[OperationId]);
    assert_eq!(graph.consumer_ids_for(TensorId(99)), &[] as &[OperationId]);
    assert_eq!(graph.input_ids_for(OperationId(3)), &[TensorId(3), TensorId(4)]);
    assert_eq!(graph.output_ids_for(OperationId(0)), &[TensorId(1), TensorId(2)]);
}
