use tile_scheduler::graph::{ComputationGraph, OperationId, OperationType, Subgraph, TensorId};
use tile_scheduler::input_format::{DeviceParameters, InputFormat};
use tile_scheduler::tiling::{divisors_le, search_tile_values, SearchError};

fn device(capacity: i64) -> DeviceParameters {
    DeviceParameters { fast_memory_capacity: capacity, slow_memory_bandwidth: 10, native_granularity: (128, 128) }
}

/// Two pointwise operations in a chain over square tensors of side `side`.
fn pointwise_chain(side: i64) -> InputFormat {
    InputFormat {
        widths: vec![side; 3],
        heights: vec![side; 3],
        inputs: vec![vec![TensorId(0)], vec![TensorId(1)]],
        outputs: vec![vec![TensorId(1)], vec![TensorId(2)]],
        base_costs: vec![1000, 100],
        op_types: vec![OperationType::Pointwise, OperationType::Pointwise],
        device_parameters: device(35_000),
    }
}

fn example1() -> InputFormat {
    pointwise_chain(128)
}

fn example2() -> InputFormat {
    pointwise_chain(256)
}

fn example5() -> InputFormat {
    InputFormat {
        widths: vec![128; 5],
        heights: vec![128; 5],
        inputs: vec![vec![TensorId(0), TensorId(1)], vec![TensorId(3), TensorId(2)]],
        outputs: vec![vec![TensorId(3)], vec![TensorId(4)]],
        base_costs: vec![2000, 2000],
        op_types: vec![OperationType::MatMul, OperationType::MatMul],
        device_parameters: device(45_000),
    }
}

fn subgraph<'a>(graph: &'a ComputationGraph, ops: &[usize]) -> Subgraph<'a> {
    Subgraph::from_nodes(graph, ops.iter().map(|&o| OperationId(o)).collect())
}

#[test]
fn divisors_le_basic() {
    assert_eq!(divisors_le(128, 128), vec![1, 2, 4, 8, 16, 32, 64, 128]);
    assert_eq!(divisors_le(128, 64), vec![1, 2, 4, 8, 16, 32, 64]);
    assert_eq!(divisors_le(12, 100), vec![1, 2, 3, 4, 6, 12]);
    assert_eq!(divisors_le(1, 1), vec![1]);
}

#[test]
fn official_repo_example1() {
    let input = example1();
    let graph = ComputationGraph::new(&input);
    let subgraph = subgraph(&graph, &[0, 1]);
    let tile_size = search_tile_values(&subgraph, &input.device_parameters, &[]).unwrap();
    assert_eq!(tile_size, (128, 128, 1));
}

#[test]
fn official_repo_example2() {
    let input = example2();
    let graph = ComputationGraph::new(&input);
    let subgraph = subgraph(&graph, &[0, 1]);
    let tile_size = search_tile_values(&subgraph, &input.device_parameters, &[]).unwrap();
    assert_eq!(tile_size, (128, 128, 1));
}

#[test]
fn official_repo_example5() {
    let input = example5();
    let graph = ComputationGraph::new(&input);
    let subgraph = subgraph(&graph, &[0, 1]);
    let tile_size = search_tile_values(&subgraph, &input.device_parameters, &[]).unwrap();
    assert_eq!(tile_size, (128, 128, 32));
}

#[test]
fn official_repo_example5_256() {
    let device_params = device(45_000);
    let graph = ComputationGraph::new(&InputFormat {
        widths: vec![256, 256, 256, 256, 256],
        heights: vec![256, 256, 256, 256, 256],
        inputs: vec![vec![TensorId(0), TensorId(1)], vec![TensorId(3), TensorId(2)]],
        outputs: vec![vec![TensorId(3)], vec![TensorId(4)]],
        base_costs: vec![2000, 2000],
        op_types: vec![OperationType::MatMul, OperationType::MatMul],
        device_parameters: device_params,
    });
    let subgraph = subgraph(&graph, &[0, 1]);
    let tile_size = search_tile_values(&subgraph, &device_params, &[]).unwrap();
    assert_eq!(tile_size.0.max(tile_size.1) <= 128, true);
    assert!(256 % tile_size.0 == 0);
    assert!(256 % tile_size.1 == 0);
    assert!(256 % tile_size.2 == 0);
}

#[test]
fn super_native_never_chosen() {
    let input = example1();
    let graph = ComputationGraph::new(&input);
    let subgraph = subgraph(&graph, &[0, 1]);
    let (w, h, k) = search_tile_values(&subgraph, &input.device_parameters, &[]).unwrap();
    let (native_w, native_h) = input.device_parameters.native_granularity;
    assert!(w <= native_w);
    assert!(h <= native_h);
    assert!(k <= native_w.min(native_h));
}

#[test]
fn pointwise_feeding_matmul_lhs_rejects_small_w() {
    let device_params = device(80_000);
    let graph = ComputationGraph::new(&InputFormat {
        widths: vec![64, 64, 64, 64],
        heights: vec![64, 64, 64, 64],
        inputs: vec![vec![TensorId(0)], vec![TensorId(1), TensorId(2)]],
        outputs: vec![vec![TensorId(1)], vec![TensorId(3)]],
        base_costs: vec![100, 1000],
        op_types: vec![OperationType::Pointwise, OperationType::MatMul],
        device_parameters: device_params,
    });
    let subgraph = subgraph(&graph, &[0, 1]);
    let (w, _h, k) = search_tile_values(&subgraph, &device_params, &[]).unwrap();
    if k < 64 {
        assert!(w >= 64, "split-k prologue requires w ≥ K_op, got w={w}, k={k}");
    }
}

#[test]
fn k_capped_at_min_k_op() {
    let device_params = device(200_000);
    let graph = ComputationGraph::new(&InputFormat {
        widths: vec![64, 128, 128, 128, 128],
        heights: vec![128, 64, 128, 128, 128],
        inputs: vec![vec![TensorId(0), TensorId(1)], vec![TensorId(2), TensorId(3)]],
        outputs: vec![vec![TensorId(2)], vec![TensorId(4)]],
        base_costs: vec![1000, 1000],
        op_types: vec![OperationType::MatMul, OperationType::MatMul],
        device_parameters: device_params,
    });
    let subgraph = subgraph(&graph, &[0, 1]);
    let (_w, _h, k) = search_tile_values(&subgraph, &device_params, &[]).unwrap();
    assert!(k <= 64, "k must be ≤ min K_op = 64, got {k}");
}

#[test]
fn traffic_minimization_prefers_largest_pointwise() {
    let input = example1();
    let graph = ComputationGraph::new(&input);
    let sg = subgraph(&graph, &[0]);
    let tile = search_tile_values(&sg, &input.device_parameters, &[]).unwrap();
    assert_eq!(tile, (128, 128, 1));
}

#[test]
fn empty_subgraph_is_inconsistent() {
    let input = example1();
    let graph = ComputationGraph::new(&input);
    let sg = subgraph(&graph, &[]);
    assert_eq!(search_tile_values(&sg, &input.device_parameters, &[]), Err(SearchError::Inconsistent));
}

#[test]
fn tiny_fast_memory_gives_not_found() {
    let mut input = example1();
    input.device_parameters.fast_memory_capacity = 1;
    let graph = ComputationGraph::new(&input);
    let sg = subgraph(&graph, &[0, 1]);
    assert_eq!(search_tile_values(&sg, &input.device_parameters, &[]), Err(SearchError::NotFound));
}

#[test]
fn retained_tensor_shrinks_the_tile() {
    // Keeping the 128x128 input resident leaves 35000 - 16384 = 18616
    // elements: a full 128x128 tile (two 16384-element slices) no longer fits.
    let input = example1();
    let graph = ComputationGraph::new(&input);
    let sg = subgraph(&graph, &[0]);
    let (w, h, _k) = search_tile_values(&sg, &input.device_parameters, &[TensorId(0)]).unwrap();
    assert!(w * h < 128 * 128);
}

#[test]
fn divisors_of_prime_and_zero_limit() {
    assert_eq!(divisors_le(13, 100), vec![1, 13]);
    assert_eq!(divisors_le(12, 0), Vec::<i64>::new());
    assert_eq!(divisors_le(0, 5), Vec::<i64>::new());
}
