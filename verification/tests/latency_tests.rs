use fraction::Fraction;
use tile_scheduler::graph::{ComputationGraph, OperationId, OperationType, Subgraph, TensorId};
use tile_scheduler::input_format::{DeviceParameters, InputFormat};
use tile_scheduler::performance_model::{subgraph_latency, total_latency, PerformanceMetric};
use tile_scheduler::rational::Rational;

fn device(capacity: i64) -> DeviceParameters {
    DeviceParameters { fast_memory_capacity: capacity, slow_memory_bandwidth: 10, native_granularity: (128, 128) }
}

fn pointwise_chain(side: i64) -> InputFormat {
    InputFormat {
        widths: vec![side; 3],
        heights: vec![side; 3],
        inputs: vec![vec![TensorId(0)], vec![TensorId(1)]],
        outputs: vec![vec![TensorId(1)], vec![TensorId(2)]],
        base_costs: vec![1000, 100],
        op_types: vec![OperationType::Pointwise, OperationType::Pointwise],
        device_parameters: device(35_000),
    }
}

fn example1() -> InputFormat {
    pointwise_chain(128)
}

fn example2() -> InputFormat {
    pointwise_chain(256)
}

fn example3() -> InputFormat {
    InputFormat {
        widths: vec![128; 4],
        heights: vec![128; 4],
        inputs: vec![vec![TensorId(0)], vec![TensorId(1)], vec![TensorId(1), TensorId(2)]],
        outputs: vec![vec![TensorId(1)], vec![TensorId(2)], vec![TensorId(3)]],
        base_costs: vec![1500, 1500, 1500],
        op_types: vec![OperationType::Pointwise; 3],
        device_parameters: device(50_000),
    }
}

fn example4() -> InputFormat {
    InputFormat {
        widths: vec![128; 3],
        heights: vec![128; 3],
        inputs: vec![vec![TensorId(0), TensorId(1)]],
        outputs: vec![vec![TensorId(2)]],
        base_costs: vec![1500],
        op_types: vec![OperationType::MatMul],
        device_parameters: device(25_000),
    }
}

fn example5() -> InputFormat {
    InputFormat {
        widths: vec![128; 5],
        heights: vec![128; 5],
        inputs: vec![vec![TensorId(0), TensorId(1)], vec![TensorId(3), TensorId(2)]],
        outputs: vec![vec![TensorId(3)], vec![TensorId(4)]],
        base_costs: vec![2000, 2000],
        op_types: vec![OperationType::MatMul, OperationType::MatMul],
        device_parameters: device(45_000),
    }
}

fn subgraph<'a>(graph: &'a ComputationGraph, ops: &[usize]) -> Subgraph<'a> {
    Subgraph::from_nodes(graph, ops.iter().map(|&o| OperationId(o)).collect())
}

fn frac(r: Rational) -> Fraction {
    Fraction::new(r.numer, r.denom)
}

fn total(l: &Vec<(TensorId, Vec<PerformanceMetric>)>) -> Fraction {
    frac(total_latency(l))
}

#[test]
fn example1_strategy_a_sequential() {
    let input = example1();
    let device = input.device_parameters;
    let graph = ComputationGraph::new(&input);
    let sg0 = subgraph(&graph, &[0]);
    let sg1 = subgraph(&graph, &[1]);
    let lat0 = subgraph_latency(&device, &sg0, (128, 128, 1), &[]);
    let lat1 = subgraph_latency(&device, &sg1, (128, 128, 1), &[]);
    assert_eq!(lat0.len(), 1);
    assert_eq!(lat1.len(), 1);
    assert_eq!(total(&lat0), Fraction::new(32768u64, 10u64));
    assert_eq!(total(&lat1), Fraction::new(32768u64, 10u64));
    assert_eq!(total(&lat0) + total(&lat1), Fraction::new(65536u64, 10u64));
}

#[test]
fn example1_strategy_b_merged() {
    let input = example1();
    let device = input.device_parameters;
    let graph = ComputationGraph::new(&input);
    let sg = subgraph(&graph, &[0, 1]);
    let latencies = subgraph_latency(&device, &sg, (128, 128, 1), &[]);
    assert_eq!(latencies.len(), 1);
    assert_eq!(total(&latencies), Fraction::new(32768u64, 10u64));
}

#[test]
fn example1_strategy_c_small_tiles() {
    let input = example1();
    let device = input.device_parameters;
    let graph = ComputationGraph::new(&input);
    let sg = subgraph(&graph, &[0, 1]);
    let latencies = subgraph_latency(&device, &sg, (64, 64, 1), &[]);
    assert_eq!(total(&latencies), Fraction::new(44000u64, 10u64));
}

#[test]
fn example2_strategy_a_sequential() {
    let input = example2();
    let device = input.device_parameters;
    let graph = ComputationGraph::new(&input);
    let sg0 = subgraph(&graph, &[0]);
    let sg1 = subgraph(&graph, &[1]);
    let lat0 = subgraph_latency(&device, &sg0, (128, 128, 1), &[]);
    let lat1 = subgraph_latency(&device, &sg1, (128, 128, 1), &[]);
    assert_eq!(total(&lat0), Fraction::new(131072u64, 10u64));
    assert_eq!(total(&lat1), Fraction::new(131072u64, 10u64));
}

#[test]
fn example2_strategy_b_merged() {
    let input = example2();
    let device = input.device_parameters;
    let graph = ComputationGraph::new(&input);
    let sg = subgraph(&graph, &[0, 1]);
    let latencies = subgraph_latency(&device, &sg, (128, 128, 1), &[]);
    assert_eq!(total(&latencies), Fraction::new(131072u64, 10u64));
}

#[test]
fn retained_output_skips_output_traffic() {
    let input = example1();
    let device = input.device_parameters;
    let graph = ComputationGraph::new(&input);
    let sg = subgraph(&graph, &[0, 1]);
    let latencies = subgraph_latency(&device, &sg, (128, 128, 1), &[TensorId(2)]);
    assert_eq!(total(&latencies), Fraction::new(16384u64, 10u64));
}

#[test]
fn example3_strategy_a_spilling() {
    let input = example3();
    let device = input.device_parameters;
    let graph = ComputationGraph::new(&input);
    let sg0 = subgraph(&graph, &[0]);
    let sg1 = subgraph(&graph, &[1]);
    let sg2 = subgraph(&graph, &[2]);
    let lat0 = subgraph_latency(&device, &sg0, (128, 128, 1), &[]);
    let lat1 = subgraph_latency(&device, &sg1, (128, 128, 1), &[]);
    let lat2 = subgraph_latency(&device, &sg2, (128, 128, 1), &[]);
    assert_eq!(total(&lat0), Fraction::new(32768u64, 10u64));
    assert_eq!(total(&lat1), Fraction::new(32768u64, 10u64));
    assert_eq!(total(&lat2), Fraction::new(49152u64, 10u64));
    let sum = total(&lat0) + total(&lat1) + total(&lat2);
    assert_eq!(sum, Fraction::new(114688u64, 10u64));
}

#[test]
fn performance_model_example3_strategy_c_selective_residency() {
    let input = example3();
    let device = input.device_parameters;
    let graph = ComputationGraph::new(&input);
    let sg_0 = subgraph(&graph, &[0]);
    let sg_12 = subgraph(&graph, &[1, 2]);
    let lat_0 = subgraph_latency(&device, &sg_0, (128, 128, 1), &[TensorId(1)]);
    let lat_12 = subgraph_latency(&device, &sg_12, (128, 128, 1), &[TensorId(1)]);
    assert_eq!(total(&lat_0), Fraction::new(16384u64, 10u64));
    assert_eq!(total(&lat_12), Fraction::new(30000u64, 10u64));
    assert_eq!(total(&lat_0) + total(&lat_12), Fraction::new(46384u64, 10u64));
}

#[test]
fn example4_strategy_a_raster() {
    let input = example4();
    let device = input.device_parameters;
    let graph = ComputationGraph::new(&input);
    let sg = subgraph(&graph, &[0]);
    let latencies = subgraph_latency(&device, &sg, (64, 64, 128), &[]);
    assert_eq!(latencies.len(), 1);
    assert_eq!(total(&latencies), Fraction::new(70960u64, 10u64));
}

#[test]
fn example5_strategy_b_split_k() {
    let input = example5();
    let device = input.device_parameters;
    let graph = ComputationGraph::new(&input);
    let sg = subgraph(&graph, &[0, 1]);
    let latencies = subgraph_latency(&device, &sg, (128, 128, 32), &[]);
    assert_eq!(latencies.len(), 1);
    assert_eq!(total(&latencies), Fraction::new(69152u64, 10u64));
}

#[test]
fn example5_unfused() {
    let input = example5();
    let device = input.device_parameters;
    let graph = ComputationGraph::new(&input);
    let sg0 = subgraph(&graph, &[0]);
    let latencies0 = subgraph_latency(&device, &sg0, (128, 128, 32), &[]);
    let sg1 = subgraph(&graph, &[1]);
    let latencies1 = subgraph_latency(&device, &sg1, (128, 128, 32), &[]);
    assert_eq!(latencies0.len(), 1);
    assert_eq!(total(&latencies0), Fraction::new(49152u64, 10u64));
    assert_eq!(latencies1.len(), 1);
    assert_eq!(total(&latencies1), Fraction::new(49152u64, 10u64));
}

#[test]
fn metric_latency_is_the_larger_cost() {
    let compute = Rational { numer: 3, denom: 1 };
    let memory = Rational { numer: 7, denom: 2 };
    let m = PerformanceMetric::from_compute_cost(compute).combine(PerformanceMetric::from_memory_cost(memory));
    assert_eq!(frac(m.latency()), Fraction::new(7u64, 2u64));
    let z = PerformanceMetric::zero();
    assert_eq!(frac(z.latency()), Fraction::from(0u64));
}

#[test]
fn total_latency_of_nothing_is_zero() {
    let empty: Vec<(TensorId, Vec<PerformanceMetric>)> = Vec::new();
    assert_eq!(total(&empty), Fraction::from(0u64));
}

#[test]
fn iterations_follow_the_tile_grid() {
    // 256x256 outputs at 128x128 tiles: four iterations, one per tile.
    let input = example2();
    let device = input.device_parameters;
    let graph = ComputationGraph::new(&input);
    let sg = subgraph(&graph, &[0, 1]);
    let latencies = subgraph_latency(&device, &sg, (128, 128, 1), &[]);
    assert_eq!(latencies.len(), 1);
    assert_eq!(latencies[0].0, TensorId(2));
    assert_eq!(latencies[0].1.len(), 4);
}

#[test]
fn example3_shared_input_loaded_once() {
    // t1 feeds both operations of the stage; its tile is loaded once.
    let input = example3();
    let device = input.device_parameters;
    let graph = ComputationGraph::new(&input);
    let sg = subgraph(&graph, &[1, 2]);
    let latencies = subgraph_latency(&device, &sg, (128, 128, 1), &[]);
    assert_eq!(total(&latencies), Fraction::new(32768u64, 10u64));
}

#[test]
fn diamond_operations_computed_once() {
    // op0 feeds op1 and op2, which both feed op3: op0 is reached along two
    // paths from t4 but runs once per tile.
    let input = InputFormat {
        widths: vec![128; 5],
        heights: vec![128; 5],
        inputs: vec![vec![TensorId(0)], vec![TensorId(1)], vec![TensorId(1)], vec![TensorId(2), TensorId(3)]],
        outputs: vec![vec![TensorId(1)], vec![TensorId(2)], vec![TensorId(3)], vec![TensorId(4)]],
        base_costs: vec![1000, 1000, 1000, 1000],
        op_types: vec![OperationType::Pointwise; 4],
        device_parameters: device(100_000),
    };
    let device = input.device_parameters;
    let graph = ComputationGraph::new(&input);
    let sg = subgraph(&graph, &[0, 1, 2, 3]);
    let latencies = subgraph_latency(&device, &sg, (128, 128, 1), &[]);
    assert_eq!(latencies.len(), 1);
    assert_eq!(latencies[0].1.len(), 1);
    assert_eq!(frac(latencies[0].1[0].compute_cost), Fraction::new(4000u64, 1u64));
    assert_eq!(total(&latencies), Fraction::new(4000u64, 1u64));
}
