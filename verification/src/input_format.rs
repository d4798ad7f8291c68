use vstd::prelude::*;

use crate::graph::{OperationType, TensorId};

verus! {

/// Parameters of the target device.
#[derive(Clone, Copy, Debug)]
pub struct DeviceParameters {
    pub fast_memory_capacity: i64,
    pub slow_memory_bandwidth: i64,
    pub native_granularity: (i64, i64),
}

/// A problem instance: the tensors, the operations and the device.
pub struct InputFormat {
    pub widths: Vec<i64>,
    pub heights: Vec<i64>,
    pub inputs: Vec<Vec<TensorId>>,
    pub outputs: Vec<Vec<TensorId>>,
    pub base_costs: Vec<i64>,
    pub op_types: Vec<OperationType>,
    pub device_parameters: DeviceParameters,
}

} // verus!
