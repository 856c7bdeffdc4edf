use vstd::prelude::*;

verus! {

/// The kind of device that evaluates the moves, with its description.
#[derive(Debug, Clone)]
pub enum GpuBackendType {
    DiscreteGpu(String),
    IntegratedGpu(String),
    CpuFallback(String),
}

} // verus!
