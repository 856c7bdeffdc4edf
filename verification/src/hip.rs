use vstd::prelude::*;

verus! {

/// The ROCm (HIP) evaluator: whether a device was found, and its name.
#[derive(Debug, Clone)]
pub struct HipEvaluator {
    pub is_available: bool,
    pub device_name: String,
}

} // verus!
