pub mod game;

use vstd::prelude::*;
use crate::ai::GpuBackendSelection;

verus! {

/// The search the game runs with: a name to show, the search depth, the beam
/// width and the evaluator.
#[derive(Debug, Clone)]
pub struct ActiveSearchConfig {
    pub name: String,
    pub depth: usize,
    pub beam_width: usize,
    pub backend: GpuBackendSelection,
}

impl Default for ActiveSearchConfig {
    /// The best setting of the benchmark: beam search of depth 5 and width 30
    /// on the Vulkan evaluator.
    fn default() -> (r: Self)
        ensures
            r.name@ == "🥇 1位: Beam Search (Depth 5, Width 30) [Vulkan wgpu]"@,
            r.depth == 5,
            r.beam_width == 30,
            r.backend == GpuBackendSelection::Vulkan,
    {
        ActiveSearchConfig {
            name: "🥇 1位: Beam Search (Depth 5, Width 30) [Vulkan wgpu]".to_owned(),
            depth: 5,
            beam_width: 30,
            backend: GpuBackendSelection::Vulkan,
        }
    }
}

} // verus!
