use vstd::prelude::*;

verus! {

/// A structured terrain pattern of the knowledge base: the columns of its
/// notches, the column of its roof, the recommended columns, its depth, the
/// attack it is expected to give and whether it keeps back-to-back.
#[derive(Debug, Clone)]
pub struct TerrainPattern {
    pub id: String,
    pub name: String,
    pub category: String,
    pub notch_cols: Vec<usize>,
    pub roof_col: usize,
    pub recommended_cols: Vec<usize>,
    pub height_depth: usize,
    pub expected_attack: usize,
    pub b2b: bool,
}

} // verus!
