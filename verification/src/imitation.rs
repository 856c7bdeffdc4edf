use vstd::prelude::*;
use crate::tetris::{BlockType, Board};

verus! {

/// One recorded decision of an expert player: the situation (board, current
/// piece, hold, next pieces) and the move chosen (column, rotation, hold).
#[derive(Debug, Clone)]
pub struct ExpertStep {
    pub board: Board,
    pub current_type: BlockType,
    pub hold_piece: Option<BlockType>,
    pub hold_locked: bool,
    pub next_queue: Vec<BlockType>,
    pub chosen_x: i32,
    pub chosen_rotation: usize,
    pub chosen_hold: bool,
}

} // verus!
