use vstd::prelude::*;
use crate::tetris::{Game, Piece, is_drop_distance, valid_position, lemma_valid_bounds};

verus! {

/// The row where the falling piece would land if dropped straight down (the ghost piece).
pub fn get_ghost_y(game: &Game) -> (ghost_y: i32)
    requires
        game.current_piece.fits(1),
    ensures
        is_drop_distance(game.board, game.current_piece, ghost_y - game.current_piece.y),
{
    let start = game.current_piece;
    let mut ghost = game.current_piece;
    loop
        invariant_except_break
            start == game.current_piece,
            start.fits(1),
            ghost == start.shifted(0, ghost.y - start.y),
            ghost.y >= start.y,
            ghost.fits(1),
            forall|k: int| 1 <= k <= ghost.y - start.y ==> #[trigger] valid_position(game.board, start.shifted(0, k)),
        ensures
            is_drop_distance(game.board, start, ghost.y - start.y),
        decreases i32::MAX - ghost.y,
    {
        let below = Piece { block_type: ghost.block_type, x: ghost.x, y: ghost.y + 1, rotation: ghost.rotation };
        assert(below == start.shifted(0, ghost.y - start.y + 1));
        if !game.is_valid_position(&below) {
            break;
        }
        proof {
            lemma_valid_bounds(game.board, below);
        }
        ghost.y = ghost.y + 1;
    }
    ghost.y
}

} // verus!
