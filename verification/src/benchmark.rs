use vstd::prelude::*;
use crate::ai::GpuBackendSelection;
use crate::rng::{seeded_rng, shuffle_blocks_with, seeded_bag_shuffle};
use crate::tetris::{
    BlockType, Game, Piece, Bag, all_block_types, is_full_bag, bag_ok, board_is_empty, empty_board, spawned,
    lemma_bag_ok_append,
};

verus! {

broadcast use vstd::seq_lib::group_to_multiset_ensures;

/// A search setting to benchmark: its name, depth, beam width and
/// description, and the evaluator to use (the model's own when none).
#[derive(Debug, Clone)]
pub struct BenchmarkConfig {
    pub name: String,
    pub depth: usize,
    pub beam_width: usize,
    pub description: String,
    pub backend: Option<GpuBackendSelection>,
}

/// The number of bags dealt in advance for a seeded game.
pub const SEEDED_BAGS: usize = 1000;

/// The first `n` bags a generator seeded from `seed` deals: each is the seven
/// types in `BlockType::all` order, shuffled.
pub open spec fn seeded_deal(seed: u64, n: nat) -> Seq<BlockType>
    decreases n,
{
    if n == 0 {
        Seq::empty()
    } else {
        seeded_deal(seed, (n - 1) as nat) + seeded_bag_shuffle(seed, (n - 1) as nat, all_block_types())
    }
}

/// A game as it starts from the pieces `dealt`: the first falls, the others
/// are queued, the board is empty and the counters are zero.
pub open spec fn dealt_start(g: Game, dealt: Seq<BlockType>) -> bool {
    &&& seq![g.current_piece.block_type] + g.bag.queue@ == dealt
    &&& board_is_empty(g.board)
    &&& g.current_piece == spawned(g.current_piece.block_type)
    &&& g.hold_piece is None
    &&& !g.hold_locked
    &&& g.score == 0
    &&& g.lines_cleared == 0
    &&& !g.game_over
    &&& !g.last_action_was_rotate
    &&& g.last_t_spin is None
    &&& !g.btb
    &&& g.pending_garbage == 0
    &&& g.last_firepower == 0
    &&& g.last_garbage_hole is None
}

/// A game as it starts, dealt from `SEEDED_BAGS` whole bags shuffled by a
/// generator seeded from `seed`.
pub open spec fn seeded_start(g: Game, seed: u64) -> bool {
    &&& dealt_start(g, seeded_deal(seed, SEEDED_BAGS as nat))
    &&& g.bag.queue@.len() == 7 * SEEDED_BAGS - 1
    &&& bag_ok(seq![g.current_piece.block_type] + g.bag.queue@)
}

/// Starts a game from the pieces `dealt`: see `dealt_start`.
pub fn start_from_deal(dealt: Vec<BlockType>) -> (g: Game)
    requires
        dealt@.len() > 0,
    ensures
        dealt_start(g, dealt@),
{
    let mut queue = dealt;
    let ghost all = queue@;
    let first = queue.remove(0);
    proof {
        assert(all =~= seq![first] + queue@);
    }
    Game {
        board: empty_board(),
        current_piece: Piece::new(first),
        bag: Bag { queue },
        hold_piece: None,
        hold_locked: false,
        score: 0,
        lines_cleared: 0,
        game_over: false,
        last_action_was_rotate: false,
        last_t_spin: None,
        btb: false,
        pending_garbage: 0,
        last_firepower: 0,
        last_garbage_hole: None,
    }
}

/// A new game for a benchmark run: see `seeded_start`.
pub fn create_seeded_game(seed: u64) -> (g: Game)
    ensures
        seeded_start(g, seed),
{
    let mut rng = seeded_rng(seed);
    let mut queue: Vec<BlockType> = Vec::new();
    let mut n: usize = 0;
    proof {
        assert(bag_ok(queue@));
    }
    while n < SEEDED_BAGS
        invariant
            n <= SEEDED_BAGS,
            queue@.len() == 7 * n,
            bag_ok(queue@),
            queue@ == seeded_deal(seed, n as nat),
            rng.seed_of() == seed,
            rng.shuffles_done() == n,
        decreases SEEDED_BAGS - n,
    {
        let all = BlockType::all();
        let mut bag: Vec<BlockType> = Vec::new();
        let mut i: usize = 0;
        while i < 7
            invariant
                i <= 7,
                all@ == all_block_types(),
                bag@ == all_block_types().take(i as int),
            decreases 7 - i,
        {
            bag.push(all[i]);
            assert(all_block_types().take(i as int + 1) =~= all_block_types().take(i as int).push(all@[i as int]));
            i += 1;
        }
        assert(all_block_types().take(7) =~= all_block_types());
        let ghost before_shuffle = bag@;
        shuffle_blocks_with(&mut bag, &mut rng);
        proof {
            assert(before_shuffle.to_multiset().len() == 7);
            assert(bag@.to_multiset().len() == 7);
            assert(bag@.len() == 7);
            assert(is_full_bag(bag@));
            lemma_bag_ok_append(queue@, bag@);
        }
        let ghost before = queue@;
        queue.append(&mut bag);
        proof {
            assert(queue@ == before + seeded_bag_shuffle(seed, n as nat, all_block_types()));
        }
        n += 1;
    }
    proof {
        assert(bag_ok(queue@));
    }
    start_from_deal(queue)
}

} // verus!
