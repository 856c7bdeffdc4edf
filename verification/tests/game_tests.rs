use tetris_ai::ai::{ChosenMove, play_chosen_move};
use tetris_ai::benchmark::{create_seeded_game, start_from_deal, BenchmarkConfig};
use tetris_ai::config::ActiveSearchConfig;
use tetris_ai::config::game::line_clear_score;
use tetris_ai::rl::set_board_from_strings;
use tetris_ai::server::{BattleState, ROUND_PAUSE_TICKS};
use tetris_ai::tetris::{BlockType, Game, Piece, RotationDirection, Bag, BOARD_WIDTH, INTERNAL_HEIGHT, next_garbage_hole};
use tetris_ai::ui::get_ghost_y;

fn battle() -> BattleState {
    BattleState { p1: Game::new(), p1_wins: 0, p2: Game::new(), p2_wins: 0, gpu_info: "CPU".to_string() }
}

#[test]
fn seeded_games_repeat_for_a_seed() {
    let a = create_seeded_game(7);
    let b = create_seeded_game(7);
    assert_eq!(a.current_piece, b.current_piece);
    assert_eq!(a.bag.queue, b.bag.queue);
    let c = create_seeded_game(8);
    let mut first_a = vec![a.current_piece.block_type];
    first_a.extend_from_slice(&a.bag.queue);
    let mut first_c = vec![c.current_piece.block_type];
    first_c.extend_from_slice(&c.bag.queue);
    assert_ne!(first_a, first_c);
}

#[test]
fn start_from_deal_takes_the_first_piece() {
    let g = start_from_deal(vec![BlockType::S, BlockType::Z, BlockType::T]);
    assert_eq!(g.current_piece, Piece::new(BlockType::S));
    assert_eq!(g.bag.queue, vec![BlockType::Z, BlockType::T]);
    assert_eq!(g.score, 0);
    assert!(g.hold_piece.is_none());
}

#[test]
fn seeded_game_deals_whole_bags() {
    let g = create_seeded_game(42);
    assert_eq!(g.bag.queue.len(), 6999);
    let mut first_bag = vec![g.current_piece.block_type];
    first_bag.extend_from_slice(&g.bag.queue[0..6]);
    for t in BlockType::all().iter() {
        assert!(first_bag.contains(t));
    }
    assert_eq!(g.score, 0);
    assert!(!g.game_over);
    assert_eq!(g.current_piece, Piece::new(g.current_piece.block_type));
}

#[test]
fn new_game_starts_empty_with_a_bag() {
    let g = Game::new();
    for y in 0..INTERNAL_HEIGHT {
        for x in 0..BOARD_WIDTH {
            assert!(g.board[y][x].is_none());
        }
    }
    assert_eq!(g.bag.queue.len(), 13);
    let mut seen = vec![g.current_piece.block_type];
    seen.extend_from_slice(&g.bag.queue[0..6]);
    for t in BlockType::all().iter() {
        assert!(seen.contains(t));
    }
}

#[test]
fn bag_refills_when_short() {
    let mut bag = Bag::new();
    assert_eq!(bag.queue.len(), 7);
    let first = bag.queue[0];
    assert_eq!(bag.pop(), first);
    assert_eq!(bag.queue.len(), 13);
    assert_eq!(bag.peek_next(3), bag.queue[0..3].to_vec());
    assert_eq!(bag.peek_next(100).len(), 13);
}

#[test]
fn hard_drop_lands_where_the_ghost_is() {
    let mut g = Game::new();
    g.current_piece = Piece::new(BlockType::O);
    let ghost = get_ghost_y(&g);
    assert_eq!(ghost, 22);
    let dist = g.hard_drop();
    assert_eq!(dist, 20);
    assert_eq!(g.board[23][4], Some(BlockType::O));
    assert_eq!(g.board[22][5], Some(BlockType::O));
}

#[test]
fn try_move_stops_at_walls() {
    let mut g = Game::new();
    g.current_piece = Piece::new(BlockType::I);
    assert!(g.try_move(-1, 0));
    assert!(g.try_move(-1, 0));
    assert!(!g.try_move(-1, 0));
    assert_eq!(g.current_piece.x, 1);
}

#[test]
fn kicks_undo_each_other() {
    let g = Game::new();
    for bt in BlockType::all().iter() {
        for from in 0..4usize {
            let to = (from + 1) % 4;
            let there = g.get_kick_offsets(*bt, from, to);
            let back = g.get_kick_offsets(*bt, to, from);
            for i in 0..5 {
                assert_eq!(there[i].0, -back[i].0);
                assert_eq!(there[i].1, -back[i].1);
            }
        }
    }
}

#[test]
fn rotation_turns_in_place_on_an_empty_board() {
    let mut g = Game::new();
    g.current_piece = Piece { block_type: BlockType::T, x: 4, y: 10, rotation: 0 };
    assert!(g.try_rotate(RotationDirection::Clockwise));
    assert_eq!(g.current_piece, Piece { block_type: BlockType::T, x: 4, y: 10, rotation: 1 });
    assert!(g.last_action_was_rotate);
}

#[test]
fn hold_swaps_once_per_piece() {
    let mut g = Game::new();
    let first = g.current_piece.block_type;
    assert!(g.hold());
    assert_eq!(g.hold_piece, Some(first));
    assert!(!g.hold());
}

#[test]
fn line_clear_scores_follow_the_table() {
    assert_eq!(line_clear_score(0), 0);
    assert_eq!(line_clear_score(1), 1);
    assert_eq!(line_clear_score(2), 10);
    assert_eq!(line_clear_score(3), 30);
    assert_eq!(line_clear_score(4), 2000);
}

#[test]
fn tetris_scores_and_attacks() {
    let mut g = Game::new();
    for y in 20..INTERNAL_HEIGHT {
        for x in 0..BOARD_WIDTH {
            if x != 0 {
                g.board[y][x] = Some(BlockType::O);
            }
        }
    }
    g.current_piece = Piece { block_type: BlockType::I, x: 0, y: 21, rotation: 3 };
    g.pending_garbage = 1;
    g.lock_piece();
    assert_eq!(g.lines_cleared, 4);
    assert_eq!(g.score, 2000);
    assert!(g.btb);
    assert_eq!(g.last_firepower, 3);
    assert_eq!(g.pending_garbage, 0);
}

#[test]
fn garbage_rises_with_one_hole_per_row() {
    let mut g = Game::new();
    g.pending_garbage = 2;
    g.apply_garbage();
    assert_eq!(g.pending_garbage, 0);
    for y in 22..INTERNAL_HEIGHT {
        let holes = g.board[y].iter().filter(|c| c.is_none()).count();
        assert_eq!(holes, 1);
    }
    assert!(g.board[21].iter().all(|c| c.is_none()));
    assert!(g.last_garbage_hole.is_some());
}

#[test]
fn garbage_hole_moves_or_stays() {
    assert_eq!(next_garbage_hole(Some(3), true, 7, 2), 3);
    assert_eq!(next_garbage_hole(Some(3), false, 3, 2), 5);
    assert_eq!(next_garbage_hole(None, false, 6, 2), 6);
}

#[test]
fn board_from_strings_reads_pieces_from_the_bottom() {
    let mut board = [[None; BOARD_WIDTH]; INTERNAL_HEIGHT];
    set_board_from_strings(&mut board, &["t000000000".to_string(), "ss1000000X".to_string()]);
    assert_eq!(board[23][0], Some(BlockType::S));
    assert_eq!(board[22][0], Some(BlockType::T));
    assert_eq!(board[23][2], Some(BlockType::I));
    assert_eq!(board[23][3], None);
    assert_eq!(board[23][9], None);
}

#[test]
fn played_move_sends_garbage_to_the_opponent() {
    let mut b = battle();
    for y in 20..INTERNAL_HEIGHT {
        for x in 0..BOARD_WIDTH {
            if x != 0 {
                b.p1.board[y][x] = Some(BlockType::O);
            }
        }
    }
    b.p1.current_piece = Piece::new(BlockType::I);
    let m = ChosenMove {
        use_hold: false,
        final_piece: Piece { block_type: BlockType::I, x: 0, y: 21, rotation: 3 },
        was_rotate: false,
    };
    b.play_move(true, Some(m));
    assert_eq!(b.p1.lines_cleared, 4);
    assert_eq!(b.p2.pending_garbage, 4);
    b.play_move(false, None);
    assert!(b.p2.game_over);
    assert_eq!(b.finish_round(), ROUND_PAUSE_TICKS);
    assert_eq!(b.p1_wins, 1);
    assert_eq!(b.p2_wins, 0);
    let mut pause = ROUND_PAUSE_TICKS;
    while pause > 0 {
        pause = b.pause_tick(pause);
    }
    assert!(!b.p2.game_over);
    assert_eq!(b.p1.lines_cleared, 0);
    assert_eq!(b.p1_wins, 1);
}

#[test]
fn chosen_move_holds_first() {
    let mut g = Game::new();
    let first = g.current_piece.block_type;
    let second = g.bag.queue[0];
    let m = ChosenMove { use_hold: true, final_piece: Piece { block_type: BlockType::O, x: 4, y: 20, rotation: 0 }, was_rotate: false };
    play_chosen_move(&mut g, m);
    assert_eq!(g.hold_piece, Some(first));
    let placed: Vec<BlockType> = g.board.iter().flat_map(|row| row.iter().filter_map(|c| *c)).collect();
    assert_eq!(placed.len(), 4);
    assert!(placed.iter().all(|t| *t == second));
}

#[test]
fn quiet_round_has_no_pause() {
    let mut b = battle();
    assert_eq!(b.finish_round(), 0);
    assert_eq!(b.p1_wins, 0);
    assert_eq!(b.p2_wins, 0);
}

#[test]
fn default_search_is_the_benchmark_winner() {
    let c = ActiveSearchConfig::default();
    assert_eq!(c.depth, 5);
    assert_eq!(c.beam_width, 30);
    assert_eq!(c.backend, tetris_ai::ai::GpuBackendSelection::Vulkan);
    assert!(c.name.contains("Beam Search"));
    let b = BenchmarkConfig { name: "n".to_string(), depth: 1, beam_width: 1, description: String::new(), backend: None };
    assert!(b.backend.is_none());
}

#[test]
fn back_to_back_tsd_sends_five_lines() {
    let mut g = Game::new();
    for x in 0..BOARD_WIDTH {
        if x < 1 || x > 3 {
            g.board[22][x] = Some(BlockType::O);
        }
        if x != 2 {
            g.board[23][x] = Some(BlockType::O);
        }
    }
    g.board[21][1] = Some(BlockType::O);
    g.current_piece = Piece { block_type: BlockType::T, x: 2, y: 22, rotation: 2 };
    g.last_action_was_rotate = true;
    g.btb = true;
    g.lock_piece();
    assert_eq!(g.lines_cleared, 2);
    assert_eq!(g.last_t_spin.as_deref(), Some("T-Spin Double"));
    assert_eq!(g.score, 1200);
    assert_eq!(g.last_firepower, 5);
    assert!(g.btb);
    assert_eq!(g.board[23][1], Some(BlockType::O));
}
