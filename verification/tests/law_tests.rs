use tetris_ai::ai::{search_reachable_landings, MoveAction};
use tetris_ai::opening::{evaluate_condition, mirror_condition};
use tetris_ai::tetris::{
    count_t_slots, get_piece_offsets, Bag, BlockType, Board, Game, Piece, RotationDirection, BOARD_WIDTH,
    INTERNAL_HEIGHT,
};

fn sorted(mut v: Vec<BlockType>) -> Vec<BlockType> {
    v.sort_by_key(|b| BlockType::all().iter().position(|c| c == b).unwrap());
    v
}

#[test]
fn every_seven_draws_from_a_new_bag_are_one_bag() {
    let mut bag = Bag::new();
    for _ in 0..4 {
        let mut drawn = Vec::new();
        for _ in 0..7 {
            drawn.push(bag.pop());
            assert!(7 <= bag.queue.len() && bag.queue.len() <= 13);
        }
        assert_eq!(sorted(drawn), BlockType::all().to_vec());
        assert_eq!(bag.queue.len(), 7);
    }
}

#[test]
fn offsets_turn_clockwise_about_the_centre() {
    for bt in [BlockType::T, BlockType::S, BlockType::Z, BlockType::J, BlockType::L, BlockType::I] {
        for r in 0..4usize {
            let cur = get_piece_offsets(bt, r);
            let next = get_piece_offsets(bt, r + 1);
            let mut turned: Vec<(i32, i32)> = cur
                .iter()
                .map(|&(x, y)| if bt == BlockType::I { (1 - y, x) } else { (-y, x) })
                .collect();
            let mut expected = next.to_vec();
            turned.sort();
            expected.sort();
            assert_eq!(turned, expected);
            assert_eq!(get_piece_offsets(bt, r + 4), cur);
        }
    }
    assert_eq!(get_piece_offsets(BlockType::O, 1), get_piece_offsets(BlockType::O, 0));
}

fn mirrored(b: &Board) -> Board {
    let mut m = [[None; BOARD_WIDTH]; INTERNAL_HEIGHT];
    for y in 0..INTERNAL_HEIGHT {
        for x in 0..BOARD_WIDTH {
            m[y][x] = b[y][BOARD_WIDTH - 1 - x];
        }
    }
    m
}

#[test]
fn a_mirrored_board_has_as_many_t_slots() {
    let mut board = [[None; BOARD_WIDTH]; INTERNAL_HEIGHT];
    let cy = INTERNAL_HEIGHT - 2;
    let cx = 2;
    board[cy][cx - 1] = Some(BlockType::I);
    board[cy - 1][cx + 1] = Some(BlockType::I);
    board[cy + 1][cx - 1] = Some(BlockType::I);
    board[cy + 1][cx + 1] = Some(BlockType::I);
    board[cy + 1][6] = Some(BlockType::O);
    assert_eq!(count_t_slots(&board), 1);
    assert_eq!(count_t_slots(&mirrored(&board)), count_t_slots(&board));
}

fn play(game: &mut Game, path: &[MoveAction]) {
    for a in path {
        match a {
            MoveAction::MoveLeft => assert!(game.try_move(-1, 0)),
            MoveAction::MoveRight => assert!(game.try_move(1, 0)),
            MoveAction::SoftDrop => assert!(game.try_move(0, 1)),
            MoveAction::RotateCW => assert!(game.try_rotate(RotationDirection::Clockwise)),
            MoveAction::RotateCCW => assert!(game.try_rotate(RotationDirection::CounterClockwise)),
            MoveAction::HardDrop => while game.try_move(0, 1) {},
        }
    }
}

#[test]
fn landing_paths_play_on_a_game() {
    let mut game = Game::new();
    game.board = [[None; BOARD_WIDTH]; INTERNAL_HEIGHT];
    for x in 0..BOARD_WIDTH {
        if x != 4 {
            game.board[INTERNAL_HEIGHT - 1][x] = Some(BlockType::O);
        }
    }
    game.board[INTERNAL_HEIGHT - 2][6] = Some(BlockType::O);
    for bt in BlockType::all() {
        let landings = search_reachable_landings(&game, bt);
        assert!(!landings.is_empty());
        for l in landings {
            let mut g = game.clone();
            g.current_piece = Piece::new(bt);
            play(&mut g, &l.path);
            let p = g.current_piece;
            assert_eq!((p.x, p.y, p.rotation), (l.piece.x, l.piece.y, l.piece.rotation));
        }
    }
}

fn mirror_piece(b: BlockType) -> BlockType {
    match b {
        BlockType::J => BlockType::L,
        BlockType::L => BlockType::J,
        BlockType::S => BlockType::Z,
        BlockType::Z => BlockType::S,
        other => other,
    }
}

#[test]
fn a_mirrored_condition_holds_on_the_mirrored_queue() {
    let queue = vec![BlockType::L, BlockType::O, BlockType::J, BlockType::S];
    let mq: Vec<BlockType> = queue.iter().map(|&b| mirror_piece(b)).collect();
    for cond in ["L < J", "J < L", " s = T", "z<o", "T = I", "L < J < S"] {
        for current in [None, Some(BlockType::T), Some(BlockType::Z)] {
            assert_eq!(
                evaluate_condition(&mirror_condition(cond), &mq, current.map(mirror_piece)),
                evaluate_condition(cond, &queue, current)
            );
        }
    }
}

#[test]
fn training_maps_and_pieces_mirror() {
    let map = vec!["jj0s".to_string(), "ltz0".to_string()];
    assert_eq!(
        tetris_ai::rl::mirror_training_map(&map),
        vec!["z0ll".to_string(), "0stj".to_string()]
    );
    assert_eq!(
        tetris_ai::rl::mirror_pieces(&[BlockType::J, BlockType::S, BlockType::T, BlockType::L, BlockType::Z]),
        vec![BlockType::L, BlockType::Z, BlockType::T, BlockType::J, BlockType::S]
    );
}

#[test]
fn conditions_ignore_surrounding_whitespace() {
    assert_eq!(mirror_condition("\tL<J \n"), "J < L");
    let queue = vec![BlockType::L, BlockType::J];
    assert!(evaluate_condition(" L\u{3000}<\tJ ", &queue, None));
    assert!(!evaluate_condition(" J < L ", &queue, None));
}
