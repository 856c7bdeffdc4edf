use tetris_ai::tetris::{BlockType, Game, Piece, RotationDirection, BOARD_WIDTH, INTERNAL_HEIGHT, get_well_bonus, count_t_slots};
use tetris_ai::config::game::{WELL_BASE_SCORE_EDGE, WELL_BASE_SCORE_MIDDLE, WELL_BASE_SCORE_TARGET};

#[test]
fn test_line_clearing() {
    let mut game = Game::new();
    let bottom_y = INTERNAL_HEIGHT - 1;
    for x in 0..BOARD_WIDTH {
        game.board[bottom_y][x] = Some(BlockType::I);
    }

    let cleared = game.clear_lines();
    assert_eq!(cleared, 1);

    for x in 0..BOARD_WIDTH {
        assert!(game.board[bottom_y][x].is_none());
    }
}

#[test]
fn test_srs_kick_t_piece() {
    let mut game = Game::new();
    game.current_piece = Piece::new(BlockType::T);
    game.current_piece.x = 0;
    game.current_piece.rotation = 0;

    let success = game.try_rotate(RotationDirection::CounterClockwise);
    assert!(success);
    assert!(game.current_piece.x >= 0);
}

#[test]
fn test_well_bonus() {
    let mut board = [[None; BOARD_WIDTH]; INTERNAL_HEIGHT];
    for y in (INTERNAL_HEIGHT - 3)..INTERNAL_HEIGHT {
        board[y][1] = Some(BlockType::O);
    }
    assert_eq!(get_well_bonus(&board), WELL_BASE_SCORE_EDGE);

    board[INTERNAL_HEIGHT - 4][1] = Some(BlockType::O);
    assert_eq!(get_well_bonus(&board), WELL_BASE_SCORE_EDGE * 3);

    board[INTERNAL_HEIGHT - 2][1] = None;
    assert_eq!(get_well_bonus(&board), 0);
    board[INTERNAL_HEIGHT - 2][1] = Some(BlockType::O);
    assert_eq!(get_well_bonus(&board), WELL_BASE_SCORE_EDGE * 3);

    for y in (INTERNAL_HEIGHT - 3)..INTERNAL_HEIGHT {
        board[y][8] = Some(BlockType::O);
    }
    assert_eq!(get_well_bonus(&board), 0);

    let mut board2 = [[None; BOARD_WIDTH]; INTERNAL_HEIGHT];
    for y in (INTERNAL_HEIGHT - 3)..INTERNAL_HEIGHT {
        board2[y][0] = Some(BlockType::O);
        board2[y][2] = Some(BlockType::O);
    }
    assert_eq!(get_well_bonus(&board2), WELL_BASE_SCORE_MIDDLE);

    let mut board3 = [[None; BOARD_WIDTH]; INTERNAL_HEIGHT];
    for y in (INTERNAL_HEIGHT - 3)..INTERNAL_HEIGHT {
        board3[y][5] = Some(BlockType::O);
        board3[y][7] = Some(BlockType::O);
    }
    assert_eq!(get_well_bonus(&board3), WELL_BASE_SCORE_TARGET);

    board3[INTERNAL_HEIGHT - 4][5] = Some(BlockType::O);
    board3[INTERNAL_HEIGHT - 4][7] = Some(BlockType::O);
    assert_eq!(get_well_bonus(&board3), WELL_BASE_SCORE_TARGET * 3);
}

#[test]
fn test_count_t_slots() {
    let mut board = [[None; BOARD_WIDTH]; INTERNAL_HEIGHT];
    assert_eq!(count_t_slots(&board), 0);

    let cy = INTERNAL_HEIGHT - 2;
    let cx = 2;
    board[cy][cx - 1] = Some(BlockType::I);
    board[cy - 1][cx + 1] = Some(BlockType::I);
    board[cy + 1][cx - 1] = Some(BlockType::I);
    board[cy + 1][cx + 1] = Some(BlockType::I);

    assert_eq!(count_t_slots(&board), 1);
}

#[test]
fn test_t_spin_detection() {
    let mut game = Game::new();
    game.board = [[None; BOARD_WIDTH]; INTERNAL_HEIGHT];

    let cy = INTERNAL_HEIGHT - 2;
    let cx = 2;

    game.board[cy - 1][cx - 1] = Some(BlockType::I);
    game.board[cy - 1][cx + 1] = Some(BlockType::I);
    game.board[cy + 1][cx - 1] = Some(BlockType::I);

    game.current_piece = Piece {
        block_type: BlockType::T,
        x: cx as i32,
        y: cy as i32,
        rotation: 2,
    };

    game.last_action_was_rotate = true;
    game.lock_piece();

    assert!(game.last_t_spin.is_some());
}
