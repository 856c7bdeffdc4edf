use tetris_ai::ai::{place_landing, simulate_line_clears, optimize_execution_path, MoveAction};
use tetris_ai::scoring::{find_target_hole, count_deep_wells, count_isolated_holes, column_heights, is_filled, count_corners};
use tetris_ai::tetris::{BlockType, Board, Game, Piece, BOARD_WIDTH, INTERNAL_HEIGHT, clear_full_rows};

fn empty() -> Board {
    [[None; BOARD_WIDTH]; INTERNAL_HEIGHT]
}

#[test]
fn place_landing_writes_the_piece() {
    let board = empty();
    let piece = Piece { block_type: BlockType::I, x: 3, y: 23, rotation: 0 };
    let placed = place_landing(&board, &piece).unwrap();
    for x in 0..BOARD_WIDTH {
        let expected = if (2..=5).contains(&x) { Some(BlockType::I) } else { None };
        assert_eq!(placed[23][x], expected);
    }
    assert_eq!(placed[22], board[22]);
}

#[test]
fn place_landing_refuses_a_piece_off_the_board() {
    let board = empty();
    // Spawn position of a T: one block sticks out above the board.
    let piece = Piece { block_type: BlockType::T, x: 4, y: 0, rotation: 0 };
    assert!(place_landing(&board, &piece).is_none());
    let left = Piece { block_type: BlockType::I, x: 0, y: 10, rotation: 0 };
    assert!(place_landing(&board, &left).is_none());
}

#[test]
fn simulate_line_clears_removes_full_rows() {
    let mut board = empty();
    for x in 0..BOARD_WIDTH {
        board[23][x] = Some(BlockType::I);
        board[21][x] = Some(BlockType::O);
    }
    board[22][3] = Some(BlockType::T);
    let (after, cleared) = simulate_line_clears(&board);
    assert_eq!(cleared, 2);
    assert_eq!(after[23][3], Some(BlockType::T));
    for x in 0..BOARD_WIDTH {
        if x != 3 {
            assert_eq!(after[23][x], None);
        }
        assert_eq!(after[22][x], None);
    }
    // Clearing again changes nothing.
    let (again, cleared_again) = clear_full_rows(&after);
    assert_eq!(cleared_again, 0);
    assert_eq!(again, after);
}

#[test]
fn find_target_hole_looks_at_middle_columns() {
    let mut board = empty();
    board[20][0] = Some(BlockType::I);
    assert!(!find_target_hole(&board));
    board[20][4] = Some(BlockType::I);
    assert!(find_target_hole(&board));
    let mut full = empty();
    full[23][5] = Some(BlockType::I);
    assert!(!find_target_hole(&full));
}

#[test]
fn count_deep_wells_counts_columns_three_below_both_sides() {
    let mut board = empty();
    assert_eq!(count_deep_wells(&board), 0);
    for y in 20..INTERNAL_HEIGHT {
        for x in 0..BOARD_WIDTH {
            if x != 2 && x != 7 {
                board[y][x] = Some(BlockType::I);
            }
        }
    }
    assert_eq!(count_deep_wells(&board), 2);
    assert_eq!(column_heights(&board), [4, 4, 0, 4, 4, 4, 4, 0, 4, 4]);
}

#[test]
fn count_isolated_holes_counts_covered_gaps() {
    let mut board = empty();
    board[22][1] = Some(BlockType::I);
    assert_eq!(count_isolated_holes(&board), 1);
    board[20][5] = Some(BlockType::I);
    board[22][5] = Some(BlockType::I);
    assert_eq!(count_isolated_holes(&board), 3);
    board[23][1] = Some(BlockType::I);
    assert_eq!(count_isolated_holes(&board), 2);
}

#[test]
fn corners_count_walls_and_floor_as_filled() {
    let board = empty();
    assert!(is_filled(&board, -1, 5));
    assert!(is_filled(&board, 3, 24));
    assert!(!is_filled(&board, 3, 5));
    assert_eq!(count_corners(&board, 0, 23), 3);
    assert_eq!(count_corners(&board, 5, 10), 0);
}

#[test]
fn execution_path_prefers_a_direct_drop() {
    let game = Game::new();
    let spawn = Piece::new(BlockType::I);
    let target = Piece { block_type: BlockType::I, x: 0, y: 21, rotation: 1 };
    let bfs = vec![MoveAction::SoftDrop, MoveAction::HardDrop];
    let path = optimize_execution_path(&game, &spawn, &target, &bfs);
    assert_eq!(path, vec![MoveAction::RotateCW, MoveAction::MoveLeft, MoveAction::MoveLeft, MoveAction::MoveLeft, MoveAction::HardDrop]);
}
