use tetris_ai::ai::{MoveAction, search_reachable_landings};
use tetris_ai::tetris::{BlockType, Game, BOARD_WIDTH};

#[test]
fn test_reachability_bfs_tspin_slot() {
    let mut game = Game::new();
    for x in 0..BOARD_WIDTH {
        if x != 4 && x != 5 && x != 6 {
            game.board[23][x] = Some(BlockType::I);
            game.board[22][x] = Some(BlockType::I);
        }
    }
    game.board[23][4] = Some(BlockType::I);
    game.board[23][6] = Some(BlockType::I);
    game.board[21][4] = Some(BlockType::I);

    let landings = search_reachable_landings(&game, BlockType::T);
    let found_tspin_landing = landings.iter().any(|l| l.piece.x == 4 && l.piece.rotation == 2);
    assert!(found_tspin_landing, "Reachability BFS should find the rotated T-piece landing inside the T-slot!");
}

#[test]
fn test_hard_drop_preference_and_instant_lock() {
    let game = Game::new();
    let landings = search_reachable_landings(&game, BlockType::I);
    assert!(!landings.is_empty());

    let open_landing = landings.iter().find(|l| l.piece.x == 3 && l.piece.rotation == 0);
    assert!(open_landing.is_some());
    let l = open_landing.unwrap();
    assert_eq!(l.path.last(), Some(&MoveAction::HardDrop), "All execution paths must end in HardDrop");
    assert!(!l.path.contains(&MoveAction::SoftDrop), "Direct open drop must NOT contain SoftDrop steps");

    for landing in &landings {
        assert_eq!(landing.path.last(), Some(&MoveAction::HardDrop), "Every landing path must end with HardDrop");
    }
}
