use tetris_ai::opening::{parse_board_map, match_rotation, compute_target_heights, ParsedPlacement};
use tetris_ai::opening::board_map::board_map_fits;
use tetris_ai::tetris::BlockType;

fn rows(v: &[&str]) -> Vec<String> {
    v.iter().map(|s| s.to_string()).collect()
}

fn stacking_map() -> Vec<String> {
    rows(&["s000ti0000", "ss0tti0oo0", "jszzti0ool", "jjjzzi0lll"])
}

#[test]
fn parse_board_map_reads_every_piece_in_reading_order() {
    let parsed = parse_board_map(&stacking_map()).unwrap();
    let expected = vec![
        ParsedPlacement { piece: BlockType::S, col: 0, rotation: 1 },
        ParsedPlacement { piece: BlockType::T, col: 3, rotation: 3 },
        ParsedPlacement { piece: BlockType::I, col: 5, rotation: 1 },
        ParsedPlacement { piece: BlockType::O, col: 7, rotation: 0 },
        ParsedPlacement { piece: BlockType::J, col: 0, rotation: 0 },
        ParsedPlacement { piece: BlockType::Z, col: 2, rotation: 0 },
        ParsedPlacement { piece: BlockType::L, col: 7, rotation: 0 },
    ];
    assert_eq!(parsed, expected);
}

#[test]
fn placement_column_is_the_leftmost_column() {
    assert_eq!(
        parse_board_map(&rows(&["iiii000000"])),
        Some(vec![ParsedPlacement { piece: BlockType::I, col: 0, rotation: 0 }])
    );
}

#[test]
fn parse_board_map_ignores_case() {
    let upper = rows(&["S000TI0000", "SS0TTI0OO0", "JSZZTI0OOL", "JJJZZI0LLL"]);
    assert_eq!(parse_board_map(&upper), parse_board_map(&stacking_map()));
}

#[test]
fn parse_board_map_without_rows_is_none() {
    let empty: Vec<String> = Vec::new();
    assert_eq!(parse_board_map(&empty), None);
}

#[test]
fn parse_board_map_skips_regions_that_are_not_pieces() {
    // Five cells of one letter, a letter that names no piece, and a region
    // of three cells: none of them is a piece.
    let map = rows(&["iiiii0", "xxxx00", "ttt000"]);
    assert_eq!(parse_board_map(&map), Some(Vec::new()));
}

#[test]
fn parse_board_map_keeps_touching_regions_of_one_letter_together() {
    // Two I pieces side by side make one region of eight cells.
    let map = rows(&["iiii", "iiii"]);
    assert_eq!(parse_board_map(&map), Some(Vec::new()));
    // Separated by a gap they are two pieces.
    let map2 = rows(&["iiii", "0000", "iiii"]);
    assert_eq!(
        parse_board_map(&map2),
        Some(vec![
            ParsedPlacement { piece: BlockType::I, col: 0, rotation: 0 },
            ParsedPlacement { piece: BlockType::I, col: 0, rotation: 0 },
        ])
    );
}

#[test]
fn board_map_fits_refuses_short_rows() {
    assert!(board_map_fits(&stacking_map()));
    assert!(!board_map_fits(&rows(&["s000ti0000", "ss0t"])));
    assert!(board_map_fits(&rows(&["s0", "ss0t"])));
    let empty: Vec<String> = Vec::new();
    assert!(board_map_fits(&empty));
}

#[test]
fn match_rotation_finds_column_and_rotation() {
    // A vertical I in column 5; the column given is the leftmost one.
    assert_eq!(match_rotation(BlockType::I, &[(5, 0), (5, 1), (5, 2), (5, 3)]), Some((5, 1)));
    // The order of the cells does not matter.
    assert_eq!(match_rotation(BlockType::I, &[(5, 3), (5, 1), (5, 0), (5, 2)]), Some((5, 1)));
    // A T pointing left.
    assert_eq!(match_rotation(BlockType::T, &[(4, 0), (3, 1), (4, 1), (4, 2)]), Some((3, 3)));
    // An O needs only one rotation state.
    assert_eq!(match_rotation(BlockType::O, &[(7, 1), (8, 1), (7, 2), (8, 2)]), Some((7, 0)));
    // A shape that is not the piece.
    assert_eq!(match_rotation(BlockType::O, &[(0, 0), (1, 0), (2, 0), (3, 0)]), None);
    assert_eq!(match_rotation(BlockType::T, &[]), None);
}

#[test]
fn compute_target_heights_counts_blocks_per_column() {
    let heights = compute_target_heights(&stacking_map());
    assert_eq!(heights, vec![4, 3, 2, 3, 4, 4, 0, 3, 3, 2]);
    let with_zeros = compute_target_heights(&rows(&["0000", "00I0"]));
    assert_eq!(with_zeros, vec![0, 0, 1, 0]);
    let empty: Vec<String> = Vec::new();
    assert_eq!(compute_target_heights(&empty), Vec::<i32>::new());
}
