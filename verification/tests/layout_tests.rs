use tetris_ai::opening::{OpeningBranch, create_mirror_branch, mirror_condition, parse_block_type_char, ParsedPlacement};
use tetris_ai::opening::layout::{OpeningLayout, prepare_layout, read_branch_maps};
use tetris_ai::opening::guide::{
    SequenceMatch, sequence_match, placements_for_turn, heights_for_turn, branch_conditions_met,
};
use tetris_ai::tetris::BlockType;

fn rows(v: &[&str]) -> Vec<String> {
    v.iter().map(|s| s.to_string()).collect()
}

fn stacking_map() -> Vec<String> {
    rows(&["s000ti0000", "ss0tti0oo0", "jszzti0ool", "jjjzzi0lll"])
}

fn tsd_map() -> Vec<String> {
    rows(&["00s00z0t00", "0ss0zzttt0", "0s00z00000", "iiii0jjjll"])
}

fn branch(conditions: &[&str], board_map: Vec<String>, board_maps: Vec<Vec<String>>) -> OpeningBranch {
    OpeningBranch {
        conditions: rows(conditions),
        board_map,
        board_maps,
        parsed_placements: Vec::new(),
        target_heights: Vec::new(),
        parsed_placements_list: Vec::new(),
        target_heights_list: Vec::new(),
    }
}

fn layout(board_map: Vec<String>, board_maps: Vec<Vec<String>>, branches: Vec<OpeningBranch>) -> OpeningLayout {
    OpeningLayout {
        board_map,
        board_maps,
        branches,
        parsed_placements: Vec::new(),
        target_heights: Vec::new(),
        parsed_placements_list: Vec::new(),
        target_heights_list: Vec::new(),
    }
}

#[test]
fn mirror_branch_reverses_rows_and_swaps_pieces() {
    let b = branch(&["L < J"], tsd_map(), vec![tsd_map()]);
    let m = create_mirror_branch(&b);
    assert_eq!(m.board_map[0], "00t0s00z00");
    assert_eq!(m.board_map[3], "jjlll0iiii");
    assert_eq!(m.board_maps.len(), 1);
    assert_eq!(m.board_maps[0], m.board_map);
    assert_eq!(m.conditions, vec!["J < L".to_string()]);
    assert!(m.parsed_placements.is_empty());
}

#[test]
fn mirror_branch_twice_gives_the_lower_case_maps_back() {
    let b = branch(&[], Vec::new(), vec![rows(&["SZ0T", "jjl0"])]);
    let twice = create_mirror_branch(&create_mirror_branch(&b));
    assert_eq!(twice.board_maps[0], rows(&["sz0t", "jjl0"]));
}

#[test]
fn mirror_condition_swaps_mirrored_pieces() {
    assert_eq!(mirror_condition("L < J"), "J < L");
    assert_eq!(mirror_condition(" s=T "), "Z = T");
    assert_eq!(mirror_condition("I < O"), "I < O");
    // Two signs: left as it is.
    assert_eq!(mirror_condition("L < J < S"), "L < J < S");
    assert_eq!(mirror_condition("nothing"), "nothing");
}

#[test]
fn parse_block_type_char_reads_either_case() {
    assert_eq!(parse_block_type_char("t"), Some(BlockType::T));
    assert_eq!(parse_block_type_char("L"), Some(BlockType::L));
    assert_eq!(parse_block_type_char("X"), None);
    assert_eq!(parse_block_type_char("TT"), None);
}

#[test]
fn prepare_layout_makes_a_branch_and_its_mirror_from_a_single_map() {
    let l = prepare_layout(layout(stacking_map(), Vec::new(), Vec::new())).unwrap();
    assert_eq!(l.board_maps, vec![stacking_map()]);
    assert_eq!(l.branches.len(), 2);
    assert_eq!(l.branches[0].board_map, stacking_map());
    assert_eq!(l.branches[1].board_map[0], "0000it000z");
    assert_eq!(l.branches[1].board_map[3], "jjj0isslll");
    assert_eq!(l.parsed_placements.len(), 7);
    assert_eq!(l.parsed_placements_list.len(), 1);
    assert_eq!(l.parsed_placements_list[0], l.parsed_placements);
    assert_eq!(l.target_heights, vec![4, 3, 2, 3, 4, 4, 0, 3, 3, 2]);
    assert_eq!(l.branches[0].parsed_placements, l.parsed_placements);
    assert_eq!(l.branches[1].parsed_placements.len(), 7);
}

#[test]
fn prepare_layout_reads_every_bag() {
    let second = rows(&["0000000000", "s000000000", "ss00000000", "0s00000000"]);
    let l = prepare_layout(layout(Vec::new(), vec![rows(&["iiiioo0000", "0000oo0000"]), second.clone()], Vec::new()))
        .unwrap();
    assert_eq!(l.parsed_placements_list.len(), 2);
    assert_eq!(l.parsed_placements_list[0].len(), 2);
    assert_eq!(l.parsed_placements_list[1].len(), 1);
    assert_eq!(l.board_map, rows(&["iiiioo0000", "0000oo0000"]));
    assert_eq!(l.target_heights_list[1], vec![2, 2, 0, 0, 0, 0, 0, 0, 0, 0]);
}

#[test]
fn prepare_layout_keeps_given_branches_and_fills_their_maps() {
    let b = branch(&["T < I"], tsd_map(), Vec::new());
    let l = prepare_layout(layout(Vec::new(), Vec::new(), vec![b])).unwrap();
    assert_eq!(l.branches.len(), 2);
    assert_eq!(l.branches[0].board_maps, vec![tsd_map()]);
    assert_eq!(l.branches[0].conditions, rows(&["T < I"]));
    assert_eq!(l.branches[1].conditions, rows(&["T < I"]));
    assert!(l.board_maps.is_empty());
    assert!(l.parsed_placements.is_empty());
}

#[test]
fn prepare_layout_refuses_a_map_with_short_rows() {
    let ragged = rows(&["iiii000000", "000"]);
    assert!(prepare_layout(layout(ragged.clone(), Vec::new(), Vec::new())).is_none());
    let b = branch(&[], Vec::new(), vec![ragged]);
    assert!(read_branch_maps(&b).is_none());
}

#[test]
fn prepare_layout_without_maps_changes_nothing() {
    let l = prepare_layout(layout(Vec::new(), Vec::new(), Vec::new())).unwrap();
    assert!(l.branches.is_empty());
    assert!(l.board_maps.is_empty());
    assert!(l.parsed_placements_list.is_empty());
}

#[test]
fn sequence_match_grades_a_candidate_move() {
    let ps = vec![
        ParsedPlacement { piece: BlockType::S, col: 0, rotation: 1 },
        ParsedPlacement { piece: BlockType::T, col: 4, rotation: 3 },
    ];
    // A T at column 5 pointing left covers columns 4 and 5: leftmost 4.
    assert_eq!(sequence_match(&ps, BlockType::T, 5, 3), SequenceMatch::Full);
    assert_eq!(sequence_match(&ps, BlockType::T, 4, 0), SequenceMatch::Partial);
    assert_eq!(sequence_match(&ps, BlockType::T, 3, 0), SequenceMatch::Miss);
    assert_eq!(sequence_match(&ps, BlockType::T, 8, 3), SequenceMatch::Partial);
    assert_eq!(sequence_match(&ps, BlockType::T, 8, 0), SequenceMatch::Miss);
    assert_eq!(sequence_match(&ps, BlockType::I, 4, 3), SequenceMatch::Miss);
}

#[test]
fn placements_for_turn_follows_the_bag() {
    let a = vec![ParsedPlacement { piece: BlockType::I, col: 1, rotation: 0 }];
    let b = vec![ParsedPlacement { piece: BlockType::O, col: 4, rotation: 0 }];
    let fallback = vec![ParsedPlacement { piece: BlockType::T, col: 2, rotation: 2 }];
    let lists = vec![a.clone(), b.clone()];
    assert_eq!(placements_for_turn(&lists, &fallback, 0), a);
    assert_eq!(placements_for_turn(&lists, &fallback, 6), a);
    assert_eq!(placements_for_turn(&lists, &fallback, 7), b);
    assert_eq!(placements_for_turn(&lists, &fallback, 100), b);
    assert_eq!(placements_for_turn(&Vec::new(), &fallback, 3), fallback);
    let hl = vec![vec![1, 2], vec![3]];
    assert_eq!(heights_for_turn(&hl, &vec![9], 13), vec![3]);
    assert_eq!(heights_for_turn(&Vec::new(), &vec![9], 13), vec![9]);
}

#[test]
fn branch_conditions_met_needs_conditions_that_all_hold() {
    let queue = vec![BlockType::J, BlockType::I, BlockType::S];
    assert!(branch_conditions_met(&branch(&["T < J", "J < S"], Vec::new(), Vec::new()), &queue, BlockType::T));
    assert!(!branch_conditions_met(&branch(&["T < J", "S < J"], Vec::new(), Vec::new()), &queue, BlockType::T));
    assert!(!branch_conditions_met(&branch(&[], Vec::new(), Vec::new()), &queue, BlockType::T));
}
