use tetris_ai::text::{find_char, to_ascii_lower};
use tetris_ai::tspin_recorder::{TSpinRecorder, block_type_name};
use tetris_ai::tetris::{BlockType, Game, Piece};

#[test]
fn text_helpers_find_and_lower() {
    assert_eq!(find_char("a<b<c", '<'), (2, 1));
    assert_eq!(find_char("abc", '<').0, 0);
    assert_eq!(to_ascii_lower('Q'), 'q');
    assert_eq!(to_ascii_lower('7'), '7');
}

#[test]
fn block_names_are_the_letters() {
    assert_eq!(block_type_name(BlockType::T), "T");
    assert_eq!(block_type_name(BlockType::I), "I");
}

#[test]
fn recorder_flush_hands_out_open_events() {
    let mut recorder = TSpinRecorder::new();
    let game = Game::new();
    let t_piece = Piece::new(BlockType::T);
    let piece = Piece::new(BlockType::I);
    recorder.record_turn(1, &game, &piece, 0, None);
    let done = recorder.record_turn(2, &game, &t_piece, 1, Some("T-Spin Single".to_string()));
    assert!(done.is_empty());
    assert_eq!(recorder.event_counter, 1);
    assert_eq!(recorder.pending_events[0].history_before_5.len(), 1);
    let open = recorder.flush_remaining();
    assert_eq!(open.len(), 1);
    assert_eq!(open[0].t_spin_type, "T-Spin Single");
    assert_eq!(open[0].trigger_turn, 2);
    assert!(recorder.pending_events.is_empty());
}

#[test]
fn recorder_finishes_an_event_after_five_turns() {
    let mut recorder = TSpinRecorder::new();
    let game = Game::new();
    let t_piece = Piece::new(BlockType::T);
    let piece = Piece::new(BlockType::O);
    recorder.record_turn(1, &game, &t_piece, 2, Some("T-Spin Double".to_string()));
    let mut finished = Vec::new();
    for turn in 2..=6 {
        finished = recorder.record_turn(turn, &game, &piece, 0, None);
    }
    assert_eq!(finished.len(), 1);
    assert_eq!(finished[0].history_after_5.len(), 5);
    assert_eq!(finished[0].remaining_after, 0);
    assert_eq!(recorder.history_buffer.len(), 5);
}
