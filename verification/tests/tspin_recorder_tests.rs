use tetris_ai::tspin_recorder::TSpinRecorder;
use tetris_ai::tetris::{BlockType, Game, Piece};

#[test]
fn test_tspin_recorder_5_before_and_5_after() {
    let mut recorder = TSpinRecorder::new();
    let game = Game::new();
    let piece = Piece::new(BlockType::I);

    for turn in 1..=5 {
        recorder.record_turn(turn, &game, &piece, 0, None);
    }

    let t_piece = Piece::new(BlockType::T);
    recorder.record_turn(6, &game, &t_piece, 2, Some("T-Spin Double".to_string()));

    assert_eq!(recorder.pending_events.len(), 1);
    assert_eq!(recorder.pending_events[0].history_before_5.len(), 5);
    assert_eq!(recorder.pending_events[0].remaining_after, 5);

    for turn in 7..=11 {
        recorder.record_turn(turn, &game, &piece, 0, None);
    }

    assert_eq!(recorder.pending_events.len(), 0);
}
