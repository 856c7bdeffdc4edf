use tetris_ai::opening::evaluate_condition;
use tetris_ai::tetris::BlockType;

#[test]
fn test_evaluate_condition() {
    let queue = vec![BlockType::J, BlockType::I, BlockType::S, BlockType::Z, BlockType::O, BlockType::L];
    let current = Some(BlockType::T);

    assert!(evaluate_condition("T < J", &queue, current));
    assert!(evaluate_condition("J < L", &queue, current));
    assert!(!evaluate_condition("L < J", &queue, current));
    assert!(!evaluate_condition("O < Z", &queue, current));
    assert!(evaluate_condition("Z < O", &queue, current));

    assert!(evaluate_condition("J = L", &queue, current));
    assert!(evaluate_condition("T = Z", &queue, current));
    let queue_no_l = vec![BlockType::J, BlockType::I, BlockType::S, BlockType::Z, BlockType::O];
    assert!(!evaluate_condition("J = L", &queue_no_l, current));
}
