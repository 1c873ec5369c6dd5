use ff_solver_lib::{create_random_board, Board, BoardNode, Card, Suit};

#[test]
fn get_stack_size() {
    let cascade = vec![
        Card::new(2, Suit::Yellow),
        Card::new(3, Suit::Red),
        Card::new(4, Suit::Red),
        Card::new(5, Suit::Red)];

    assert_eq!(3, Board::get_stack_size(&cascade));
    assert_eq!(0, Board::get_stack_size(&Vec::<Card>::new()));
    assert_eq!(1, Board::get_stack_size(&vec![Card::new(2, Suit::Yellow)]));
    assert_eq!(2, Board::get_stack_size(&vec![Card::new(2, Suit::Yellow), Card::new(3, Suit::Yellow)]));
    assert_eq!(2, Board::get_stack_size(&vec![Card::new(3, Suit::Yellow), Card::new(2, Suit::Yellow)]));
}

#[test]
pub fn comparison() {
    let bn1 = BoardNode {
        board: create_random_board(1),
        previous: None,
        card_move: None,
        step: 0,
        score: 1
    };
    let bn0 = BoardNode {
        board: create_random_board(2),
        previous: None,
        card_move: None,
        step: 0,
        score: 0
    };
    let bnneg1 = BoardNode {
        board: create_random_board(3),
        previous: None,
        card_move: None,
        step: 0,
        score: -1
    };
    let bn0_2 = BoardNode {
        board: create_random_board(4),
        previous: None,
        card_move: None,
        step: 0,
        score: 0
    };

    assert!(bn1 > bn0);
    assert!(bn0 > bnneg1);
    assert!(bn0_2 >= bn0_2);
    assert!(bn0_2 <= bn0_2);
    assert!(bn0_2 == bn0_2);
    assert_eq!(bn0_2 > bn0_2, false);
    assert_eq!(bn0_2 < bn0_2, false);
}
