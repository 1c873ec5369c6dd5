use ff_solver_lib::{CardMove, CELL, FOUNDATION};

#[test]
pub fn card_move_new() {
    let card_move = CardMove::new(1, 4, 5);
    assert_eq!(1, card_move.from());
    assert_eq!(4, card_move.to());
    assert_eq!(5, card_move.count());
}

#[test]
pub fn card_move_display() {
    assert_eq!("Move 5 cards from cell to foundation", CardMove::new(CELL, FOUNDATION, 5).text());
    assert_eq!("Move card from cell to foundation", CardMove::new(CELL, FOUNDATION, 1).text());
    assert_eq!("Move 3 cards from cascade 0 to cascade 10", CardMove::new(0, 10, 3).text());
}
