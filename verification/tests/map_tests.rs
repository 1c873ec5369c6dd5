use ff_solver_lib::{Board, BoardNormalization, Card, CardMove, CascadeMap, CELL, FOUNDATION};
use rand::rngs::StdRng;
use rand::seq::SliceRandom;
use rand::SeedableRng;

fn shuffled_board(seed: u64) -> Board {
    let mut deck = Card::create_deck();
    let mut rng = StdRng::seed_from_u64(seed);
    deck.shuffle(&mut rng);
    let mut cascades: Vec<Vec<Card>> = vec![Vec::new(); 11];
    for (i, card) in deck.iter().enumerate() {
        let slot = i / 7;
        let slot = if slot > 4 { slot + 1 } else { slot };
        cascades[slot].push(*card);
    }
    Board::new(cascades, None)
}

#[test]
pub fn board_normalization_test() {
    let mut bn = BoardNormalization::default();
    assert_eq!(bn.cascade_indices, [0, 1, 2, 3, 4, 5, 6, 7, 8, 9, 10]);

    let card_move = CardMove::new(0, 5, 1);
    assert_eq!(card_move, bn.translate(&card_move));

    let board = shuffled_board(1337);
    bn.advance(&board);

    assert_eq!(bn.cascade_indices, [8, 3, 7, 1, 4, 10, 0, 9, 2, 6, 5]);
    assert_eq!(CardMove::new(8, 10, 1), bn.translate(&card_move));
    assert_eq!(CardMove::new(CELL, FOUNDATION, 2), bn.translate(&CardMove::new(CELL, FOUNDATION, 2)));
}

#[test]
pub fn cascade_map_test() {
    let mut cascade_map = CascadeMap::default();
    assert_eq!(cascade_map.cascade_indices, [0, 1, 2, 3, 4, 5, 6, 7, 8, 9, 10]);

    let card_move = CardMove::new(0, 5, 1);
    assert_eq!(card_move, cascade_map.translate(&card_move));

    let board = shuffled_board(1337);
    cascade_map.advance(&board);

    assert_eq!(cascade_map.cascade_indices, [8, 3, 7, 1, 4, 10, 0, 9, 2, 6, 5]);
    assert_eq!(CardMove::new(8, 10, 1), cascade_map.translate(&card_move));
    assert_eq!(CardMove::new(CELL, FOUNDATION, 2), cascade_map.translate(&CardMove::new(CELL, FOUNDATION, 2)));
}
