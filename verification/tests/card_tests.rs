use ff_solver_lib::{Card, Suit, ACE_RANK, JACK_RANK, KING_RANK, QUEEN_RANK};

#[test]
pub fn card_new() {
    let card = Card::new(6, Suit::Green);
    assert_eq!(6, card.rank());
    assert_eq!(Suit::Green, card.suit());
}

#[test]
pub fn card_display() {
    assert_eq!("2\u{2666}", Card::new(2, Suit::Yellow).text());
    assert_eq!("A\u{2663}", Card::new(ACE_RANK, Suit::Green).text());
    assert_eq!("J\u{2665}", Card::new(JACK_RANK, Suit::Red).text());
    assert_eq!("Q\u{2666}", Card::new(QUEEN_RANK, Suit::Yellow).text());
    assert_eq!("K\u{2660}", Card::new(KING_RANK, Suit::Blue).text());
    assert_eq!("21", Card::new(21, Suit::MajorArc).text());
}

#[test]
pub fn can_place_on() {
    assert_eq!(true, Card::new(2, Suit::MajorArc).can_place_on(&Card::new(3, Suit::MajorArc)));
    assert_eq!(true, Card::new(3, Suit::MajorArc).can_place_on(&Card::new(2, Suit::MajorArc)));
    assert_eq!(false, Card::new(2, Suit::MajorArc).can_place_on(&Card::new(4, Suit::MajorArc)));
    assert_eq!(false, Card::new(6, Suit::MajorArc).can_place_on(&Card::new(4, Suit::MajorArc)));

    assert_eq!(true, Card::new(2, Suit::Red).can_place_on(&Card::new(3, Suit::Red)));
    assert_eq!(true, Card::new(3, Suit::Red).can_place_on(&Card::new(2, Suit::Red)));
    assert_eq!(true, Card::new(JACK_RANK, Suit::Green).can_place_on(&Card::new(QUEEN_RANK, Suit::Green)));
    assert_eq!(true, Card::new(QUEEN_RANK, Suit::Green).can_place_on(&Card::new(JACK_RANK, Suit::Green)));
    assert_eq!(false, Card::new(JACK_RANK, Suit::Green).can_place_on(&Card::new(QUEEN_RANK, Suit::Red)));
    assert_eq!(false, Card::new(QUEEN_RANK, Suit::Green).can_place_on(&Card::new(JACK_RANK, Suit::Blue)));
}

#[test]
pub fn create_deck() {
    let cards = &Card::create_deck();

    assert_eq!(70, cards.len());
    assert!(cards.iter().take(22).enumerate().all(|(i, c)| c.rank() == i as u8 && c.suit() == Suit::MajorArc));
    assert!(cards.iter().skip(22).enumerate().all(|(i, c)| c.rank() == (i % 12 + 2) as u8 && c.suit() == Suit::from_index(i as u8 / 12)));
}
