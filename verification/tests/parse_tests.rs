use ff_solver_lib::{Card, ParseError, Suit, JACK_RANK, KING_RANK, MAJOR_ARC_MAX_RANK,
    MINOR_ARC_MIN_RANK, QUEEN_RANK};
use ff_solver_lib::parse_board as lib_parse_board;
use ff_solver_lib::parse_card as lib_parse_card;

#[test]
fn parse_card() {
    assert_eq!(Some(Card::new(2, Suit::Red)), lib_parse_card("2R").unwrap());
    assert_eq!(Some(Card::new(5, Suit::Red)), lib_parse_card("5R").unwrap());
    assert_eq!(Some(Card::new(10, Suit::Red)), lib_parse_card("10R").unwrap());
    assert_eq!(Some(Card::new(JACK_RANK, Suit::Red)), lib_parse_card("JR").unwrap());
    assert_eq!(Some(Card::new(QUEEN_RANK, Suit::Red)), lib_parse_card("QR").unwrap());
    assert_eq!(Some(Card::new(KING_RANK, Suit::Red)), lib_parse_card("KR").unwrap());

    assert_eq!(Some(Card::new(2, Suit::Green)), lib_parse_card("2G").unwrap());
    assert_eq!(Some(Card::new(5, Suit::Green)), lib_parse_card("5G").unwrap());
    assert_eq!(Some(Card::new(10, Suit::Green)), lib_parse_card("10G").unwrap());
    assert_eq!(Some(Card::new(JACK_RANK, Suit::Green)), lib_parse_card("JG").unwrap());
    assert_eq!(Some(Card::new(QUEEN_RANK, Suit::Green)), lib_parse_card("QG").unwrap());
    assert_eq!(Some(Card::new(KING_RANK, Suit::Green)), lib_parse_card("KG").unwrap());

    assert_eq!(Some(Card::new(2, Suit::Blue)), lib_parse_card("2B").unwrap());
    assert_eq!(Some(Card::new(5, Suit::Blue)), lib_parse_card("5B").unwrap());
    assert_eq!(Some(Card::new(10, Suit::Blue)), lib_parse_card("10B").unwrap());
    assert_eq!(Some(Card::new(JACK_RANK, Suit::Blue)), lib_parse_card("JB").unwrap());
    assert_eq!(Some(Card::new(QUEEN_RANK, Suit::Blue)), lib_parse_card("QB").unwrap());
    assert_eq!(Some(Card::new(KING_RANK, Suit::Blue)), lib_parse_card("KB").unwrap());

    assert_eq!(Some(Card::new(2, Suit::Yellow)), lib_parse_card("2Y").unwrap());
    assert_eq!(Some(Card::new(5, Suit::Yellow)), lib_parse_card("5Y").unwrap());
    assert_eq!(Some(Card::new(10, Suit::Yellow)), lib_parse_card("10Y").unwrap());
    assert_eq!(Some(Card::new(JACK_RANK, Suit::Yellow)), lib_parse_card("JY").unwrap());
    assert_eq!(Some(Card::new(QUEEN_RANK, Suit::Yellow)), lib_parse_card("QY").unwrap());
    assert_eq!(Some(Card::new(KING_RANK, Suit::Yellow)), lib_parse_card("KY").unwrap());

    assert!(matches!(lib_parse_card("AR"), Err(ParseError::InvalidCard(_))));
    assert!(matches!(lib_parse_card("0R"), Err(ParseError::InvalidCard(_))));
    assert!(matches!(lib_parse_card("1R"), Err(ParseError::InvalidCard(_))));
    assert!(matches!(lib_parse_card("11R"), Err(ParseError::InvalidCard(_))));
    assert!(matches!(lib_parse_card("21R"), Err(ParseError::InvalidCard(_))));
    assert!(matches!(lib_parse_card("R"), Err(ParseError::InvalidCard(_))));
    assert!(matches!(lib_parse_card("00R"), Err(ParseError::InvalidCard(_))));

    assert!(matches!(lib_parse_card("AG"), Err(ParseError::InvalidCard(_))));
    assert!(matches!(lib_parse_card("0G"), Err(ParseError::InvalidCard(_))));
    assert!(matches!(lib_parse_card("1G"), Err(ParseError::InvalidCard(_))));
    assert!(matches!(lib_parse_card("11G"), Err(ParseError::InvalidCard(_))));
    assert!(matches!(lib_parse_card("21G"), Err(ParseError::InvalidCard(_))));
    assert!(matches!(lib_parse_card("G"), Err(ParseError::InvalidCard(_))));
    assert!(matches!(lib_parse_card("00G"), Err(ParseError::InvalidCard(_))));

    assert!(matches!(lib_parse_card("22"), Err(ParseError::InvalidCard(_))));
    assert!(matches!(lib_parse_card("25"), Err(ParseError::InvalidCard(_))));

    for rank in MINOR_ARC_MIN_RANK..=MAJOR_ARC_MAX_RANK {
        assert_eq!(Some(Card::new(rank, Suit::MajorArc)), lib_parse_card(&rank.to_string()).unwrap());
    }
}

#[test]
fn parse_board() {
    let cascade_string = "10	11	KR	6	QG	-	7Y	6Y	QR	JR	20
5	1	4	JG	5G	-	7B	2Y	15	5Y	7G
8Y	3R	5B	2G	18	-	6G	19	JB	4Y	21
9	KB	KG	3Y	KY	-	8R	9B	14	6B	2B
0	2R	5R	QY	2	-	4B	4G	10Y	6R	9R
8B	3	12	7R	7	-	13	9Y	10R	QB	17
8	10B	10G	4R	16	-	8G	JY	9G	3B	3G";
    let board = lib_parse_board(&cascade_string, None).unwrap();

    let card_count = board.cascades().iter().map(|cc| cc.len()).sum::<usize>();
    assert_eq!(card_count, 70);

    assert_eq!(board.cascades()[0][0], Card::new(10, Suit::MajorArc));
    assert_eq!(board.cascades()[1][0], Card::new(11, Suit::MajorArc));
    assert_eq!(board.cascades()[2][0], Card::new(KING_RANK, Suit::Red));
    assert_eq!(board.cascades()[3][0], Card::new(6, Suit::MajorArc));
    assert_eq!(board.cascades()[4][0], Card::new(QUEEN_RANK, Suit::Green));
    assert_eq!(board.cascades()[6][0], Card::new(7, Suit::Yellow));
    assert_eq!(board.cascades()[7][0], Card::new(6, Suit::Yellow));
    assert_eq!(board.cascades()[8][0], Card::new(QUEEN_RANK, Suit::Red));
    assert_eq!(board.cascades()[9][0], Card::new(JACK_RANK, Suit::Red));
    assert_eq!(board.cascades()[10][0], Card::new(20, Suit::MajorArc));

    assert_eq!(board.cascades()[0][6], Card::new(8, Suit::MajorArc));
    assert_eq!(board.cascades()[1][6], Card::new(10, Suit::Blue));
    assert_eq!(board.cascades()[2][6], Card::new(10, Suit::Green));
    assert_eq!(board.cascades()[3][6], Card::new(4, Suit::Red));
    assert_eq!(board.cascades()[4][6], Card::new(16, Suit::MajorArc));
    assert_eq!(board.cascades()[6][6], Card::new(8, Suit::Green));
    assert_eq!(board.cascades()[7][6], Card::new(JACK_RANK, Suit::Yellow));
    assert_eq!(board.cascades()[8][6], Card::new(9, Suit::Green));
    assert_eq!(board.cascades()[9][6], Card::new(3, Suit::Blue));
    assert_eq!(board.cascades()[10][6], Card::new(3, Suit::Green));

    assert_eq!(board.cascades()[5].is_empty(), true);
}

#[test]
fn parse_board_duplicate_cards() {
    assert!(matches!(lib_parse_board("2R 3R 2R", None), Err(ParseError::DuplicateCards)));
    assert!(matches!(lib_parse_board("2R 3R", Some("2R")), Err(ParseError::DuplicateCards)));
}

#[test]
fn parse_board_unexpected_card() {
    // column 0 is blank in the first row, so a card there in the second row
    // has nothing to rest on
    let text = "-  2R 3R 4R 5R 6R 7R 8R 9R 10R JR\n2G -  -  -  -  -  -  -  -  -  -";
    assert!(matches!(
        lib_parse_board(text, None),
        Err(ParseError::UnexpectedCard { column: 0, row: 1, card: _ })
    ));
}

#[test]
fn parse_board_invalid_token() {
    match lib_parse_board("2R XX", None) {
        Err(ParseError::InvalidCard(s)) => assert_eq!(s, "XX"),
        _ => panic!("expected an invalid card error"),
    }
}
