//! Cards of the game: four minor-arcana suits with ranks 1 (Ace) through 13
//! (King), and a single major-arcana suit with ranks 0 through 21. A card
//! packs into one byte: suit in the high bits, rank in the low bits.
use vstd::prelude::*;

verus! {

pub const ACE_RANK: u8 = 1;

pub const JACK_RANK: u8 = 11;

pub const QUEEN_RANK: u8 = 12;

pub const KING_RANK: u8 = 13;

pub const MINOR_ARC_MIN_RANK: u8 = 2;

pub const MINOR_ARC_MAX_RANK: u8 = KING_RANK;

pub const MAJOR_ARC_MIN_RANK: u8 = 0;

pub const MAJOR_ARC_MAX_RANK: u8 = 21;

/// Card suit
#[derive(Copy, Clone, PartialEq, Eq, Structural, Debug, Hash)]
pub enum Suit {
    /// Cups, Minor Arcana
    Red,
    /// Batons, Minor Arcana
    Green,
    /// Swords, Minor Arcana
    Blue,
    /// Coins, Minor Arcana
    Yellow,
    /// Major Arcana
    MajorArc,
}

impl Suit {
    /// Numeric index of the suit, with the major arcana last.
    pub open spec fn spec_index(self) -> u8 {
        match self {
            Suit::Red => 0,
            Suit::Green => 1,
            Suit::Blue => 2,
            Suit::Yellow => 3,
            Suit::MajorArc => 4,
        }
    }

    pub fn index(self) -> (r: u8)
        ensures
            r == self.spec_index(),
    {
        match self {
            Suit::Red => 0,
            Suit::Green => 1,
            Suit::Blue => 2,
            Suit::Yellow => 3,
            Suit::MajorArc => 4,
        }
    }

    /// Suit with the given index.
    pub fn from_index(value: u8) -> (r: Suit)
        requires
            value <= 4,
        ensures
            r.spec_index() == value,
    {
        match value {
            0 => Suit::Red,
            1 => Suit::Green,
            2 => Suit::Blue,
            3 => Suit::Yellow,
            _ => Suit::MajorArc,
        }
    }
}

/// A playing card, packed into one byte: `suit * 32 + rank`.
#[derive(Copy, Clone, PartialEq, Eq, Structural, Debug, Hash)]
pub struct Card {
    pub value: u8,
}

/// The packed byte of a card with the given suit index and rank.
pub open spec fn pack(suit_index: u8, rank: u8) -> u8
    recommends
        suit_index <= 4,
        rank < 32,
{
    (suit_index * 32 + rank) as u8
}

impl Card {
    pub open spec fn spec_rank(self) -> u8 {
        (self.value % 32) as u8
    }

    pub open spec fn spec_suit_index(self) -> u8 {
        (self.value / 32) as u8
    }

    pub open spec fn is_major(self) -> bool {
        self.spec_suit_index() == 4
    }

    /// The card lies in the ranges the constructor accepts: majors rank 0..=21,
    /// minors rank 1..=13.
    pub open spec fn wf(self) -> bool {
        if self.is_major() {
            self.spec_rank() <= MAJOR_ARC_MAX_RANK
        } else {
            self.spec_suit_index() < 4 && ACE_RANK <= self.spec_rank() <= KING_RANK
        }
    }

    /// The card belongs to the 70-card deck: majors rank 0..=21, minors rank
    /// 2..=13 (the deck holds no aces).
    pub open spec fn in_deck(self) -> bool {
        self.wf() && (self.is_major() || self.spec_rank() >= MINOR_ARC_MIN_RANK)
    }

    pub fn new(rank: u8, suit: Suit) -> (r: Card)
        requires
            suit is MajorArc ==> rank <= MAJOR_ARC_MAX_RANK,
            !(suit is MajorArc) ==> ACE_RANK <= rank <= KING_RANK,
        ensures
            r.value == pack(suit.spec_index(), rank),
            r.spec_rank() == rank,
            r.spec_suit_index() == suit.spec_index(),
            r.wf(),
    {
        let idx = suit.index();
        Card { value: idx * 32 + rank }
    }

    pub fn suit(&self) -> (r: Suit)
        requires
            self.wf(),
        ensures
            r.spec_index() == self.spec_suit_index(),
    {
        Suit::from_index(self.value / 32)
    }

    pub fn rank(&self) -> (r: u8)
        ensures
            r == self.spec_rank(),
    {
        self.value % 32
    }

    /// The packed byte of the card.
    pub fn packed(&self) -> (r: u8)
        ensures
            r == self.value,
    {
        self.value
    }

    /// Two cards may be stacked on each other in a cascade exactly when they
    /// share a suit and their ranks differ by one. The relation is symmetric.
    pub open spec fn spec_can_place_on(self, other: Card) -> bool {
        self.spec_suit_index() == other.spec_suit_index() && (self.spec_rank() + 1
            == other.spec_rank() || other.spec_rank() + 1 == self.spec_rank())
    }

    pub fn can_place_on(&self, other: &Card) -> (r: bool)
        requires
            self.wf(),
            other.wf(),
        ensures
            r == self.spec_can_place_on(*other),
    {
        if self.value / 32 != other.value / 32 {
            return false;
        }
        let a = self.value % 32;
        let b = other.value % 32;
        a + 1 == b || b + 1 == a
    }

    /// The card at position `i` of the full deck: the 22 majors in rank order,
    /// then the four minor suits, each in rank order 2..=13.
    pub open spec fn deck_card(i: int) -> Card
        recommends
            0 <= i < 70,
    {
        if i < 22 {
            Card { value: pack(4, i as u8) }
        } else {
            Card { value: pack((((i - 22) / 12) as u8), (((i - 22) % 12 + 2) as u8)) }
        }
    }

    /// The full 70-card deck in canonical order.
    pub open spec fn full_deck() -> Seq<Card> {
        Seq::new(70, |i: int| Card::deck_card(i))
    }

    /// The full deck: the 22 majors by rising rank, then the four minor suits
    /// in index order, each by rising rank.
    pub fn create_deck() -> (r: Vec<Card>)
        ensures
            r@ == Card::full_deck(),
    {
        let mut deck: Vec<Card> = Vec::new();
        let mut rank: u8 = 0;
        while rank <= MAJOR_ARC_MAX_RANK
            invariant
                rank <= 22,
                deck@.len() == rank,
                forall|i: int| 0 <= i < deck@.len() ==> deck@[i] == Card::deck_card(i),
            decreases 22 - rank,
        {
            deck.push(Card::new(rank, Suit::MajorArc));
            rank = rank + 1;
        }
        let mut s: u8 = 0;
        while s < 4
            invariant
                s <= 4,
                deck@.len() == 22 + s * 12,
                forall|i: int| 0 <= i < deck@.len() ==> deck@[i] == Card::deck_card(i),
            decreases 4 - s,
        {
            let mut r: u8 = MINOR_ARC_MIN_RANK;
            while r <= MINOR_ARC_MAX_RANK
                invariant
                    s < 4,
                    2 <= r <= 14,
                    deck@.len() == 22 + s * 12 + (r - 2),
                    forall|i: int| 0 <= i < deck@.len() ==> deck@[i] == Card::deck_card(i),
                decreases 14 - r,
            {
                deck.push(Card::new(r, Suit::from_index(s)));
                r = r + 1;
            }
            s = s + 1;
        }
        proof {
            assert(deck@ =~= Card::full_deck());
        }
        deck
    }

    /// The display text of a suit: one symbol per minor suit, nothing for the
    /// major arcana.
    pub open spec fn spec_suit_text(self) -> Seq<char> {
        match self.spec_suit_index() {
            0u8 => "\u{2665}"@,
            1u8 => "\u{2663}"@,
            2u8 => "\u{2660}"@,
            3u8 => "\u{2666}"@,
            _ => ""@,
        }
    }

    /// The display text of a rank: the decimal digits for majors and numeric
    /// minors, a letter for Ace, Jack, Queen and King.
    pub open spec fn spec_rank_text(self) -> Seq<char> {
        if self.is_major() {
            Card::major_rank_text(self.spec_rank())
        } else {
            Card::minor_rank_text(self.spec_rank())
        }
    }

    pub open spec fn major_rank_text(rank: u8) -> Seq<char> {
        match rank {
            0u8 => "0"@,
            1u8 => "1"@,
            2u8 => "2"@,
            3u8 => "3"@,
            4u8 => "4"@,
            5u8 => "5"@,
            6u8 => "6"@,
            7u8 => "7"@,
            8u8 => "8"@,
            9u8 => "9"@,
            10u8 => "10"@,
            11u8 => "11"@,
            12u8 => "12"@,
            13u8 => "13"@,
            14u8 => "14"@,
            15u8 => "15"@,
            16u8 => "16"@,
            17u8 => "17"@,
            18u8 => "18"@,
            19u8 => "19"@,
            20u8 => "20"@,
            _ => "21"@,
        }
    }

    pub open spec fn minor_rank_text(rank: u8) -> Seq<char> {
        match rank {
            1u8 => "A"@,
            2u8 => "2"@,
            3u8 => "3"@,
            4u8 => "4"@,
            5u8 => "5"@,
            6u8 => "6"@,
            7u8 => "7"@,
            8u8 => "8"@,
            9u8 => "9"@,
            10u8 => "10"@,
            11u8 => "J"@,
            12u8 => "Q"@,
            _ => "K"@,
        }
    }

    fn rank_text(&self) -> (r: &'static str)
        requires
            self.wf(),
        ensures
            r@ == self.spec_rank_text(),
    {
        let rank = self.value % 32;
        if self.value / 32 == 4 {
            match rank {
                0 => "0",
                1 => "1",
                2 => "2",
                3 => "3",
                4 => "4",
                5 => "5",
                6 => "6",
                7 => "7",
                8 => "8",
                9 => "9",
                10 => "10",
                11 => "11",
                12 => "12",
                13 => "13",
                14 => "14",
                15 => "15",
                16 => "16",
                17 => "17",
                18 => "18",
                19 => "19",
                20 => "20",
                _ => "21",
            }
        } else {
            match rank {
                1 => "A",
                2 => "2",
                3 => "3",
                4 => "4",
                5 => "5",
                6 => "6",
                7 => "7",
                8 => "8",
                9 => "9",
                10 => "10",
                11 => "J",
                12 => "Q",
                _ => "K",
            }
        }
    }

    /// The display text of the card: rank text followed by the suit symbol.
    pub fn text(&self) -> (r: String)
        requires
            self.wf(),
        ensures
            r@ == self.spec_rank_text() + self.spec_suit_text(),
    {
        let mut s = String::new();
        s.append(self.rank_text());
        let suit_str: &'static str = match self.value / 32 {
            0 => "\u{2665}",
            1 => "\u{2663}",
            2 => "\u{2660}",
            3 => "\u{2666}",
            _ => "",
        };
        s.append(suit_str);
        s
    }
}

} // verus!
