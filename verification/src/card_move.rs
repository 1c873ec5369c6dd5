//! A move descriptor: a source, a target and a card count. Cascades are named
//! by their index `0..=10`; the free cell and the foundations use reserved
//! sentinel byte values.
use vstd::prelude::*;

verus! {

/// Represents the cell as source or target location
pub const CELL: u8 = 255;

/// Represents the foundation as target location
pub const FOUNDATION: u8 = 254;

/// Number of cascades on a board.
pub const CASCADE_COUNT: u8 = 11;

#[derive(Debug, Eq, PartialEq, Structural, Copy, Clone)]
pub struct CardMove {
    pub from: u8,
    pub to: u8,
    pub count: u8,
}

impl CardMove {
    /// The source names a cascade or the cell, the target a cascade, the cell
    /// or the foundation, and at least one card moves.
    pub open spec fn wf(self) -> bool {
        &&& (self.from < CASCADE_COUNT || self.from == CELL)
        &&& (self.to < CASCADE_COUNT || self.to == CELL || self.to == FOUNDATION)
        &&& self.count >= 1
    }

    pub fn new(from: u8, to: u8, count: u8) -> (r: CardMove)
        requires
            from <= 10 || from == CELL,
            to <= 10 || to == CELL || to == FOUNDATION,
            count > 0,
        ensures
            r == (CardMove { from, to, count }),
            r.wf(),
    {
        CardMove { from, to, count }
    }

    pub fn from(&self) -> (r: u8)
        ensures
            r == self.from,
    {
        self.from
    }

    pub fn to(&self) -> (r: u8)
        ensures
            r == self.to,
    {
        self.to
    }

    pub fn count(&self) -> (r: u8)
        ensures
            r == self.count,
    {
        self.count
    }

    /// The decimal digits of a byte value.
    pub open spec fn spec_decimal(n: u8) -> Seq<char>
        decreases n,
    {
        if n < 10 {
            seq![Self::digit_char(n)]
        } else {
            Self::spec_decimal((n / 10) as u8) + seq![Self::digit_char((n % 10) as u8)]
        }
    }

    pub open spec fn digit_char(d: u8) -> char {
        match d {
            0u8 => '0',
            1u8 => '1',
            2u8 => '2',
            3u8 => '3',
            4u8 => '4',
            5u8 => '5',
            6u8 => '6',
            7u8 => '7',
            8u8 => '8',
            _ => '9',
        }
    }

    fn push_digit(s: &mut String, d: u8)
        requires
            d <= 9,
        ensures
            final(s)@ == old(s)@ + seq![Self::digit_char(d)],
    {
        let t: &'static str = match d {
            0 => "0",
            1 => "1",
            2 => "2",
            3 => "3",
            4 => "4",
            5 => "5",
            6 => "6",
            7 => "7",
            8 => "8",
            _ => "9",
        };
        s.append(t);
        proof {
            reveal_strlit("0");
            reveal_strlit("1");
            reveal_strlit("2");
            reveal_strlit("3");
            reveal_strlit("4");
            reveal_strlit("5");
            reveal_strlit("6");
            reveal_strlit("7");
            reveal_strlit("8");
            reveal_strlit("9");
            assert(s@ =~= old(s)@ + seq![Self::digit_char(d)]);
        }
    }

    fn push_decimal(s: &mut String, n: u8)
        ensures
            final(s)@ == old(s)@ + Self::spec_decimal(n),
    {
        if n >= 100 {
            Self::push_digit(s, n / 100);
            Self::push_digit(s, (n / 10) % 10);
            Self::push_digit(s, n % 10);
            proof {
                assert(Self::spec_decimal((n / 10) as u8) == Self::spec_decimal((n / 100) as u8)
                    + seq![Self::digit_char(((n / 10) % 10) as u8)]);
                assert(Self::spec_decimal((n / 100) as u8) =~= seq![
                    Self::digit_char((n / 100) as u8),
                ]);
                assert(s@ =~= old(s)@ + Self::spec_decimal(n));
            }
        } else if n >= 10 {
            Self::push_digit(s, n / 10);
            Self::push_digit(s, n % 10);
            proof {
                assert(Self::spec_decimal((n / 10) as u8) =~= seq![
                    Self::digit_char((n / 10) as u8),
                ]);
                assert(s@ =~= old(s)@ + Self::spec_decimal(n));
            }
        } else {
            Self::push_digit(s, n);
            proof {
                assert(s@ =~= old(s)@ + Self::spec_decimal(n));
            }
        }
    }

    /// The display name of a location byte.
    pub open spec fn spec_location_text(index: u8) -> Seq<char> {
        if index == CELL {
            "cell"@
        } else if index == FOUNDATION {
            "foundation"@
        } else {
            "cascade "@ + Self::spec_decimal(index)
        }
    }

    fn push_location(s: &mut String, index: u8)
        ensures
            final(s)@ == old(s)@ + Self::spec_location_text(index),
    {
        if index == CELL {
            s.append("cell");
        } else if index == FOUNDATION {
            s.append("foundation");
        } else {
            s.append("cascade ");
            Self::push_decimal(s, index);
            proof {
                assert(s@ =~= old(s)@ + Self::spec_location_text(index));
            }
        }
    }

    /// The display text of the move.
    pub open spec fn spec_text(self) -> Seq<char> {
        if self.count == 1 {
            "Move card from "@ + Self::spec_location_text(self.from) + " to "@
                + Self::spec_location_text(self.to)
        } else {
            "Move "@ + Self::spec_decimal(self.count) + " cards from "@ + Self::spec_location_text(
                self.from,
            ) + " to "@ + Self::spec_location_text(self.to)
        }
    }

    pub fn text(&self) -> (r: String)
        ensures
            r@ == self.spec_text(),
    {
        let mut s = String::new();
        if self.count == 1 {
            s.append("Move card from ");
        } else {
            s.append("Move ");
            Self::push_decimal(&mut s, self.count);
            s.append(" cards from ");
        }
        Self::push_location(&mut s, self.from);
        s.append(" to ");
        Self::push_location(&mut s, self.to);
        proof {
            assert(s@ =~= self.spec_text());
        }
        s
    }
}

} // verus!
