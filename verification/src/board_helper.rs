//! Reading boards from text, and dealing a seeded random board. A card is
//! written as its rank then a suit letter (`R`, `G`, `B`, `Y`) for the minor
//! arcana, or as its bare rank for the major arcana; `-` is a blank. The
//! board text lists the cascades in row-major order, eleven columns wide.
use vstd::prelude::*;
use vstd::string::StringSliceAdditionalSpecFns;

use crate::board::{views_of, Board};
use crate::board_model::{casc_cards, casc_mset, lemma_casc_mset_update, play_of};
use crate::card::{Card, Suit};

verus! {

/// A failure while reading a board from text.
#[derive(Debug)]
pub enum ParseError {
    /// The token is not a valid card.
    InvalidCard(String),
    /// The card sequence has duplicates, or more cards than the deck holds.
    DuplicateCards,
    /// The card does not sit directly on top of the previous row's card.
    UnexpectedCard { column: u8, row: u8, card: Card },
}

/// The suit a token's last byte selects: a digit means a major-arcana card,
/// a suit letter a minor-arcana card.
pub open spec fn spec_suit_byte(b: u8) -> Option<Suit> {
    if 48 <= b <= 57 {
        Some(Suit::MajorArc)
    } else if b == 82 {
        Some(Suit::Red)
    } else if b == 71 {
        Some(Suit::Green)
    } else if b == 66 {
        Some(Suit::Blue)
    } else if b == 89 {
        Some(Suit::Yellow)
    } else {
        None
    }
}

/// The rank the given bytes spell: a digit, a face letter for minors, or two
/// digits (`10` for minors, `10` through `29` for majors).
pub open spec fn spec_rank_bytes(r: Seq<u8>, major: bool) -> Option<u8> {
    if r.len() == 1 {
        if 48 <= r[0] <= 57 {
            Some((r[0] - 48) as u8)
        } else if !major && r[0] == 74 {
            Some(11u8)
        } else if !major && r[0] == 81 {
            Some(12u8)
        } else if !major && r[0] == 75 {
            Some(13u8)
        } else {
            None
        }
    } else if r.len() == 2 {
        if !major && r[0] == 49 && r[1] == 48 {
            Some(10u8)
        } else if major && 49 <= r[0] <= 50 && 48 <= r[1] <= 57 {
            Some(((r[0] - 48) * 10 + (r[1] - 48)) as u8)
        } else {
            None
        }
    } else {
        None
    }
}

/// What a token means: `None` if it is not valid, `Some(None)` for a blank,
/// `Some(Some(card))` for a card.
pub open spec fn spec_parse_card(s: Seq<u8>) -> Option<Option<Card>> {
    if s.len() == 0 || s.len() > 3 {
        None
    } else if s == seq![45u8] {
        Some(None)
    } else {
        match spec_suit_byte(s[s.len() - 1]) {
            None => None,
            Some(suit) => {
                if suit is MajorArc {
                    match spec_rank_bytes(s, true) {
                        Some(rank) => {
                            if rank <= 21 {
                                Some(Some(Card { value: crate::card::pack(4, rank) }))
                            } else {
                                None
                            }
                        },
                        None => None,
                    }
                } else {
                    match spec_rank_bytes(s.take(s.len() - 1), false) {
                        Some(rank) => {
                            if 2 <= rank <= 13 {
                                Some(
                                    Some(
                                        Card {
                                            value: crate::card::pack(suit.spec_index(), rank),
                                        },
                                    ),
                                )
                            } else {
                                None
                            }
                        },
                        None => None,
                    }
                }
            },
        }
    }
}

fn parse_suit_byte(b: u8) -> (r: Option<Suit>)
    ensures
        r == spec_suit_byte(b),
{
    if 48 <= b && b <= 57 {
        Some(Suit::MajorArc)
    } else if b == 82 {
        Some(Suit::Red)
    } else if b == 71 {
        Some(Suit::Green)
    } else if b == 66 {
        Some(Suit::Blue)
    } else if b == 89 {
        Some(Suit::Yellow)
    } else {
        None
    }
}

/// Parse a token held as bytes. `Err(())` stands for an invalid token.
fn parse_card_bytes(tok: &Vec<u8>) -> (r: Result<Option<Card>, ()>)
    ensures
        r matches Ok(c) ==> spec_parse_card(tok@) == Some(c),
        r is Err ==> spec_parse_card(tok@) is None,
        (r matches Ok(c) && c is Some) ==> (r matches Ok(c2) && c2.unwrap().in_deck()),
{
    let n = tok.len();
    if n == 0 || n > 3 {
        return Err(());
    }
    if n == 1 && tok[0] == 45 {
        proof {
            assert(tok@ =~= seq![45u8]);
        }
        return Ok(None);
    }
    proof {
        if tok@ == seq![45u8] {
            assert(tok@[0] == 45u8);
        }
    }
    let suit = match parse_suit_byte(tok[n - 1]) {
        Some(s) => s,
        None => {
            return Err(());
        },
    };
    if suit.index() == 4 {
        let rank: Option<u8> = if n == 1 {
            if 48 <= tok[0] && tok[0] <= 57 {
                Some(tok[0] - 48)
            } else {
                None
            }
        } else if n == 2 {
            if 49 <= tok[0] && tok[0] <= 50 && 48 <= tok[1] && tok[1] <= 57 {
                Some((tok[0] - 48) * 10 + (tok[1] - 48))
            } else {
                None
            }
        } else {
            None
        };
        match rank {
            Some(rk) => {
                if rk <= 21 {
                    Ok(Some(Card::new(rk, Suit::MajorArc)))
                } else {
                    Err(())
                }
            },
            None => Err(()),
        }
    } else {
        let m = n - 1;
        let ghost pre = tok@.take(m as int);
        let rank: Option<u8> = if m == 1 {
            if 48 <= tok[0] && tok[0] <= 57 {
                Some(tok[0] - 48)
            } else if tok[0] == 74 {
                Some(11)
            } else if tok[0] == 81 {
                Some(12)
            } else if tok[0] == 75 {
                Some(13)
            } else {
                None
            }
        } else if m == 2 {
            if tok[0] == 49 && tok[1] == 48 {
                Some(10)
            } else {
                None
            }
        } else {
            None
        };
        proof {
            assert(pre.len() == m);
            if m >= 1 {
                assert(pre[0] == tok@[0]);
            }
            if m >= 2 {
                assert(pre[1] == tok@[1]);
            }
            assert(rank == spec_rank_bytes(pre, false));
        }
        match rank {
            Some(rk) => {
                if 2 <= rk && rk <= 13 {
                    Ok(Some(Card::new(rk, suit)))
                } else {
                    Err(())
                }
            },
            None => Err(()),
        }
    }
}

/// Relies on `String::push`: appends the given char to the end of the
/// string.
#[verifier::external_body]
fn push_char(s: &mut String, c: char)
    ensures
        final(s)@ == old(s)@.push(c),
{
    s.push(c)
}

/// The text of a byte run, for error messages: ASCII bytes stand for
/// themselves, anything else becomes a question mark.
fn bytes_text(tok: &Vec<u8>) -> String {
    let mut s = String::new();
    let mut i: usize = 0;
    while i < tok.len()
        decreases tok@.len() - i,
    {
        let b = tok[i];
        if b < 128 {
            push_char(&mut s, b as char);
        } else {
            push_char(&mut s, '?');
        }
        i = i + 1;
    }
    s
}

/// Parse a single card token: `Ok(None)` for a blank, `Ok(Some(card))` for a
/// card, and `InvalidCard` holding the token when it means neither.
pub fn parse_card(card_str: &str) -> (r: Result<Option<Card>, ParseError>)
    ensures
        r matches Ok(c) ==> spec_parse_card(card_str.spec_bytes()) == Some(c),
        r is Err ==> spec_parse_card(card_str.spec_bytes()) is None && (r matches Err(e)
            ==> e matches ParseError::InvalidCard(t) && t@ == card_str@),
        (r matches Ok(c) && c is Some) ==> (r matches Ok(c2) && c2.unwrap().in_deck()),
{
    let bytes = card_str.as_bytes();
    let mut tok: Vec<u8> = Vec::new();
    let mut i: usize = 0;
    while i < bytes.len()
        invariant
            i <= bytes@.len(),
            bytes@ == card_str.spec_bytes(),
            tok@ == bytes@.take(i as int),
        decreases bytes@.len() - i,
    {
        tok.push(bytes[i]);
        proof {
            assert(tok@ =~= bytes@.take(i + 1));
        }
        i = i + 1;
    }
    proof {
        assert(tok@ =~= card_str.spec_bytes());
    }
    match parse_card_bytes(&tok) {
        Ok(c) => Ok(c),
        Err(_) => Err(ParseError::InvalidCard(card_str.to_owned())),
    }
}

/// Whether a byte is ASCII whitespace.
fn is_ws(b: u8) -> (r: bool)
    ensures
        r == (b == 32 || b == 9 || b == 10 || b == 12 || b == 13),
{
    b == 32 || b == 9 || b == 10 || b == 12 || b == 13
}

/// No card is on the board twice, by the `seen` table of packed card bytes.
pub open spec fn seen_ok(seen: Seq<bool>, cs: Seq<Seq<Card>>) -> bool {
    &&& seen.len() == 256
    &&& forall|c: Card| #[trigger] casc_mset(cs).count(c) <= 1
    &&& forall|c: Card| !seen[c.value as int] ==> #[trigger] casc_mset(cs).count(c) == 0
}

/// Read a whole board: the cascade text in row-major order over eleven
/// columns, and optionally a cell card. A returned board is well formed and
/// holds no card twice.
pub fn parse_board(cascade_string: &str, cell_string: Option<&str>) -> (r: Result<
    Board,
    ParseError,
>)
    ensures
        r matches Ok(b) ==> b.ok() && crate::board_model::play_distinct(b@),
{
    let bytes = cascade_string.as_bytes();
    let mut cascades: Vec<Vec<Card>> = Vec::new();
    let mut t: usize = 0;
    while t < 11
        invariant
            t <= 11,
            cascades@.len() == t,
            forall|x: int| 0 <= x < t ==> (#[trigger] cascades@[x])@.len() == 0,
        decreases 11 - t,
    {
        cascades.push(Vec::new());
        t = t + 1;
    }
    let mut seen: Vec<bool> = Vec::new();
    let mut t2: usize = 0;
    while t2 < 256
        invariant
            t2 <= 256,
            seen@.len() == t2,
            forall|x: int| 0 <= x < t2 ==> !(#[trigger] seen@[x]),
        decreases 256 - t2,
    {
        seen.push(false);
        t2 = t2 + 1;
    }
    proof {
        assert(casc_mset(views_of(cascades@)) =~= vstd::multiset::Multiset::<Card>::empty()) by {
            lemma_empty_cascades_mset(views_of(cascades@));
        }
        assert(seen_ok(seen@, views_of(cascades@)));
        assert(casc_cards(views_of(cascades@)) == 0) by {
            lemma_empty_cascades_cards(views_of(cascades@));
        }
    }
    let mut total: usize = 0;
    let mut index: usize = 0;
    let mut pos: usize = 0;
    while pos < bytes.len()
        invariant
            pos <= bytes@.len(),
            cascades@.len() == 11,
            forall|i: int, j: int|
                0 <= i < 11 && 0 <= j < cascades@[i]@.len() ==> (#[trigger] cascades@[i]@[j]).in_deck(),
            seen_ok(seen@, views_of(cascades@)),
            total == casc_cards(views_of(cascades@)),
            total <= 70,
            index <= pos,
        decreases bytes@.len() - pos,
    {
        if is_ws(bytes[pos]) {
            pos = pos + 1;
            continue ;
        }
        let mut tok: Vec<u8> = Vec::new();
        tok.push(bytes[pos]);
        pos = pos + 1;
        let ghost p1 = pos;
        while pos < bytes.len() && !is_ws(bytes[pos])
            invariant
                p1 <= pos <= bytes@.len(),
            decreases bytes@.len() - pos,
        {
            tok.push(bytes[pos]);
            pos = pos + 1;
        }
        match parse_card_bytes(&tok) {
            Err(_) => {
                return Err(ParseError::InvalidCard(bytes_text(&tok)));
            },
            Ok(None) => {},
            Ok(Some(card)) => {
                let i = index % 11;
                let j = index / 11;
                if cascades[i].len() != j {
                    return Err(
                        ParseError::UnexpectedCard {
                            column: i as u8,
                            row: #[verifier::truncate] (j as u8),
                            card,
                        },
                    );
                }
                if seen[card.packed() as usize] {
                    return Err(ParseError::DuplicateCards);
                }
                if total >= 70 {
                    return Err(ParseError::DuplicateCards);
                }
                let ghost old_views = views_of(cascades@);
                let ghost old_ci = cascades@[i as int]@;
                cascades[i].push(card);
                seen[card.packed() as usize] = true;
                total = total + 1;
                proof {
                    assert(views_of(cascades@) =~= old_views.update(
                        i as int,
                        old_ci.push(card),
                    ));
                    lemma_casc_mset_update(old_views, i as int, old_ci.push(card));
                    vstd::seq_lib::to_multiset_build(old_ci, card);
                    crate::board_model::lemma_casc_cards_update(
                        old_views,
                        i as int,
                        old_ci.push(card),
                    );
                    assert forall|c: Card| #[trigger] casc_mset(views_of(cascades@)).count(c)
                        <= 1 by {
                        assert(casc_mset(views_of(cascades@)).add(old_ci.to_multiset()).count(c)
                            == casc_mset(old_views).add(old_ci.push(card).to_multiset()).count(c));
                        if c != card {
                            assert(casc_mset(views_of(cascades@)).count(c) == casc_mset(
                                old_views,
                            ).count(c));
                        } else {
                            assert(casc_mset(old_views).count(card) == 0);
                        }
                    }
                    assert forall|c: Card| !seen@[c.value as int] implies #[trigger] casc_mset(
                        views_of(cascades@),
                    ).count(c) == 0 by {
                        assert(c != card);
                        assert(casc_mset(views_of(cascades@)).add(old_ci.to_multiset()).count(c)
                            == casc_mset(old_views).add(old_ci.push(card).to_multiset()).count(c));
                    }
                }
            },
        }
        index = index + 1;
    }
    let cell: Option<Card> = match cell_string {
        Some(cs) => {
            match parse_card(cs) {
                Ok(c) => c,
                Err(e) => {
                    return Err(e);
                },
            }
        },
        None => None,
    };
    match cell {
        Some(c) => {
            if seen[c.packed() as usize] {
                return Err(ParseError::DuplicateCards);
            }
            if total >= 70 {
                return Err(ParseError::DuplicateCards);
            }
        },
        None => {},
    }
    proof {
        assert forall|c: Card| #[trigger] play_of(cell, views_of(cascades@)).count(c) <= 1 by {
            match cell {
                Some(x) => {
                    if c == x {
                        assert(casc_mset(views_of(cascades@)).count(c) == 0);
                    }
                },
                None => {},
            }
        }
    }
    Ok(Board::new(cascades, cell))
}

/// The multiset of empty cascades is empty.
proof fn lemma_empty_cascades_mset(cs: Seq<Seq<Card>>)
    requires
        forall|x: int| 0 <= x < cs.len() ==> (#[trigger] cs[x]).len() == 0,
    ensures
        casc_mset(cs) =~= vstd::multiset::Multiset::<Card>::empty(),
    decreases cs.len(),
{
    if cs.len() > 0 {
        lemma_empty_cascades_mset(cs.drop_last());
        cs.last().to_multiset_ensures();
        assert(cs.last().to_multiset().len() == 0);
    }
}

/// Empty cascades hold no cards.
proof fn lemma_empty_cascades_cards(cs: Seq<Seq<Card>>)
    requires
        forall|x: int| 0 <= x < cs.len() ==> (#[trigger] cs[x]).len() == 0,
    ensures
        casc_cards(cs) == 0,
    decreases cs.len(),
{
    if cs.len() > 0 {
        lemma_empty_cascades_cards(cs.drop_last());
    }
}

/// What the seeded generator yields: the stream of values is a function of
/// the seed and the count alone.
pub uninterp spec fn xoshiro_stream(seed: u64, n: int) -> Seq<u64>;

/// Relies on rand_xoshiro's `Xoshiro256PlusPlus::seed_from_u64` and
/// rand_core's `RngCore::next_u64`: seeding is deterministic, so the values
/// drawn depend on the seed and the count alone.
#[verifier::external_body]
fn xoshiro_u64s(seed: u64, n: usize) -> (r: Vec<u64>)
    ensures
        r@ == xoshiro_stream(seed, n as int),
        r@.len() == n,
{
    let mut rng = <rand_xoshiro::Xoshiro256PlusPlus as rand_xoshiro::rand_core::SeedableRng>::seed_from_u64(
        seed,
    );
    let mut v: Vec<u64> = Vec::new();
    let mut i: usize = 0;
    while i < n {
        v.push(rand_xoshiro::rand_core::RngCore::next_u64(&mut rng));
        i += 1;
    }
    v
}

/// Relies on `itertools::Itertools::sorted_by_key`: a stable sort. The
/// result holds the same pairs in non-decreasing order of the second
/// component.
#[verifier::external_body]
fn sort_pairs_by_u64(pairs: Vec<(u8, u64)>) -> (r: Vec<(u8, u64)>)
    ensures
        r@.len() == pairs@.len(),
        forall|i: int, j: int| 0 <= i < j < r@.len() ==> r@[i].1 <= r@[j].1,
        forall|i: int| 0 <= i < r@.len() ==> pairs@.contains(#[trigger] r@[i]),
{
    itertools::Itertools::sorted_by_key(pairs.into_iter(), |&(_, key): &(u8, u64)| key).collect()
}

/// Deal a board from a seed: the deck is shuffled by sorting it under a
/// stream of seeded pseudo-random keys, then laid out seven cards at a time
/// over cascades 0 through 4 and 6 through 10, leaving cascade 5 empty. The
/// result is a well-formed board without duplicate cards.
pub fn create_random_board(seed: u64) -> (r: Board)
    ensures
        r.ok(),
        crate::board_model::play_distinct(r@),
        r@.cell is None,
{
    let deck = Card::create_deck();
    let hashes = xoshiro_u64s(seed, 70);
    let mut pairs: Vec<(u8, u64)> = Vec::new();
    let mut i: usize = 0;
    while i < 70
        invariant
            i <= 70,
            deck@.len() == 70,
            hashes@.len() == 70,
            deck@ == Card::full_deck(),
            pairs@.len() == i,
            forall|x: int|
                0 <= x < i ==> (#[trigger] pairs@[x]).0 == deck@[x].value,
        decreases 70 - i,
    {
        pairs.push((deck[i].packed(), hashes[i]));
        i = i + 1;
    }
    let sorted = sort_pairs_by_u64(pairs);
    let ghost ps = pairs@;
    let mut cascades: Vec<Vec<Card>> = Vec::new();
    let mut t: usize = 0;
    while t < 11
        invariant
            t <= 11,
            cascades@.len() == t,
            forall|x: int| 0 <= x < t ==> (#[trigger] cascades@[x])@.len() == 0,
        decreases 11 - t,
    {
        cascades.push(Vec::new());
        t = t + 1;
    }
    let mut seen: Vec<bool> = Vec::new();
    let mut t2: usize = 0;
    while t2 < 256
        invariant
            t2 <= 256,
            seen@.len() == t2,
            forall|x: int| 0 <= x < t2 ==> !(#[trigger] seen@[x]),
        decreases 256 - t2,
    {
        seen.push(false);
        t2 = t2 + 1;
    }
    proof {
        lemma_empty_cascades_mset(views_of(cascades@));
        lemma_empty_cascades_cards(views_of(cascades@));
        assert(seen_ok(seen@, views_of(cascades@)));
    }
    let mut total: usize = 0;
    let mut k: usize = 0;
    while k < 70
        invariant
            k <= 70,
            sorted@.len() == 70,
            ps.len() == 70,
            deck@.len() == 70,
            deck@ == Card::full_deck(),
            forall|x: int| 0 <= x < 70 ==> (#[trigger] ps[x]).0 == deck@[x].value,
            forall|x: int| 0 <= x < 70 ==> ps.contains(#[trigger] sorted@[x]),
            cascades@.len() == 11,
            forall|i2: int, j: int|
                0 <= i2 < 11 && 0 <= j < cascades@[i2]@.len() ==> (#[trigger] cascades@[i2]@[j]).in_deck(),
            seen_ok(seen@, views_of(cascades@)),
            total == casc_cards(views_of(cascades@)),
            total <= k,
        decreases 70 - k,
    {
        let v = sorted[k].0;
        proof {
            assert(ps.contains(sorted@[k as int]));
            let a = choose|a: int| 0 <= a < ps.len() && ps[a] == sorted@[k as int];
            assert(v == deck@[a].value);
            assert(deck@[a].in_deck());
            assert((Card { value: v }).in_deck());
        }
        let card = Card { value: v };
        if seen[card.packed() as usize] {
            // the deck holds each card once, so a repeated byte cannot occur;
            // skip it rather than place a duplicate
            k = k + 1;
            continue ;
        }
        let slot = k / 7;
        let i = if slot > 4 {
            slot + 1
        } else {
            slot
        };
        let ghost old_views = views_of(cascades@);
        let ghost old_ci = cascades@[i as int]@;
        cascades[i].push(card);
        seen[card.packed() as usize] = true;
        total = total + 1;
        proof {
            assert(views_of(cascades@) =~= old_views.update(i as int, old_ci.push(card)));
            lemma_casc_mset_update(old_views, i as int, old_ci.push(card));
            vstd::seq_lib::to_multiset_build(old_ci, card);
            crate::board_model::lemma_casc_cards_update(old_views, i as int, old_ci.push(card));
            assert forall|c: Card| #[trigger] casc_mset(views_of(cascades@)).count(c) <= 1 by {
                assert(casc_mset(views_of(cascades@)).add(old_ci.to_multiset()).count(c)
                    == casc_mset(old_views).add(old_ci.push(card).to_multiset()).count(c));
                if c != card {
                    assert(casc_mset(views_of(cascades@)).count(c) == casc_mset(old_views).count(
                        c,
                    ));
                } else {
                    assert(casc_mset(old_views).count(card) == 0);
                }
            }
            assert forall|c: Card| !seen@[c.value as int] implies #[trigger] casc_mset(
                views_of(cascades@),
            ).count(c) == 0 by {
                assert(c != card);
                assert(casc_mset(views_of(cascades@)).add(old_ci.to_multiset()).count(c)
                    == casc_mset(old_views).add(old_ci.push(card).to_multiset()).count(c));
            }
        }
        k = k + 1;
    }
    proof {
        assert forall|c: Card| #[trigger] play_of(
            Option::<Card>::None,
            views_of(cascades@),
        ).count(c) <= 1 by {}
    }
    Board::new(cascades, None)
}

} // verus!
