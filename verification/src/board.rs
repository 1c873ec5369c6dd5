//! The executable board: the free cell, eleven cascades and the foundations,
//! with move application, auto-moves, normalization, move enumeration and
//! scoring. Every method promises in its contract to agree with the
//! corresponding function of the model in `board_model`.
use vstd::prelude::*;

use crate::board_model::{
    any_auto, apply_move_spec, apply_pre, auto_fix, auto_round, board_ok, can_remove, casc_cards,
    casc_mset, casc_score, casc_sorted, cascade_eligible, cell_eligible, cell_to_fdn, conserved,
    auto_list, auto_list_upto, fdn_pre, fdn_put, insert_casc, legal_move, legal_search_move,
    lemma_apply_ok, lemma_apply_play_le, lemma_casc_cards_mset, lemma_casc_cards_take_le, lemma_insert_casc_at,
    lemma_insert_casc_props,
    board_mset, implied_majors, implied_minor, implied_mset, lemma_apply_conserves,
    lemma_legal_pre, lemma_major_step, lemma_sort_casc_props, major_high_pending, major_low_pending, major_present, minor_auto_pending, play_of, present,
    suit_present,
    lemma_casc_cards_le, lemma_casc_cards_update, lemma_casc_mset_one, lemma_casc_mset_two,
    lemma_casc_mset_update, lemma_cell_to_fdn_play, lemma_round_decreases, lemma_round_shape,
    lemma_stack_size_bounds, lemma_stack_size_chain, lemma_top_to_fdn_play, normalize_spec,
    play_distinct, play_mset,
    rank_of, replay_ok, round_from, score_spec, sort_casc, stack_size, sum_casc_score,
    top_to_fdn, total_cards, won_spec, BoardModel,
};
use crate::card::{Card, Suit, KING_RANK};
use crate::card_move::{CardMove, CASCADE_COUNT, CELL, FOUNDATION};

verus! {

/// Largest search depth the score arithmetic can absorb: the score is a
/// 32-bit value and subtracts the depth from a bounded board value.
pub const MAX_SCORE_STEP: u32 = 0x7fff_ff00;

#[derive(Debug, PartialEq, Eq, Hash)]
pub struct Board {
    pub cell: Option<Card>,
    pub cascades: Vec<Vec<Card>>,
    pub major_fdn_low: i8,
    pub major_fdn_high: i8,
    pub minor_fdns: Vec<u8>,
}

impl View for Board {
    type V = BoardModel;

    open spec fn view(&self) -> BoardModel {
        BoardModel {
            cell: self.cell,
            cascades: Seq::new(self.cascades@.len(), |i: int| self.cascades@[i]@),
            low: self.major_fdn_low as int,
            high: self.major_fdn_high as int,
            minors: Seq::new(self.minor_fdns@.len(), |s: int| self.minor_fdns@[s] as int),
        }
    }
}

/// A fresh copy of a card vector.
fn copy_cards(v: &Vec<Card>) -> (r: Vec<Card>)
    ensures
        r@ == v@,
{
    let mut r: Vec<Card> = Vec::new();
    let mut i: usize = 0;
    while i < v.len()
        invariant
            i <= v@.len(),
            r@ == v@.take(i as int),
        decreases v@.len() - i,
    {
        r.push(v[i]);
        proof {
            assert(r@ =~= v@.take(i + 1));
        }
        i = i + 1;
    }
    proof {
        assert(r@ =~= v@);
    }
    r
}

impl Clone for Board {
    /// A copy with the same model.
    fn clone(&self) -> (r: Self)
        ensures
            r@ == self@,
    {
        let mut cascades: Vec<Vec<Card>> = Vec::new();
        let mut i: usize = 0;
        while i < self.cascades.len()
            invariant
                i <= self.cascades@.len(),
                cascades@.len() == i,
                forall|k: int| 0 <= k < i ==> cascades@[k]@ == self.cascades@[k]@,
            decreases self.cascades@.len() - i,
        {
            cascades.push(copy_cards(&self.cascades[i]));
            i = i + 1;
        }
        let mut minor_fdns: Vec<u8> = Vec::new();
        let mut s: usize = 0;
        while s < self.minor_fdns.len()
            invariant
                s <= self.minor_fdns@.len(),
                minor_fdns@ == self.minor_fdns@.take(s as int),
            decreases self.minor_fdns@.len() - s,
        {
            minor_fdns.push(self.minor_fdns[s]);
            proof {
                assert(minor_fdns@ =~= self.minor_fdns@.take(s + 1));
            }
            s = s + 1;
        }
        proof {
            assert(minor_fdns@ =~= self.minor_fdns@);
        }
        let r = Board {
            cell: self.cell,
            cascades,
            major_fdn_low: self.major_fdn_low,
            major_fdn_high: self.major_fdn_high,
            minor_fdns,
        };
        proof {
            assert(r@ =~= self@);
        }
        r
    }
}

impl Board {
    /// The board is well formed.
    pub open spec fn ok(self) -> bool {
        board_ok(self@)
    }

    pub fn is_game_won(&self) -> (r: bool)
        requires
            self.ok(),
        ensures
            r == won_spec(self@),
    {
        if self.major_fdn_low != self.major_fdn_high {
            return false;
        }
        let mut s: usize = 0;
        while s < self.minor_fdns.len()
            invariant
                self.ok(),
                self.major_fdn_low == self.major_fdn_high,
                s <= self.minor_fdns@.len(),
                forall|k: int| 0 <= k < s ==> self.minor_fdns@[k] == KING_RANK,
            decreases self.minor_fdns@.len() - s,
        {
            if self.minor_fdns[s] != KING_RANK {
                proof {
                    assert(self@.minors[s as int] == self.minor_fdns@[s as int] as int);
                    assert(self@.minors[s as int] != 13);
                    assert(!won_spec(self@));
                }
                return false;
            }
            s = s + 1;
        }
        proof {
            assert(forall|k: int| 0 <= k < 4 ==> #[trigger] self@.minors[k] == self.minor_fdns@[k] as int);
        }
        true
    }

    pub fn cascades(&self) -> (r: &Vec<Vec<Card>>)
        ensures
            r == self.cascades,
            r@.len() == self@.cascades.len(),
            forall|i: int| 0 <= i < r@.len() ==> r@[i]@ == self@.cascades[i],
    {
        &self.cascades
    }

    pub fn cell(&self) -> (r: Option<Card>)
        ensures
            r == self@.cell,
    {
        self.cell
    }

    /// The top card of each minor foundation, one entry per suit, `None`
    /// while a suit has no card on its foundation.
    pub fn minor_fdns(&self) -> (r: Vec<Option<Card>>)
        requires
            self.ok(),
        ensures
            r@.len() == 4,
            forall|s: int|
                0 <= s < 4 ==> #[trigger] r@[s] == (if self@.minors[s] > 1 {
                    Some(Card { value: crate::card::pack(s as u8, self@.minors[s] as u8) })
                } else {
                    Option::<Card>::None
                }),
    {
        let mut r: Vec<Option<Card>> = Vec::new();
        let mut s: usize = 0;
        while s < 4
            invariant
                self.ok(),
                s <= 4,
                self.minor_fdns@.len() == 4,
                r@.len() == s,
                forall|k: int|
                    0 <= k < s ==> #[trigger] r@[k] == (if self@.minors[k] > 1 {
                        Some(Card { value: crate::card::pack(k as u8, self@.minors[k] as u8) })
                    } else {
                        Option::<Card>::None
                    }),
            decreases 4 - s,
        {
            let rank = self.minor_fdns[s];
            proof {
                assert(self@.minors[s as int] == rank as int);
            }
            if rank > 1 {
                r.push(Some(Card::new(rank, Suit::from_index(s as u8))));
            } else {
                r.push(None);
            }
            s = s + 1;
        }
        r
    }

    /// The top card sent from the low end of the major foundation, `None`
    /// while none was.
    pub fn major_fdn_low(&self) -> (r: Option<Card>)
        requires
            self.ok(),
        ensures
            r == (if self@.low >= 0 {
                Some(Card { value: crate::card::pack(4, self@.low as u8) })
            } else {
                Option::<Card>::None
            }),
    {
        if self.major_fdn_low >= 0 {
            Some(Card::new(self.major_fdn_low as u8, Suit::MajorArc))
        } else {
            None
        }
    }

    /// The top card sent from the high end of the major foundation, `None`
    /// while none was.
    pub fn major_fdn_high(&self) -> (r: Option<Card>)
        requires
            self.ok(),
        ensures
            r == (if self@.high <= 21 {
                Some(Card { value: crate::card::pack(4, self@.high as u8) })
            } else {
                Option::<Card>::None
            }),
    {
        if self.major_fdn_high <= 21 {
            Some(Card::new(self.major_fdn_high as u8, Suit::MajorArc))
        } else {
            None
        }
    }

    /// The card may be sent to a foundation from where it now is.
    fn can_remove_card(&self, card: &Card) -> (r: bool)
        requires
            self.ok(),
            card.in_deck(),
        ensures
            r == can_remove(self@, *card),
    {
        if card.suit().index() == 4 {
            let r = card.rank() as i8;
            (r == self.major_fdn_low + 1) || (r == self.major_fdn_high - 1)
        } else if self.cell.is_some() {
            false
        } else {
            let fdn = self.minor_fdns[card.suit().index() as usize];
            proof {
                assert(self@.minors[card.spec_suit_index() as int] == fdn as int);
            }
            card.rank() == fdn + 1
        }
    }

    /// Length of the longest chain at the top of the cascade under the
    /// can-place-on relation: the number of cards movable as a unit.
    pub fn get_stack_size(cascade: &Vec<Card>) -> (r: u8)
        requires
            cascade@.len() <= 70,
            forall|j: int| 0 <= j < cascade@.len() ==> (#[trigger] cascade@[j]).wf(),
        ensures
            r as int == stack_size(cascade@),
    {
        let len = cascade.len();
        if len < 2 {
            return len as u8;
        }
        let mut i: usize = len - 1;
        let mut size: u8 = 1;
        while i >= 1 && cascade[i].can_place_on(&cascade[i - 1])
            invariant
                0 <= i <= len - 1,
                len == cascade@.len(),
                2 <= len <= 70,
                forall|j: int| 0 <= j < cascade@.len() ==> (#[trigger] cascade@[j]).wf(),
                size as int == len - i,
                forall|k: int|
                    i <= k < len - 1 ==> (#[trigger] cascade@[k + 1]).spec_can_place_on(
                        cascade@[k],
                    ),
            decreases i,
        {
            size = size + 1;
            i = i - 1;
        }
        proof {
            lemma_stack_size_chain(cascade@, i as int);
        }
        size
    }

    /// Advance the foundations by one removed card.
    fn update_foundation(&mut self, removed: &Card)
        requires
            old(self).ok(),
            removed.in_deck(),
            fdn_pre(old(self)@, *removed),
        ensures
            final(self)@ == fdn_put(old(self)@, *removed),
    {
        if removed.suit().index() == 4 {
            let r = removed.rank() as i8;
            let mut new_low = self.major_fdn_low;
            let mut new_high = self.major_fdn_high;
            if r == self.major_fdn_low + 1 {
                new_low = self.major_fdn_low + 1;
            }
            if r == self.major_fdn_high - 1 {
                new_high = self.major_fdn_high - 1;
            }
            if (new_low != self.major_fdn_low || new_high != self.major_fdn_high) && new_low + 1
                >= new_high {
                self.major_fdn_low = 21;
                self.major_fdn_high = 21;
            } else {
                self.major_fdn_low = new_low;
                self.major_fdn_high = new_high;
            }
            proof {
                assert(final(self)@ =~= fdn_put(old(self)@, *removed));
            }
        } else {
            let su = removed.suit().index() as usize;
            let cur = self.minor_fdns[su];
            self.minor_fdns[su] = cur + 1;
            proof {
                assert(final(self)@.minors =~= fdn_put(old(self)@, *removed).minors);
                assert(final(self)@ =~= fdn_put(old(self)@, *removed));
            }
        }
    }

    /// Apply one move: the source and target of `m` must satisfy the move's
    /// preconditions. A cascade-to-cascade move pops `count` cards one by one
    /// and pushes each on the target; the other shapes move a single card.
    pub fn apply_move(&mut self, m: &CardMove)
        requires
            old(self).ok(),
            m.wf(),
            apply_pre(old(self)@, *m),
        ensures
            final(self)@ == apply_move_spec(old(self)@, *m),
            final(self).ok(),
            play_distinct(old(self)@) ==> play_distinct(final(self)@),
            (conserved(old(self)@) && legal_move(old(self)@, *m)) ==> conserved(final(self)@),
    {
        proof {
            if conserved(old(self)@) && legal_move(old(self)@, *m) {
                lemma_apply_conserves(old(self)@, *m);
            }
        }
        proof {
            assert(old(self)@.cascades.len() == 11);
            lemma_apply_play_le(old(self)@, *m);
            if play_distinct(old(self)@) {
                assert forall|c: Card|
                    #[trigger] play_mset(apply_move_spec(old(self)@, *m)).count(c) <= 1 by {
                    assert(play_mset(apply_move_spec(old(self)@, *m)).count(c) <= play_mset(
                        old(self)@,
                    ).count(c));
                }
            }
        }
        if m.from < CASCADE_COUNT && m.to < CASCADE_COUNT {
            let f = m.from as usize;
            let t = m.to as usize;
            let count = m.count as usize;
            let ghost src = old(self)@.cascades[f as int];
            let mut tmp: Vec<Card> = Vec::new();
            let mut k: usize = 0;
            proof {
                assert(self@ =~~= (BoardModel {
                    cascades: old(self)@.cascades.update(f as int, src.take(src.len() - 0)),
                    ..old(self)@
                }));
                assert(tmp@ =~= src.subrange(src.len() - 0, src.len() as int).reverse());
            }
            while k < count
                invariant
                    k <= count,
                    count <= src.len(),
                    f < 11,
                    t < 11,
                    f != t,
                    old(self)@.cascades.len() == 11,
                    src == old(self)@.cascades[f as int],
                    self.cascades@.len() == 11,
                    self@ == (BoardModel {
                        cascades: old(self)@.cascades.update(
                            f as int,
                            src.take(src.len() - k),
                        ),
                        ..old(self)@
                    }),
                    tmp@ == src.subrange(src.len() - k, src.len() as int).reverse(),
                decreases count - k,
            {
                proof {
                    assert(self@.cascades[f as int].len() == src.len() - k);
                }
                let ghost before = self@;
                let c = self.cascades[f].pop().unwrap();
                tmp.push(c);
                proof {
                    let target = BoardModel {
                        cascades: old(self)@.cascades.update(
                            f as int,
                            src.take(src.len() - (k + 1)),
                        ),
                        ..old(self)@
                    };
                    assert(self@.cascades[f as int] == before.cascades[f as int].drop_last());
                    assert(self@.cascades[f as int] =~= src.take(src.len() - (k + 1)));
                    assert forall|i: int| 0 <= i < 11 && i != f as int implies self@.cascades[i]
                        == target.cascades[i] by {
                        assert(self@.cascades[i] == before.cascades[i]);
                    }
                    assert(self@.cascades =~= target.cascades);
                    assert(self@ =~= target);
                    assert(c == src[src.len() - (k + 1)]);
                    assert(tmp@ =~= src.subrange(src.len() - (k + 1), src.len() as int).reverse());
                }
                k = k + 1;
            }
            let ghost mid = self@;
            let mut k2: usize = 0;
            proof {
                assert(self@ =~~= (BoardModel {
                    cascades: mid.cascades.update(
                        t as int,
                        mid.cascades[t as int] + tmp@.take(0),
                    ),
                    ..mid
                }));
            }
            while k2 < tmp.len()
                invariant
                    k2 <= tmp@.len(),
                    t < 11,
                    mid.cascades.len() == 11,
                    self.cascades@.len() == 11,
                    self@ == (BoardModel {
                        cascades: mid.cascades.update(
                            t as int,
                            mid.cascades[t as int] + tmp@.take(k2 as int),
                        ),
                        ..mid
                    }),
                decreases tmp@.len() - k2,
            {
                let ghost before2 = self@;
                let c = tmp[k2];
                self.cascades[t].push(c);
                proof {
                    let target = BoardModel {
                        cascades: mid.cascades.update(
                            t as int,
                            mid.cascades[t as int] + tmp@.take(k2 + 1),
                        ),
                        ..mid
                    };
                    assert(self@.cascades[t as int] == before2.cascades[t as int].push(c));
                    assert(self@.cascades[t as int] =~= mid.cascades[t as int] + tmp@.take(
                        k2 + 1,
                    ));
                    assert forall|i: int| 0 <= i < 11 && i != t as int implies self@.cascades[i]
                        == target.cascades[i] by {
                        assert(self@.cascades[i] == before2.cascades[i]);
                    }
                    assert(self@.cascades =~= target.cascades);
                    assert(self@ =~= target);
                }
                k2 = k2 + 1;
            }
            proof {
                assert(tmp@.take(tmp@.len() as int) =~= tmp@);
                assert(self@ =~~= apply_move_spec(old(self)@, *m));
                lemma_apply_ok(old(self)@, *m);
            }
        } else if m.to == FOUNDATION {
            if m.from == CELL {
                let c = self.cell.unwrap();
                self.cell = None;
                self.update_foundation(&c);
                proof {
                    assert(self@ =~~= apply_move_spec(old(self)@, *m));
                    lemma_apply_ok(old(self)@, *m);
                }
            } else {
                let f = m.from as usize;
                proof {
                    assert(self@.cascades[f as int].len() > 0);
                }
                let c = self.cascades[f].pop().unwrap();
                proof {
                    assert(self@.cascades =~~= old(self)@.cascades.update(
                        f as int,
                        old(self)@.cascades[f as int].drop_last(),
                    ));
                    lemma_casc_cards_update(
                        old(self)@.cascades,
                        f as int,
                        old(self)@.cascades[f as int].drop_last(),
                    );
                }
                self.update_foundation(&c);
                proof {
                    assert(self@ =~~= apply_move_spec(old(self)@, *m));
                    lemma_apply_ok(old(self)@, *m);
                }
            }
        } else if m.from == CELL {
            let t = m.to as usize;
            let c = self.cell.unwrap();
            self.cascades[t].push(c);
            self.cell = None;
            proof {
                assert(self@ =~~= apply_move_spec(old(self)@, *m));
                lemma_apply_ok(old(self)@, *m);
            }
        } else {
            let f = m.from as usize;
            proof {
                assert(self@.cascades[f as int].len() > 0);
            }
            let c = self.cascades[f].pop().unwrap();
            self.cell = Some(c);
            proof {
                assert(self@ =~~= apply_move_spec(old(self)@, *m));
                lemma_apply_ok(old(self)@, *m);
            }
        }
    }
    /// All auto-moves of one round, judged on the board as it now stands,
    /// appended to `moves`: eligible cascades in index order, then the cell.
    pub fn enumerate_auto_moves(&self, moves: &mut Vec<CardMove>)
        requires
            self.ok(),
        ensures
            final(moves)@ == old(moves)@ + auto_list(self@),
    {
        let mut i: usize = 0;
        while i < 11
            invariant
                self.ok(),
                i <= 11,
                moves@ == old(moves)@ + auto_list_upto(self@, i as int),
            decreases 11 - i,
        {
            let n = self.cascades[i].len();
            if n > 0 {
                let top = self.cascades[i][n - 1];
                proof {
                    assert(top == self@.cascades[i as int].last());
                }
                if self.can_remove_card(&top) {
                    moves.push(CardMove::new(i as u8, FOUNDATION, 1));
                }
            }
            proof {
                assert(moves@ =~= old(moves)@ + auto_list_upto(self@, i + 1));
            }
            i = i + 1;
        }
        let copt = self.cell;
        match copt {
            Some(c) => {
                if self.can_remove_card(&c) {
                    moves.push(CardMove::new(CELL, FOUNDATION, 1));
                }
            },
            None => {},
        }
        proof {
            assert(moves@ =~= old(moves)@ + auto_list(self@));
        }
    }

    /// Perform one round of auto-moves: every card eligible as the round
    /// begins goes to its foundation. Returns whether anything was eligible.
    fn auto_round_step(&mut self) -> (progress: bool)
        requires
            old(self).ok(),
            play_distinct(old(self)@),
        ensures
            final(self).ok(),
            play_distinct(final(self)@),
            progress == any_auto(old(self)@),
            final(self)@ == (if any_auto(old(self)@) {
                auto_round(old(self)@)
            } else {
                old(self)@
            }),
            conserved(old(self)@) ==> conserved(final(self)@),
    {
        let ghost m0 = self@;
        let mut elig: Vec<bool> = Vec::new();
        let mut progress = false;
        let mut i: usize = 0;
        while i < 11
            invariant
                self.ok(),
                self@ == m0,
                i <= 11,
                elig@.len() == i,
                forall|j: int| 0 <= j < i ==> elig@[j] == cascade_eligible(m0, j),
                progress == exists|j: int| 0 <= j < i && cascade_eligible(m0, j),
            decreases 11 - i,
        {
            let n = self.cascades[i].len();
            let e = if n > 0 {
                let top = self.cascades[i][n - 1];
                proof {
                    assert(top == m0.cascades[i as int].last());
                }
                self.can_remove_card(&top)
            } else {
                false
            };
            elig.push(e);
            proof {
                if e {
                    assert(cascade_eligible(m0, i as int));
                }
            }
            progress = progress || e;
            i = i + 1;
        }
        let copt = self.cell;
        let cell_elig = match copt {
            Some(c) => self.can_remove_card(&c),
            None => false,
        };
        progress = progress || cell_elig;
        proof {
            assert(progress == any_auto(m0));
        }
        if !progress {
            return false;
        }
        let mut i2: usize = 0;
        while i2 < 11
            invariant
                i2 <= 11,
                elig@.len() == 11,
                forall|j: int| 0 <= j < 11 ==> elig@[j] == cascade_eligible(m0, j),
                cell_elig == cell_eligible(m0),
                board_ok(m0),
                play_distinct(m0),
                self.ok(),
                round_from(m0, self@, i2 as int) == auto_round(m0),
                self@.cell == m0.cell,
                self@.cascades.len() == 11,
                forall|j: int| i2 <= j < 11 ==> self@.cascades[j] == m0.cascades[j],
                forall|s: int|
                    0 <= s < 4 && minor_auto_pending(m0, s, i2 as int) ==> self@.minors[s]
                        == m0.minors[s],
                major_low_pending(m0, i2 as int) ==> self@.low == m0.low,
                major_high_pending(m0, i2 as int) ==> self@.high == m0.high,
                (cell_eligible(m0) && m0.cell.unwrap().is_major()
                    && m0.cell.unwrap().spec_rank() as int == m0.low + 1) ==> self@.low == m0.low,
                (cell_eligible(m0) && m0.cell.unwrap().is_major()
                    && m0.cell.unwrap().spec_rank() as int == m0.high - 1) ==> self@.high
                    == m0.high,
                forall|c: Card| #[trigger] play_mset(self@).count(c) <= play_mset(m0).count(c),
                conserved(m0) ==> conserved(self@),
            decreases 11 - i2,
        {
            if elig[i2] {
                let ghost prev = self@;
                let ghost top = m0.cascades[i2 as int].last();
                proof {
                    assert(cascade_eligible(m0, i2 as int));
                    assert(prev.cascades[i2 as int] == m0.cascades[i2 as int]);
                    assert(top.in_deck()) by {
                        assert(m0.cascades[i2 as int][m0.cascades[i2 as int].len() - 1].in_deck());
                    }
                    if !top.is_major() {
                        let s = top.spec_suit_index() as int;
                        assert(minor_auto_pending(m0, s, i2 as int));
                        assert(prev.minors[s] == m0.minors[s]);
                        assert(fdn_pre(prev, top));
                        assert(can_remove(prev, top));
                    } else {
                        if top.spec_rank() as int == m0.low + 1 {
                            assert(major_low_pending(m0, i2 as int));
                            assert(prev.low == m0.low);
                        } else {
                            assert(top.spec_rank() as int == m0.high - 1);
                            assert(major_high_pending(m0, i2 as int));
                            assert(prev.high == m0.high);
                        }
                        assert(can_remove(prev, top));
                    }
                    assert(cascade_eligible(prev, i2 as int));
                    assert(legal_move(prev, CardMove { from: i2 as u8, to: FOUNDATION, count: 1 }));
                    assert(apply_pre(prev, CardMove { from: i2 as u8, to: FOUNDATION, count: 1 }));
                }
                let mv = CardMove::new(i2 as u8, FOUNDATION, 1);
                self.apply_move(&mv);
                proof {
                    assert(self@ == top_to_fdn(prev, i2 as int));
                    assert(round_from(m0, prev, i2 as int) == round_from(
                        m0,
                        self@,
                        i2 as int + 1,
                    ));
                    lemma_top_to_fdn_play(prev, i2 as int);
                    assert forall|c: Card| #[trigger] play_mset(self@).count(c) <= play_mset(
                        m0,
                    ).count(c) by {
                        assert(play_mset(self@).insert(top).count(c) == play_mset(prev).count(c));
                    }
                    assert(self@.cell == prev.cell);
                    lemma_major_step(m0, prev, i2 as int, top);
                    assert forall|s: int|
                        0 <= s < 4 && minor_auto_pending(m0, s, i2 as int + 1) implies self@.minors[s]
                        == m0.minors[s] by {
                        assert(minor_auto_pending(m0, s, i2 as int));
                        assert(prev.minors[s] == m0.minors[s]);
                        if !top.is_major() && top.spec_suit_index() as int == s {
                            let j = choose|j: int|
                                i2 as int + 1 <= j < 11 && cascade_eligible(m0, j) && !(
                                #[trigger] m0.cascades[j]).last().is_major()
                                    && m0.cascades[j].last().spec_suit_index() as int == s;
                            let c2 = m0.cascades[j].last();
                            assert(c2.spec_rank() == top.spec_rank()) by {
                                assert(c2.spec_rank() as int == m0.minors[s] + 1);
                                assert(top.spec_rank() as int == m0.minors[s] + 1);
                            }
                            assert(c2 == top) by {
                                assert(c2.value == 32 * (c2.value / 32) + (c2.value % 32));
                                assert(top.value == 32 * (top.value / 32) + (top.value % 32));
                            }
                            assert(m0.cascades[i2 as int].contains(top)) by {
                                assert(m0.cascades[i2 as int][m0.cascades[i2 as int].len() - 1]
                                    == top);
                            }
                            assert(m0.cascades[j].contains(top)) by {
                                assert(m0.cascades[j][m0.cascades[j].len() - 1] == top);
                            }
                            lemma_casc_mset_two(m0.cascades, i2 as int, j, top);
                            assert(play_mset(m0).count(top) >= 2);
                            assert(false);
                        }
                    }
                }
            } else {
                proof {
                    assert(round_from(m0, self@, i2 as int) == round_from(
                        m0,
                        self@,
                        i2 as int + 1,
                    ));
                }
            }
            i2 = i2 + 1;
        }
        if cell_elig {
            let ghost prev = self@;
            let c = self.cell.unwrap();
            proof {
                assert(c == m0.cell.unwrap());
                assert(c.is_major()) by {
                    if !c.is_major() {
                        assert(!can_remove(m0, c));
                    }
                }
                assert(apply_pre(prev, CardMove { from: CELL, to: FOUNDATION, count: 1 }));
            }
            let mv = CardMove::new(CELL, FOUNDATION, 1);
            self.apply_move(&mv);
            proof {
                assert(self@ == cell_to_fdn(prev));
                assert(round_from(m0, prev, 11) == cell_to_fdn(prev));
                lemma_cell_to_fdn_play(prev);
                assert forall|c2: Card| #[trigger] play_mset(self@).count(c2) <= play_mset(
                    m0,
                ).count(c2) by {
                    assert(play_mset(self@).insert(prev.cell.unwrap()).count(c2) == play_mset(
                        prev,
                    ).count(c2));
                }
            }
        } else {
            proof {
                assert(round_from(m0, self@, 11) == self@);
            }
        }
        true
    }

    /// Sort key of a cascade: the packed byte of its bottom card; empty
    /// cascades sort last.
    fn cascade_key(c: &Vec<Card>) -> (r: u32)
        ensures
            r == rank_of(c@),
    {
        if c.len() == 0 {
            0xffff_ffffu32
        } else {
            c[0].packed() as u32
        }
    }

    /// Put the cascades into the canonical order: stable sort by cascade
    /// rank.
    pub fn normalize_order(&mut self)
        requires
            old(self).ok(),
        ensures
            final(self).ok(),
            final(self)@ == (BoardModel {
                cascades: sort_casc(old(self)@.cascades),
                ..old(self)@
            }),
            casc_sorted(final(self)@.cascades),
            play_distinct(old(self)@) ==> play_distinct(final(self)@),
            conserved(old(self)@) ==> conserved(final(self)@),
    {
        let ghost orig = self@.cascades;
        let mut sorted: Vec<Vec<Card>> = Vec::new();
        let mut k: usize = 0;
        while k < 11
            invariant
                k <= 11,
                orig.len() == 11,
                self.cell == old(self).cell,
                self.major_fdn_low == old(self).major_fdn_low,
                self.major_fdn_high == old(self).major_fdn_high,
                self.minor_fdns@ == old(self).minor_fdns@,
                self.cascades@.len() == 11 - k,
                forall|j: int|
                    0 <= j < 11 - k ==> (#[trigger] self.cascades@[j])@ == orig[j + k],
                Seq::new(sorted@.len(), |i: int| sorted@[i]@) =~= sort_casc(orig.take(k as int)),
            decreases 11 - k,
        {
            let c = self.cascades.remove(0);
            let ghost cv = c@;
            let ghost acc = Seq::new(sorted@.len(), |i: int| sorted@[i]@);
            let key = Board::cascade_key(&c);
            let mut pos: usize = 0;
            while pos < sorted.len() && Board::cascade_key(&sorted[pos]) <= key
                invariant
                    pos <= sorted@.len(),
                    key == rank_of(cv),
                    acc == Seq::new(sorted@.len(), |i: int| sorted@[i]@),
                    forall|j: int| 0 <= j < pos ==> rank_of(#[trigger] acc[j]) <= rank_of(cv),
                decreases sorted@.len() - pos,
            {
                proof {
                    assert(acc[pos as int] == sorted@[pos as int]@);
                }
                pos = pos + 1;
            }
            proof {
                lemma_insert_casc_at(acc, cv, pos as int);
                assert(pos < sorted@.len() ==> rank_of(acc[pos as int]) > rank_of(cv));
            }
            sorted.insert(pos, c);
            proof {
                assert(Seq::new(sorted@.len(), |i: int| sorted@[i]@) =~= acc.insert(
                    pos as int,
                    cv,
                ));
                assert(orig.take(k + 1).drop_last() =~= orig.take(k as int));
                assert(orig.take(k + 1).last() == orig[k as int]);
                assert(insert_casc(sort_casc(orig.take(k as int)), orig[k as int]) == sort_casc(
                    orig.take(k + 1),
                ));
                assert(cv == orig[k as int]);
                assert(forall|j: int|
                    0 <= j < 11 - (k + 1) ==> (#[trigger] self.cascades@[j])@ == orig[j + k + 1]);
            }
            k = k + 1;
        }
        self.cascades = sorted;
        proof {
            assert(orig.take(11) =~= orig);
            assert(self@.cascades =~= sort_casc(orig));
            assert(self@ =~~= (BoardModel { cascades: sort_casc(orig), ..old(self)@ }));
            lemma_sort_casc_props(orig);
            lemma_casc_cards_mset(sort_casc(orig));
            lemma_casc_cards_mset(orig);
            assert forall|i: int, j: int|
                0 <= i < 11 && 0 <= j < self@.cascades[i].len() implies (
            #[trigger] self@.cascades[i][j]).in_deck() by {
                let x = self@.cascades[i];
                assert(sort_casc(orig).contains(x)) by {
                    assert(sort_casc(orig)[i] == x);
                }
                assert(orig.contains(x));
                let i0 = choose|i0: int| 0 <= i0 < orig.len() && orig[i0] == x;
                assert(old(self)@.cascades[i0][j].in_deck());
            }
            if play_distinct(old(self)@) {
                assert forall|c: Card| #[trigger] play_mset(self@).count(c) <= 1 by {
                    assert(play_mset(self@).count(c) == play_mset(old(self)@).count(c));
                }
            }
            if conserved(old(self)@) {
                assert(implied_mset(self@) =~= implied_mset(old(self)@)) by {
                    assert(implied_majors(self@) == implied_majors(old(self)@));
                    assert(forall|s: int|
                        0 <= s < 4 ==> #[trigger] implied_minor(self@, s) == implied_minor(
                            old(self)@,
                            s,
                        ));
                }
                assert forall|c: Card|
                    board_mset(self@).count(c) == board_mset(old(self)@).count(c) by {
                    assert(play_mset(self@).count(c) == play_mset(old(self)@).count(c));
                    assert(implied_mset(self@).count(c) == implied_mset(old(self)@).count(c));
                }
                assert(board_mset(self@) =~= board_mset(old(self)@));
                assert(board_mset(self@) == Card::full_deck().to_multiset());
            }
        }
    }

    /// Fully normalize the board: auto-moves to the fixed point, then the
    /// canonical cascade order.
    pub fn normalize(&mut self)
        requires
            old(self).ok(),
            play_distinct(old(self)@),
        ensures
            final(self).ok(),
            play_distinct(final(self)@),
            final(self)@ == normalize_spec(old(self)@),
            casc_sorted(final(self)@.cascades),
            conserved(old(self)@) ==> conserved(final(self)@),
    {
        self.apply_auto_moves();
        self.normalize_order();
    }

    /// Heuristic priority of the board at search depth `step`: cascade
    /// values, minus the cards still on the cascades, minus a penalty for an
    /// occupied cell, minus the depth.
    pub fn score(&self, step: u32) -> (r: i32)
        requires
            self.ok(),
            step <= MAX_SCORE_STEP,
        ensures
            r as int == score_spec(self@, step as int),
    {
        let ghost cs = self@.cascades;
        let mut scores: i32 = 0;
        let mut lens: i32 = 0;
        let mut i: usize = 0;
        while i < 11
            invariant
                self.ok(),
                cs == self@.cascades,
                i <= 11,
                scores as int == sum_casc_score(cs.take(i as int)),
                lens as int == casc_cards(cs.take(i as int)),
                0 <= lens <= 70,
                0 <= scores <= 140 * i,
            decreases 11 - i,
        {
            let c = &self.cascades[i];
            proof {
                lemma_casc_cards_le(cs, i as int);
                assert(cs[i as int].len() <= 70);
                assert(forall|j: int|
                    0 <= j < c@.len() ==> (#[trigger] c@[j]).in_deck() && c@[j].wf());
                lemma_stack_size_bounds(c@);
            }
            let n = c.len();
            let ss = Board::get_stack_size(c);
            let sc: i32 = if n == 0 {
                20
            } else if n == ss as usize {
                2 * (ss as i32)
            } else {
                ss as i32
            };
            proof {
                assert(sc as int == casc_score(cs[i as int]));
                assert(cs.take(i + 1).drop_last() =~= cs.take(i as int));
                assert(cs.take(i + 1).last() == cs[i as int]);
                lemma_casc_cards_take_le(cs, i + 1);
            }
            scores = scores + sc;
            lens = lens + (n as i32);
            i = i + 1;
        }
        proof {
            assert(cs.take(11) =~= cs);
        }
        let pen: i32 = match self.cell {
            Some(_) => 10,
            None => 0,
        };
        scores - lens - pen - (step as i32)
    }

    /// Apply auto-moves round after round until no accessible card can go to
    /// a foundation.
    pub fn apply_auto_moves(&mut self)
        requires
            old(self).ok(),
            play_distinct(old(self)@),
        ensures
            final(self).ok(),
            play_distinct(final(self)@),
            final(self)@ == auto_fix(old(self)@),
            !any_auto(final(self)@),
            conserved(old(self)@) ==> conserved(final(self)@),
    {
        let mut done = false;
        while !done
            invariant
                self.ok(),
                play_distinct(self@),
                auto_fix(self@) == auto_fix(old(self)@),
                done ==> !any_auto(self@),
                conserved(old(self)@) ==> conserved(self@),
            decreases total_cards(self@), (if done {
                0int
            } else {
                1int
            }),
        {
            let ghost prev = self@;
            let progress = self.auto_round_step();
            if !progress {
                done = true;
                proof {
                    assert(auto_fix(prev) == prev);
                }
            } else {
                proof {
                    lemma_round_decreases(prev);
                    assert(auto_fix(prev) == auto_fix(auto_round(prev)));
                }
            }
        }
        proof {
            assert(auto_fix(self@) == self@);
        }
    }
}

/// The card sequences of a vector of cascades.
pub open spec fn views_of(cs: Seq<Vec<Card>>) -> Seq<Seq<Card>> {
    Seq::new(cs.len(), |i: int| cs[i]@)
}

/// The card was seen by the scan in `Board::new` before position `(i, j)`:
/// it is the cell card or lies in a cascade before that position.
pub open spec fn scanned(
    cell: Option<Card>,
    cs: Seq<Seq<Card>>,
    i: int,
    j: int,
    c: Card,
) -> bool {
    cell == Some(c) || exists|a: int, b: int|
        0 <= a < cs.len() && 0 <= b < cs[a].len() && (a < i || (a == i && b < j)) && (
        #[trigger] cs[a][b]) == c
}

/// The state of the foundation scan: which ranks were seen so far per suit.
pub open spec fn scan_ok(
    cell: Option<Card>,
    cs: Seq<Seq<Card>>,
    i: int,
    j: int,
    minor_min: Seq<u8>,
    major_seen: bool,
    major_min: u8,
    major_max: u8,
) -> bool {
    &&& minor_min.len() == 4
    &&& forall|s: int|
        0 <= s < 4 ==> ((#[trigger] minor_min[s] == 14) <==> !(exists|c: Card|
            #[trigger] scanned(cell, cs, i, j, c) && !c.is_major() && c.spec_suit_index() as int
                == s))
    &&& forall|s: int|
        0 <= s < 4 && #[trigger] minor_min[s] != 14 ==> (exists|c: Card|
            scanned(cell, cs, i, j, c) && !c.is_major() && c.spec_suit_index() as int == s
                && c.spec_rank() == minor_min[s])
    &&& forall|c: Card|
        #[trigger] scanned(cell, cs, i, j, c) && !c.is_major() ==> c.spec_rank() >= minor_min[(
        c.spec_suit_index() as int)]
    &&& (major_seen <==> exists|c: Card| #[trigger] scanned(cell, cs, i, j, c) && c.is_major())
    &&& (major_seen ==> (exists|c: Card|
        #[trigger] scanned(cell, cs, i, j, c) && c.is_major() && c.spec_rank() == major_min)
        && (exists|c: Card|
        #[trigger] scanned(cell, cs, i, j, c) && c.is_major() && c.spec_rank() == major_max))
    &&& forall|c: Card|
        #[trigger] scanned(cell, cs, i, j, c) && c.is_major() ==> major_min <= c.spec_rank()
            <= major_max
}


/// The scan facts carry over between two positions that have seen the same
/// cards.
proof fn lemma_scan_ok_transfer(
    cell: Option<Card>,
    cs: Seq<Seq<Card>>,
    i1: int,
    j1: int,
    i2: int,
    j2: int,
    mm: Seq<u8>,
    seen: bool,
    mn: u8,
    mx: u8,
)
    requires
        forall|c: Card| #[trigger] scanned(cell, cs, i1, j1, c) <==> scanned(cell, cs, i2, j2, c),
        scan_ok(cell, cs, i1, j1, mm, seen, mn, mx),
    ensures
        scan_ok(cell, cs, i2, j2, mm, seen, mn, mx),
{
    assert forall|s: int| 0 <= s < 4 implies ((#[trigger] mm[s] == 14) <==> !(exists|c: Card|
        #[trigger] scanned(cell, cs, i2, j2, c) && !c.is_major() && c.spec_suit_index() as int
            == s)) by {
        if exists|c: Card|
            #[trigger] scanned(cell, cs, i2, j2, c) && !c.is_major() && c.spec_suit_index() as int
                == s {
            let c = choose|c: Card|
                #[trigger] scanned(cell, cs, i2, j2, c) && !c.is_major()
                    && c.spec_suit_index() as int == s;
            assert(scanned(cell, cs, i1, j1, c));
            assert(mm[s] != 14);
        }
        if mm[s] != 14 {
            let c = choose|c: Card|
                scanned(cell, cs, i1, j1, c) && !c.is_major() && c.spec_suit_index() as int == s
                    && c.spec_rank() == mm[s];
            assert(scanned(cell, cs, i2, j2, c));
        }
    }
    assert forall|s: int| 0 <= s < 4 && #[trigger] mm[s] != 14 implies (exists|c: Card|
        scanned(cell, cs, i2, j2, c) && !c.is_major() && c.spec_suit_index() as int == s
            && c.spec_rank() == mm[s]) by {
        let c = choose|c: Card|
            scanned(cell, cs, i1, j1, c) && !c.is_major() && c.spec_suit_index() as int == s
                && c.spec_rank() == mm[s];
        assert(scanned(cell, cs, i2, j2, c));
    }
    assert forall|c: Card| #[trigger] scanned(cell, cs, i2, j2, c) && !c.is_major() implies
        c.spec_rank() >= mm[(c.spec_suit_index() as int)] by {
        assert(scanned(cell, cs, i1, j1, c));
    }
    assert(seen <==> exists|c: Card| #[trigger] scanned(cell, cs, i2, j2, c) && c.is_major()) by {
        if exists|c: Card| #[trigger] scanned(cell, cs, i2, j2, c) && c.is_major() {
            let c = choose|c: Card| #[trigger] scanned(cell, cs, i2, j2, c) && c.is_major();
            assert(scanned(cell, cs, i1, j1, c));
        }
        if seen {
            let c = choose|c: Card|
                #[trigger] scanned(cell, cs, i1, j1, c) && c.is_major() && c.spec_rank() == mn;
            assert(scanned(cell, cs, i2, j2, c));
        }
    }
    if seen {
        assert(exists|c: Card|
            #[trigger] scanned(cell, cs, i2, j2, c) && c.is_major() && c.spec_rank() == mn) by {
            let c = choose|c: Card|
                #[trigger] scanned(cell, cs, i1, j1, c) && c.is_major() && c.spec_rank() == mn;
            assert(scanned(cell, cs, i2, j2, c));
        }
        assert(exists|c: Card|
            #[trigger] scanned(cell, cs, i2, j2, c) && c.is_major() && c.spec_rank() == mx) by {
            let c = choose|c: Card|
                #[trigger] scanned(cell, cs, i1, j1, c) && c.is_major() && c.spec_rank() == mx;
            assert(scanned(cell, cs, i2, j2, c));
        }
    }
    assert forall|c: Card| #[trigger] scanned(cell, cs, i2, j2, c) && c.is_major() implies mn
        <= c.spec_rank() <= mx by {
        assert(scanned(cell, cs, i1, j1, c));
    }
}

impl Board {
    /// Build a board from the given cascades and cell card, computing the
    /// foundation pointers from the cards present: each suit's foundation
    /// starts just below the lowest rank present, and the major pointers just
    /// outside the ranks present; a suit with no card on the board is
    /// complete.
    pub fn new(cascades: Vec<Vec<Card>>, cell: Option<Card>) -> (r: Board)
        requires
            cascades@.len() == 11,
            forall|i: int, j: int|
                0 <= i < 11 && 0 <= j < cascades@[i]@.len() ==> (#[trigger] cascades@[i]@[j]).in_deck(),
            cell is Some ==> cell.unwrap().in_deck(),
            casc_cards(views_of(cascades@)) + (if cell is Some {
                1nat
            } else {
                0nat
            }) <= 70,
            forall|c: Card| #[trigger] play_of(cell, views_of(cascades@)).count(c) <= 1,
        ensures
            r.ok(),
            play_distinct(r@),
            r@.cell == cell,
            r@.cascades == views_of(cascades@),
            forall|s: int|
                0 <= s < 4 && !suit_present(cell, r@.cascades, s) ==> #[trigger] r@.minors[s]
                    == 13,
            forall|s: int|
                0 <= s < 4 && #[trigger] suit_present(cell, r@.cascades, s) ==> present(
                    cell,
                    r@.cascades,
                    Card { value: crate::card::pack(s as u8, (r@.minors[s] + 1) as u8) },
                ),
            forall|c: Card|
                #[trigger] present(cell, r@.cascades, c) && !c.is_major() ==> c.spec_rank() as int
                    >= r@.minors[(c.spec_suit_index() as int)] + 1,
            !major_present(cell, r@.cascades) ==> r@.low == 21 && r@.high == 21,
            major_present(cell, r@.cascades) ==> present(
                cell,
                r@.cascades,
                Card { value: crate::card::pack(4, (r@.low + 1) as u8) },
            ) && present(
                cell,
                r@.cascades,
                Card { value: crate::card::pack(4, (r@.high - 1) as u8) },
            ),
            forall|c: Card|
                #[trigger] present(cell, r@.cascades, c) && c.is_major() ==> r@.low + 1
                    <= c.spec_rank() as int <= r@.high - 1,
    {
        let ghost cv = views_of(cascades@);
        proof {
            assert(cv.len() == 11);
        }
        let mut minor_min: Vec<u8> = Vec::new();
        let mut t: usize = 0;
        while t < 4
            invariant
                t <= 4,
                minor_min@.len() == t,
                forall|s: int| 0 <= s < t ==> #[trigger] minor_min@[s] == 14,
            decreases 4 - t,
        {
            minor_min.push(14);
            t = t + 1;
        }
        let mut major_seen = false;
        let mut major_min: u8 = 0;
        let mut major_max: u8 = 0;
        // take the cell card into account first
        match cell {
            Some(c) => {
                let su = c.suit().index();
                let rk = c.rank();
                if su == 4 {
                    major_seen = true;
                    major_min = rk;
                    major_max = rk;
                } else {
                    minor_min[su as usize] = rk;
                }
                proof {
                    assert forall|x: Card| #[trigger] scanned(cell, cv, 0, 0, x) implies x
                        == c by {}
                    assert(scanned(cell, cv, 0, 0, c));
                    assert(scan_ok(cell, cv, 0, 0, minor_min@, major_seen, major_min, major_max));
                }
            },
            None => {
                proof {
                    assert forall|x: Card| !(#[trigger] scanned(cell, cv, 0, 0, x)) by {}
                    assert(scan_ok(cell, cv, 0, 0, minor_min@, major_seen, major_min, major_max));
                }
            },
        }
        let mut i: usize = 0;
        while i < 11
            invariant
                i <= 11,
                cascades@.len() == 11,
                cv == views_of(cascades@),
                forall|a: int, b: int|
                    0 <= a < 11 && 0 <= b < cv[a].len() ==> (#[trigger] cv[a][b]).in_deck(),
                cell is Some ==> cell.unwrap().in_deck(),
                scan_ok(cell, cv, i as int, 0, minor_min@, major_seen, major_min, major_max),
                minor_min@.len() == 4,
                major_seen ==> major_min <= major_max <= 21,
                forall|s: int| 0 <= s < 4 ==> 2 <= #[trigger] minor_min@[s] <= 14,
            decreases 11 - i,
        {
            let mut j: usize = 0;
            while j < cascades[i].len()
                invariant
                    i < 11,
                    j <= cascades@[i as int]@.len(),
                    cascades@.len() == 11,
                    cv == views_of(cascades@),
                    forall|a: int, b: int|
                        0 <= a < 11 && 0 <= b < cv[a].len() ==> (#[trigger] cv[a][b]).in_deck(),
                    cell is Some ==> cell.unwrap().in_deck(),
                    scan_ok(
                        cell,
                        cv,
                        i as int,
                        j as int,
                        minor_min@,
                        major_seen,
                        major_min,
                        major_max,
                    ),
                    minor_min@.len() == 4,
                    major_seen ==> major_min <= major_max <= 21,
                    forall|s: int| 0 <= s < 4 ==> 2 <= #[trigger] minor_min@[s] <= 14,
                decreases cascades@[i as int]@.len() - j,
            {
                let ghost old_mm = minor_min@;
                let ghost old_seen = major_seen;
                let ghost old_min = major_min;
                let ghost old_max = major_max;
                let c = cascades[i][j];
                proof {
                    assert(c == cv[i as int][j as int]);
                    assert(c.in_deck());
                }
                let su = c.suit().index();
                let rk = c.rank();
                if su == 4 {
                    if !major_seen || rk < major_min {
                        major_min = rk;
                    }
                    if !major_seen || rk > major_max {
                        major_max = rk;
                    }
                    major_seen = true;
                } else {
                    if rk < minor_min[su as usize] {
                        minor_min[su as usize] = rk;
                    }
                }
                proof {
                    assert forall|x: Card| #[trigger] scanned(
                        cell,
                        cv,
                        i as int,
                        j + 1,
                        x,
                    ) implies scanned(cell, cv, i as int, j as int, x) || x == c by {
                        if cell != Some(x) {
                            let (a, b): (int, int) = choose|a: int, b: int|
                                0 <= a < cv.len() && 0 <= b < cv[a].len() && (a < i as int || (a
                                    == i as int && b < j + 1)) && (#[trigger] cv[a][b]) == x;
                            if a == i as int && b == j as int {
                                assert(x == c);
                            } else {
                                assert(scanned(cell, cv, i as int, j as int, x));
                            }
                        }
                    }
                    assert(scanned(cell, cv, i as int, j + 1, c)) by {
                        assert(cv[i as int][j as int] == c);
                    }
                    assert forall|x: Card| scanned(cell, cv, i as int, j as int, x) implies
                        #[trigger] scanned(cell, cv, i as int, j + 1, x) by {}
                    assert(scan_ok(
                        cell,
                        cv,
                        i as int,
                        j + 1,
                        minor_min@,
                        major_seen,
                        major_min,
                        major_max,
                    )) by {
                        assert forall|s: int|
                            0 <= s < 4 && #[trigger] minor_min@[s] != 14 implies (exists|x: Card|
                            scanned(cell, cv, i as int, j + 1, x) && !x.is_major()
                                && x.spec_suit_index() as int == s && x.spec_rank()
                                == minor_min@[s]) by {
                            if !c.is_major() && c.spec_suit_index() as int == s && c.spec_rank()
                                == minor_min@[s] {
                                assert(scanned(cell, cv, i as int, j + 1, c));
                            } else {
                                assert(old_mm[s] == minor_min@[s]);
                                let x = choose|x: Card|
                                    scanned(cell, cv, i as int, j as int, x) && !x.is_major()
                                        && x.spec_suit_index() as int == s && x.spec_rank()
                                        == old_mm[s];
                                assert(scanned(cell, cv, i as int, j + 1, x));
                            }
                        }
                        if major_seen {
                            assert(exists|x: Card|
                                #[trigger] scanned(cell, cv, i as int, j + 1, x) && x.is_major()
                                    && x.spec_rank() == major_min) by {
                                if c.is_major() && c.spec_rank() == major_min {
                                    assert(scanned(cell, cv, i as int, j + 1, c));
                                } else {
                                    let x = choose|x: Card|
                                        scanned(cell, cv, i as int, j as int, x) && x.is_major()
                                            && x.spec_rank() == old_min;
                                    assert(scanned(cell, cv, i as int, j + 1, x));
                                }
                            }
                            assert(exists|x: Card|
                                #[trigger] scanned(cell, cv, i as int, j + 1, x) && x.is_major()
                                    && x.spec_rank() == major_max) by {
                                if c.is_major() && c.spec_rank() == major_max {
                                    assert(scanned(cell, cv, i as int, j + 1, c));
                                } else {
                                    let x = choose|x: Card|
                                        scanned(cell, cv, i as int, j as int, x) && x.is_major()
                                            && x.spec_rank() == old_max;
                                    assert(scanned(cell, cv, i as int, j + 1, x));
                                }
                            }
                        }
                    }
                }
                j = j + 1;
            }
            proof {
                assert forall|x: Card| #[trigger] scanned(cell, cv, i + 1, 0, x) implies scanned(
                    cell,
                    cv,
                    i as int,
                    cv[i as int].len() as int,
                    x,
                ) by {
                    if cell != Some(x) {
                        let (a, b): (int, int) = choose|a: int, b: int|
                            0 <= a < cv.len() && 0 <= b < cv[a].len() && (a < i + 1 || (a == i + 1
                                && b < 0)) && (#[trigger] cv[a][b]) == x;
                        assert(a < i as int || (a == i as int && b < cv[i as int].len()));
                    }
                }
                assert forall|x: Card| scanned(cell, cv, i as int, cv[i as int].len() as int, x)
                    implies #[trigger] scanned(cell, cv, i + 1, 0, x) by {}
                lemma_scan_ok_transfer(
                    cell,
                    cv,
                    i as int,
                    cv[i as int].len() as int,
                    i + 1,
                    0,
                    minor_min@,
                    major_seen,
                    major_min,
                    major_max,
                );
            }
            i = i + 1;
        }
        proof {
            assert forall|x: Card| #[trigger] present(cell, cv, x) implies scanned(
                cell,
                cv,
                11,
                0,
                x,
            ) by {}
            assert forall|x: Card| #[trigger] scanned(cell, cv, 11, 0, x) implies present(
                cell,
                cv,
                x,
            ) by {}
        }
        let mut minor_fdns: Vec<u8> = Vec::new();
        let mut t2: usize = 0;
        while t2 < 4
            invariant
                t2 <= 4,
                minor_min@.len() == 4,
                forall|s: int| 0 <= s < 4 ==> 2 <= #[trigger] minor_min@[s] <= 14,
                minor_fdns@.len() == t2,
                forall|s: int|
                    0 <= s < t2 ==> #[trigger] minor_fdns@[s] == (if minor_min@[s] == 14 {
                        13u8
                    } else {
                        (minor_min@[s] - 1) as u8
                    }),
            decreases 4 - t2,
        {
            let mm = minor_min[t2];
            if mm == 14 {
                minor_fdns.push(13);
            } else {
                minor_fdns.push(mm - 1);
            }
            t2 = t2 + 1;
        }
        let major_fdn_low: i8;
        let major_fdn_high: i8;
        if major_seen {
            major_fdn_low = (major_min as i8) - 1;
            major_fdn_high = (major_max as i8) + 1;
        } else {
            major_fdn_low = 21;
            major_fdn_high = 21;
        }
        let r = Board { cell, cascades, major_fdn_low, major_fdn_high, minor_fdns };
        proof {
            assert(r@.cascades =~= cv);
            assert(r@.cell == cell);
            assert(r@.minors.len() == 4);
            assert forall|s: int| 0 <= s < 4 implies 1 <= #[trigger] r@.minors[s] <= 13 by {
                assert(r@.minors[s] == minor_fdns@[s] as int);
            }
            assert forall|s: int|
                0 <= s < 4 && #[trigger] suit_present(cell, r@.cascades, s) implies minor_min@[s]
                != 14 by {
                let c = choose|c: Card|
                    #[trigger] present(cell, cv, c) && !c.is_major() && c.spec_suit_index() as int
                        == s;
                assert(scanned(cell, cv, 11, 0, c));
            }
            assert forall|s: int|
                0 <= s < 4 && !suit_present(cell, r@.cascades, s) implies #[trigger] r@.minors[s]
                == 13 by {
                if minor_min@[s] != 14 {
                    let c = choose|c: Card|
                        scanned(cell, cv, 11, 0, c) && !c.is_major() && c.spec_suit_index() as int
                            == s && c.spec_rank() == minor_min@[s];
                    assert(present(cell, cv, c));
                    assert(suit_present(cell, r@.cascades, s));
                }
            }
            assert forall|s: int|
                0 <= s < 4 && #[trigger] suit_present(cell, r@.cascades, s) implies present(
                cell,
                r@.cascades,
                Card { value: crate::card::pack(s as u8, (r@.minors[s] + 1) as u8) },
            ) by {
                assert(minor_min@[s] != 14);
                let c = choose|c: Card|
                    scanned(cell, cv, 11, 0, c) && !c.is_major() && c.spec_suit_index() as int
                        == s && c.spec_rank() == minor_min@[s];
                assert(r@.minors[s] + 1 == minor_min@[s] as int);
                assert(c.value == crate::card::pack(s as u8, (r@.minors[s] + 1) as u8)) by {
                    assert(c.value == 32 * (c.value / 32) + (c.value % 32));
                }
                assert(present(cell, cv, c));
            }
            if major_seen {
                assert(major_present(cell, r@.cascades)) by {
                    let c = choose|c: Card|
                        scanned(cell, cv, 11, 0, c) && c.is_major() && c.spec_rank() == major_min;
                    assert(present(cell, cv, c));
                }
                assert(present(
                    cell,
                    r@.cascades,
                    Card { value: crate::card::pack(4, (r@.low + 1) as u8) },
                )) by {
                    let c = choose|c: Card|
                        scanned(cell, cv, 11, 0, c) && c.is_major() && c.spec_rank() == major_min;
                    assert(c.value == 32 * (c.value / 32) + (c.value % 32));
                    assert(present(cell, cv, c));
                }
                assert(present(
                    cell,
                    r@.cascades,
                    Card { value: crate::card::pack(4, (r@.high - 1) as u8) },
                )) by {
                    let c = choose|c: Card|
                        scanned(cell, cv, 11, 0, c) && c.is_major() && c.spec_rank() == major_max;
                    assert(c.value == 32 * (c.value / 32) + (c.value % 32));
                    assert(present(cell, cv, c));
                }
            } else {
                assert(!major_present(cell, r@.cascades)) by {
                    if major_present(cell, r@.cascades) {
                        let c = choose|c: Card| #[trigger] present(cell, cv, c) && c.is_major();
                        assert(scanned(cell, cv, 11, 0, c));
                    }
                }
            }
            assert(board_ok(r@)) by {
                assert(total_cards(r@) <= 70);
                assert forall|a: int, b: int|
                    0 <= a < 11 && 0 <= b < r@.cascades[a].len() implies (
                #[trigger] r@.cascades[a][b]).in_deck() by {
                    assert(r@.cascades[a][b] == cv[a][b]);
                }
            }
            assert forall|c: Card| #[trigger] play_mset(r@).count(c) <= 1 by {
                assert(play_mset(r@) == play_of(cell, cv));
            }
        }
        r
    }
}

/// Append one move, with its effect on membership.
fn push_move(moves: &mut Vec<CardMove>, mv: CardMove)
    ensures
        final(moves)@ == old(moves)@.push(mv),
        forall|x: CardMove|
            #[trigger] final(moves)@.contains(x) <==> old(moves)@.contains(x) || x == mv,
{
    moves.push(mv);
    proof {
        assert forall|x: CardMove| #[trigger] moves@.contains(x) implies old(moves)@.contains(x)
            || x == mv by {
            let i = choose|i: int| 0 <= i < moves@.len() && moves@[i] == x;
            if i < moves@.len() - 1 {
                assert(old(moves)@[i] == x);
            }
        }
        assert forall|x: CardMove| old(moves)@.contains(x) || x == mv implies
            #[trigger] moves@.contains(x) by {
            if x == mv {
                assert(moves@[moves@.len() - 1] == x);
            } else {
                let i = choose|i: int| 0 <= i < old(moves)@.len() && old(moves)@[i] == x;
                assert(moves@[i] == x);
            }
        }
    }
}

impl Board {
    /// Every legal search move of this board, appended to `moves`: the
    /// cascade-to-cascade moves of every count up to the movable stack, the
    /// cell moves, never a foundation transfer. A move is in the result
    /// exactly when it was already in `moves` or is legal here.
    pub fn enumerate_moves(&self, moves: &mut Vec<CardMove>)
        requires
            self.ok(),
        ensures
            forall|mv: CardMove|
                #[trigger] final(moves)@.contains(mv) <==> old(moves)@.contains(mv)
                    || legal_search_move(self@, mv),
    {
        let ghost m = self@;
        let ghost base = moves@;
        let mut i: usize = 0;
        while i < 11
            invariant
                self.ok(),
                m == self@,
                i <= 11,
                forall|mv: CardMove|
                    #[trigger] moves@.contains(mv) <==> base.contains(mv) || (legal_search_move(
                        m,
                        mv,
                    ) && mv.from < 11 && mv.to < 11 && (mv.from as int) < i),
            decreases 11 - i,
        {
            let n = self.cascades[i].len();
            if n > 0 {
                proof {
                    lemma_casc_cards_le(m.cascades, i as int);
                    assert(forall|x: int|
                        0 <= x < m.cascades[i as int].len() ==> (#[trigger] m.cascades[i as int][x]).wf());
                    lemma_stack_size_bounds(m.cascades[i as int]);
                }
                let ss = Board::get_stack_size(&self.cascades[i]);
                let from_top = self.cascades[i][n - 1];
                proof {
                    assert(from_top == m.cascades[i as int].last());
                }
                let mut j: usize = 0;
                while j < 11
                    invariant
                        self.ok(),
                        m == self@,
                        i < 11,
                        j <= 11,
                        n == m.cascades[i as int].len(),
                        n > 0,
                        ss as int == stack_size(m.cascades[i as int]),
                        ss <= 70,
                        from_top == m.cascades[i as int].last(),
                        forall|mv: CardMove|
                            #[trigger] moves@.contains(mv) <==> base.contains(mv) || (
                            legal_search_move(m, mv) && mv.from < 11 && mv.to < 11 && ((
                            mv.from as int) < i || (mv.from as int == i && (mv.to as int) < j))),
                    decreases 11 - j,
                {
                    if j != i {
                        let tn = self.cascades[j].len();
                        let fits = if tn == 0 {
                            true
                        } else {
                            let to_top = self.cascades[j][tn - 1];
                            proof {
                                assert(to_top == m.cascades[j as int].last());
                                assert(to_top.wf());
                                assert(from_top.wf());
                            }
                            from_top.can_place_on(&to_top)
                        };
                        if fits {
                            let mut k: u8 = ss;
                            while k >= 1
                                invariant
                                    i < 11,
                                    j < 11,
                                    i != j,
                                    k <= ss,
                                    ss as int == stack_size(m.cascades[i as int]),
                                    m.cascades[i as int].len() > 0,
                                    m.cascades[j as int].len() == 0
                                        || m.cascades[i as int].last().spec_can_place_on(
                                        m.cascades[j as int].last(),
                                    ),
                                    forall|mv: CardMove|
                                        #[trigger] moves@.contains(mv) <==> base.contains(mv) || (
                                        legal_search_move(m, mv) && mv.from < 11 && mv.to < 11
                                            && ((mv.from as int) < i || (mv.from as int == i && (
                                        mv.to as int) < j))) || (legal_search_move(m, mv)
                                            && mv.from as int == i && mv.to as int == j
                                            && k < mv.count),
                                decreases k,
                            {
                                push_move(moves, CardMove::new(i as u8, j as u8, k));
                                proof {
                                    assert(legal_search_move(
                                        m,
                                        CardMove { from: i as u8, to: j as u8, count: k },
                                    ));
                                }
                                k = k - 1;
                            }
                            proof {
                                assert forall|mv: CardMove|
                                    #[trigger] moves@.contains(mv) <==> base.contains(mv) || (
                                legal_search_move(m, mv) && mv.from < 11 && mv.to < 11 && ((
                                mv.from as int) < i || (mv.from as int == i && (mv.to as int) < j
                                    + 1))) by {
                                    if legal_search_move(m, mv) && mv.from as int == i
                                        && mv.to as int == j {
                                        assert(1 <= mv.count as int <= stack_size(
                                            m.cascades[i as int],
                                        ));
                                    }
                                }
                            }
                        } else {
                            proof {
                                assert forall|mv: CardMove|
                                    legal_search_move(m, mv) && mv.from as int == i && (
                                mv.to as int) == j implies false by {}
                            }
                        }
                    }
                    j = j + 1;
                }
            } else {
                proof {
                    assert forall|mv: CardMove|
                        legal_search_move(m, mv) && mv.from < 11 && mv.to < 11 && mv.from as int
                            == i implies false by {}
                }
            }
            i = i + 1;
        }
        let copt = self.cell;
        match copt {
            Some(card) => {
                proof {
                    assert(card.in_deck());
                }
                let mut j2: usize = 0;
                while j2 < 11
                    invariant
                        self.ok(),
                        m == self@,
                        m.cell == Some(card),
                        j2 <= 11,
                        forall|mv: CardMove|
                            #[trigger] moves@.contains(mv) <==> base.contains(mv) || (
                            legal_search_move(m, mv) && mv.from < 11 && mv.to < 11) || (
                            legal_search_move(m, mv) && mv.from == CELL && (mv.to as int) < j2),
                    decreases 11 - j2,
                {
                    let tn = self.cascades[j2].len();
                    let fits = if tn == 0 {
                        true
                    } else {
                        let to_top = self.cascades[j2][tn - 1];
                        proof {
                            assert(to_top == m.cascades[j2 as int].last());
                        }
                        card.can_place_on(&to_top)
                    };
                    if fits {
                        push_move(moves, CardMove::new(CELL, j2 as u8, 1));
                        proof {
                            assert(legal_search_move(
                                m,
                                CardMove { from: CELL, to: j2 as u8, count: 1 },
                            ));
                            assert forall|mv: CardMove|
                                legal_search_move(m, mv) && mv.from == CELL && mv.to as int == j2
                                    implies mv == (CardMove {
                                from: CELL,
                                to: j2 as u8,
                                count: 1,
                            }) by {}
                        }
                    } else {
                        proof {
                            assert forall|mv: CardMove|
                                legal_search_move(m, mv) && mv.from == CELL && (mv.to as int)
                                    == j2 implies false by {}
                        }
                    }
                    j2 = j2 + 1;
                }
                proof {
                    assert forall|mv: CardMove| #[trigger] moves@.contains(mv) <==> base.contains(
                        mv,
                    ) || legal_search_move(m, mv) by {
                        if legal_search_move(m, mv) {
                            if mv.to == CELL {
                                assert(m.cell is None);
                            }
                        }
                    }
                }
            },
            None => {
                let mut i2: usize = 0;
                while i2 < 11
                    invariant
                        self.ok(),
                        m == self@,
                        m.cell is None,
                        i2 <= 11,
                        forall|mv: CardMove|
                            #[trigger] moves@.contains(mv) <==> base.contains(mv) || (
                            legal_search_move(m, mv) && mv.from < 11 && mv.to < 11) || (
                            legal_search_move(m, mv) && mv.to == CELL && (mv.from as int) < i2),
                    decreases 11 - i2,
                {
                    if self.cascades[i2].len() > 0 {
                        push_move(moves, CardMove::new(i2 as u8, CELL, 1));
                        proof {
                            assert(legal_search_move(
                                m,
                                CardMove { from: i2 as u8, to: CELL, count: 1 },
                            ));
                            assert forall|mv: CardMove|
                                legal_search_move(m, mv) && mv.to == CELL && mv.from as int == i2
                                    implies mv == (CardMove {
                                from: i2 as u8,
                                to: CELL,
                                count: 1,
                            }) by {}
                        }
                    } else {
                        proof {
                            assert forall|mv: CardMove|
                                legal_search_move(m, mv) && mv.to == CELL && (mv.from as int)
                                    == i2 implies false by {}
                        }
                    }
                    i2 = i2 + 1;
                }
                proof {
                    assert forall|mv: CardMove| #[trigger] moves@.contains(mv) <==> base.contains(
                        mv,
                    ) || legal_search_move(m, mv) by {
                        if legal_search_move(m, mv) {
                            if mv.from == CELL {
                                assert(m.cell is Some);
                            }
                        }
                    }
                }
            },
        }
    }
}

/// The byte encoding of one cascade: its length, then its card bytes.
pub open spec fn casc_bytes(c: Seq<Card>) -> Seq<u8> {
    seq![c.len() as u8] + c.map_values(|x: Card| x.value)
}

/// The byte encoding of the cascades in order.
pub open spec fn cascs_bytes(cs: Seq<Seq<Card>>) -> Seq<u8>
    decreases cs.len(),
{
    if cs.len() == 0 {
        Seq::empty()
    } else {
        cascs_bytes(cs.drop_last()) + casc_bytes(cs.last())
    }
}

/// The byte encoding of a board: cell byte, shifted major pointers, minor
/// foundation ranks, then the cascades.
pub open spec fn board_bytes(m: BoardModel) -> Seq<u8> {
    seq![
        match m.cell {
            Some(c) => c.value,
            None => 0u8,
        },
        (m.low + 1) as u8,
        (m.high + 1) as u8,
        m.minors[0] as u8,
        m.minors[1] as u8,
        m.minors[2] as u8,
        m.minors[3] as u8,
    ] + cascs_bytes(m.cascades)
}

impl Board {
    /// The compact byte representation of the board, used as the key of the
    /// solver's visited map.
    pub fn encode(&self) -> (r: Vec<u8>)
        requires
            self.ok(),
        ensures
            r@ == board_bytes(self@),
    {
        let mut r: Vec<u8> = Vec::new();
        match self.cell {
            Some(c) => { r.push(c.packed()); },
            None => { r.push(0); },
        }
        r.push((self.major_fdn_low + 1) as u8);
        r.push((self.major_fdn_high + 1) as u8);
        let mut t: usize = 0;
        while t < 4
            invariant
                self.ok(),
                t <= 4,
                self.minor_fdns@.len() == 4,
                r@.len() == 3 + t,
                forall|x: int| 0 <= x < 3 ==> r@[x] == board_bytes(self@)[x],
                forall|x: int| 0 <= x < t ==> r@[3 + x] == self@.minors[x] as u8,
            decreases 4 - t,
        {
            r.push(self.minor_fdns[t]);
            t = t + 1;
        }
        let ghost header = r@;
        proof {
            assert(header =~= board_bytes(self@).take(7));
        }
        let mut i: usize = 0;
        while i < 11
            invariant
                self.ok(),
                i <= 11,
                self.cascades@.len() == 11,
                header == board_bytes(self@).take(7),
                r@ == header + cascs_bytes(self@.cascades.take(i as int)),
            decreases 11 - i,
        {
            let n = self.cascades[i].len();
            proof {
                lemma_casc_cards_le(self@.cascades, i as int);
            }
            r.push(n as u8);
            let mut j: usize = 0;
            while j < n
                invariant
                    self.ok(),
                    i < 11,
                    j <= n,
                    self.cascades@.len() == 11,
                    n == self@.cascades[i as int].len(),
                    header == board_bytes(self@).take(7),
                    r@ == header + cascs_bytes(self@.cascades.take(i as int)) + seq![n as u8]
                        + self@.cascades[i as int].take(j as int).map_values(|x: Card| x.value),
                decreases n - j,
            {
                r.push(self.cascades[i][j].packed());
                proof {
                    assert(self@.cascades[i as int].take(j + 1).map_values(|x: Card| x.value)
                        =~= self@.cascades[i as int].take(j as int).map_values(|x: Card| x.value)
                        .push(self@.cascades[i as int][j as int].value));
                }
                j = j + 1;
            }
            proof {
                assert(self@.cascades[i as int].take(n as int) =~= self@.cascades[i as int]);
                assert(self@.cascades.take(i + 1).drop_last() =~= self@.cascades.take(i as int));
                assert(self@.cascades.take(i + 1).last() == self@.cascades[i as int]);
                assert(r@ =~= header + cascs_bytes(self@.cascades.take(i + 1)));
            }
            i = i + 1;
        }
        proof {
            assert(self@.cascades.take(11) =~= self@.cascades);
            assert(r@ =~= board_bytes(self@));
        }
        r
    }

    /// The move is a legal search move on this board: game-legal and not a
    /// foundation transfer.
    pub fn is_legal_move(&self, mv: &CardMove) -> (r: bool)
        requires
            self.ok(),
        ensures
            r == legal_search_move(self@, *mv),
    {
        if mv.to == FOUNDATION {
            false
        } else if mv.from == CELL {
            if mv.count != 1 || mv.to >= CASCADE_COUNT {
                return false;
            }
            let c = match self.cell {
                Some(c) => c,
                None => { return false; },
            };
            let t = mv.to as usize;
            let tn = self.cascades[t].len();
            if tn == 0 {
                true
            } else {
                let top = self.cascades[t][tn - 1];
                proof {
                    assert(top == self@.cascades[t as int].last());
                }
                c.can_place_on(&top)
            }
        } else if mv.to == CELL {
            mv.count == 1 && mv.from < CASCADE_COUNT && self.cascades[mv.from as usize].len() > 0
                && self.cell.is_none()
        } else {
            if mv.from >= CASCADE_COUNT || mv.to >= CASCADE_COUNT || mv.from == mv.to {
                return false;
            }
            let f = mv.from as usize;
            let t = mv.to as usize;
            let n = self.cascades[f].len();
            if n == 0 || mv.count == 0 {
                return false;
            }
            proof {
                lemma_casc_cards_le(self@.cascades, f as int);
                assert(forall|x: int|
                    0 <= x < self@.cascades[f as int].len() ==> (#[trigger] self@.cascades[f as int][x]).wf());
                lemma_stack_size_bounds(self@.cascades[f as int]);
            }
            let ss = Board::get_stack_size(&self.cascades[f]);
            if mv.count > ss {
                return false;
            }
            let tn = self.cascades[t].len();
            if tn == 0 {
                true
            } else {
                let from_top = self.cascades[f][n - 1];
                let to_top = self.cascades[t][tn - 1];
                proof {
                    assert(from_top == self@.cascades[f as int].last());
                    assert(to_top == self@.cascades[t as int].last());
                }
                from_top.can_place_on(&to_top)
            }
        }
    }
}

} // verus!
