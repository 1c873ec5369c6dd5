//! Tracks reorderings of cascades in order to normalize the cascade order of
//! boards, which reduces the number of board states the solver must visit.
//! The map carries, for each canonical cascade slot, the original cascade
//! index it stands for, and translates moves back to the original labeling.
use vstd::prelude::*;

use crate::board::Board;
use crate::card::Card;
use crate::card_move::{CardMove, CASCADE_COUNT, CELL, FOUNDATION};

verus! {

/// Relies on `itertools::Itertools::sorted_by_key`: a stable sort. The
/// result holds the same pairs, in non-decreasing order of the second
/// component; pairs with equal second components keep their relative order,
/// so any two of them appear in the input at two positions in the same
/// order.
#[verifier::external_body]
pub(crate) fn sort_pairs_by_key(pairs: Vec<(u8, u32)>) -> (r: Vec<(u8, u32)>)
    ensures
        r@.len() == pairs@.len(),
        forall|i: int, j: int| 0 <= i < j < r@.len() ==> r@[i].1 <= r@[j].1,
        forall|i: int| 0 <= i < r@.len() ==> pairs@.contains(#[trigger] r@[i]),
        forall|i: int, j: int|
            0 <= i < j < r@.len() && r@[i].1 == r@[j].1 ==> exists|a: int, b: int|
                0 <= a < b < pairs@.len() && pairs@[a] == r@[i] && pairs@[b] == r@[j],
{
    itertools::Itertools::sorted_by_key(pairs.into_iter(), |&(_, key): &(u8, u32)| key).collect()
}

/// What `advance` computes: some rearrangement `sorted` of the map's slots
/// paired with their cascades' ranks that is in non-decreasing rank order,
/// keeps slots of equal rank in their old order, and whose slot components
/// are the new indices.
pub open spec fn advance_witness(
    old_idx: Seq<u8>,
    cascades: Seq<Seq<Card>>,
    sorted: Seq<(u8, u32)>,
    new_idx: Seq<u8>,
) -> bool {
    let pairs = Seq::new(11, |i: int| (old_idx[i], crate::board_model::rank_of(cascades[i])));
    &&& sorted.len() == 11
    &&& (forall|i: int| 0 <= i < 11 ==> pairs.contains(#[trigger] sorted[i]))
    &&& (forall|i: int, j: int| 0 <= i < j < 11 ==> sorted[i].1 <= sorted[j].1)
    &&& (forall|i: int, j: int|
        0 <= i < j < 11 && sorted[i].1 == sorted[j].1 ==> exists|a: int, b: int|
            0 <= a < b < 11 && pairs[a] == sorted[i] && pairs[b] == sorted[j])
    &&& new_idx == Seq::new(11, |i: int| sorted[i].0)
}

/// Where a move endpoint goes under the map: cascade indices are renamed,
/// the cell and the foundation pass through.
pub open spec fn translate_index_spec(indices: Seq<u8>, index: u8) -> u8 {
    if index < CASCADE_COUNT {
        indices[index as int]
    } else {
        index
    }
}

/// Tracks the cascade reorderings of normalized boards and translates moves
/// back to the original cascade labeling.
pub struct CascadeMap {
    pub cascade_indices: Vec<u8>,
}

impl CascadeMap {
    /// Eleven original cascade indices, one per canonical slot.
    pub open spec fn wf(self) -> bool {
        self.cascade_indices@.len() == 11 && forall|i: int|
            0 <= i < 11 ==> #[trigger] self.cascade_indices@[i] <= 10
    }

    /// Tracks the cascade ranks of the specified board: the slots are
    /// reordered the way a stable sort by cascade rank reorders the board's
    /// cascades.
    pub fn advance(&mut self, board: &Board)
        requires
            old(self).wf(),
            board.ok(),
        ensures
            final(self).wf(),
            forall|i: int|
                0 <= i < 11 ==> old(self).cascade_indices@.contains(
                    #[trigger] final(self).cascade_indices@[i],
                ),
            exists|sorted: Seq<(u8, u32)>|
                advance_witness(
                    old(self).cascade_indices@,
                    board@.cascades,
                    sorted,
                    final(self).cascade_indices@,
                ),
    {
        let cascades = board.cascades();
        let mut pairs: Vec<(u8, u32)> = Vec::new();
        let mut i: usize = 0;
        while i < 11
            invariant
                old(self).wf(),
                self == old(self),
                cascades@.len() >= 11,
                forall|x: int| 0 <= x < 11 ==> (#[trigger] cascades@[x])@ == board@.cascades[x],
                i <= 11,
                pairs@.len() == i,
                forall|k: int| 0 <= k < i ==> (#[trigger] pairs@[k]).0 <= 10,
                forall|k: int|
                    0 <= k < i ==> (#[trigger] pairs@[k]).0 == old(self).cascade_indices@[k],
                forall|k: int|
                    0 <= k < i ==> (#[trigger] pairs@[k]).1 == crate::board_model::rank_of(
                        board@.cascades[k],
                    ),
            decreases 11 - i,
        {
            let idx = self.cascade_indices[i];
            let rank = CascadeMap::cascade_rank(cascades[i].as_slice());
            proof {
                assert(cascades@[i as int]@ == board@.cascades[i as int]);
            }
            pairs.push((idx, rank));
            i = i + 1;
        }
        let sorted = sort_pairs_by_key(pairs);
        let ghost ps = pairs@;
        let mut out: Vec<u8> = Vec::new();
        let mut k: usize = 0;
        while k < 11
            invariant
                sorted@.len() == 11,
                forall|x: int| 0 <= x < 11 ==> ps.contains(#[trigger] sorted@[x]),
                ps.len() == 11,
                forall|x: int| 0 <= x < 11 ==> (#[trigger] ps[x]).0 <= 10,
                forall|x: int|
                    0 <= x < 11 ==> (#[trigger] ps[x]).0 == old(self).cascade_indices@[x],
                forall|x: int|
                    0 <= x < 11 ==> (#[trigger] ps[x]).1 == crate::board_model::rank_of(
                        board@.cascades[x],
                    ),
                k <= 11,
                out@.len() == k,
                forall|x: int| 0 <= x < k ==> #[trigger] out@[x] == sorted@[x].0,
                forall|x: int| 0 <= x < k ==> #[trigger] out@[x] <= 10,
            decreases 11 - k,
        {
            let v = sorted[k].0;
            proof {
                assert(ps.contains(sorted@[k as int]));
                let a = choose|a: int| 0 <= a < ps.len() && ps[a] == sorted@[k as int];
                assert(ps[a].0 <= 10);
            }
            out.push(v);
            k = k + 1;
        }
        self.cascade_indices = out;
        proof {
            assert forall|x: int| 0 <= x < 11 implies old(self).cascade_indices@.contains(
                #[trigger] self.cascade_indices@[x],
            ) by {
                assert(ps.contains(sorted@[x]));
                let a = choose|a: int| 0 <= a < ps.len() && ps[a] == sorted@[x];
                assert(ps[a].0 == old(self).cascade_indices@[a]);
                assert(old(self).cascade_indices@[a] == self.cascade_indices@[x]);
            }
            assert(advance_witness(
                old(self).cascade_indices@,
                board@.cascades,
                sorted@,
                self.cascade_indices@,
            )) by {
                assert(ps =~= Seq::new(
                    11,
                    |i: int|
                        (
                            old(self).cascade_indices@[i],
                            crate::board_model::rank_of(board@.cascades[i]),
                        ),
                ));
                assert(self.cascade_indices@ =~= Seq::new(11, |i: int| sorted@[i].0));
            }
        }
    }

    /// Returns the specified card move with remapped cascade indices.
    pub fn translate(&self, card_move: &CardMove) -> (r: CardMove)
        requires
            self.wf(),
            card_move.wf(),
        ensures
            r == (CardMove {
                from: translate_index_spec(self.cascade_indices@, card_move.from),
                to: translate_index_spec(self.cascade_indices@, card_move.to),
                count: card_move.count,
            }),
            r.wf(),
    {
        CardMove::new(
            self.translate_index(card_move.from()),
            self.translate_index(card_move.to()),
            card_move.count(),
        )
    }

    fn translate_index(&self, index: u8) -> (r: u8)
        requires
            self.wf(),
            index < CASCADE_COUNT || index == CELL || index == FOUNDATION,
        ensures
            r == translate_index_spec(self.cascade_indices@, index),
            r <= 10 || r == CELL || r == FOUNDATION,
    {
        if index < CASCADE_COUNT {
            self.cascade_indices[index as usize]
        } else {
            index
        }
    }

    /// Returns the rank of the specified cascade: the packed byte of its
    /// bottom card, with empty cascades ranked last.
    pub fn cascade_rank(cascade: &[Card]) -> (r: u32)
        ensures
            r == crate::board_model::rank_of(cascade@),
    {
        if cascade.len() == 0 {
            0xffff_ffffu32
        } else {
            cascade[0].packed() as u32
        }
    }
}

impl Default for CascadeMap {
    /// The identity map: each canonical slot stands for itself.
    fn default() -> (r: Self)
        ensures
            r.wf(),
            forall|i: int| 0 <= i < 11 ==> #[trigger] r.cascade_indices@[i] == i,
    {
        let mut v: Vec<u8> = Vec::new();
        let mut i: u8 = 0;
        while i < 11
            invariant
                i <= 11,
                v@.len() == i,
                forall|k: int| 0 <= k < i ==> #[trigger] v@[k] == k,
            decreases 11 - i,
        {
            v.push(i);
            i = i + 1;
        }
        CascadeMap { cascade_indices: v }
    }
}

} // verus!
