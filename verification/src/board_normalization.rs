//! Tracks cascade reorderings during path reconstruction, mirroring the
//! canonical sort of normalized boards, and translates the solver's moves
//! back to the original cascade labeling.
use vstd::prelude::*;

use crate::board::Board;
use crate::card::Card;
use crate::card_move::{CardMove, CASCADE_COUNT};
use crate::cascade_map::{advance_witness, sort_pairs_by_key, translate_index_spec};

verus! {

/// Tracks the cascade reorderings of normalized boards and translates moves
/// back to the original cascade labeling.
pub struct BoardNormalization {
    pub cascade_indices: Vec<u8>,
}

impl BoardNormalization {
    /// Eleven original cascade indices, one per canonical slot.
    pub open spec fn wf(self) -> bool {
        self.cascade_indices@.len() == 11 && forall|i: int|
            0 <= i < 11 ==> #[trigger] self.cascade_indices@[i] <= 10
    }

    /// Tracks the cascade ranks of the specified board: the slots are
    /// reordered the way a stable sort by cascade rank reorders the board's
    /// cascades.
    pub fn advance(&mut self, board: &Board)
        requires
            old(self).wf(),
            board.ok(),
        ensures
            final(self).wf(),
            forall|i: int|
                0 <= i < 11 ==> old(self).cascade_indices@.contains(
                    #[trigger] final(self).cascade_indices@[i],
                ),
            exists|sorted: Seq<(u8, u32)>|
                advance_witness(
                    old(self).cascade_indices@,
                    board@.cascades,
                    sorted,
                    final(self).cascade_indices@,
                ),
    {
        let cascades = board.cascades();
        let mut pairs: Vec<(u8, u32)> = Vec::new();
        let mut i: usize = 0;
        while i < 11
            invariant
                old(self).wf(),
                self == old(self),
                cascades@.len() >= 11,
                forall|x: int| 0 <= x < 11 ==> (#[trigger] cascades@[x])@ == board@.cascades[x],
                i <= 11,
                pairs@.len() == i,
                forall|k: int| 0 <= k < i ==> (#[trigger] pairs@[k]).0 <= 10,
                forall|k: int|
                    0 <= k < i ==> (#[trigger] pairs@[k]).0 == old(self).cascade_indices@[k],
                forall|k: int|
                    0 <= k < i ==> (#[trigger] pairs@[k]).1 == crate::board_model::rank_of(
                        board@.cascades[k],
                    ),
            decreases 11 - i,
        {
            let idx = self.cascade_indices[i];
            let rank = BoardNormalization::cascade_rank(cascades[i].as_slice());
            proof {
                assert(cascades@[i as int]@ == board@.cascades[i as int]);
            }
            pairs.push((idx, rank));
            i = i + 1;
        }
        let sorted = sort_pairs_by_key(pairs);
        let ghost ps = pairs@;
        let mut out: Vec<u8> = Vec::new();
        let mut k: usize = 0;
        while k < 11
            invariant
                sorted@.len() == 11,
                forall|x: int| 0 <= x < 11 ==> ps.contains(#[trigger] sorted@[x]),
                ps.len() == 11,
                forall|x: int| 0 <= x < 11 ==> (#[trigger] ps[x]).0 <= 10,
                forall|x: int|
                    0 <= x < 11 ==> (#[trigger] ps[x]).0 == old(self).cascade_indices@[x],
                forall|x: int|
                    0 <= x < 11 ==> (#[trigger] ps[x]).1 == crate::board_model::rank_of(
                        board@.cascades[x],
                    ),
                k <= 11,
                out@.len() == k,
                forall|x: int| 0 <= x < k ==> #[trigger] out@[x] == sorted@[x].0,
                forall|x: int| 0 <= x < k ==> #[trigger] out@[x] <= 10,
            decreases 11 - k,
        {
            let v = sorted[k].0;
            proof {
                assert(ps.contains(sorted@[k as int]));
                let a = choose|a: int| 0 <= a < ps.len() && ps[a] == sorted@[k as int];
                assert(ps[a].0 <= 10);
            }
            out.push(v);
            k = k + 1;
        }
        self.cascade_indices = out;
        proof {
            assert forall|x: int| 0 <= x < 11 implies old(self).cascade_indices@.contains(
                #[trigger] self.cascade_indices@[x],
            ) by {
                assert(ps.contains(sorted@[x]));
                let a = choose|a: int| 0 <= a < ps.len() && ps[a] == sorted@[x];
                assert(ps[a].0 == old(self).cascade_indices@[a]);
                assert(old(self).cascade_indices@[a] == self.cascade_indices@[x]);
            }
            assert(advance_witness(
                old(self).cascade_indices@,
                board@.cascades,
                sorted@,
                self.cascade_indices@,
            )) by {
                assert(ps =~= Seq::new(
                    11,
                    |i: int|
                        (
                            old(self).cascade_indices@[i],
                            crate::board_model::rank_of(board@.cascades[i]),
                        ),
                ));
                assert(self.cascade_indices@ =~= Seq::new(11, |i: int| sorted@[i].0));
            }
        }
    }

    /// Returns the specified card move with remapped cascade indices.
    pub fn translate(&self, card_move: &CardMove) -> (r: CardMove)
        requires
            self.wf(),
            card_move.wf(),
        ensures
            r == (CardMove {
                from: translate_index_spec(self.cascade_indices@, card_move.from),
                to: translate_index_spec(self.cascade_indices@, card_move.to),
                count: card_move.count,
            }),
            r.wf(),
    {
        CardMove::new(
            self.translate_index(card_move.from()),
            self.translate_index(card_move.to()),
            card_move.count(),
        )
    }

    fn translate_index(&self, index: u8) -> (r: u8)
        requires
            self.wf(),
        ensures
            r == translate_index_spec(self.cascade_indices@, index),
            index < CASCADE_COUNT ==> r <= 10,
            index >= CASCADE_COUNT ==> r == index,
    {
        if index < CASCADE_COUNT {
            self.cascade_indices[index as usize]
        } else {
            index
        }
    }

    /// Returns the rank of the specified cascade: the packed byte of its
    /// bottom card, with empty cascades ranked last.
    pub fn cascade_rank(cascade: &[Card]) -> (r: u32)
        ensures
            r == crate::board_model::rank_of(cascade@),
    {
        if cascade.len() == 0 {
            0xffff_ffffu32
        } else {
            cascade[0].packed() as u32
        }
    }
}

impl Default for BoardNormalization {
    /// The identity map: each canonical slot stands for itself.
    fn default() -> (r: Self)
        ensures
            r.wf(),
            forall|i: int| 0 <= i < 11 ==> #[trigger] r.cascade_indices@[i] == i,
    {
        let mut v: Vec<u8> = Vec::new();
        let mut i: u8 = 0;
        while i < 11
            invariant
                i <= 11,
                v@.len() == i,
                forall|k: int| 0 <= k < i ==> #[trigger] v@[k] == k,
            decreases 11 - i,
        {
            v.push(i);
            i = i + 1;
        }
        BoardNormalization { cascade_indices: v }
    }
}

} // verus!
