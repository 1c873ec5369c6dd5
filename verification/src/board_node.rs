//! A node of the search graph: a board state, the move that produced it,
//! where its predecessor lives in the solver's node store, its depth and its
//! heuristic score. Nodes order by score alone, so the frontier can pick the
//! most promising board first.
use vstd::prelude::*;

use crate::board::Board;
use crate::card_move::CardMove;

verus! {

/// Represents a card move and the resulting board state in the context of a
/// path finding strategy.
pub struct BoardNode {
    /// Current board state
    pub board: Board,
    /// Index, in the solver's node store, of the node this one was expanded
    /// from
    pub previous: Option<usize>,
    /// Card move from previous to current board
    pub card_move: Option<CardMove>,
    /// Move number
    pub step: u32,
    /// Score of current board
    pub score: i32,
}

impl PartialEq for BoardNode {
    /// Nodes compare by score alone.
    fn eq(&self, other: &Self) -> (r: bool) {
        self.score == other.score
    }
}

impl vstd::std_specs::cmp::PartialEqSpecImpl for BoardNode {
    open spec fn obeys_eq_spec() -> bool {
        true
    }

    open spec fn eq_spec(&self, other: &Self) -> bool {
        self.score == other.score
    }
}

impl Eq for BoardNode {

}

impl PartialOrd for BoardNode {
    /// Nodes order by score alone.
    fn partial_cmp(&self, other: &Self) -> (r: Option<core::cmp::Ordering>) {
        if self.score < other.score {
            Some(core::cmp::Ordering::Less)
        } else if self.score == other.score {
            Some(core::cmp::Ordering::Equal)
        } else {
            Some(core::cmp::Ordering::Greater)
        }
    }
}

impl vstd::std_specs::cmp::PartialOrdSpecImpl for BoardNode {
    open spec fn obeys_partial_cmp_spec() -> bool {
        true
    }

    open spec fn partial_cmp_spec(&self, other: &Self) -> Option<core::cmp::Ordering> {
        if self.score < other.score {
            Some(core::cmp::Ordering::Less)
        } else if self.score == other.score {
            Some(core::cmp::Ordering::Equal)
        } else {
            Some(core::cmp::Ordering::Greater)
        }
    }
}

} // verus!
