//! A solver for a single-player solitaire variant played with a 70-card deck:
//! four minor-arcana suits and one major-arcana suit, laid out over eleven
//! cascades and a single free cell. The solver runs a best-first search over
//! canonicalized board states and returns a move sequence in the caller's
//! original cascade labeling.
mod board;
mod board_helper;
mod board_model;
mod board_node;
mod board_normalization;
mod card;
mod card_move;
mod cascade_map;
mod laws;
mod solver;

pub use board::{Board, MAX_SCORE_STEP};
pub use board_helper::{create_random_board, parse_board, parse_card, ParseError};
pub use board_model::{
    any_auto, apply_move_spec, auto_fix, board_mset, board_ok, can_remove, conserved,
    legal_move, legal_search_move, normalize_spec, play_distinct, replay_ok, stack_size,
    won_spec, BoardModel,
};
pub use board_node::BoardNode;
pub use board_normalization::BoardNormalization;
pub use card::{
    Card, Suit, ACE_RANK, JACK_RANK, KING_RANK, MAJOR_ARC_MAX_RANK, MAJOR_ARC_MIN_RANK,
    MINOR_ARC_MAX_RANK, MINOR_ARC_MIN_RANK, QUEEN_RANK,
};
pub use card_move::{CardMove, CASCADE_COUNT, CELL, FOUNDATION};
pub use cascade_map::CascadeMap;
pub use laws::{
    lemma_auto_fix_fixpoint, lemma_auto_moves_idempotent, lemma_canonical_equivalence,
    lemma_major_pointers, lemma_normalize_idempotent, lemma_won_board_is_empty, rearranged,
};
pub use solver::{SolveResult, SolveResultStatus, Solver};
