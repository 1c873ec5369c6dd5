//! Mathematical model of a board and of everything that happens to one:
//! foundation transfers, auto-moves to a fixed point, move application,
//! cascade sorting and full normalization. The executable `Board` methods
//! promise in their contracts to agree with these functions, and the laws
//! of the library are proved about them.
use vstd::prelude::*;
use vstd::multiset::Multiset;

use crate::card::Card;
use crate::card_move::{CardMove, CASCADE_COUNT, CELL, FOUNDATION};

verus! {

broadcast use vstd::multiset::group_multiset_axioms;

/// The state of a board: the free cell, the eleven cascades (index 0 is the
/// bottom of a cascade, the last index its accessible top), the two
/// major-arcana foundation pointers and the four minor-arcana foundation
/// ranks.
#[verifier::ext_equal]
pub struct BoardModel {
    pub cell: Option<Card>,
    pub cascades: Seq<Seq<Card>>,
    pub low: int,
    pub high: int,
    pub minors: Seq<int>,
}

/// Well-formedness of a board: eleven cascades of deck cards, minor
/// foundations between Ace and King, and major pointers that either leave a
/// gap of at least one rank or have met at the completed value 21.
pub open spec fn board_ok(m: BoardModel) -> bool {
    &&& m.cascades.len() == 11
    &&& m.minors.len() == 4
    &&& forall|i: int, j: int|
        0 <= i < 11 && 0 <= j < m.cascades[i].len() ==> (#[trigger] m.cascades[i][j]).in_deck()
    &&& (m.cell is Some ==> m.cell.unwrap().in_deck())
    &&& forall|s: int| 0 <= s < 4 ==> 1 <= #[trigger] m.minors[s] <= 13
    &&& ((-1 <= m.low && m.low + 2 <= m.high && m.high <= 22) || (m.low == 21 && m.high == 21))
    &&& total_cards(m) <= 70
}

/// A card may be sent to a foundation: a major whose rank extends one of the
/// two pointers, or a minor whose rank is next on its suit's foundation while
/// the cell is free.
pub open spec fn can_remove(m: BoardModel, c: Card) -> bool {
    if c.is_major() {
        c.spec_rank() as int == m.low + 1 || c.spec_rank() as int == m.high - 1
    } else {
        m.cell is None && c.spec_rank() as int == m.minors[c.spec_suit_index() as int] + 1
    }
}

/// Advance the foundations by one card. A major advances whichever pointers
/// its rank matches; when the pointers meet, the majors are complete and both
/// pointers take the canonical completed value 21. A minor advances its
/// suit's foundation rank.
pub open spec fn fdn_put(m: BoardModel, c: Card) -> BoardModel {
    if c.is_major() {
        let l1 = if c.spec_rank() as int == m.low + 1 {
            m.low + 1
        } else {
            m.low
        };
        let h1 = if c.spec_rank() as int == m.high - 1 {
            m.high - 1
        } else {
            m.high
        };
        if (l1 != m.low || h1 != m.high) && l1 + 1 >= h1 {
            BoardModel { low: 21, high: 21, ..m }
        } else {
            BoardModel { low: l1, high: h1, ..m }
        }
    } else {
        let s = c.spec_suit_index() as int;
        BoardModel { minors: m.minors.update(s, m.minors[s] + 1), ..m }
    }
}

/// Cascade `i` holds a card on top that may be sent to a foundation.
pub open spec fn cascade_eligible(m: BoardModel, i: int) -> bool {
    m.cascades[i].len() > 0 && can_remove(m, m.cascades[i].last())
}

/// The cell holds a card that may be sent to a foundation.
pub open spec fn cell_eligible(m: BoardModel) -> bool {
    m.cell is Some && can_remove(m, m.cell.unwrap())
}

/// Some accessible card may be sent to a foundation.
pub open spec fn any_auto(m: BoardModel) -> bool {
    (exists|i: int| 0 <= i < 11 && cascade_eligible(m, i)) || cell_eligible(m)
}

/// Send the top of cascade `i` to the foundations.
pub open spec fn top_to_fdn(m: BoardModel, i: int) -> BoardModel {
    fdn_put(
        BoardModel { cascades: m.cascades.update(i, m.cascades[i].drop_last()), ..m },
        m.cascades[i].last(),
    )
}

/// Send the cell card to the foundations.
pub open spec fn cell_to_fdn(m: BoardModel) -> BoardModel {
    fdn_put(BoardModel { cell: None, ..m }, m.cell.unwrap())
}

/// One round of auto-moves: every card eligible at the start of the round
/// (judged on `m0`) is sent to the foundations, cascades in index order and
/// the cell last.
pub open spec fn round_from(m0: BoardModel, m: BoardModel, i: int) -> BoardModel
    decreases 11 - i,
{
    if i < 11 {
        let m1 = if cascade_eligible(m0, i) {
            top_to_fdn(m, i)
        } else {
            m
        };
        round_from(m0, m1, i + 1)
    } else {
        if cell_eligible(m0) {
            cell_to_fdn(m)
        } else {
            m
        }
    }
}

pub open spec fn auto_round(m: BoardModel) -> BoardModel {
    round_from(m, m, 0)
}

/// Number of cards held by the cascades.
pub open spec fn casc_cards(cs: Seq<Seq<Card>>) -> nat
    decreases cs.len(),
{
    if cs.len() == 0 {
        0
    } else {
        cs.last().len() + casc_cards(cs.drop_last())
    }
}

/// Number of cards on the board outside the foundations.
pub open spec fn total_cards(m: BoardModel) -> nat {
    casc_cards(m.cascades) + if m.cell is Some {
        1nat
    } else {
        0nat
    }
}

/// Auto-moves applied round after round until no accessible card can go to a
/// foundation.
pub open spec fn auto_fix(m: BoardModel) -> BoardModel
    decreases total_cards(m),
{
    if any_auto(m) && total_cards(auto_round(m)) < total_cards(m) {
        auto_fix(auto_round(m))
    } else {
        m
    }
}

/// The auto-moves for the cascades below index `i`: one foundation transfer
/// per eligible cascade, in index order.
pub open spec fn auto_list_upto(m: BoardModel, i: int) -> Seq<CardMove>
    decreases i,
{
    if i <= 0 {
        Seq::empty()
    } else {
        auto_list_upto(m, i - 1) + if cascade_eligible(m, i - 1) {
            seq![CardMove { from: (i - 1) as u8, to: FOUNDATION, count: 1 }]
        } else {
            Seq::empty()
        }
    }
}

/// The auto-moves of one round: the eligible cascades in index order, then
/// the cell if its card is eligible.
pub open spec fn auto_list(m: BoardModel) -> Seq<CardMove> {
    auto_list_upto(m, 11) + if cell_eligible(m) {
        seq![CardMove { from: CELL, to: FOUNDATION, count: 1 }]
    } else {
        Seq::empty()
    }
}

/// Some cascade at index `i` or beyond holds an eligible minor of suit `s` on
/// top.
pub open spec fn minor_auto_pending(m0: BoardModel, s: int, i: int) -> bool {
    exists|j: int|
        i <= j < 11 && cascade_eligible(m0, j) && !(#[trigger] m0.cascades[j]).last().is_major()
            && m0.cascades[j].last().spec_suit_index() as int == s
}

/// Some cascade at index `i` or beyond holds the eligible major next to the
/// low pointer.
pub open spec fn major_low_pending(m0: BoardModel, i: int) -> bool {
    exists|j: int|
        i <= j < 11 && cascade_eligible(m0, j) && (#[trigger] m0.cascades[j]).last().is_major()
            && m0.cascades[j].last().spec_rank() as int == m0.low + 1
}

/// Some cascade at index `i` or beyond, or the cell, holds the eligible
/// major next to the high pointer.
pub open spec fn major_high_pending(m0: BoardModel, i: int) -> bool {
    (exists|j: int|
        i <= j < 11 && cascade_eligible(m0, j) && (#[trigger] m0.cascades[j]).last().is_major()
            && m0.cascades[j].last().spec_rank() as int == m0.high - 1)
}

/// Length of the longest chain at the top of a cascade under the
/// can-place-on relation: the number of cards movable as a unit.
pub open spec fn stack_size(c: Seq<Card>) -> int
    decreases c.len(),
{
    if c.len() < 2 {
        c.len() as int
    } else if c.last().spec_can_place_on(c[c.len() - 2]) {
        1 + stack_size(c.drop_last())
    } else {
        1
    }
}

/// Sort key of a cascade: the packed byte of its bottom card; empty cascades
/// sort after every non-empty one.
pub open spec fn rank_of(c: Seq<Card>) -> u32 {
    if c.len() == 0 {
        0xffff_ffffu32
    } else {
        c[0].value as u32
    }
}

/// The cascades are in non-decreasing rank order.
pub open spec fn casc_sorted(cs: Seq<Seq<Card>>) -> bool {
    forall|i: int, j: int| 0 <= i < j < cs.len() ==> rank_of(cs[i]) <= rank_of(cs[j])
}

/// Insert a cascade into a rank-sorted sequence, after any cascade of equal
/// rank.
pub open spec fn insert_casc(s: Seq<Seq<Card>>, c: Seq<Card>) -> Seq<Seq<Card>>
    decreases s.len(),
{
    if s.len() == 0 {
        seq![c]
    } else if rank_of(s[0]) <= rank_of(c) {
        seq![s[0]] + insert_casc(s.drop_first(), c)
    } else {
        seq![c] + s
    }
}

/// Stable insertion sort of the cascades by rank.
pub open spec fn sort_casc(cs: Seq<Seq<Card>>) -> Seq<Seq<Card>>
    decreases cs.len(),
{
    if cs.len() == 0 {
        Seq::empty()
    } else {
        insert_casc(sort_casc(cs.drop_last()), cs.last())
    }
}

/// Full normalization: auto-moves to a fixed point, then the canonical
/// cascade order.
pub open spec fn normalize_spec(m: BoardModel) -> BoardModel {
    let a = auto_fix(m);
    BoardModel { cascades: sort_casc(a.cascades), ..a }
}

/// The game is won: the major pointers have met and every minor foundation
/// holds its King.
pub open spec fn won_spec(m: BoardModel) -> bool {
    m.low == m.high && forall|s: int| 0 <= s < 4 ==> #[trigger] m.minors[s] == 13
}

/// What sending a card to the foundations needs from the board: a major is
/// taken whatever its rank (pointers it does not match stay put), a minor
/// must be the next rank of its suit's foundation.
pub open spec fn fdn_pre(m: BoardModel, c: Card) -> bool {
    !c.is_major() ==> c.spec_rank() as int == m.minors[(c.spec_suit_index() as int)] + 1
}

/// The preconditions of `Board::apply_move`: what the move needs from the
/// board for its application to be meaningful.
pub open spec fn apply_pre(m: BoardModel, mv: CardMove) -> bool {
    if mv.from < CASCADE_COUNT && mv.to < CASCADE_COUNT {
        mv.to != mv.from && 1 <= mv.count as int <= m.cascades[mv.from as int].len()
    } else if mv.to == FOUNDATION {
        if mv.from == CELL {
            m.cell is Some && fdn_pre(m, m.cell.unwrap())
        } else {
            mv.from < CASCADE_COUNT && m.cascades[mv.from as int].len() > 0 && fdn_pre(
                m,
                m.cascades[mv.from as int].last(),
            )
        }
    } else if mv.from == CELL {
        m.cell is Some && mv.to < CASCADE_COUNT
    } else {
        mv.from < CASCADE_COUNT && m.cascades[mv.from as int].len() > 0 && m.cell is None && mv.to
            == CELL
    }
}

/// The board after a move. A cascade-to-cascade move pops `count` cards one
/// by one and pushes each on the target, so the segment lands reversed; the
/// other shapes move a single card.
pub open spec fn apply_move_spec(m: BoardModel, mv: CardMove) -> BoardModel {
    if mv.from < CASCADE_COUNT && mv.to < CASCADE_COUNT {
        let src = m.cascades[mv.from as int];
        let k = mv.count as int;
        let moved = src.subrange(src.len() - k, src.len() as int).reverse();
        let cs1 = m.cascades.update(mv.from as int, src.take(src.len() - k));
        BoardModel { cascades: cs1.update(mv.to as int, cs1[mv.to as int] + moved), ..m }
    } else if mv.to == FOUNDATION {
        if mv.from == CELL {
            cell_to_fdn(m)
        } else {
            top_to_fdn(m, mv.from as int)
        }
    } else if mv.from == CELL {
        let t = mv.to as int;
        BoardModel {
            cell: None,
            cascades: m.cascades.update(t, m.cascades[t] + seq![m.cell.unwrap()]),
            ..m
        }
    } else {
        let f = mv.from as int;
        BoardModel {
            cell: Some(m.cascades[f].last()),
            cascades: m.cascades.update(f, m.cascades[f].drop_last()),
            ..m
        }
    }
}

/// Game legality of a move: what `enumerate_moves` may emit, plus foundation
/// transfers of removable cards.
pub open spec fn legal_move(m: BoardModel, mv: CardMove) -> bool {
    if mv.to == FOUNDATION {
        &&& mv.count == 1
        &&& if mv.from == CELL {
            cell_eligible(m)
        } else {
            mv.from < CASCADE_COUNT && cascade_eligible(m, mv.from as int)
        }
    } else if mv.from == CELL {
        &&& mv.count == 1
        &&& mv.to < CASCADE_COUNT
        &&& m.cell is Some
        &&& (m.cascades[mv.to as int].len() == 0 || m.cell.unwrap().spec_can_place_on(
            m.cascades[mv.to as int].last(),
        ))
    } else if mv.to == CELL {
        &&& mv.count == 1
        &&& mv.from < CASCADE_COUNT
        &&& m.cascades[mv.from as int].len() > 0
        &&& m.cell is None
    } else {
        &&& mv.from < CASCADE_COUNT
        &&& mv.to < CASCADE_COUNT
        &&& mv.from != mv.to
        &&& m.cascades[mv.from as int].len() > 0
        &&& 1 <= mv.count as int <= stack_size(m.cascades[mv.from as int])
        &&& (m.cascades[mv.to as int].len() == 0 || m.cascades[mv.from as int].last().spec_can_place_on(
            m.cascades[mv.to as int].last(),
        ))
    }
}

/// A move the search may emit: legal and not a foundation transfer, which
/// only auto-moves perform.
pub open spec fn legal_search_move(m: BoardModel, mv: CardMove) -> bool {
    legal_move(m, mv) && mv.to != FOUNDATION
}

/// The board after replaying the moves in order, each followed by
/// auto-moves to the fixed point.
pub open spec fn replay_state(m: BoardModel, moves: Seq<CardMove>) -> BoardModel
    decreases moves.len(),
{
    if moves.len() == 0 {
        m
    } else {
        replay_state(auto_fix(apply_move_spec(m, moves.first())), moves.drop_first())
    }
}

/// Every move of the sequence is legal on the board it meets.
pub open spec fn replay_legal(m: BoardModel, moves: Seq<CardMove>) -> bool
    decreases moves.len(),
{
    if moves.len() == 0 {
        true
    } else {
        &&& legal_search_move(m, moves.first())
        &&& replay_legal(auto_fix(apply_move_spec(m, moves.first())), moves.drop_first())
    }
}

/// The move sequence, each move legal and followed by auto-moves to the
/// fixed point, ends in a won board.
pub open spec fn replay_ok(m: BoardModel, moves: Seq<CardMove>) -> bool {
    replay_legal(m, moves) && won_spec(replay_state(m, moves))
}

/// Replaying one more move extends the replayed state and legality by that
/// move.
pub proof fn lemma_replay_snoc(m: BoardModel, moves: Seq<CardMove>, mv: CardMove)
    ensures
        replay_state(m, moves.push(mv)) == auto_fix(apply_move_spec(replay_state(m, moves), mv)),
        replay_legal(m, moves.push(mv)) == (replay_legal(m, moves) && legal_search_move(
            replay_state(m, moves),
            mv,
        )),
    decreases moves.len(),
{
    if moves.len() == 0 {
        assert(moves.push(mv).first() == mv);
        assert(moves.push(mv).drop_first() =~= Seq::<CardMove>::empty());
        let x = auto_fix(apply_move_spec(m, mv));
        assert(replay_state(m, moves.push(mv)) == replay_state(x, Seq::empty()));
        assert(replay_state(x, Seq::<CardMove>::empty()) == x);
        assert(replay_state(m, moves) == m);
        assert(replay_legal(m, moves.push(mv)) == (legal_search_move(m, mv) && replay_legal(
            x,
            Seq::empty(),
        )));
        assert(replay_legal(x, Seq::<CardMove>::empty()));
        assert(replay_legal(m, moves));
    } else {
        assert(moves.push(mv).first() == moves.first());
        assert(moves.push(mv).drop_first() =~= moves.drop_first().push(mv));
        let x = auto_fix(apply_move_spec(m, moves.first()));
        lemma_replay_snoc(x, moves.drop_first(), mv);
        assert(replay_state(m, moves.push(mv)) == replay_state(x, moves.drop_first().push(mv)));
        assert(replay_state(m, moves) == replay_state(x, moves.drop_first()));
        assert(replay_legal(m, moves.push(mv)) == (legal_search_move(m, moves.first())
            && replay_legal(x, moves.drop_first().push(mv))));
        assert(replay_legal(m, moves) == (legal_search_move(m, moves.first()) && replay_legal(
            x,
            moves.drop_first(),
        )));
    }
}

/// A legal move meets the preconditions of `Board::apply_move`.
pub proof fn lemma_legal_pre(m: BoardModel, mv: CardMove)
    requires
        legal_move(m, mv),
    ensures
        mv.wf(),
        apply_pre(m, mv),
{
    if mv.to == FOUNDATION {
    } else if mv.from == CELL {
    } else if mv.to == CELL {
    } else {
        lemma_stack_size_bounds(m.cascades[mv.from as int]);
    }
}

/// Heuristic value of one cascade: empty cascades are prized, a cascade that
/// is one clean chain counts double its length, otherwise only the top chain
/// counts.
pub open spec fn casc_score(c: Seq<Card>) -> int {
    if c.len() == 0 {
        20
    } else if c.len() == stack_size(c) {
        2 * stack_size(c)
    } else {
        stack_size(c)
    }
}

pub open spec fn sum_casc_score(cs: Seq<Seq<Card>>) -> int
    decreases cs.len(),
{
    if cs.len() == 0 {
        0
    } else {
        sum_casc_score(cs.drop_last()) + casc_score(cs.last())
    }
}

/// Heuristic priority of a board at search depth `step`: cascade values,
/// minus the cards still on the cascades, minus a penalty for an occupied
/// cell, minus the depth.
pub open spec fn score_spec(m: BoardModel, step: int) -> int {
    sum_casc_score(m.cascades) - casc_cards(m.cascades) - (if m.cell is Some {
        10int
    } else {
        0int
    }) - step
}

// ---------------------------------------------------------------------------
// The multiset of cards a board accounts for: cards in play plus the cards
// its foundation pointers imply are already put away.
// ---------------------------------------------------------------------------
/// Cards held by the cascades, as a multiset.
pub open spec fn casc_mset(cs: Seq<Seq<Card>>) -> Multiset<Card>
    decreases cs.len(),
{
    if cs.len() == 0 {
        Multiset::empty()
    } else {
        casc_mset(cs.drop_last()).add(cs.last().to_multiset())
    }
}

/// The major-arcana cards the foundation pointers imply: every rank at or
/// below the low pointer and every rank at or above the high pointer; all 22
/// when the pointers have met.
pub open spec fn implied_majors(m: BoardModel) -> Seq<Card> {
    if m.low == m.high {
        Seq::new(22, |i: int| Card { value: crate::card::pack(4, i as u8) })
    } else {
        Seq::new(
            if m.low >= -1 {
                (m.low + 1) as nat
            } else {
                0nat
            },
            |i: int| Card { value: crate::card::pack(4, i as u8) },
        ) + Seq::new(
            if m.high <= 22 {
                (22 - m.high) as nat
            } else {
                0nat
            },
            |i: int| Card { value: crate::card::pack(4, (m.high + i) as u8) },
        )
    }
}

/// The cards of minor suit `s` its foundation rank implies: ranks 2 up to the
/// foundation rank.
pub open spec fn implied_minor(m: BoardModel, s: int) -> Seq<Card> {
    Seq::new(
        if m.minors[s] >= 1 {
            (m.minors[s] - 1) as nat
        } else {
            0nat
        },
        |i: int| Card { value: crate::card::pack(s as u8, (i + 2) as u8) },
    )
}

/// Every card the foundations imply.
pub open spec fn implied_mset(m: BoardModel) -> Multiset<Card> {
    implied_majors(m).to_multiset().add(implied_minor(m, 0).to_multiset()).add(
        implied_minor(m, 1).to_multiset(),
    ).add(implied_minor(m, 2).to_multiset()).add(implied_minor(m, 3).to_multiset())
}

/// Every card the board accounts for: cell, cascades, and the cards the
/// foundations imply.
pub open spec fn board_mset(m: BoardModel) -> Multiset<Card> {
    play_mset(m).add(implied_mset(m))
}

/// The board accounts for exactly the 70-card deck.
pub open spec fn conserved(m: BoardModel) -> bool {
    board_mset(m) == Card::full_deck().to_multiset()
}

// ---------------------------------------------------------------------------
// Basic lemmas about the model.
// ---------------------------------------------------------------------------
/// Replacing one cascade changes the card count by the difference of the two
/// lengths.
pub proof fn lemma_casc_cards_update(cs: Seq<Seq<Card>>, i: int, c: Seq<Card>)
    requires
        0 <= i < cs.len(),
    ensures
        casc_cards(cs.update(i, c)) == casc_cards(cs) - cs[i].len() + c.len(),
    decreases cs.len(),
{
    if i == cs.len() - 1 {
        assert(cs.update(i, c).drop_last() =~= cs.drop_last());
        assert(cs.update(i, c).last() == c);
    } else {
        lemma_casc_cards_update(cs.drop_last(), i, c);
        assert(cs.update(i, c).drop_last() =~= cs.drop_last().update(i, c));
        assert(cs.update(i, c).last() == cs.last());
    }
}

/// Every cascade holds at most all the cards.
pub proof fn lemma_casc_cards_le(cs: Seq<Seq<Card>>, i: int)
    requires
        0 <= i < cs.len(),
    ensures
        cs[i].len() <= casc_cards(cs),
    decreases cs.len(),
{
    if i == cs.len() - 1 {
    } else {
        lemma_casc_cards_le(cs.drop_last(), i);
    }
}

/// The top chain never exceeds the cascade.
pub proof fn lemma_stack_size_bounds(c: Seq<Card>)
    ensures
        0 <= stack_size(c) <= c.len(),
        c.len() > 0 ==> 1 <= stack_size(c),
    decreases c.len(),
{
    if c.len() < 2 {
    } else if c.last().spec_can_place_on(c[c.len() - 2]) {
        lemma_stack_size_bounds(c.drop_last());
    }
}

/// Sending a removable card to the foundations keeps the board well formed.
pub proof fn lemma_fdn_put_ok(m: BoardModel, c: Card)
    requires
        m.minors.len() == 4,
        forall|s: int| 0 <= s < 4 ==> 1 <= #[trigger] m.minors[s] <= 13,
        (-1 <= m.low && m.low + 2 <= m.high && m.high <= 22) || (m.low == 21 && m.high == 21),
        c.in_deck(),
        fdn_pre(m, c),
    ensures
        fdn_put(m, c).minors.len() == 4,
        forall|s: int| 0 <= s < 4 ==> 1 <= #[trigger] fdn_put(m, c).minors[s] <= 13,
        (-1 <= fdn_put(m, c).low && fdn_put(m, c).low + 2 <= fdn_put(m, c).high && fdn_put(
            m,
            c,
        ).high <= 22) || (fdn_put(m, c).low == 21 && fdn_put(m, c).high == 21),
        fdn_put(m, c).cascades == m.cascades,
        fdn_put(m, c).cell == m.cell,
{
    if c.is_major() {
    } else {
        assert(fdn_put(m, c).minors[c.spec_suit_index() as int] == c.spec_rank() as int);
    }
}

/// Applying a move that meets its preconditions keeps the board well formed.
pub proof fn lemma_apply_ok(m: BoardModel, mv: CardMove)
    requires
        board_ok(m),
        mv.wf(),
        apply_pre(m, mv),
    ensures
        board_ok(apply_move_spec(m, mv)),
{
    let r = apply_move_spec(m, mv);
    if mv.from < CASCADE_COUNT && mv.to < CASCADE_COUNT {
        let f = mv.from as int;
        let t = mv.to as int;
        let src = m.cascades[f];
        let k = mv.count as int;
        let moved = src.subrange(src.len() - k, src.len() as int).reverse();
        let cs1 = m.cascades.update(f, src.take(src.len() - k));
        lemma_casc_cards_update(m.cascades, f, src.take(src.len() - k));
        lemma_casc_cards_update(cs1, t, cs1[t] + moved);
        assert(total_cards(r) == total_cards(m));
        assert forall|i: int, j: int| 0 <= i < 11 && 0 <= j < r.cascades[i].len() implies (
        #[trigger] r.cascades[i][j]).in_deck() by {
            if i == t {
                if j < m.cascades[t].len() {
                    assert(r.cascades[i][j] == m.cascades[t][j]);
                } else {
                    let x = j - m.cascades[t].len();
                    assert(r.cascades[i][j] == moved[x]);
                    assert(moved[x] == src[src.len() - 1 - x]);
                }
            } else if i == f {
                assert(r.cascades[i][j] == src[j]);
            } else {
                assert(r.cascades[i][j] == m.cascades[i][j]);
            }
        }
    } else if mv.to == FOUNDATION {
        if mv.from == CELL {
            let c = m.cell.unwrap();
            lemma_fdn_put_ok(BoardModel { cell: None, ..m }, c);
            assert(total_cards(r) < total_cards(m));
        } else {
            let f = mv.from as int;
            let c = m.cascades[f].last();
            let m1 = BoardModel { cascades: m.cascades.update(f, m.cascades[f].drop_last()), ..m };
            lemma_fdn_put_ok(m1, c);
            lemma_casc_cards_update(m.cascades, f, m.cascades[f].drop_last());
            assert forall|i: int, j: int| 0 <= i < 11 && 0 <= j < r.cascades[i].len() implies (
            #[trigger] r.cascades[i][j]).in_deck() by {
                if i == f {
                    assert(r.cascades[i][j] == m.cascades[i][j]);
                } else {
                    assert(r.cascades[i][j] == m.cascades[i][j]);
                }
            }
        }
    } else if mv.from == CELL {
        let t = mv.to as int;
        lemma_casc_cards_update(m.cascades, t, m.cascades[t] + seq![m.cell.unwrap()]);
        assert forall|i: int, j: int| 0 <= i < 11 && 0 <= j < r.cascades[i].len() implies (
        #[trigger] r.cascades[i][j]).in_deck() by {
            if i == t && j == m.cascades[t].len() {
                assert(r.cascades[i][j] == m.cell.unwrap());
            } else {
                assert(r.cascades[i][j] == m.cascades[i][j]);
            }
        }
    } else {
        let f = mv.from as int;
        lemma_casc_cards_update(m.cascades, f, m.cascades[f].drop_last());
        assert forall|i: int, j: int| 0 <= i < 11 && 0 <= j < r.cascades[i].len() implies (
        #[trigger] r.cascades[i][j]).in_deck() by {
            assert(r.cascades[i][j] == m.cascades[i][j]);
        }
        assert(m.cascades[f].last().in_deck());
    }
}

/// The top chain of a cascade reaches down exactly to the first break in the
/// can-place-on relation.
pub proof fn lemma_stack_size_chain(c: Seq<Card>, b: int)
    requires
        0 <= b < c.len(),
        forall|k: int| b <= k < c.len() - 1 ==> (#[trigger] c[k + 1]).spec_can_place_on(c[k]),
        b == 0 || !c[b].spec_can_place_on(c[b - 1]),
    ensures
        stack_size(c) == c.len() - b,
    decreases c.len(),
{
    if c.len() < 2 {
    } else if c.last().spec_can_place_on(c[c.len() - 2]) {
        assert(b < c.len() - 1) by {
            if b == c.len() - 1 {
                assert(c[b].spec_can_place_on(c[b - 1]));
            }
        }
        let d = c.drop_last();
        assert(forall|k: int| b <= k < d.len() - 1 ==> (#[trigger] d[k + 1]).spec_can_place_on(
            d[k],
        ));
        lemma_stack_size_chain(d, b);
    } else {
        assert(b == c.len() - 1) by {
            if b < c.len() - 1 {
                assert(c[(c.len() - 2) + 1].spec_can_place_on(c[c.len() - 2]));
            }
        }
    }
}

// ---------------------------------------------------------------------------
// Cards in play (cell and cascades) as a multiset, and boards without
// duplicates.
// ---------------------------------------------------------------------------
/// The cards of a cell and a set of cascades.
pub open spec fn play_of(cell: Option<Card>, cs: Seq<Seq<Card>>) -> Multiset<Card> {
    let cm = match cell {
        Some(c) => Multiset::empty().insert(c),
        None => Multiset::<Card>::empty(),
    };
    casc_mset(cs).add(cm)
}

/// The cards now in play: the cell card and every cascade card.
pub open spec fn play_mset(m: BoardModel) -> Multiset<Card> {
    play_of(m.cell, m.cascades)
}


/// The card lies somewhere on the board: in the cell or in a cascade.
pub open spec fn present(cell: Option<Card>, cs: Seq<Seq<Card>>, c: Card) -> bool {
    cell == Some(c) || exists|i: int, j: int|
        0 <= i < cs.len() && 0 <= j < cs[i].len() && (#[trigger] cs[i][j]) == c
}

/// Some minor card of suit `s` lies on the board.
pub open spec fn suit_present(cell: Option<Card>, cs: Seq<Seq<Card>>, s: int) -> bool {
    exists|c: Card|
        #[trigger] present(cell, cs, c) && !c.is_major() && c.spec_suit_index() as int == s
}

/// Some major card lies on the board.
pub open spec fn major_present(cell: Option<Card>, cs: Seq<Seq<Card>>) -> bool {
    exists|c: Card| #[trigger] present(cell, cs, c) && c.is_major()
}

/// No card is in play twice.
pub open spec fn play_distinct(m: BoardModel) -> bool {
    forall|c: Card| #[trigger] play_mset(m).count(c) <= 1
}

/// Replacing one cascade exchanges its cards in the multiset.
pub proof fn lemma_casc_mset_update(cs: Seq<Seq<Card>>, i: int, c: Seq<Card>)
    requires
        0 <= i < cs.len(),
    ensures
        casc_mset(cs.update(i, c)).add(cs[i].to_multiset()) =~= casc_mset(cs).add(
            c.to_multiset(),
        ),
    decreases cs.len(),
{
    if i == cs.len() - 1 {
        assert(cs.update(i, c).drop_last() =~= cs.drop_last());
        assert(cs.update(i, c).last() == c);
        assert(casc_mset(cs.update(i, c)) == casc_mset(cs.drop_last()).add(c.to_multiset()));
        assert(casc_mset(cs) == casc_mset(cs.drop_last()).add(cs[i].to_multiset()));
        assert forall|x: Card|
            casc_mset(cs.update(i, c)).add(cs[i].to_multiset()).count(x) == casc_mset(cs).add(
                c.to_multiset(),
            ).count(x) by {}
    } else {
        lemma_casc_mset_update(cs.drop_last(), i, c);
        assert(cs.update(i, c).drop_last() =~= cs.drop_last().update(i, c));
        assert(cs.update(i, c).last() == cs.last());
        assert(casc_mset(cs.update(i, c)) == casc_mset(cs.drop_last().update(i, c)).add(
            cs.last().to_multiset(),
        ));
        assert(casc_mset(cs) == casc_mset(cs.drop_last()).add(cs.last().to_multiset()));
        assert(cs.drop_last()[i] == cs[i]);
        assert forall|x: Card|
            casc_mset(cs.update(i, c)).add(cs[i].to_multiset()).count(x) == casc_mset(cs).add(
                c.to_multiset(),
            ).count(x) by {
            assert(casc_mset(cs.drop_last().update(i, c)).add(cs[i].to_multiset()).count(x)
                == casc_mset(cs.drop_last()).add(c.to_multiset()).count(x));
        }
    }
}

/// A card in some cascade is in the multiset of all cascades.
pub proof fn lemma_casc_mset_one(cs: Seq<Seq<Card>>, i: int, c: Card)
    requires
        0 <= i < cs.len(),
        cs[i].to_multiset().count(c) >= 1,
    ensures
        casc_mset(cs).count(c) >= cs[i].to_multiset().count(c),
    decreases cs.len(),
{
    if i == cs.len() - 1 {
    } else {
        lemma_casc_mset_one(cs.drop_last(), i, c);
    }
}

/// The same card in two different cascades appears at least twice.
pub proof fn lemma_casc_mset_two(cs: Seq<Seq<Card>>, i: int, j: int, c: Card)
    requires
        0 <= i < j < cs.len(),
        cs[i].contains(c),
        cs[j].contains(c),
    ensures
        casc_mset(cs).count(c) >= 2,
    decreases cs.len(),
{
    cs[i].to_multiset_ensures();
    cs[j].to_multiset_ensures();
    if j == cs.len() - 1 {
        lemma_casc_mset_one(cs.drop_last(), i, c);
    } else {
        lemma_casc_mset_two(cs.drop_last(), i, j, c);
    }
}

/// A cascade is its dropped top plus that top card.
pub proof fn lemma_drop_last_mset(c: Seq<Card>)
    requires
        c.len() > 0,
    ensures
        c.to_multiset() =~= c.drop_last().to_multiset().insert(c.last()),
{
    assert(c =~= c.drop_last().push(c.last()));
    vstd::seq_lib::to_multiset_build(c.drop_last(), c.last());
}

/// Sending the top of cascade `i` to the foundations removes exactly that
/// card from play.
pub proof fn lemma_top_to_fdn_play(m: BoardModel, i: int)
    requires
        0 <= i < m.cascades.len(),
        m.cascades[i].len() > 0,
    ensures
        play_mset(top_to_fdn(m, i)).insert(m.cascades[i].last()) =~= play_mset(m),
        top_to_fdn(m, i).cell == m.cell,
{
    lemma_casc_mset_update(m.cascades, i, m.cascades[i].drop_last());
    lemma_drop_last_mset(m.cascades[i]);
    let top = m.cascades[i].last();
    let cs2 = m.cascades.update(i, m.cascades[i].drop_last());
    assert(top_to_fdn(m, i).cascades == cs2);
    assert(top_to_fdn(m, i).cell == m.cell);
    assert forall|x: Card| play_mset(top_to_fdn(m, i)).insert(top).count(x) == play_mset(
        m,
    ).count(x) by {
        assert(casc_mset(cs2).add(m.cascades[i].to_multiset()).count(x) == casc_mset(
            m.cascades,
        ).add(m.cascades[i].drop_last().to_multiset()).count(x));
        assert(m.cascades[i].to_multiset().count(x) == m.cascades[i].drop_last().to_multiset().insert(
            top,
        ).count(x));
    }
}

/// Sending the cell card to the foundations removes exactly that card from
/// play.
pub proof fn lemma_cell_to_fdn_play(m: BoardModel)
    requires
        m.cell is Some,
    ensures
        play_mset(cell_to_fdn(m)).insert(m.cell.unwrap()) =~= play_mset(m),
        cell_to_fdn(m).cell is None,
{
}

/// Shape of one auto-move round: every cascade eligible at the start loses
/// its top, the others stay; the cell empties exactly when it was eligible.
pub proof fn lemma_round_shape(m0: BoardModel, cur: BoardModel, i: int)
    requires
        0 <= i <= 11,
        cur.cascades.len() == 11,
        m0.cascades.len() == 11,
        forall|j: int| i <= j < 11 ==> cur.cascades[j] == m0.cascades[j],
        cur.cell == m0.cell,
    ensures
        round_from(m0, cur, i).cascades.len() == 11,
        forall|j: int| 0 <= j < i ==> round_from(m0, cur, i).cascades[j] == cur.cascades[j],
        forall|j: int|
            i <= j < 11 ==> round_from(m0, cur, i).cascades[j] == (if cascade_eligible(m0, j) {
                m0.cascades[j].drop_last()
            } else {
                m0.cascades[j]
            }),
        round_from(m0, cur, i).cell == (if cell_eligible(m0) {
            Option::<Card>::None
        } else {
            cur.cell
        }),
    decreases 11 - i,
{
    if i < 11 {
        if cascade_eligible(m0, i) {
            let cur2 = top_to_fdn(cur, i);
            assert(cur2.cell == cur.cell);
            assert(forall|j: int|
                0 <= j < 11 && j != i ==> cur2.cascades[j] == cur.cascades[j]);
            assert(cur2.cascades[i] == m0.cascades[i].drop_last());
            lemma_round_shape(m0, cur2, i + 1);
            assert(round_from(m0, cur, i) == round_from(m0, cur2, i + 1));
        } else {
            lemma_round_shape(m0, cur, i + 1);
            assert(round_from(m0, cur, i) == round_from(m0, cur, i + 1));
        }
    }
}

/// Counting cards over cascades that each kept or lost their top.
pub proof fn lemma_casc_cards_pointwise(a: Seq<Seq<Card>>, b: Seq<Seq<Card>>)
    requires
        a.len() == b.len(),
        forall|j: int|
            0 <= j < a.len() ==> #[trigger] a[j] == b[j] || (b[j].len() > 0 && a[j]
                == b[j].drop_last()),
    ensures
        casc_cards(a) <= casc_cards(b),
        (exists|j: int| 0 <= j < a.len() && a[j] != b[j]) ==> casc_cards(a) < casc_cards(b),
    decreases a.len(),
{
    if a.len() > 0 {
        assert(a.drop_last().len() == b.drop_last().len());
        assert(forall|j: int|
            0 <= j < a.drop_last().len() ==> #[trigger] a.drop_last()[j] == b.drop_last()[j] || (
            b.drop_last()[j].len() > 0 && a.drop_last()[j] == b.drop_last()[j].drop_last()));
        lemma_casc_cards_pointwise(a.drop_last(), b.drop_last());
        if exists|j: int| 0 <= j < a.len() && a[j] != b[j] {
            let j = choose|j: int| 0 <= j < a.len() && a[j] != b[j];
            if j == a.len() - 1 {
                assert(a.last().len() < b.last().len());
            } else {
                assert(a.drop_last()[j] != b.drop_last()[j]);
            }
        }
    }
}

/// When any card is eligible, a round strictly shrinks the board.
pub proof fn lemma_round_decreases(m: BoardModel)
    requires
        m.cascades.len() == 11,
        any_auto(m),
    ensures
        total_cards(auto_round(m)) < total_cards(m),
{
    lemma_round_shape(m, m, 0);
    let r = auto_round(m);
    assert(forall|j: int|
        0 <= j < 11 ==> #[trigger] r.cascades[j] == m.cascades[j] || (m.cascades[j].len() > 0
            && r.cascades[j] == m.cascades[j].drop_last()));
    lemma_casc_cards_pointwise(r.cascades, m.cascades);
    if exists|i: int| 0 <= i < 11 && cascade_eligible(m, i) {
        let i = choose|i: int| 0 <= i < 11 && cascade_eligible(m, i);
        assert(r.cascades[i] == m.cascades[i].drop_last());
        assert(r.cascades[i] != m.cascades[i]) by {
            assert(r.cascades[i].len() < m.cascades[i].len());
        }
    } else {
        assert(cell_eligible(m));
        assert(r.cell is None);
        assert(casc_cards(r.cascades) <= casc_cards(m.cascades));
    }
}

// ---------------------------------------------------------------------------
// Lemmas about the cascade sort.
// ---------------------------------------------------------------------------
/// Inserting into a sorted prefix at the first strictly-greater rank is what
/// `insert_casc` does.
pub proof fn lemma_insert_casc_at(s: Seq<Seq<Card>>, c: Seq<Card>, pos: int)
    requires
        0 <= pos <= s.len(),
        forall|j: int| 0 <= j < pos ==> rank_of(#[trigger] s[j]) <= rank_of(c),
        pos < s.len() ==> rank_of(s[pos]) > rank_of(c),
    ensures
        insert_casc(s, c) =~= s.insert(pos, c),
    decreases s.len(),
{
    if s.len() == 0 {
        assert(insert_casc(s, c) =~= s.insert(0, c));
    } else if rank_of(s[0]) <= rank_of(c) {
        assert(pos >= 1);
        let d = s.drop_first();
        assert(forall|j: int| 0 <= j < pos - 1 ==> rank_of(#[trigger] d[j]) <= rank_of(c));
        lemma_insert_casc_at(d, c, pos - 1);
        assert(insert_casc(s, c) =~= seq![s[0]] + d.insert(pos - 1, c));
        assert(seq![s[0]] + d.insert(pos - 1, c) =~= s.insert(pos, c));
    } else {
        assert(pos == 0);
        assert(insert_casc(s, c) =~= s.insert(0, c));
    }
}

/// What `insert_casc` yields: one longer, the same cascades plus the new
/// one, and still sorted when the input was.
pub proof fn lemma_insert_casc_props(s: Seq<Seq<Card>>, c: Seq<Card>)
    ensures
        insert_casc(s, c).len() == s.len() + 1,
        casc_mset(insert_casc(s, c)) =~= casc_mset(s).add(c.to_multiset()),
        insert_casc(s, c).to_multiset() =~= s.to_multiset().insert(c),
        forall|x: Seq<Card>|
            #[trigger] insert_casc(s, c).contains(x) <==> s.contains(x) || x == c,
        casc_sorted(s) ==> casc_sorted(insert_casc(s, c)),
    decreases s.len(),
{
    broadcast use vstd::seq_lib::group_to_multiset_ensures;

    let r = insert_casc(s, c);
    if s.len() == 0 {
        assert(r =~= seq![c]);
        assert(r.drop_last() =~= Seq::<Seq<Card>>::empty());
        assert(casc_mset(r) == casc_mset(r.drop_last()).add(r.last().to_multiset()));
        assert(casc_mset(r.drop_last()) == Multiset::<Card>::empty());
        assert(casc_mset(s) == Multiset::<Card>::empty());
        assert forall|x: Card|
            casc_mset(r).count(x) == casc_mset(s).add(c.to_multiset()).count(x) by {}
        assert(r.contains(c)) by {
            assert(r[0] == c);
        }
        assert forall|x: Seq<Card>| #[trigger] r.contains(x) implies s.contains(x) || x == c by {
            let i = choose|i: int| 0 <= i < r.len() && r[i] == x;
            assert(x == c);
        }
        assert(r =~= s.push(c));
        assert(r.to_multiset() =~= s.to_multiset().insert(c));
    } else if rank_of(s[0]) <= rank_of(c) {
        let d = s.drop_first();
        lemma_insert_casc_props(d, c);
        assert(r =~= seq![s[0]] + insert_casc(d, c));
        assert(r =~= insert_casc(d, c).insert(0, s[0]));
        assert(r.to_multiset() =~= insert_casc(d, c).to_multiset().insert(s[0]));
        assert(s =~= d.insert(0, s[0]));
        assert(s.to_multiset() =~= d.to_multiset().insert(s[0]));
        assert forall|x: Seq<Card>|
            r.to_multiset().count(x) == s.to_multiset().insert(c).count(x) by {
            assert(r.to_multiset().count(x) == d.to_multiset().insert(c).insert(s[0]).count(x));
        }
        assert(r.to_multiset() =~= s.to_multiset().insert(c));
        // multiset: peel the first element off both sides
        assert(casc_mset(r) =~= casc_mset(s).add(c.to_multiset())) by {
            lemma_casc_mset_cons(s[0], insert_casc(d, c));
            lemma_casc_mset_cons(s[0], d);
            assert(s =~= seq![s[0]] + d);
            assert(casc_mset(r) == casc_mset(insert_casc(d, c)).add(s[0].to_multiset()));
            assert(casc_mset(insert_casc(d, c)) == casc_mset(d).add(c.to_multiset()));
            assert(casc_mset(s) == casc_mset(d).add(s[0].to_multiset()));
            assert forall|x: Card|
                casc_mset(r).count(x) == casc_mset(s).add(c.to_multiset()).count(x) by {}
        }
        assert forall|x: Seq<Card>| #[trigger] r.contains(x) implies s.contains(x) || x == c by {
            let i = choose|i: int| 0 <= i < r.len() && r[i] == x;
            if i == 0 {
                assert(s[0] == x);
            } else {
                assert(insert_casc(d, c)[i - 1] == x);
                assert(insert_casc(d, c).contains(x));
                if d.contains(x) {
                    let j = choose|j: int| 0 <= j < d.len() && d[j] == x;
                    assert(s[j + 1] == x);
                }
            }
        }
        assert forall|x: Seq<Card>| s.contains(x) || x == c implies #[trigger] r.contains(x) by {
            if x == c {
                assert(insert_casc(d, c).contains(x));
                let j = choose|j: int| 0 <= j < insert_casc(d, c).len() && insert_casc(d, c)[j]
                    == x;
                assert(r[j + 1] == x);
            } else {
                let i = choose|i: int| 0 <= i < s.len() && s[i] == x;
                if i == 0 {
                    assert(r[0] == x);
                } else {
                    assert(d[i - 1] == x);
                    assert(insert_casc(d, c).contains(x));
                    let j = choose|j: int| 0 <= j < insert_casc(d, c).len() && insert_casc(
                        d,
                        c,
                    )[j] == x;
                    assert(r[j + 1] == x);
                }
            }
        }
        if casc_sorted(s) {
            assert(casc_sorted(d)) by {
                assert(forall|i: int, j: int|
                    0 <= i < j < d.len() ==> rank_of(d[i]) <= rank_of(d[j]));
            }
            assert forall|i: int, j: int| 0 <= i < j < r.len() implies rank_of(r[i]) <= rank_of(
                r[j],
            ) by {
                if i == 0 {
                    let e = insert_casc(d, c)[j - 1];
                    assert(insert_casc(d, c).contains(e));
                    if d.contains(e) {
                        let k = choose|k: int| 0 <= k < d.len() && d[k] == e;
                        assert(rank_of(s[0]) <= rank_of(s[k + 1]));
                    }
                }
            }
        }
    } else {
        assert(r =~= seq![c] + s);
        assert(r =~= s.insert(0, c));
        assert(r.to_multiset() =~= s.to_multiset().insert(c));
        assert(casc_mset(r) =~= casc_mset(s).add(c.to_multiset())) by {
            lemma_casc_mset_cons(c, s);
            assert(casc_mset(r) == casc_mset(s).add(c.to_multiset()));
        }
        assert forall|x: Seq<Card>| #[trigger] r.contains(x) implies s.contains(x) || x == c by {
            let i = choose|i: int| 0 <= i < r.len() && r[i] == x;
            if i > 0 {
                assert(s[i - 1] == x);
            }
        }
        assert forall|x: Seq<Card>| s.contains(x) || x == c implies #[trigger] r.contains(x) by {
            if x == c {
                assert(r[0] == x);
            } else {
                let i = choose|i: int| 0 <= i < s.len() && s[i] == x;
                assert(r[i + 1] == x);
            }
        }
        if casc_sorted(s) {
            assert forall|i: int, j: int| 0 <= i < j < r.len() implies rank_of(r[i]) <= rank_of(
                r[j],
            ) by {
                if i > 0 {
                    assert(rank_of(s[i - 1]) <= rank_of(s[j - 1]));
                }
            }
        }
    }
}

/// The card multiset of a cons.
pub proof fn lemma_casc_mset_cons(h: Seq<Card>, t: Seq<Seq<Card>>)
    ensures
        casc_mset(seq![h] + t) =~= casc_mset(t).add(h.to_multiset()),
    decreases t.len(),
{
    let w = seq![h] + t;
    assert(w.len() == t.len() + 1);
    if t.len() == 0 {
        assert(w.drop_last() =~= Seq::<Seq<Card>>::empty());
        assert(w.last() == h);
        assert(casc_mset(w) == casc_mset(w.drop_last()).add(w.last().to_multiset()));
        assert(casc_mset(w.drop_last()) == Multiset::<Card>::empty());
        assert(casc_mset(t) == Multiset::<Card>::empty());
        assert forall|x: Card|
            casc_mset(w).count(x) == casc_mset(t).add(h.to_multiset()).count(x) by {}
    } else {
        assert(w.drop_last() =~= seq![h] + t.drop_last());
        assert(w.last() == t.last());
        lemma_casc_mset_cons(h, t.drop_last());
        assert(casc_mset(w) == casc_mset(w.drop_last()).add(w.last().to_multiset()));
        assert(casc_mset(t) == casc_mset(t.drop_last()).add(t.last().to_multiset()));
        assert(casc_mset(w.drop_last()) == casc_mset(t.drop_last()).add(h.to_multiset()));
        assert forall|x: Card|
            casc_mset(w).count(x) == casc_mset(t).add(h.to_multiset()).count(x) by {}
    }
}

/// What the sort yields: the same cascades in non-decreasing rank order.
pub proof fn lemma_sort_casc_props(cs: Seq<Seq<Card>>)
    ensures
        sort_casc(cs).len() == cs.len(),
        casc_mset(sort_casc(cs)) =~= casc_mset(cs),
        sort_casc(cs).to_multiset() =~= cs.to_multiset(),
        forall|x: Seq<Card>| #[trigger] sort_casc(cs).contains(x) <==> cs.contains(x),
        casc_sorted(sort_casc(cs)),
    decreases cs.len(),
{
    broadcast use vstd::seq_lib::group_to_multiset_ensures;

    if cs.len() == 0 {
        assert(forall|x: Seq<Card>| !cs.contains(x));
    } else {
        let d = cs.drop_last();
        lemma_sort_casc_props(d);
        lemma_insert_casc_props(sort_casc(d), cs.last());
        assert(casc_mset(cs) =~= casc_mset(d).add(cs.last().to_multiset()));
        assert(cs =~= d.push(cs.last()));
        assert(cs.to_multiset() =~= d.to_multiset().insert(cs.last()));
        assert(sort_casc(cs).to_multiset() =~= cs.to_multiset());
        assert forall|x: Seq<Card>| #[trigger] sort_casc(cs).contains(x) implies cs.contains(
            x,
        ) by {
            if sort_casc(d).contains(x) {
                assert(d.contains(x));
                let i = choose|i: int| 0 <= i < d.len() && d[i] == x;
                assert(cs[i] == x);
            } else {
                assert(cs.last() == x);
            }
        }
        assert forall|x: Seq<Card>| cs.contains(x) implies #[trigger] sort_casc(cs).contains(
            x,
        ) by {
            let i = choose|i: int| 0 <= i < cs.len() && cs[i] == x;
            if i < cs.len() - 1 {
                assert(d[i] == x);
            }
        }
    }
}

/// A prefix holds at most all the cards.
pub proof fn lemma_casc_cards_take_le(cs: Seq<Seq<Card>>, n: int)
    requires
        0 <= n <= cs.len(),
    ensures
        casc_cards(cs.take(n)) <= casc_cards(cs),
    decreases cs.len() - n,
{
    if n < cs.len() {
        assert(cs.take(n + 1).drop_last() =~= cs.take(n));
        assert(cs.take(n + 1).last() == cs[n]);
        lemma_casc_cards_take_le(cs, n + 1);
    } else {
        assert(cs.take(n) =~= cs);
    }
}

/// Total number of cards equals the size of the card multiset.
pub proof fn lemma_casc_cards_mset(cs: Seq<Seq<Card>>)
    ensures
        casc_cards(cs) == casc_mset(cs).len(),
    decreases cs.len(),
{
    if cs.len() > 0 {
        lemma_casc_cards_mset(cs.drop_last());
        cs.last().to_multiset_ensures();
    }
}

/// No move puts more copies of a card in play: ordinary moves shuffle the
/// cards in play, foundation transfers remove one.
pub proof fn lemma_apply_play_le(m: BoardModel, mv: CardMove)
    requires
        mv.wf(),
        apply_pre(m, mv),
        m.cascades.len() == 11,
    ensures
        forall|c: Card|
            #[trigger] play_mset(apply_move_spec(m, mv)).count(c) <= play_mset(m).count(c),
        mv.to != FOUNDATION ==> forall|c: Card|
            #[trigger] play_mset(apply_move_spec(m, mv)).count(c) == play_mset(m).count(c),
        (mv.to == FOUNDATION && mv.from == CELL) ==> forall|c: Card|
            #[trigger] play_mset(apply_move_spec(m, mv)).insert(m.cell.unwrap()).count(c)
                == play_mset(m).count(c),
        (mv.to == FOUNDATION && mv.from != CELL) ==> forall|c: Card|
            #[trigger] play_mset(apply_move_spec(m, mv)).insert(
                m.cascades[mv.from as int].last(),
            ).count(c) == play_mset(m).count(c),
{
    let r = apply_move_spec(m, mv);
    if mv.from < CASCADE_COUNT && mv.to < CASCADE_COUNT {
        let f = mv.from as int;
        let t = mv.to as int;
        let src = m.cascades[f];
        let k = mv.count as int;
        let moved = src.subrange(src.len() - k, src.len() as int).reverse();
        let taken = src.take(src.len() - k);
        let cs1 = m.cascades.update(f, taken);
        lemma_casc_mset_update(m.cascades, f, taken);
        lemma_casc_mset_update(cs1, t, cs1[t] + moved);
        vstd::seq_lib::lemma_multiset_commutative(cs1[t], moved);
        src.subrange(src.len() - k, src.len() as int).lemma_reverse_to_multiset();
        vstd::seq_lib::lemma_multiset_commutative(taken, src.subrange(src.len() - k, src.len() as int));
        assert(taken + src.subrange(src.len() - k, src.len() as int) =~= src);
        assert forall|c: Card| #[trigger] play_mset(r).count(c) == play_mset(m).count(c) by {
            assert(casc_mset(cs1).add(src.to_multiset()).count(c) == casc_mset(m.cascades).add(
                taken.to_multiset(),
            ).count(c));
            assert(casc_mset(r.cascades).add(cs1[t].to_multiset()).count(c) == casc_mset(
                cs1,
            ).add((cs1[t] + moved).to_multiset()).count(c));
            assert((cs1[t] + moved).to_multiset().count(c) == cs1[t].to_multiset().add(
                moved.to_multiset(),
            ).count(c));
            assert(moved.to_multiset().count(c) == src.subrange(
                src.len() - k,
                src.len() as int,
            ).to_multiset().count(c));
            assert(src.to_multiset().count(c) == taken.to_multiset().count(c) + src.subrange(
                src.len() - k,
                src.len() as int,
            ).to_multiset().count(c));
        }
    } else if mv.to == FOUNDATION {
        if mv.from == CELL {
            lemma_cell_to_fdn_play(m);
            assert forall|c: Card| #[trigger] play_mset(r).insert(m.cell.unwrap()).count(c)
                == play_mset(m).count(c) by {}
            assert forall|c: Card| #[trigger] play_mset(r).count(c) <= play_mset(m).count(c) by {
                assert(play_mset(r).insert(m.cell.unwrap()).count(c) == play_mset(m).count(c));
            }
        } else {
            lemma_top_to_fdn_play(m, mv.from as int);
            assert forall|c: Card| #[trigger] play_mset(r).insert(
                m.cascades[mv.from as int].last(),
            ).count(c) == play_mset(m).count(c) by {}
            assert forall|c: Card| #[trigger] play_mset(r).count(c) <= play_mset(m).count(c) by {
                assert(play_mset(r).insert(m.cascades[mv.from as int].last()).count(c)
                    == play_mset(m).count(c));
            }
        }
    } else if mv.from == CELL {
        let t = mv.to as int;
        let x = m.cell.unwrap();
        lemma_casc_mset_update(m.cascades, t, m.cascades[t] + seq![x]);
        vstd::seq_lib::lemma_multiset_commutative(m.cascades[t], seq![x]);
        assert(seq![x] =~= Seq::<Card>::empty().push(x));
        vstd::seq_lib::to_multiset_build(Seq::<Card>::empty(), x);
        Seq::<Card>::empty().to_multiset_ensures();
        assert(Seq::<Card>::empty().to_multiset() =~= Multiset::<Card>::empty());
        assert(seq![x].to_multiset() == Multiset::<Card>::empty().insert(x));
        assert forall|c: Card| #[trigger] play_mset(r).count(c) == play_mset(m).count(c) by {
            assert(casc_mset(r.cascades).add(m.cascades[t].to_multiset()).count(c) == casc_mset(
                m.cascades,
            ).add((m.cascades[t] + seq![x]).to_multiset()).count(c));
            assert((m.cascades[t] + seq![x]).to_multiset().count(c) == m.cascades[
                t
            ].to_multiset().add(seq![x].to_multiset()).count(c));
        }
    } else {
        let f = mv.from as int;
        lemma_casc_mset_update(m.cascades, f, m.cascades[f].drop_last());
        lemma_drop_last_mset(m.cascades[f]);
        assert forall|c: Card| #[trigger] play_mset(r).count(c) == play_mset(m).count(c) by {
            assert(casc_mset(r.cascades).add(m.cascades[f].to_multiset()).count(c) == casc_mset(
                m.cascades,
            ).add(m.cascades[f].drop_last().to_multiset()).count(c));
            assert(m.cascades[f].to_multiset().count(c) == m.cascades[
                f
            ].drop_last().to_multiset().insert(m.cascades[f].last()).count(c));
        }
    }
}

// ---------------------------------------------------------------------------
// Conservation: every legal move accounts for exactly the same cards.
// ---------------------------------------------------------------------------
/// How often a card occurs in a run of consecutive major ranks.
proof fn lemma_major_run_count(n: nat, start: int, x: Card)
    requires
        0 <= start,
        start + n <= 32,
    ensures
        Seq::new(n, |i: int| Card { value: crate::card::pack(4, (start + i) as u8) }).to_multiset().count(
            x,
        ) == (if x.is_major() && start <= x.spec_rank() < start + n {
            1nat
        } else {
            0nat
        }),
    decreases n,
{
    let s = Seq::new(n, |i: int| Card { value: crate::card::pack(4, (start + i) as u8) });
    if n == 0 {
        s.to_multiset_ensures();
        assert(s.to_multiset().len() == 0);
        assert(s.to_multiset().count(x) == 0);
    } else {
        let d = Seq::new(
            (n - 1) as nat,
            |i: int| Card { value: crate::card::pack(4, (start + i) as u8) },
        );
        lemma_major_run_count((n - 1) as nat, start, x);
        assert(s =~= d.push(Card { value: crate::card::pack(4, (start + n - 1) as u8) }));
        vstd::seq_lib::to_multiset_build(
            d,
            Card { value: crate::card::pack(4, (start + n - 1) as u8) },
        );
    }
}

/// How often a card occurs in a run of consecutive minor ranks of one suit.
proof fn lemma_minor_run_count(n: nat, su: int, x: Card)
    requires
        0 <= su < 4,
        n <= 12,
    ensures
        Seq::new(n, |i: int| Card { value: crate::card::pack(su as u8, (i + 2) as u8) }).to_multiset().count(
            x,
        ) == (if !x.is_major() && x.spec_suit_index() as int == su && 2 <= x.spec_rank() < n + 2 {
            1nat
        } else {
            0nat
        }),
    decreases n,
{
    let s = Seq::new(n, |i: int| Card { value: crate::card::pack(su as u8, (i + 2) as u8) });
    if n == 0 {
        s.to_multiset_ensures();
        assert(s.to_multiset().len() == 0);
        assert(s.to_multiset().count(x) == 0);
    } else {
        let d = Seq::new(
            (n - 1) as nat,
            |i: int| Card { value: crate::card::pack(su as u8, (i + 2) as u8) },
        );
        lemma_minor_run_count((n - 1) as nat, su, x);
        assert(s =~= d.push(Card { value: crate::card::pack(su as u8, (n + 1) as u8) }));
        vstd::seq_lib::to_multiset_build(
            d,
            Card { value: crate::card::pack(su as u8, (n + 1) as u8) },
        );
    }
}

/// The number of times a card is implied by the foundations.
pub proof fn lemma_implied_count(m: BoardModel, x: Card)
    requires
        m.minors.len() == 4,
        forall|s: int| 0 <= s < 4 ==> 1 <= #[trigger] m.minors[s] <= 13,
        (-1 <= m.low && m.low + 2 <= m.high && m.high <= 22) || (m.low == 21 && m.high == 21),
    ensures
        implied_mset(m).count(x) == (if x.is_major() {
            if (m.low == m.high && x.spec_rank() <= 21) || x.spec_rank() <= m.low || (m.high
                <= x.spec_rank() <= 21) {
                1nat
            } else {
                0nat
            }
        } else {
            if 2 <= x.spec_rank() <= m.minors[(x.spec_suit_index() as int)] && x.spec_suit_index()
                < 4 {
                1nat
            } else {
                0nat
            }
        }),
{
    if m.low == m.high {
        lemma_major_run_count(22, 0, x);
        assert(implied_majors(m) =~= Seq::new(
            22,
            |i: int| Card { value: crate::card::pack(4, (0 + i) as u8) },
        ));
    } else {
        let lo = Seq::new(
            (m.low + 1) as nat,
            |i: int| Card { value: crate::card::pack(4, (0 + i) as u8) },
        );
        let hi = Seq::new(
            (22 - m.high) as nat,
            |i: int| Card { value: crate::card::pack(4, (m.high + i) as u8) },
        );
        lemma_major_run_count((m.low + 1) as nat, 0, x);
        lemma_major_run_count((22 - m.high) as nat, m.high, x);
        assert(implied_majors(m) =~= lo + hi);
        vstd::seq_lib::lemma_multiset_commutative(lo, hi);
    }
    assert forall|s: int| 0 <= s < 4 implies #[trigger] implied_minor(m, s).to_multiset().count(x)
        == (if !x.is_major() && x.spec_suit_index() as int == s && 2 <= x.spec_rank() <= m.minors[s] {
        1nat
    } else {
        0nat
    }) by {
        lemma_minor_run_count((m.minors[s] - 1) as nat, s, x);
        assert(implied_minor(m, s) =~= Seq::new(
            (m.minors[s] - 1) as nat,
            |i: int| Card { value: crate::card::pack(s as u8, (i + 2) as u8) },
        ));
    }
    assert(implied_mset(m).count(x) == implied_majors(m).to_multiset().count(x) + implied_minor(
        m,
        0,
    ).to_multiset().count(x) + implied_minor(m, 1).to_multiset().count(x) + implied_minor(
        m,
        2,
    ).to_multiset().count(x) + implied_minor(m, 3).to_multiset().count(x));
    assert(implied_minor(m, 0).to_multiset().count(x) == (if !x.is_major()
        && x.spec_suit_index() as int == 0 && 2 <= x.spec_rank() <= m.minors[0] {
        1nat
    } else {
        0nat
    }));
    assert(implied_minor(m, 1).to_multiset().count(x) == (if !x.is_major()
        && x.spec_suit_index() as int == 1 && 2 <= x.spec_rank() <= m.minors[1] {
        1nat
    } else {
        0nat
    }));
    assert(implied_minor(m, 2).to_multiset().count(x) == (if !x.is_major()
        && x.spec_suit_index() as int == 2 && 2 <= x.spec_rank() <= m.minors[2] {
        1nat
    } else {
        0nat
    }));
    assert(implied_minor(m, 3).to_multiset().count(x) == (if !x.is_major()
        && x.spec_suit_index() as int == 3 && 2 <= x.spec_rank() <= m.minors[3] {
        1nat
    } else {
        0nat
    }));
}

/// Sending a removable card to the foundations makes it implied, and
/// changes nothing else about the implied cards.
pub proof fn lemma_fdn_put_implied(m: BoardModel, c: Card)
    requires
        m.minors.len() == 4,
        forall|s: int| 0 <= s < 4 ==> 1 <= #[trigger] m.minors[s] <= 13,
        (-1 <= m.low && m.low + 2 <= m.high && m.high <= 22) || (m.low == 21 && m.high == 21),
        c.in_deck(),
        c.is_major() ==> (c.spec_rank() as int == m.low + 1 || c.spec_rank() as int == m.high - 1)
            && m.low + 2 <= m.high,
        !c.is_major() ==> c.spec_rank() as int == m.minors[(c.spec_suit_index() as int)] + 1,
    ensures
        implied_mset(fdn_put(m, c)) =~= implied_mset(m).insert(c),
{
    let r = fdn_put(m, c);
    lemma_fdn_put_ok(m, c);
    assert forall|x: Card| implied_mset(r).count(x) == implied_mset(m).insert(c).count(x) by {
        lemma_implied_count(m, x);
        lemma_implied_count(r, x);
        assert(x.value == 32 * (x.value / 32) + (x.value % 32));
        assert(c.value == 32 * (c.value / 32) + (c.value % 32));
        if c.is_major() {
            let rk = c.spec_rank() as int;
            if rk == m.low + 1 && rk == m.high - 1 {
                assert(m.low + 2 == m.high);
                assert(r.low == 21 && r.high == 21);
            } else if rk == m.low + 1 {
                assert(rk < m.high - 1);
                if r.low == 21 && r.high == 21 && !(m.low == 21 && m.high == 21) {
                    assert(m.low + 2 >= m.high);
                    assert(false);
                }
            } else {
                assert(rk == m.high - 1);
                if r.low == 21 && r.high == 21 {
                    assert(m.low + 2 >= m.high);
                    assert(rk == m.low + 1);
                    assert(false);
                }
            }
            if x == c {
                assert(implied_mset(m).count(x) == 0);
                assert(implied_mset(r).count(x) == 1);
            } else if x.is_major() {
                assert(x.spec_rank() != c.spec_rank());
                assert(implied_mset(r).count(x) == implied_mset(m).count(x));
            } else {
                assert(implied_mset(r).count(x) == implied_mset(m).count(x));
            }
        } else {
            let su = c.spec_suit_index() as int;
            assert(r.minors[su] == m.minors[su] + 1);
            assert(forall|s2: int| 0 <= s2 < 4 && s2 != su ==> r.minors[s2] == m.minors[s2]);
            if x == c {
                assert(implied_mset(m).count(x) == 0);
                assert(implied_mset(r).count(x) == 1);
            } else {
                assert(implied_mset(r).count(x) == implied_mset(m).count(x));
            }
        }
    }
}

/// Each deck card occurs exactly once in the full deck.
pub proof fn lemma_full_deck_count(x: Card)
    ensures
        Card::full_deck().to_multiset().count(x) == (if x.in_deck() {
            1nat
        } else {
            0nat
        }),
{
    let majors = Seq::new(22, |i: int| Card { value: crate::card::pack(4, (0 + i) as u8) });
    let r0 = Seq::new(12, |i: int| Card { value: crate::card::pack(0u8, (i + 2) as u8) });
    let r1 = Seq::new(12, |i: int| Card { value: crate::card::pack(1u8, (i + 2) as u8) });
    let r2 = Seq::new(12, |i: int| Card { value: crate::card::pack(2u8, (i + 2) as u8) });
    let r3 = Seq::new(12, |i: int| Card { value: crate::card::pack(3u8, (i + 2) as u8) });
    assert(Card::full_deck() =~= majors + r0 + r1 + r2 + r3);
    lemma_major_run_count(22, 0, x);
    lemma_minor_run_count(12, 0, x);
    lemma_minor_run_count(12, 1, x);
    lemma_minor_run_count(12, 2, x);
    lemma_minor_run_count(12, 3, x);
    vstd::seq_lib::lemma_multiset_commutative(majors + r0 + r1 + r2, r3);
    vstd::seq_lib::lemma_multiset_commutative(majors + r0 + r1, r2);
    vstd::seq_lib::lemma_multiset_commutative(majors + r0, r1);
    vstd::seq_lib::lemma_multiset_commutative(majors, r0);
    assert(x.value == 32 * (x.value / 32) + (x.value % 32));
}

/// A legal move on a conserved board conserves the multiset of cards the
/// board accounts for.
pub proof fn lemma_apply_conserves(m: BoardModel, mv: CardMove)
    requires
        board_ok(m),
        mv.wf(),
        legal_move(m, mv),
        conserved(m),
    ensures
        board_mset(apply_move_spec(m, mv)) =~= board_mset(m),
        conserved(apply_move_spec(m, mv)),
{
    lemma_legal_pre(m, mv);
    lemma_apply_play_le(m, mv);
    let r = apply_move_spec(m, mv);
    if mv.to == FOUNDATION {
        let c = if mv.from == CELL {
            m.cell.unwrap()
        } else {
            m.cascades[mv.from as int].last()
        };
        assert(c.in_deck());
        if c.is_major() {
            // a major still in play means the majors are not complete
            assert(play_mset(m).count(c) >= 1) by {
                if mv.from == CELL {
                } else {
                    let f = mv.from as int;
                    assert(m.cascades[f].to_multiset().count(c) >= 1) by {
                        m.cascades[f].to_multiset_ensures();
                        assert(m.cascades[f].contains(c)) by {
                            assert(m.cascades[f][m.cascades[f].len() - 1] == c);
                        }
                    }
                    lemma_casc_mset_one(m.cascades, f, c);
                }
            }
            lemma_full_deck_count(c);
            lemma_implied_count(m, c);
            assert(board_mset(m).count(c) == Card::full_deck().to_multiset().count(c));
            assert(implied_mset(m).count(c) == 0);
            assert(m.low + 2 <= m.high) by {
                if m.low == m.high {
                    assert(implied_mset(m).count(c) == 1);
                }
            }
        }
        if mv.from == CELL {
            lemma_fdn_put_implied(BoardModel { cell: None, ..m }, c);
            assert(implied_mset(r) =~= implied_mset(m).insert(c)) by {
                assert(implied_mset(BoardModel { cell: None, ..m }) =~= implied_mset(m)) by {
                    assert(implied_majors(BoardModel { cell: None, ..m }) == implied_majors(m));
                    assert(forall|s: int|
                        0 <= s < 4 ==> #[trigger] implied_minor(BoardModel { cell: None, ..m }, s)
                            == implied_minor(m, s));
                }
                assert(fdn_put(BoardModel { cell: None, ..m }, c) == r);
            }
            assert forall|x: Card| board_mset(r).count(x) == board_mset(m).count(x) by {
                assert(play_mset(r).insert(c).count(x) == play_mset(m).count(x));
                assert(implied_mset(r).count(x) == implied_mset(m).insert(c).count(x));
            }
        } else {
            let f = mv.from as int;
            let m1 = BoardModel { cascades: m.cascades.update(f, m.cascades[f].drop_last()), ..m };
            lemma_fdn_put_implied(m1, c);
            assert(implied_mset(r) =~= implied_mset(m).insert(c)) by {
                assert(implied_mset(m1) =~= implied_mset(m)) by {
                    assert(implied_majors(m1) == implied_majors(m));
                    assert(forall|s: int|
                        0 <= s < 4 ==> #[trigger] implied_minor(m1, s) == implied_minor(m, s));
                }
                assert(fdn_put(m1, c) == r);
            }
            assert forall|x: Card| board_mset(r).count(x) == board_mset(m).count(x) by {
                assert(play_mset(r).insert(c).count(x) == play_mset(m).count(x));
                assert(implied_mset(r).count(x) == implied_mset(m).insert(c).count(x));
            }
        }
    } else {
        assert(implied_mset(r) =~= implied_mset(m)) by {
            assert(implied_majors(r) == implied_majors(m));
            assert(forall|s: int|
                0 <= s < 4 ==> #[trigger] implied_minor(r, s) == implied_minor(m, s));
        }
        assert forall|x: Card| board_mset(r).count(x) == board_mset(m).count(x) by {
            assert(play_mset(r).count(x) == play_mset(m).count(x));
        }
    }
    assert(board_mset(r) =~= board_mset(m));
    assert(board_mset(r) == board_mset(m));
    assert(board_mset(r) == Card::full_deck().to_multiset());
}

/// Processing one eligible cascade in an auto-move round leaves every major
/// pointer with a still-pending card untouched: the card that advances a
/// pointer is unique on a board without duplicates.
pub proof fn lemma_major_step(m0: BoardModel, prev: BoardModel, i2: int, top: Card)
    requires
        board_ok(m0),
        m0.cascades.len() == 11,
        forall|c: Card| #[trigger] play_mset(m0).count(c) <= 1,
        0 <= i2 < 11,
        cascade_eligible(m0, i2),
        top == m0.cascades[i2].last(),
        prev.cascades.len() == 11,
        prev.cascades[i2] == m0.cascades[i2],
        major_low_pending(m0, i2) ==> prev.low == m0.low,
        major_high_pending(m0, i2) ==> prev.high == m0.high,
        (cell_eligible(m0) && m0.cell.unwrap().is_major() && m0.cell.unwrap().spec_rank() as int
            == m0.low + 1) ==> prev.low == m0.low,
        (cell_eligible(m0) && m0.cell.unwrap().is_major() && m0.cell.unwrap().spec_rank() as int
            == m0.high - 1) ==> prev.high == m0.high,
    ensures
        major_low_pending(m0, i2 + 1) ==> top_to_fdn(prev, i2).low == m0.low,
        major_high_pending(m0, i2 + 1) ==> top_to_fdn(prev, i2).high == m0.high,
        (cell_eligible(m0) && m0.cell.unwrap().is_major() && m0.cell.unwrap().spec_rank() as int
            == m0.low + 1) ==> top_to_fdn(prev, i2).low == m0.low,
        (cell_eligible(m0) && m0.cell.unwrap().is_major() && m0.cell.unwrap().spec_rank() as int
            == m0.high - 1) ==> top_to_fdn(prev, i2).high == m0.high,
{
    let next = top_to_fdn(prev, i2);
    assert(m0.cascades[i2].contains(top)) by {
        assert(m0.cascades[i2][m0.cascades[i2].len() - 1] == top);
    }
    if next.low == prev.low && next.high == prev.high {
        // nothing moved
    } else {
        assert(top.is_major());
        // whichever pointer moved, the moving card's rank matched it
        if next.low != prev.low {
            assert(top.spec_rank() as int == prev.low + 1 || next.low == 21);
        }
        if major_low_pending(m0, i2 + 1) {
            assert(major_low_pending(m0, i2));
            assert(prev.low == m0.low);
            let j = choose|j: int|
                i2 + 1 <= j < 11 && cascade_eligible(m0, j) && (
                #[trigger] m0.cascades[j]).last().is_major()
                    && m0.cascades[j].last().spec_rank() as int == m0.low + 1;
            let c2 = m0.cascades[j].last();
            assert(m0.low + 2 <= m0.high) by {
                assert(c2.in_deck());
                assert(c2.spec_rank() <= 21);
            }
            if next.low != prev.low {
                if top.spec_rank() as int == prev.low + 1 {
                    assert(c2.spec_rank() == top.spec_rank());
                    assert(c2 == top) by {
                        assert(c2.value == 32 * (c2.value / 32) + (c2.value % 32));
                        assert(top.value == 32 * (top.value / 32) + (top.value % 32));
                    }
                    assert(m0.cascades[j].contains(top)) by {
                        assert(m0.cascades[j][m0.cascades[j].len() - 1] == top);
                    }
                    lemma_casc_mset_two(m0.cascades, i2, j, top);
                    assert(play_mset(m0).count(top) >= 2);
                    assert(false);
                } else {
                    // low moved through a collapse fired by the high branch
                    assert(top.spec_rank() as int == prev.high - 1);
                    assert(next.low == 21 && next.high == 21);
                    assert(prev.high <= prev.low + 2);
                    assert(top.spec_rank() as int <= m0.low);
                    assert(top.spec_rank() as int == m0.low + 1 || top.spec_rank() as int
                        == m0.high - 1);
                    assert(false);
                }
            }
        }
        if major_high_pending(m0, i2 + 1) {
            assert(major_high_pending(m0, i2));
            assert(prev.high == m0.high);
            let j = choose|j: int|
                i2 + 1 <= j < 11 && cascade_eligible(m0, j) && (
                #[trigger] m0.cascades[j]).last().is_major()
                    && m0.cascades[j].last().spec_rank() as int == m0.high - 1;
            let c2 = m0.cascades[j].last();
            if next.high != prev.high {
                if top.spec_rank() as int == prev.high - 1 {
                    assert(c2.spec_rank() == top.spec_rank());
                    assert(c2 == top) by {
                        assert(c2.value == 32 * (c2.value / 32) + (c2.value % 32));
                        assert(top.value == 32 * (top.value / 32) + (top.value % 32));
                    }
                    assert(m0.cascades[j].contains(top)) by {
                        assert(m0.cascades[j][m0.cascades[j].len() - 1] == top);
                    }
                    lemma_casc_mset_two(m0.cascades, i2, j, top);
                    assert(play_mset(m0).count(top) >= 2);
                    assert(false);
                } else {
                    // high moved through a collapse fired by the low branch
                    assert(top.spec_rank() as int == prev.low + 1);
                    assert(next.low == 21 && next.high == 21);
                    assert(prev.low + 2 >= prev.high);
                    assert(top.spec_rank() as int >= m0.high);
                    assert(top.spec_rank() as int == m0.low + 1 || top.spec_rank() as int
                        == m0.high - 1);
                    if top.spec_rank() as int == m0.low + 1 {
                        assert(m0.low + 1 >= m0.high);
                        assert(c2.in_deck());
                        assert(false);
                    }
                    assert(false);
                }
            }
        }
        if cell_eligible(m0) && m0.cell.unwrap().is_major() && m0.cell.unwrap().spec_rank() as int
            == m0.low + 1 {
            let cc = m0.cell.unwrap();
            assert(prev.low == m0.low);
            assert(m0.low + 2 <= m0.high) by {
                assert(cc.in_deck());
            }
            if next.low != prev.low {
                if top.spec_rank() as int == prev.low + 1 {
                    assert(cc.spec_rank() == top.spec_rank());
                    assert(cc == top) by {
                        assert(cc.value == 32 * (cc.value / 32) + (cc.value % 32));
                        assert(top.value == 32 * (top.value / 32) + (top.value % 32));
                    }
                    assert(m0.cascades[i2].to_multiset().count(top) >= 1) by {
                        m0.cascades[i2].to_multiset_ensures();
                    }
                    lemma_casc_mset_one(m0.cascades, i2, top);
                    assert(play_mset(m0).count(top) >= 2);
                    assert(false);
                } else {
                    assert(top.spec_rank() as int == prev.high - 1);
                    assert(next.low == 21 && next.high == 21);
                    assert(prev.high <= prev.low + 2);
                    assert(top.spec_rank() as int <= m0.low);
                    assert(top.spec_rank() as int == m0.low + 1 || top.spec_rank() as int
                        == m0.high - 1);
                    assert(false);
                }
            }
        }
        if cell_eligible(m0) && m0.cell.unwrap().is_major() && m0.cell.unwrap().spec_rank() as int
            == m0.high - 1 {
            let cc = m0.cell.unwrap();
            assert(prev.high == m0.high);
            if next.high != prev.high {
                if top.spec_rank() as int == prev.high - 1 {
                    assert(cc.spec_rank() == top.spec_rank());
                    assert(cc == top) by {
                        assert(cc.value == 32 * (cc.value / 32) + (cc.value % 32));
                        assert(top.value == 32 * (top.value / 32) + (top.value % 32));
                    }
                    assert(m0.cascades[i2].to_multiset().count(top) >= 1) by {
                        m0.cascades[i2].to_multiset_ensures();
                    }
                    lemma_casc_mset_one(m0.cascades, i2, top);
                    assert(play_mset(m0).count(top) >= 2);
                    assert(false);
                } else {
                    assert(top.spec_rank() as int == prev.low + 1);
                    assert(next.low == 21 && next.high == 21);
                    assert(prev.low + 2 >= prev.high);
                    assert(top.spec_rank() as int >= m0.high);
                    assert(top.spec_rank() as int == m0.low + 1 || top.spec_rank() as int
                        == m0.high - 1);
                    if top.spec_rank() as int == m0.low + 1 {
                        assert(m0.low + 1 >= m0.high);
                        assert(cc.in_deck());
                        assert(false);
                    }
                    assert(false);
                }
            }
        }
    }
}

} // verus!
