//! The laws of the board operations, proved once and for all over the model:
//! auto-moves reach a true fixed point and are idempotent, normalization is
//! idempotent, and the major foundation pointers meet exactly when the
//! majors are complete.
use vstd::prelude::*;

use crate::board_model::{
    any_auto, auto_fix, auto_round, board_mset, board_ok, can_remove, casc_mset, casc_sorted,
    cascade_eligible, cell_eligible, cell_to_fdn, conserved, implied_majors,
    lemma_casc_mset_one, lemma_casc_mset_two, lemma_full_deck_count, lemma_implied_count,
    lemma_round_decreases, lemma_round_shape, lemma_sort_casc_props, normalize_spec,
    play_distinct, play_mset, rank_of, round_from, sort_casc, top_to_fdn, total_cards, won_spec,
    BoardModel,
};
use crate::card::Card;

verus! {

broadcast use vstd::multiset::group_multiset_axioms;

/// The major foundation pointers never cross: they stand apart with room
/// for at least one rank, or they have met at the completed value, which
/// happens exactly when the pointers imply all 22 major cards.
pub proof fn lemma_major_pointers(m: BoardModel)
    requires
        board_ok(m),
    ensures
        m.low < m.high || (m.low == m.high && m.low == 21),
        (m.low == m.high) <==> implied_majors(m).len() == 22,
{
}

/// Counting cards over cascades that each kept or lost their top card.
proof fn lemma_casc_mset_pointwise_le(a: Seq<Seq<Card>>, b: Seq<Seq<Card>>)
    requires
        a.len() == b.len(),
        forall|j: int|
            0 <= j < a.len() ==> #[trigger] a[j] == b[j] || (b[j].len() > 0 && a[j]
                == b[j].drop_last()),
    ensures
        forall|c: Card| #[trigger] casc_mset(a).count(c) <= casc_mset(b).count(c),
    decreases a.len(),
{
    if a.len() > 0 {
        assert(forall|j: int|
            0 <= j < a.drop_last().len() ==> #[trigger] a.drop_last()[j] == b.drop_last()[j] || (
            b.drop_last()[j].len() > 0 && a.drop_last()[j] == b.drop_last()[j].drop_last()));
        lemma_casc_mset_pointwise_le(a.drop_last(), b.drop_last());
        assert forall|c: Card| #[trigger] casc_mset(a).count(c) <= casc_mset(b).count(c) by {
            assert(casc_mset(a).count(c) == casc_mset(a.drop_last()).count(c)
                + a.last().to_multiset().count(c));
            assert(casc_mset(b).count(c) == casc_mset(b.drop_last()).count(c)
                + b.last().to_multiset().count(c));
            if a.last() != b.last() {
                crate::board_model::lemma_drop_last_mset(b.last());
                assert(b.last().to_multiset().count(c) == a.last().to_multiset().insert(
                    b.last().last(),
                ).count(c));
            }
        }
    }
}

/// One round of auto-moves puts no extra copy of any card in play.
proof fn lemma_round_play_le(m: BoardModel)
    requires
        m.cascades.len() == 11,
    ensures
        forall|c: Card| #[trigger] play_mset(auto_round(m)).count(c) <= play_mset(m).count(c),
{
    lemma_round_shape(m, m, 0);
    let r = auto_round(m);
    assert(forall|j: int|
        0 <= j < 11 ==> #[trigger] r.cascades[j] == m.cascades[j] || (m.cascades[j].len() > 0
            && r.cascades[j] == m.cascades[j].drop_last()));
    lemma_casc_mset_pointwise_le(r.cascades, m.cascades);
}

/// After auto-moves reach their fixed point, no foundation move is legal,
/// the board keeps its eleven cascades, and no card gained a copy in play.
pub proof fn lemma_auto_fix_fixpoint(m: BoardModel)
    requires
        m.cascades.len() == 11,
    ensures
        !any_auto(auto_fix(m)),
        auto_fix(m).cascades.len() == 11,
        forall|c: Card| #[trigger] play_mset(auto_fix(m)).count(c) <= play_mset(m).count(c),
    decreases total_cards(m),
{
    if any_auto(m) {
        lemma_round_decreases(m);
        lemma_round_shape(m, m, 0);
        lemma_round_play_le(m);
        lemma_auto_fix_fixpoint(auto_round(m));
    }
}

/// Applying auto-moves twice is the same as applying them once.
pub proof fn lemma_auto_moves_idempotent(m: BoardModel)
    requires
        m.cascades.len() == 11,
    ensures
        auto_fix(auto_fix(m)) == auto_fix(m),
{
    lemma_auto_fix_fixpoint(m);
}

/// Cascades with no card in play twice have pairwise distinct ranks: two
/// cascades of equal rank are the same cascade.
proof fn lemma_rank_injective(cs: Seq<Seq<Card>>, x: Seq<Card>, y: Seq<Card>)
    requires
        forall|c: Card| #[trigger] casc_mset(cs).count(c) <= 1,
        cs.contains(x),
        cs.contains(y),
        rank_of(x) == rank_of(y),
    ensures
        x == y,
{
    if x.len() == 0 && y.len() == 0 {
        assert(x =~= y);
    } else if x.len() > 0 && y.len() > 0 {
        assert(x[0].value == y[0].value);
        assert(x[0] == y[0]);
        if x != y {
            let i = choose|i: int| 0 <= i < cs.len() && cs[i] == x;
            let j = choose|j: int| 0 <= j < cs.len() && cs[j] == y;
            assert(i != j);
            assert(cs[i].contains(x[0]));
            assert(cs[j].contains(x[0])) by {
                assert(cs[j][0] == x[0]);
            }
            if i < j {
                lemma_casc_mset_two(cs, i, j, x[0]);
            } else {
                lemma_casc_mset_two(cs, j, i, x[0]);
            }
            assert(false);
        }
    } else {
        // one empty, one not: their ranks cannot agree
        assert(false);
    }
}

/// Two rank-sorted cascade sequences with the same cascades, among which
/// equal rank means equal cascade, are identical.
proof fn lemma_sorted_unique(a: Seq<Seq<Card>>, b: Seq<Seq<Card>>, cs: Seq<Seq<Card>>)
    requires
        a.len() == b.len(),
        casc_sorted(a),
        casc_sorted(b),
        a.to_multiset() == b.to_multiset(),
        forall|x: Seq<Card>| #[trigger] a.contains(x) ==> cs.contains(x),
        forall|c: Card| #[trigger] casc_mset(cs).count(c) <= 1,
    ensures
        a =~= b,
    decreases a.len(),
{
    broadcast use vstd::seq_lib::group_to_multiset_ensures;

    if a.len() > 0 {
        assert(a.to_multiset().count(a[0]) > 0) by {
            assert(a.contains(a[0]));
        }
        assert(b.contains(a[0]));
        assert(a.contains(b[0])) by {
            assert(b.to_multiset().count(b[0]) > 0) by {
                assert(b.contains(b[0]));
            }
        }
        let i = choose|i: int| 0 <= i < b.len() && b[i] == a[0];
        let j = choose|j: int| 0 <= j < a.len() && a[j] == b[0];
        assert(rank_of(b[0]) <= rank_of(b[i]));
        assert(rank_of(a[0]) <= rank_of(a[j]));
        assert(rank_of(a[0]) == rank_of(b[0]));
        lemma_rank_injective(cs, a[0], b[0]);
        assert(a[0] == b[0]);
        let a1 = a.drop_first();
        let b1 = b.drop_first();
        assert(a1 =~= a.remove(0));
        assert(b1 =~= b.remove(0));
        vstd::seq_lib::to_multiset_remove(a, 0);
        vstd::seq_lib::to_multiset_remove(b, 0);
        assert(a1.to_multiset() =~= b1.to_multiset());
        assert(casc_sorted(a1)) by {
            assert(forall|p: int, q: int|
                0 <= p < q < a1.len() ==> rank_of(a1[p]) <= rank_of(a1[q]));
        }
        assert(casc_sorted(b1)) by {
            assert(forall|p: int, q: int|
                0 <= p < q < b1.len() ==> rank_of(b1[p]) <= rank_of(b1[q]));
        }
        assert forall|x: Seq<Card>| #[trigger] a1.contains(x) implies cs.contains(x) by {
            let p = choose|p: int| 0 <= p < a1.len() && a1[p] == x;
            assert(a[p + 1] == x);
            assert(a.contains(x));
        }
        lemma_sorted_unique(a1, b1, cs);
        assert forall|k: int| 0 <= k < a.len() implies a[k] == b[k] by {
            if k > 0 {
                assert(a1[k - 1] == b1[k - 1]);
            }
        }
        assert(a =~= b);
    } else {
        assert(a =~= b);
    }
}

/// Normalizing a normalized board changes nothing.
pub proof fn lemma_normalize_idempotent(m: BoardModel)
    requires
        board_ok(m),
        play_distinct(m),
    ensures
        normalize_spec(normalize_spec(m)) == normalize_spec(m),
{
    broadcast use vstd::multiset::group_multiset_axioms;

    let f = auto_fix(m);
    lemma_auto_fix_fixpoint(m);
    lemma_sort_casc_props(f.cascades);
    let s = sort_casc(f.cascades);
    let n1 = normalize_spec(m);
    assert(n1 == BoardModel { cascades: s, ..f });
    // sorting does not make a foundation move legal: every sorted cascade is
    // one of the fixed point's cascades
    assert(!any_auto(n1)) by {
        if exists|i: int| 0 <= i < 11 && cascade_eligible(n1, i) {
            let i = choose|i: int| 0 <= i < 11 && cascade_eligible(n1, i);
            assert(s.contains(s[i])) by {
                assert(0 <= i < s.len());
            }
            assert(f.cascades.contains(s[i]));
            let j = choose|j: int| 0 <= j < f.cascades.len() && f.cascades[j] == s[i];
            assert(can_remove(f, f.cascades[j].last()) == can_remove(n1, s[i].last()));
            assert(cascade_eligible(f, j));
            assert(any_auto(f));
            assert(false);
        }
        if cell_eligible(n1) {
            assert(cell_eligible(f));
            assert(false);
        }
    }
    assert(auto_fix(n1) == n1);
    // sorting a sorted sequence gives it back
    lemma_sort_casc_props(s);
    assert forall|c: Card| #[trigger] casc_mset(f.cascades).count(c) <= 1 by {
        assert(play_mset(f).count(c) <= play_mset(m).count(c));
        assert(casc_mset(f.cascades).count(c) <= play_mset(f).count(c));
    }
    assert forall|x: Seq<Card>| #[trigger] sort_casc(s).contains(x) implies f.cascades.contains(
        x,
    ) by {
        assert(s.contains(x));
    }
    lemma_sorted_unique(sort_casc(s), s, f.cascades);
    assert(sort_casc(s) == s);
    assert(normalize_spec(n1) =~= n1);
}

// ---------------------------------------------------------------------------
// Canonical equivalence: boards that hold the same cascades in another order
// normalize to the same board.
// ---------------------------------------------------------------------------
/// An eligible minor of suit `s` tops some cascade before index `i`.
pub open spec fn minor_done(m0: BoardModel, s: int, i: int) -> bool {
    exists|j: int|
        0 <= j < i && cascade_eligible(m0, j) && !(#[trigger] m0.cascades[j]).last().is_major()
            && m0.cascades[j].last().spec_suit_index() as int == s
}

/// The eligible major next to the low pointer tops some cascade before `i`.
pub open spec fn low_done(m0: BoardModel, i: int) -> bool {
    exists|j: int|
        0 <= j < i && cascade_eligible(m0, j) && (#[trigger] m0.cascades[j]).last().is_major()
            && m0.cascades[j].last().spec_rank() as int == m0.low + 1
}

/// The eligible major next to the high pointer tops some cascade before `i`.
pub open spec fn high_done(m0: BoardModel, i: int) -> bool {
    exists|j: int|
        0 <= j < i && cascade_eligible(m0, j) && (#[trigger] m0.cascades[j]).last().is_major()
            && m0.cascades[j].last().spec_rank() as int == m0.high - 1
}

/// The cell holds the eligible major next to the low pointer.
pub open spec fn cell_low(m0: BoardModel) -> bool {
    cell_eligible(m0) && m0.cell.unwrap().is_major() && m0.cell.unwrap().spec_rank() as int
        == m0.low + 1
}

/// The cell holds the eligible major next to the high pointer.
pub open spec fn cell_high(m0: BoardModel) -> bool {
    cell_eligible(m0) && m0.cell.unwrap().is_major() && m0.cell.unwrap().spec_rank() as int
        == m0.high - 1
}

/// The low pointer after one round that sent home the low card when `a`
/// holds and the high card when `b` holds.
pub open spec fn maj_low(low: int, high: int, a: bool, b: bool) -> int {
    let l1 = low + if a {
        1int
    } else {
        0int
    };
    let h1 = high - if b {
        1int
    } else {
        0int
    };
    if (a || b) && l1 + 1 >= h1 {
        21
    } else {
        l1
    }
}

/// The high pointer after one round, as `maj_low`.
pub open spec fn maj_high(low: int, high: int, a: bool, b: bool) -> int {
    let l1 = low + if a {
        1int
    } else {
        0int
    };
    let h1 = high - if b {
        1int
    } else {
        0int
    };
    if (a || b) && l1 + 1 >= h1 {
        21
    } else {
        h1
    }
}

/// Two cascades of a board without duplicates topped by the same card are
/// the same index.
proof fn lemma_same_top(m0: BoardModel, i: int, j: int)
    requires
        m0.cascades.len() == 11,
        play_distinct(m0),
        0 <= i < 11,
        0 <= j < 11,
        m0.cascades[i].len() > 0,
        m0.cascades[j].len() > 0,
        m0.cascades[i].last() == m0.cascades[j].last(),
    ensures
        i == j,
{
    if i != j {
        let c = m0.cascades[i].last();
        assert(m0.cascades[i].contains(c)) by {
            assert(m0.cascades[i][m0.cascades[i].len() - 1] == c);
        }
        assert(m0.cascades[j].contains(c)) by {
            assert(m0.cascades[j][m0.cascades[j].len() - 1] == c);
        }
        if i < j {
            lemma_casc_mset_two(m0.cascades, i, j, c);
        } else {
            lemma_casc_mset_two(m0.cascades, j, i, c);
        }
        assert(play_mset(m0).count(c) >= 2);
        assert(false);
    }
}

/// The cell card of a board without duplicates never also tops a cascade.
proof fn lemma_cell_not_top(m0: BoardModel, i: int)
    requires
        m0.cascades.len() == 11,
        play_distinct(m0),
        0 <= i < 11,
        m0.cascades[i].len() > 0,
        m0.cell is Some,
    ensures
        m0.cell.unwrap() != m0.cascades[i].last(),
{
    let c = m0.cascades[i].last();
    if m0.cell == Some(c) {
        assert(m0.cascades[i].to_multiset().count(c) >= 1) by {
            m0.cascades[i].to_multiset_ensures();
            assert(m0.cascades[i][m0.cascades[i].len() - 1] == c);
        }
        lemma_casc_mset_one(m0.cascades, i, c);
        assert(play_mset(m0).count(c) >= 2);
        assert(false);
    }
}

/// What one auto-move round does to the foundations: each suit whose next
/// minor was accessible advances by one; the major pointers advance by the
/// cards accessible next to them, meeting at the completed value when they
/// touch.
proof fn lemma_round_fdns_mid(m0: BoardModel, cur: BoardModel, i: int)
    requires
        board_ok(m0),
        play_distinct(m0),
        0 <= i <= 11,
        cur.cascades.len() == 11,
        forall|j: int| i <= j < 11 ==> #[trigger] cur.cascades[j] == m0.cascades[j],
        cur.cell == m0.cell,
        cur.minors.len() == 4,
        forall|s: int|
            0 <= s < 4 ==> #[trigger] cur.minors[s] == m0.minors[s] + (if minor_done(m0, s, i) {
                1int
            } else {
                0int
            }),
        cur.low == maj_low(m0.low, m0.high, low_done(m0, i), high_done(m0, i)),
        cur.high == maj_high(m0.low, m0.high, low_done(m0, i), high_done(m0, i)),
    ensures
        round_from(m0, cur, i).minors.len() == 4,
        forall|s: int|
            0 <= s < 4 ==> #[trigger] round_from(m0, cur, i).minors[s] == m0.minors[s] + (
            if minor_done(m0, s, 11) {
                1int
            } else {
                0int
            }),
        round_from(m0, cur, i).low == maj_low(
            m0.low,
            m0.high,
            low_done(m0, 11) || cell_low(m0),
            high_done(m0, 11) || cell_high(m0),
        ),
        round_from(m0, cur, i).high == maj_high(
            m0.low,
            m0.high,
            low_done(m0, 11) || cell_low(m0),
            high_done(m0, 11) || cell_high(m0),
        ),
    decreases 11 - i,
{
    if i < 11 {
        if cascade_eligible(m0, i) {
            let top = m0.cascades[i].last();
            let cur2 = top_to_fdn(cur, i);
            assert(cur2.cell == cur.cell);
            assert(forall|j: int| i + 1 <= j < 11 ==> #[trigger] cur2.cascades[j] == m0.cascades[j]);
            assert(cur2.cascades.len() == 11);
            if !top.is_major() {
                let su = top.spec_suit_index() as int;
                assert(!minor_done(m0, su, i)) by {
                    if minor_done(m0, su, i) {
                        let j = choose|j: int|
                            0 <= j < i && cascade_eligible(m0, j) && !(
                            #[trigger] m0.cascades[j]).last().is_major()
                                && m0.cascades[j].last().spec_suit_index() as int == su;
                        let c2 = m0.cascades[j].last();
                        assert(c2.spec_rank() == top.spec_rank());
                        assert(c2 == top) by {
                            assert(c2.value == 32 * (c2.value / 32) + (c2.value % 32));
                            assert(top.value == 32 * (top.value / 32) + (top.value % 32));
                        }
                        lemma_same_top(m0, i, j);
                        assert(false);
                    }
                }
                assert(cur.minors[su] == m0.minors[su]);
                assert(cur2.minors =~= cur.minors.update(su, m0.minors[su] + 1));
                assert(cur2.low == cur.low && cur2.high == cur.high);
                assert forall|s: int|
                    0 <= s < 4 implies #[trigger] cur2.minors[s] == m0.minors[s] + (
                if minor_done(m0, s, i + 1) {
                    1int
                } else {
                    0int
                }) by {
                    if s == su {
                        assert(minor_done(m0, s, i + 1)) by {
                            assert(0 <= i < i + 1 && cascade_eligible(m0, i)
                                && !m0.cascades[i].last().is_major()
                                && m0.cascades[i].last().spec_suit_index() as int == s);
                        }
                    } else {
                        assert(minor_done(m0, s, i + 1) == minor_done(m0, s, i)) by {
                            if minor_done(m0, s, i + 1) && !minor_done(m0, s, i) {
                                let j = choose|j: int|
                                    0 <= j < i + 1 && cascade_eligible(m0, j) && !(
                                    #[trigger] m0.cascades[j]).last().is_major()
                                        && m0.cascades[j].last().spec_suit_index() as int == s;
                                assert(j == i);
                                assert(false);
                            }
                        }
                    }
                }
                assert(low_done(m0, i + 1) == low_done(m0, i)) by {
                    if low_done(m0, i + 1) && !low_done(m0, i) {
                        let j = choose|j: int|
                            0 <= j < i + 1 && cascade_eligible(m0, j) && (
                            #[trigger] m0.cascades[j]).last().is_major()
                                && m0.cascades[j].last().spec_rank() as int == m0.low + 1;
                        assert(j == i);
                        assert(false);
                    }
                }
                assert(high_done(m0, i + 1) == high_done(m0, i)) by {
                    if high_done(m0, i + 1) && !high_done(m0, i) {
                        let j = choose|j: int|
                            0 <= j < i + 1 && cascade_eligible(m0, j) && (
                            #[trigger] m0.cascades[j]).last().is_major()
                                && m0.cascades[j].last().spec_rank() as int == m0.high - 1;
                        assert(j == i);
                        assert(false);
                    }
                }
                lemma_round_fdns_mid(m0, cur2, i + 1);
                assert(round_from(m0, cur, i) == round_from(m0, cur2, i + 1));
            } else {
                let rk = top.spec_rank() as int;
                assert(rk == m0.low + 1 || rk == m0.high - 1);
                let a0 = low_done(m0, i);
                let b0 = high_done(m0, i);
                let a1 = low_done(m0, i + 1);
                let b1 = high_done(m0, i + 1);
                assert(a1 == (a0 || rk == m0.low + 1)) by {
                    if a1 && !a0 {
                        let j = choose|j: int|
                            0 <= j < i + 1 && cascade_eligible(m0, j) && (
                            #[trigger] m0.cascades[j]).last().is_major()
                                && m0.cascades[j].last().spec_rank() as int == m0.low + 1;
                        assert(j == i);
                    }
                    if rk == m0.low + 1 {
                        assert(low_done(m0, i + 1)) by {
                            assert(0 <= i < i + 1 && cascade_eligible(m0, i)
                                && m0.cascades[i].last().is_major()
                                && m0.cascades[i].last().spec_rank() as int == m0.low + 1);
                        }
                    }
                }
                assert(b1 == (b0 || rk == m0.high - 1)) by {
                    if b1 && !b0 {
                        let j = choose|j: int|
                            0 <= j < i + 1 && cascade_eligible(m0, j) && (
                            #[trigger] m0.cascades[j]).last().is_major()
                                && m0.cascades[j].last().spec_rank() as int == m0.high - 1;
                        assert(j == i);
                    }
                    if rk == m0.high - 1 {
                        assert(high_done(m0, i + 1)) by {
                            assert(0 <= i < i + 1 && cascade_eligible(m0, i)
                                && m0.cascades[i].last().is_major()
                                && m0.cascades[i].last().spec_rank() as int == m0.high - 1);
                        }
                    }
                }
                // the card that was already sent home cannot top this cascade
                if rk == m0.low + 1 {
                    assert(!a0) by {
                        if a0 {
                            let j = choose|j: int|
                                0 <= j < i && cascade_eligible(m0, j) && (
                                #[trigger] m0.cascades[j]).last().is_major()
                                    && m0.cascades[j].last().spec_rank() as int == m0.low + 1;
                            let c2 = m0.cascades[j].last();
                            assert(c2 == top) by {
                                assert(c2.value == 32 * (c2.value / 32) + (c2.value % 32));
                                assert(top.value == 32 * (top.value / 32) + (top.value % 32));
                            }
                            lemma_same_top(m0, i, j);
                            assert(false);
                        }
                    }
                }
                if rk == m0.high - 1 {
                    assert(!b0) by {
                        if b0 {
                            let j = choose|j: int|
                                0 <= j < i && cascade_eligible(m0, j) && (
                                #[trigger] m0.cascades[j]).last().is_major()
                                    && m0.cascades[j].last().spec_rank() as int == m0.high - 1;
                            let c2 = m0.cascades[j].last();
                            assert(c2 == top) by {
                                assert(c2.value == 32 * (c2.value / 32) + (c2.value % 32));
                                assert(top.value == 32 * (top.value / 32) + (top.value % 32));
                            }
                            lemma_same_top(m0, i, j);
                            assert(false);
                        }
                    }
                }
                assert(cur2.minors == cur.minors);
                assert(cur2.low == maj_low(m0.low, m0.high, a1, b1) && cur2.high == maj_high(
                    m0.low,
                    m0.high,
                    a1,
                    b1,
                )) by {
                    assert(board_ok(m0));
                }
                assert forall|s: int|
                    0 <= s < 4 implies #[trigger] cur2.minors[s] == m0.minors[s] + (
                if minor_done(m0, s, i + 1) {
                    1int
                } else {
                    0int
                }) by {
                    assert(minor_done(m0, s, i + 1) == minor_done(m0, s, i)) by {
                        if minor_done(m0, s, i + 1) && !minor_done(m0, s, i) {
                            let j = choose|j: int|
                                0 <= j < i + 1 && cascade_eligible(m0, j) && !(
                                #[trigger] m0.cascades[j]).last().is_major()
                                    && m0.cascades[j].last().spec_suit_index() as int == s;
                            assert(j == i);
                            assert(false);
                        }
                    }
                }
                lemma_round_fdns_mid(m0, cur2, i + 1);
                assert(round_from(m0, cur, i) == round_from(m0, cur2, i + 1));
            }
        } else {
            assert(low_done(m0, i + 1) == low_done(m0, i)) by {
                if low_done(m0, i + 1) && !low_done(m0, i) {
                    let j = choose|j: int|
                        0 <= j < i + 1 && cascade_eligible(m0, j) && (
                        #[trigger] m0.cascades[j]).last().is_major()
                            && m0.cascades[j].last().spec_rank() as int == m0.low + 1;
                    assert(j == i);
                    assert(false);
                }
            }
            assert(high_done(m0, i + 1) == high_done(m0, i)) by {
                if high_done(m0, i + 1) && !high_done(m0, i) {
                    let j = choose|j: int|
                        0 <= j < i + 1 && cascade_eligible(m0, j) && (
                        #[trigger] m0.cascades[j]).last().is_major()
                            && m0.cascades[j].last().spec_rank() as int == m0.high - 1;
                    assert(j == i);
                    assert(false);
                }
            }
            assert forall|s: int|
                0 <= s < 4 implies minor_done(m0, s, i + 1) == minor_done(m0, s, i) by {
                if minor_done(m0, s, i + 1) && !minor_done(m0, s, i) {
                    let j = choose|j: int|
                        0 <= j < i + 1 && cascade_eligible(m0, j) && !(
                        #[trigger] m0.cascades[j]).last().is_major()
                            && m0.cascades[j].last().spec_suit_index() as int == s;
                    assert(j == i);
                    assert(false);
                }
            }
            lemma_round_fdns_mid(m0, cur, i + 1);
            assert(round_from(m0, cur, i) == round_from(m0, cur, i + 1));
        }
    } else {
        // the cell, last: only a major can leave the cell
        if cell_eligible(m0) {
            let cc = m0.cell.unwrap();
            assert(cc.is_major()) by {
                if !cc.is_major() {
                    assert(!can_remove(m0, cc));
                }
            }
            let rk = cc.spec_rank() as int;
            assert(rk == m0.low + 1 || rk == m0.high - 1);
            if rk == m0.low + 1 {
                assert(cell_low(m0));
                assert(!low_done(m0, 11)) by {
                    if low_done(m0, 11) {
                        let j = choose|j: int|
                            0 <= j < 11 && cascade_eligible(m0, j) && (
                            #[trigger] m0.cascades[j]).last().is_major()
                                && m0.cascades[j].last().spec_rank() as int == m0.low + 1;
                        let c2 = m0.cascades[j].last();
                        assert(c2 == cc) by {
                            assert(c2.value == 32 * (c2.value / 32) + (c2.value % 32));
                            assert(cc.value == 32 * (cc.value / 32) + (cc.value % 32));
                        }
                        lemma_cell_not_top(m0, j);
                        assert(false);
                    }
                }
            }
            if rk == m0.high - 1 {
                assert(cell_high(m0));
                assert(!high_done(m0, 11)) by {
                    if high_done(m0, 11) {
                        let j = choose|j: int|
                            0 <= j < 11 && cascade_eligible(m0, j) && (
                            #[trigger] m0.cascades[j]).last().is_major()
                                && m0.cascades[j].last().spec_rank() as int == m0.high - 1;
                        let c2 = m0.cascades[j].last();
                        assert(c2 == cc) by {
                            assert(c2.value == 32 * (c2.value / 32) + (c2.value % 32));
                            assert(cc.value == 32 * (cc.value / 32) + (cc.value % 32));
                        }
                        lemma_cell_not_top(m0, j);
                        assert(false);
                    }
                }
            }
            assert(round_from(m0, cur, 11) == cell_to_fdn(cur));
        } else {
            assert(!cell_low(m0) && !cell_high(m0));
            assert(round_from(m0, cur, 11) == cur);
        }
    }
}

/// What one auto-move round does to the foundations of a board without
/// duplicate cards, stated from the board alone: the order in which the
/// eligible cards leave does not matter.
pub proof fn lemma_round_fdns(m0: BoardModel)
    requires
        board_ok(m0),
        play_distinct(m0),
    ensures
        auto_round(m0).minors.len() == 4,
        forall|s: int|
            0 <= s < 4 ==> #[trigger] auto_round(m0).minors[s] == m0.minors[s] + (
            if minor_done(m0, s, 11) {
                1int
            } else {
                0int
            }),
        auto_round(m0).low == maj_low(
            m0.low,
            m0.high,
            low_done(m0, 11) || cell_low(m0),
            high_done(m0, 11) || cell_high(m0),
        ),
        auto_round(m0).high == maj_high(
            m0.low,
            m0.high,
            low_done(m0, 11) || cell_low(m0),
            high_done(m0, 11) || cell_high(m0),
        ),
{
    assert(forall|s: int| 0 <= s < 4 ==> !minor_done(m0, s, 0));
    assert(!low_done(m0, 0) && !high_done(m0, 0));
    lemma_round_fdns_mid(m0, m0, 0);
}

/// Removing one cascade removes exactly its cards.
proof fn lemma_casc_mset_remove(cs: Seq<Seq<Card>>, k: int)
    requires
        0 <= k < cs.len(),
    ensures
        casc_mset(cs.remove(k)).add(cs[k].to_multiset()) =~= casc_mset(cs),
    decreases cs.len(),
{
    if k == cs.len() - 1 {
        assert(cs.remove(k) =~= cs.drop_last());
        assert(casc_mset(cs) == casc_mset(cs.drop_last()).add(cs.last().to_multiset()));
    } else {
        lemma_casc_mset_remove(cs.drop_last(), k);
        assert(cs.remove(k).drop_last() =~= cs.drop_last().remove(k));
        assert(cs.remove(k).last() == cs.last());
        assert(casc_mset(cs.remove(k)) == casc_mset(cs.drop_last().remove(k)).add(
            cs.last().to_multiset(),
        ));
        assert(casc_mset(cs) == casc_mset(cs.drop_last()).add(cs.last().to_multiset()));
        assert forall|c: Card|
            casc_mset(cs.remove(k)).add(cs[k].to_multiset()).count(c) == casc_mset(cs).count(
                c,
            ) by {
            assert(casc_mset(cs.drop_last().remove(k)).add(
                cs.drop_last()[k].to_multiset(),
            ).count(c) == casc_mset(cs.drop_last()).count(c));
        }
    }
}

/// Sequences holding the same cascades hold the same cards.
proof fn lemma_casc_mset_perm(a: Seq<Seq<Card>>, b: Seq<Seq<Card>>)
    requires
        a.to_multiset() == b.to_multiset(),
    ensures
        casc_mset(a) =~= casc_mset(b),
    decreases a.len(),
{
    broadcast use vstd::seq_lib::group_to_multiset_ensures;

    if a.len() > 0 {
        let x = a.last();
        assert(b.to_multiset().count(x) > 0) by {
            assert(a.contains(x));
        }
        assert(b.contains(x));
        let k = choose|k: int| 0 <= k < b.len() && b[k] == x;
        vstd::seq_lib::to_multiset_remove(b, k);
        assert(a.drop_last() =~= a.remove(a.len() - 1));
        vstd::seq_lib::to_multiset_remove(a, a.len() - 1);
        assert(a.drop_last().to_multiset() =~= b.remove(k).to_multiset());
        lemma_casc_mset_perm(a.drop_last(), b.remove(k));
        lemma_casc_mset_remove(b, k);
        assert forall|c: Card| casc_mset(a).count(c) == casc_mset(b).count(c) by {
            assert(casc_mset(a).count(c) == casc_mset(a.drop_last()).count(c)
                + x.to_multiset().count(c));
            assert(casc_mset(b.remove(k)).add(b[k].to_multiset()).count(c) == casc_mset(b).count(
                c,
            ));
        }
    } else {
        assert(b.to_multiset().len() == 0);
        assert(b.len() == 0);
    }
}

/// Mapping the same function over sequences with the same elements yields
/// sequences with the same elements.
proof fn lemma_map_mset(a: Seq<Seq<Card>>, b: Seq<Seq<Card>>, g: spec_fn(Seq<Card>) -> Seq<Card>)
    requires
        a.to_multiset() == b.to_multiset(),
    ensures
        a.map_values(g).to_multiset() =~= b.map_values(g).to_multiset(),
    decreases a.len(),
{
    broadcast use vstd::seq_lib::group_to_multiset_ensures;

    if a.len() > 0 {
        let x = a.last();
        assert(b.to_multiset().count(x) > 0) by {
            assert(a.contains(x));
        }
        assert(b.contains(x));
        let k = choose|k: int| 0 <= k < b.len() && b[k] == x;
        vstd::seq_lib::to_multiset_remove(b, k);
        assert(a.drop_last() =~= a.remove(a.len() - 1));
        vstd::seq_lib::to_multiset_remove(a, a.len() - 1);
        assert(a.drop_last().to_multiset() =~= b.remove(k).to_multiset());
        lemma_map_mset(a.drop_last(), b.remove(k), g);
        assert(a.map_values(g) =~= a.drop_last().map_values(g).push(g(x)));
        assert(b.remove(k).map_values(g) =~= b.map_values(g).remove(k));
        vstd::seq_lib::to_multiset_remove(b.map_values(g), k);
        assert forall|c: Seq<Card>|
            a.map_values(g).to_multiset().count(c) == b.map_values(g).to_multiset().count(c) by {
            assert(a.map_values(g).to_multiset() =~= a.drop_last().map_values(
                g,
            ).to_multiset().insert(g(x)));
            assert(b.map_values(g).remove(k).to_multiset() == b.map_values(
                g,
            ).to_multiset().remove(b.map_values(g)[k]));
            assert(b.map_values(g)[k] == g(x));
        }
    } else {
        assert(b.to_multiset().len() == 0);
        assert(b.len() == 0);
    }
}

/// Two boards that differ only in the order of their cascades.
pub open spec fn rearranged(m: BoardModel, m2: BoardModel) -> bool {
    &&& m2.cascades.len() == 11
    &&& m.cascades.len() == 11
    &&& m2.cascades.to_multiset() == m.cascades.to_multiset()
    &&& m2.cell == m.cell
    &&& m2.low == m.low
    &&& m2.high == m.high
    &&& m2.minors == m.minors
}

/// Rearranged boards agree on which cards are eligible: every eligibility
/// flag is a question about some cascade's top, wherever the cascade sits.
proof fn lemma_flags_equiv(m: BoardModel, m2: BoardModel)
    requires
        rearranged(m, m2),
    ensures
        (exists|i: int| 0 <= i < 11 && cascade_eligible(m, i)) == (exists|i: int|
            0 <= i < 11 && cascade_eligible(m2, i)),
        any_auto(m) == any_auto(m2),
        forall|s: int| 0 <= s < 4 ==> #[trigger] minor_done(m, s, 11) == minor_done(m2, s, 11),
        low_done(m, 11) == low_done(m2, 11),
        high_done(m, 11) == high_done(m2, 11),
        cell_low(m) == cell_low(m2),
        cell_high(m) == cell_high(m2),
{
    broadcast use vstd::seq_lib::group_to_multiset_ensures;

    assert forall|i: int| 0 <= i < 11 && cascade_eligible(m, i) implies exists|j: int|
        0 <= j < 11 && cascade_eligible(m2, j) && m2.cascades[j] == m.cascades[i] by {
        assert(m.cascades.contains(m.cascades[i]));
        assert(m2.cascades.to_multiset().count(m.cascades[i]) > 0);
        assert(m2.cascades.contains(m.cascades[i]));
        let j = choose|j: int| 0 <= j < 11 && m2.cascades[j] == m.cascades[i];
        assert(cascade_eligible(m2, j));
    }
    assert forall|i: int| 0 <= i < 11 && cascade_eligible(m2, i) implies exists|j: int|
        0 <= j < 11 && cascade_eligible(m, j) && m.cascades[j] == m2.cascades[i] by {
        assert(m2.cascades.contains(m2.cascades[i]));
        assert(m.cascades.to_multiset().count(m2.cascades[i]) > 0);
        assert(m.cascades.contains(m2.cascades[i]));
        let j = choose|j: int| 0 <= j < 11 && m.cascades[j] == m2.cascades[i];
        assert(cascade_eligible(m, j));
    }
    assert forall|s: int| 0 <= s < 4 implies #[trigger] minor_done(m, s, 11) == minor_done(
        m2,
        s,
        11,
    ) by {
        if minor_done(m, s, 11) {
            let i = choose|i: int|
                0 <= i < 11 && cascade_eligible(m, i) && !(
                #[trigger] m.cascades[i]).last().is_major()
                    && m.cascades[i].last().spec_suit_index() as int == s;
            let j = choose|j: int|
                0 <= j < 11 && cascade_eligible(m2, j) && m2.cascades[j] == m.cascades[i];
            assert(minor_done(m2, s, 11));
        }
        if minor_done(m2, s, 11) {
            let i = choose|i: int|
                0 <= i < 11 && cascade_eligible(m2, i) && !(
                #[trigger] m2.cascades[i]).last().is_major()
                    && m2.cascades[i].last().spec_suit_index() as int == s;
            let j = choose|j: int|
                0 <= j < 11 && cascade_eligible(m, j) && m.cascades[j] == m2.cascades[i];
            assert(minor_done(m, s, 11));
        }
    }
    assert(low_done(m, 11) == low_done(m2, 11)) by {
        if low_done(m, 11) {
            let i = choose|i: int|
                0 <= i < 11 && cascade_eligible(m, i) && (#[trigger] m.cascades[i]).last().is_major()
                    && m.cascades[i].last().spec_rank() as int == m.low + 1;
            let j = choose|j: int|
                0 <= j < 11 && cascade_eligible(m2, j) && m2.cascades[j] == m.cascades[i];
            assert(low_done(m2, 11));
        }
        if low_done(m2, 11) {
            let i = choose|i: int|
                0 <= i < 11 && cascade_eligible(m2, i) && (
                #[trigger] m2.cascades[i]).last().is_major()
                    && m2.cascades[i].last().spec_rank() as int == m2.low + 1;
            let j = choose|j: int|
                0 <= j < 11 && cascade_eligible(m, j) && m.cascades[j] == m2.cascades[i];
            assert(low_done(m, 11));
        }
    }
    assert(high_done(m, 11) == high_done(m2, 11)) by {
        if high_done(m, 11) {
            let i = choose|i: int|
                0 <= i < 11 && cascade_eligible(m, i) && (#[trigger] m.cascades[i]).last().is_major()
                    && m.cascades[i].last().spec_rank() as int == m.high - 1;
            let j = choose|j: int|
                0 <= j < 11 && cascade_eligible(m2, j) && m2.cascades[j] == m.cascades[i];
            assert(high_done(m2, 11));
        }
        if high_done(m2, 11) {
            let i = choose|i: int|
                0 <= i < 11 && cascade_eligible(m2, i) && (
                #[trigger] m2.cascades[i]).last().is_major()
                    && m2.cascades[i].last().spec_rank() as int == m2.high - 1;
            let j = choose|j: int|
                0 <= j < 11 && cascade_eligible(m, j) && m.cascades[j] == m2.cascades[i];
            assert(high_done(m, 11));
        }
    }
}

/// A rearranged board is as well formed and duplicate-free as the original.
proof fn lemma_rearranged_ok(m: BoardModel, m2: BoardModel)
    requires
        board_ok(m),
        play_distinct(m),
        rearranged(m, m2),
    ensures
        board_ok(m2),
        play_distinct(m2),
        total_cards(m2) == total_cards(m),
{
    broadcast use vstd::seq_lib::group_to_multiset_ensures;

    lemma_casc_mset_perm(m2.cascades, m.cascades);
    crate::board_model::lemma_casc_cards_mset(m.cascades);
    crate::board_model::lemma_casc_cards_mset(m2.cascades);
    assert(casc_mset(m2.cascades).len() == casc_mset(m.cascades).len());
    assert forall|c: Card| #[trigger] play_mset(m2).count(c) <= 1 by {
        assert(play_mset(m2).count(c) == play_mset(m).count(c));
    }
    assert forall|i: int, j: int|
        0 <= i < 11 && 0 <= j < m2.cascades[i].len() implies (
    #[trigger] m2.cascades[i][j]).in_deck() by {
        assert(m2.cascades.contains(m2.cascades[i]));
        assert(m.cascades.to_multiset().count(m2.cascades[i]) > 0);
        assert(m.cascades.contains(m2.cascades[i]));
        let k = choose|k: int| 0 <= k < 11 && m.cascades[k] == m2.cascades[i];
        assert(m.cascades[k][j].in_deck());
    }
}

/// One auto-move round keeps the board well formed and duplicate-free.
proof fn lemma_round_ok(m: BoardModel)
    requires
        board_ok(m),
        play_distinct(m),
    ensures
        board_ok(auto_round(m)),
        play_distinct(auto_round(m)),
{
    lemma_round_shape(m, m, 0);
    lemma_round_fdns(m);
    lemma_round_play_le(m);
    let r = auto_round(m);
    assert forall|c: Card| #[trigger] play_mset(r).count(c) <= 1 by {
        assert(play_mset(r).count(c) <= play_mset(m).count(c));
    }
    assert forall|i: int, j: int|
        0 <= i < 11 && 0 <= j < r.cascades[i].len() implies (#[trigger] r.cascades[i][j]).in_deck() by {
        assert(m.cascades[i][j].in_deck());
    }
    assert forall|s: int| 0 <= s < 4 implies 1 <= #[trigger] r.minors[s] <= 13 by {
        if minor_done(m, s, 11) {
            let j = choose|j: int|
                0 <= j < 11 && cascade_eligible(m, j) && !(
                #[trigger] m.cascades[j]).last().is_major()
                    && m.cascades[j].last().spec_suit_index() as int == s;
            assert(m.cascades[j].last().spec_rank() as int == m.minors[s] + 1);
            assert(m.cascades[j].last().spec_rank() <= 13);
        }
    }
    assert((-1 <= r.low && r.low + 2 <= r.high && r.high <= 22) || (r.low == 21 && r.high == 21))
        by {
        let a = low_done(m, 11) || cell_low(m);
        let b = high_done(m, 11) || cell_high(m);
        if a {
            assert(exists|c: Card| #[trigger] play_mset(m).count(c) >= 0 && c.is_major()
                && c.spec_rank() as int == m.low + 1 && c.in_deck()) by {
                if low_done(m, 11) {
                    let j = choose|j: int|
                        0 <= j < 11 && cascade_eligible(m, j) && (
                        #[trigger] m.cascades[j]).last().is_major()
                            && m.cascades[j].last().spec_rank() as int == m.low + 1;
                    let c = m.cascades[j].last();
                    assert(play_mset(m).count(c) >= 0 && c.is_major() && c.spec_rank() as int
                        == m.low + 1 && c.in_deck());
                } else {
                    let c = m.cell.unwrap();
                    assert(play_mset(m).count(c) >= 0 && c.is_major() && c.spec_rank() as int
                        == m.low + 1 && c.in_deck());
                }
            }
            assert(m.low + 1 <= 21);
        }
        if b {
            assert(exists|c: Card| #[trigger] play_mset(m).count(c) >= 0 && c.is_major()
                && c.spec_rank() as int == m.high - 1 && c.in_deck()) by {
                if high_done(m, 11) {
                    let j = choose|j: int|
                        0 <= j < 11 && cascade_eligible(m, j) && (
                        #[trigger] m.cascades[j]).last().is_major()
                            && m.cascades[j].last().spec_rank() as int == m.high - 1;
                    let c = m.cascades[j].last();
                    assert(play_mset(m).count(c) >= 0 && c.is_major() && c.spec_rank() as int
                        == m.high - 1 && c.in_deck());
                } else {
                    let c = m.cell.unwrap();
                    assert(play_mset(m).count(c) >= 0 && c.is_major() && c.spec_rank() as int
                        == m.high - 1 && c.in_deck());
                }
            }
            assert(m.high - 1 >= 0);
        }
    }
    assert(total_cards(r) <= 70) by {
        if any_auto(m) {
            lemma_round_decreases(m);
        } else {
            lemma_round_shape(m, m, 0);
            assert(r.cascades =~= m.cascades);
        }
    }
}

/// Rearranged boards stay rearranged through one auto-move round.
proof fn lemma_round_equiv(m: BoardModel, m2: BoardModel)
    requires
        board_ok(m),
        play_distinct(m),
        rearranged(m, m2),
    ensures
        rearranged(auto_round(m), auto_round(m2)),
        any_auto(m) == any_auto(m2),
        total_cards(auto_round(m2)) == total_cards(auto_round(m)),
{
    broadcast use vstd::seq_lib::group_to_multiset_ensures;

    lemma_rearranged_ok(m, m2);
    lemma_flags_equiv(m, m2);
    lemma_round_fdns(m);
    lemma_round_fdns(m2);
    lemma_round_shape(m, m, 0);
    lemma_round_shape(m2, m2, 0);
    let r = auto_round(m);
    let r2 = auto_round(m2);
    assert(r.minors =~= r2.minors);
    assert(r.low == r2.low && r.high == r2.high);
    assert(r.cell == r2.cell);
    let g = |c: Seq<Card>|
        if c.len() > 0 && can_remove(m, c.last()) {
            c.drop_last()
        } else {
            c
        };
    assert(r.cascades =~= m.cascades.map_values(g)) by {
        assert(forall|j: int| 0 <= j < 11 ==> #[trigger] r.cascades[j] == g(m.cascades[j]));
    }
    assert(r2.cascades =~= m2.cascades.map_values(g)) by {
        assert forall|j: int| 0 <= j < 11 implies #[trigger] r2.cascades[j] == g(
            m2.cascades[j],
        ) by {
            assert(cascade_eligible(m2, j) == (m2.cascades[j].len() > 0 && can_remove(
                m,
                m2.cascades[j].last(),
            )));
        }
    }
    lemma_map_mset(m2.cascades, m.cascades, g);
    assert(r2.cascades.to_multiset() == r.cascades.to_multiset());
    lemma_casc_mset_perm(r2.cascades, r.cascades);
    crate::board_model::lemma_casc_cards_mset(r.cascades);
    crate::board_model::lemma_casc_cards_mset(r2.cascades);
}

/// Rearranged boards stay rearranged through auto-moves to the fixed point.
proof fn lemma_auto_fix_equiv(m: BoardModel, m2: BoardModel)
    requires
        board_ok(m),
        play_distinct(m),
        rearranged(m, m2),
    ensures
        rearranged(auto_fix(m), auto_fix(m2)),
        board_ok(auto_fix(m)),
        play_distinct(auto_fix(m)),
    decreases total_cards(m),
{
    lemma_rearranged_ok(m, m2);
    lemma_flags_equiv(m, m2);
    if any_auto(m) {
        lemma_round_decreases(m);
        lemma_round_decreases(m2);
        lemma_round_equiv(m, m2);
        lemma_round_ok(m);
        lemma_auto_fix_equiv(auto_round(m), auto_round(m2));
        assert(auto_fix(m) == auto_fix(auto_round(m)));
        assert(auto_fix(m2) == auto_fix(auto_round(m2)));
    } else {
        assert(auto_fix(m) == m);
        assert(auto_fix(m2) == m2);
    }
}

/// Canonical equivalence: a board whose cascades are the same cascades in
/// another order normalizes to the very same board.
pub proof fn lemma_canonical_equivalence(m: BoardModel, m2: BoardModel)
    requires
        board_ok(m),
        play_distinct(m),
        rearranged(m, m2),
    ensures
        normalize_spec(m2) == normalize_spec(m),
{
    broadcast use vstd::seq_lib::group_to_multiset_ensures;

    lemma_auto_fix_equiv(m, m2);
    let f = auto_fix(m);
    let f2 = auto_fix(m2);
    lemma_sort_casc_props(f.cascades);
    lemma_sort_casc_props(f2.cascades);
    assert forall|c: Card| #[trigger] casc_mset(f.cascades).count(c) <= 1 by {
        assert(play_mset(f).count(c) <= 1);
        assert(casc_mset(f.cascades).count(c) <= play_mset(f).count(c));
    }
    assert forall|x: Seq<Card>| #[trigger] sort_casc(f2.cascades).contains(x) implies
        f.cascades.contains(x) by {
        assert(f2.cascades.contains(x));
        assert(f.cascades.to_multiset().count(x) > 0) by {
            assert(f2.cascades.to_multiset().count(x) > 0);
        }
    }
    assert(sort_casc(f2.cascades).to_multiset() == sort_casc(f.cascades).to_multiset());
    lemma_sorted_unique(sort_casc(f2.cascades), sort_casc(f.cascades), f.cascades);
    assert(normalize_spec(m2) =~= normalize_spec(m));
}

/// A won board that accounts for the whole deck holds no card outside the
/// foundations: every cascade and the cell are empty.
pub proof fn lemma_won_board_is_empty(m: BoardModel)
    requires
        board_ok(m),
        conserved(m),
        won_spec(m),
    ensures
        forall|i: int| 0 <= i < 11 ==> (#[trigger] m.cascades[i]).len() == 0,
        m.cell is None,
{
    assert(m.low == 21 && m.high == 21);
    assert forall|c: Card| #[trigger] play_mset(m).count(c) == 0 by {
        lemma_implied_count(m, c);
        lemma_full_deck_count(c);
        assert(board_mset(m).count(c) == Card::full_deck().to_multiset().count(c));
        assert(c.value == 32 * (c.value / 32) + (c.value % 32));
    }
    assert(m.cell is None) by {
        if m.cell is Some {
            assert(play_mset(m).count(m.cell.unwrap()) >= 1);
        }
    }
    assert forall|i: int| 0 <= i < 11 implies (#[trigger] m.cascades[i]).len() == 0 by {
        if m.cascades[i].len() > 0 {
            let c = m.cascades[i].last();
            assert(m.cascades[i].to_multiset().count(c) >= 1) by {
                m.cascades[i].to_multiset_ensures();
                assert(m.cascades[i][m.cascades[i].len() - 1] == c);
            }
            lemma_casc_mset_one(m.cascades, i, c);
            assert(play_mset(m).count(c) >= 1);
        }
    }
}

} // verus!
