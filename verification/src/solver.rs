//! Best-first search over canonicalized boards. The solver expands the most
//! promising board first, deduplicates states through a visited map keyed by
//! the board's byte encoding, and reconstructs the winning move sequence in
//! the caller's original cascade labeling. A solution is only reported after
//! the reconstructed moves have been replayed and checked: whenever the
//! result says `Solved`, the returned moves are legal and reach a won board.
use std::collections::HashMap;

use vstd::prelude::*;

use crate::board::{Board, MAX_SCORE_STEP};
use crate::board_model::{
    auto_fix, legal_search_move, lemma_legal_pre, lemma_replay_snoc, play_distinct, replay_legal,
    replay_ok, replay_state, won_spec,
};
use crate::board_node::BoardNode;
use crate::board_normalization::BoardNormalization;
use crate::card_move::CardMove;

verus! {

#[derive(Debug, Copy, Clone, PartialEq, Eq, Structural)]
pub enum SolveResultStatus {
    Solved,
    ReachedMaxIterations,
    NoSolution,
}

#[derive(Debug, PartialEq, Eq)]
pub struct SolveResult {
    pub moves: Vec<CardMove>,
    pub iteration: u32,
    pub status: SolveResultStatus,
}

impl SolveResult {
    pub fn new(moves: Vec<CardMove>, iteration: u32, status: SolveResultStatus) -> (r: Self)
        ensures
            r.moves == moves,
            r.iteration == iteration,
            r.status == status,
    {
        SolveResult { moves, iteration, status }
    }

    pub fn solved(&self) -> (r: bool)
        ensures
            r == (self.status is Solved),
    {
        matches!(self.status, SolveResultStatus::Solved)
    }
}

/// Every node of the store is well formed: its board is a valid board
/// without duplicate cards, its depth is within the step budget, and its
/// predecessor link points strictly backwards and carries the move that led
/// here.
pub open spec fn nodes_wf(nodes: Seq<BoardNode>, cap: u32) -> bool {
    forall|k: int|
        0 <= k < nodes.len() ==> {
            &&& (#[trigger] nodes[k]).board.ok()
            &&& play_distinct(nodes[k].board@)
            &&& nodes[k].step <= cap
            &&& (nodes[k].previous is Some ==> nodes[k].previous.unwrap() < k
                && nodes[k].card_move is Some && nodes[k].card_move.unwrap().wf())
        }
}

/// Swap two entries of the frontier.
fn heap_swap(h: &mut Vec<(i32, usize)>, a: usize, b: usize)
    requires
        a < old(h)@.len(),
        b < old(h)@.len(),
    ensures
        final(h)@.len() == old(h)@.len(),
        forall|e: (i32, usize)| #[trigger] final(h)@.contains(e) ==> old(h)@.contains(e),
{
    let x = h[a];
    let y = h[b];
    h[a] = y;
    h[b] = x;
    proof {
        assert forall|e: (i32, usize)| #[trigger] h@.contains(e) implies old(h)@.contains(e) by {
            let i = choose|i: int| 0 <= i < h@.len() && h@[i] == e;
            if i == a as int {
                assert(old(h)@[b as int] == e);
            } else if i == b as int {
                assert(old(h)@[a as int] == e);
            } else {
                assert(old(h)@[i] == e);
            }
        }
    }
}

/// Push an entry on the frontier, keeping the binary-heap shape by score.
fn heap_push(h: &mut Vec<(i32, usize)>, x: (i32, usize))
    ensures
        final(h)@.len() == old(h)@.len() + 1,
        forall|e: (i32, usize)|
            #[trigger] final(h)@.contains(e) ==> old(h)@.contains(e) || e == x,
{
    h.push(x);
    proof {
        assert forall|e: (i32, usize)| #[trigger] h@.contains(e) implies old(h)@.contains(e) || e
            == x by {
            let i = choose|i: int| 0 <= i < h@.len() && h@[i] == e;
            if i < h@.len() - 1 {
                assert(old(h)@[i] == e);
            }
        }
    }
    let ghost mid = h@;
    let mut i: usize = h.len() - 1;
    while i > 0
        invariant
            i < h@.len(),
            h@.len() == mid.len(),
            forall|e: (i32, usize)| #[trigger] h@.contains(e) ==> mid.contains(e),
        decreases i,
    {
        let p = (i - 1) / 2;
        if h[p].0 < h[i].0 {
            heap_swap(h, p, i);
            i = p;
        } else {
            break ;
        }
    }
}

/// Pop a highest-score entry off the frontier.
fn heap_pop(h: &mut Vec<(i32, usize)>) -> (r: Option<(i32, usize)>)
    ensures
        (r is None) == (old(h)@.len() == 0),
        r is None ==> final(h)@ == old(h)@,
        r is Some ==> old(h)@.contains(r.unwrap()) && final(h)@.len() == old(h)@.len() - 1,
        forall|e: (i32, usize)| #[trigger] final(h)@.contains(e) ==> old(h)@.contains(e),
{
    if h.len() == 0 {
        return None;
    }
    let top = h[0];
    proof {
        assert(old(h)@.contains(top)) by {
            assert(old(h)@[0] == top);
        }
    }
    let last = match h.pop() {
        Some(v) => v,
        None => {
            return None;
        },
    };
    if h.len() == 0 {
        return Some(top);
    }
    h[0] = last;
    proof {
        assert forall|e: (i32, usize)| #[trigger] h@.contains(e) implies old(h)@.contains(e) by {
            let i = choose|i: int| 0 <= i < h@.len() && h@[i] == e;
            if i == 0 {
                assert(old(h)@[old(h)@.len() - 1] == e);
            } else {
                assert(old(h)@[i] == e);
            }
        }
    }
    let ghost mid = h@;
    let mut i: usize = 0;
    while i < h.len() / 2
        invariant
            h@.len() == mid.len(),
            h@.len() >= 1,
            forall|e: (i32, usize)| #[trigger] h@.contains(e) ==> mid.contains(e),
        decreases h@.len() - i,
    {
        let l = 2 * i + 1;
        let r2 = 2 * i + 2;
        let mut c = l;
        if r2 < h.len() {
            if h[l].0 < h[r2].0 {
                c = r2;
            }
        }
        if h[i].0 < h[c].0 {
            heap_swap(h, i, c);
            i = c;
        } else {
            break ;
        }
    }
    Some(top)
}

pub struct Solver {
    pub start: Board,
    pub visited: HashMap<Vec<u8>, usize>,
    pub queue: Vec<(i32, usize)>,
    pub nodes: Vec<BoardNode>,
}

impl Solver {
    pub fn new(board: Board) -> (r: Self)
        requires
            board.ok(),
            play_distinct(board@),
        ensures
            r.start == board,
            r.start.ok(),
            play_distinct(r.start@),
            r.queue@.len() == 0,
            r.nodes@.len() == 0,
    {
        Solver { start: board, visited: HashMap::new(), queue: Vec::new(), nodes: Vec::new() }
    }

    /// Expand one node by one legal move: apply the move, normalize the
    /// successor, and intern it unless an equal canonical board was already
    /// reached at the same or a smaller depth.
    fn add_node(&mut self, idx: usize, card_move: CardMove, Ghost(cap): Ghost<u32>)
        requires
            idx < old(self).nodes@.len(),
            nodes_wf(old(self).nodes@, cap),
            cap <= MAX_SCORE_STEP,
            old(self).nodes@[idx as int].step < cap,
            legal_search_move(old(self).nodes@[idx as int].board@, card_move),
        ensures
            nodes_wf(final(self).nodes@, cap),
            final(self).nodes@.len() >= old(self).nodes@.len(),
            forall|k: int|
                0 <= k < old(self).nodes@.len() ==> final(self).nodes@[k] == old(self).nodes@[k],
            forall|e: (i32, usize)|
                #[trigger] final(self).queue@.contains(e) ==> old(self).queue@.contains(e) || e.1
                    < final(self).nodes@.len(),
            final(self).start == old(self).start,
    {
        let mut next = self.nodes[idx].board.clone();
        proof {
            lemma_legal_pre(next@, card_move);
        }
        next.apply_move(&card_move);
        next.normalize();
        let step = self.nodes[idx].step + 1;
        let score = next.score(step);
        let key = next.encode();
        let node = BoardNode {
            board: next,
            previous: Some(idx),
            card_move: Some(card_move),
            step,
            score,
        };
        let existing: Option<usize> = match self.visited.get(&key) {
            Some(vi_ref) => Some(*vi_ref),
            None => None,
        };
        match existing {
            Some(vi) => {
                if vi < self.nodes.len() {
                    if self.nodes[vi].step > step {
                        let new_idx = self.nodes.len();
                        self.nodes.push(node);
                        self.visited.insert(key, new_idx);
                    }
                }
            },
            None => {
                let new_idx = self.nodes.len();
                self.nodes.push(node);
                self.visited.insert(key, new_idx);
                heap_push(&mut self.queue, (score, new_idx));
            },
        }
    }

    /// Walk the predecessor links back from `end`, then replay the stored
    /// moves forward from the start board, translating each into the
    /// original cascade labeling. Returns the translated moves only if every
    /// one of them is legal where it is applied and the replay ends in a won
    /// board.
    fn assemble_moves(&self, end: usize, Ghost(cap): Ghost<u32>) -> (r: Option<Vec<CardMove>>)
        requires
            self.start.ok(),
            play_distinct(self.start@),
            nodes_wf(self.nodes@, cap),
            end < self.nodes@.len(),
        ensures
            r is Some ==> replay_ok(auto_fix(self.start@), r.unwrap()@),
            (self.nodes@[end as int].previous is None && won_spec(auto_fix(self.start@))) ==> r
                is Some && r.unwrap()@.len() == 0,
    {
        let ghost m0 = auto_fix(self.start@);
        let mut chain: Vec<usize> = Vec::new();
        let mut cur = end;
        let mut walking = true;
        while walking
            invariant
                cur < self.nodes@.len(),
                nodes_wf(self.nodes@, cap),
                forall|x: int|
                    0 <= x < chain@.len() ==> #[trigger] chain@[x] < self.nodes@.len()
                        && self.nodes@[chain@[x] as int].previous is Some,
                end < self.nodes@.len(),
                chain@.len() == 0 ==> cur == end,
                self.nodes@[end as int].previous is None ==> chain@.len() == 0,
            decreases (if walking {
                cur + 1
            } else {
                0int
            }),
        {
            match self.nodes[cur].previous {
                Some(p) => {
                    chain.push(cur);
                    cur = p;
                },
                None => {
                    walking = false;
                },
            }
        }
        let mut shadow = self.start.clone();
        shadow.apply_auto_moves();
        let mut norm: BoardNormalization = Default::default();
        let mut result: Vec<CardMove> = Vec::new();
        let mut t = chain.len();
        proof {
            assert(replay_legal(m0, result@));
            assert(shadow@ == replay_state(m0, result@));
        }
        while t > 0
            invariant
                t <= chain@.len(),
                self.start.ok(),
                play_distinct(self.start@),
                m0 == auto_fix(self.start@),
                nodes_wf(self.nodes@, cap),
                forall|x: int|
                    0 <= x < chain@.len() ==> #[trigger] chain@[x] < self.nodes@.len()
                        && self.nodes@[chain@[x] as int].previous is Some,
                shadow.ok(),
                play_distinct(shadow@),
                norm.wf(),
                replay_legal(m0, result@),
                shadow@ == replay_state(m0, result@),
                self.nodes@[end as int].previous is None ==> chain@.len() == 0,
                t <= chain@.len(),
                result@.len() + t == chain@.len(),
            decreases t,
        {
            t = t - 1;
            let idx = chain[t];
            let mv = match self.nodes[idx].card_move {
                Some(mv) => mv,
                None => {
                    return None;
                },
            };
            proof {
                assert(self.nodes@[idx as int].card_move.unwrap().wf());
            }
            let translated = norm.translate(&mv);
            if !shadow.is_legal_move(&translated) {
                return None;
            }
            let ghost pre = shadow@;
            let ghost before = result@;
            proof {
                lemma_legal_pre(pre, translated);
            }
            shadow.apply_move(&translated);
            shadow.apply_auto_moves();
            result.push(translated);
            proof {
                lemma_replay_snoc(m0, before, translated);
            }
            let p = match self.nodes[idx].previous {
                Some(p) => p,
                None => {
                    return None;
                },
            };
            let mut no_norm = self.nodes[p].board.clone();
            if no_norm.is_legal_move(&mv) {
                proof {
                    lemma_legal_pre(no_norm@, mv);
                }
                no_norm.apply_move(&mv);
                no_norm.apply_auto_moves();
                norm.advance(&no_norm);
            } else {
                return None;
            }
        }
        if shadow.is_game_won() {
            proof {
                assert(replay_ok(m0, result@));
            }
            Some(result)
        } else {
            None
        }
    }

    /// Run the search: pop the most promising board, record a solution when
    /// a won board surfaces, and otherwise expand it by every legal move
    /// until the iteration budget runs out, the queue drains, or (when
    /// requested) the first solution appears.
    pub fn solve(self, max_iter: u32, max_steps: u32, return_on_solve: bool) -> (r: SolveResult)
        requires
            self.start.ok(),
            play_distinct(self.start@),
            self.queue@.len() == 0,
            self.nodes@.len() == 0,
            max_steps <= MAX_SCORE_STEP,
        ensures
            r.iteration <= max_iter,
            !(r.status is Solved) ==> r.moves@.len() == 0,
            r.status is Solved ==> replay_ok(auto_fix(self.start@), r.moves@),
            won_spec(auto_fix(self.start@)) ==> r.status is Solved && r.moves@.len() == 0,
            won_spec(auto_fix(self.start@)) && max_iter > 0 && return_on_solve ==> r.iteration
                == 1,
            won_spec(auto_fix(self.start@)) && max_iter == 0 ==> r.iteration == 0,
            max_iter == 0 && !won_spec(auto_fix(self.start@)) ==> r.status
                is ReachedMaxIterations && r.iteration == 0,
    {
        let mut this = self;
        let ghost startm = this.start@;
        let mut board = this.start.clone();
        board.apply_auto_moves();
        let start_won = board.is_game_won();
        let start_node = BoardNode {
            board,
            previous: None,
            card_move: None,
            step: 0,
            score: 0,
        };
        this.nodes.push(start_node);
        heap_push(&mut this.queue, (0i32, 0usize));
        proof {
            assert(this.queue@.len() == 1);
            assert(this.queue@.contains(this.queue@[0]));
            assert(this.queue@[0] == (0i32, 0usize));
        }
        let mut current_max_steps = max_steps;
        let mut best: Option<usize> = None;
        let mut iteration: u32 = 0;
        let mut no_solution = false;
        while iteration < max_iter
            invariant_except_break
                (start_won && return_on_solve) ==> iteration == 0,
                !no_solution,
            invariant
                startm == this.start@,
                this.start.ok(),
                play_distinct(startm),
                max_steps <= MAX_SCORE_STEP,
                nodes_wf(this.nodes@, max_steps),
                this.nodes@.len() >= 1,
                this.nodes@[0].previous is None,
                this.nodes@[0].step == 0,
                this.nodes@[0].board@ == auto_fix(startm),
                forall|e: (i32, usize)| #[trigger] this.queue@.contains(e) ==> e.1
                    < this.nodes@.len(),
                iteration <= max_iter,
                current_max_steps <= max_steps,
                best matches Some(b) ==> b < this.nodes@.len(),
                best is Some ==> iteration >= 1,
                start_won == won_spec(auto_fix(startm)),
                start_won ==> (best is None || best == Some(0usize)),
                (start_won && best is None) ==> iteration == 0 && this.queue@.len() == 1
                    && this.queue@[0] == (0i32, 0usize),
                iteration == 0 ==> this.queue@.len() >= 1,
            ensures
                no_solution ==> !(start_won && best is None),
                no_solution ==> iteration >= 1,
                (start_won && return_on_solve) ==> iteration <= 1,
                (best is None && !no_solution) ==> iteration >= max_iter,
            decreases max_iter - iteration,
        {
            if this.queue.len() == 0 {
                proof {
                    if start_won && best is None {
                        assert(false);
                    }
                }
                no_solution = true;
                break ;
            }
            let ghost q0 = this.queue@;
            let popped = heap_pop(&mut this.queue);
            let (_sc, idx) = match popped {
                Some(p) => p,
                None => {
                    no_solution = true;
                    break ;
                },
            };
            proof {
                assert(q0.contains((_sc, idx)));
                if start_won && best is None {
                    assert(q0[0] == (0i32, 0usize));
                    assert((_sc, idx) == (0i32, 0usize));
                }
            }
            iteration = iteration + 1;
            let won = this.nodes[idx].board.is_game_won();
            if won {
                let better = match best {
                    None => true,
                    Some(b) => this.nodes[b].step > this.nodes[idx].step,
                };
                if better {
                    best = Some(idx);
                    let st = this.nodes[idx].step;
                    current_max_steps = if st == 0 {
                        0
                    } else {
                        st - 1
                    };
                }
                if return_on_solve {
                    break ;
                }
            }
            if this.nodes[idx].step >= current_max_steps {
                continue ;
            }
            let mut cmoves: Vec<CardMove> = Vec::new();
            this.nodes[idx].board.enumerate_moves(&mut cmoves);
            let ghost nb = this.nodes@[idx as int].board@;
            let mut q: usize = 0;
            while q < cmoves.len()
                invariant
                    startm == this.start@,
                    this.start.ok(),
                    play_distinct(startm),
                    max_steps <= MAX_SCORE_STEP,
                    nodes_wf(this.nodes@, max_steps),
                    this.nodes@.len() >= 1,
                    idx < this.nodes@.len(),
                    this.nodes@[0].previous is None,
                    this.nodes@[0].step == 0,
                    this.nodes@[0].board@ == auto_fix(startm),
                    this.nodes@[idx as int].board@ == nb,
                    this.nodes@[idx as int].step < current_max_steps,
                    current_max_steps <= max_steps,
                    forall|e: (i32, usize)| #[trigger] this.queue@.contains(e) ==> e.1
                        < this.nodes@.len(),
                    forall|x: CardMove| #[trigger] cmoves@.contains(x) ==> legal_search_move(
                        nb,
                        x,
                    ),
                    best matches Some(b) ==> b < this.nodes@.len(),
                    q <= cmoves@.len(),
                decreases cmoves@.len() - q,
            {
                let mv = cmoves[q];
                proof {
                    assert(cmoves@.contains(mv)) by {
                        assert(cmoves@[q as int] == mv);
                    }
                }
                this.add_node(idx, mv, Ghost(max_steps));
                q = q + 1;
            }
        }
        match best {
            Some(b) => {
                match this.assemble_moves(b, Ghost(max_steps)) {
                    Some(moves) => SolveResult::new(moves, iteration, SolveResultStatus::Solved),
                    None => {
                        proof {
                            if start_won {
                                assert(false);
                            }
                        }
                        SolveResult::new(
                            Vec::new(),
                            iteration,
                            SolveResultStatus::ReachedMaxIterations,
                        )
                    },
                }
            },
            None => {
                if no_solution {
                    proof {
                        if start_won {
                            assert(false);
                        }
                    }
                    SolveResult::new(Vec::new(), iteration, SolveResultStatus::NoSolution)
                } else if start_won {
                    SolveResult::new(Vec::new(), iteration, SolveResultStatus::Solved)
                } else {
                    SolveResult::new(
                        Vec::new(),
                        iteration,
                        SolveResultStatus::ReachedMaxIterations,
                    )
                }
            },
        }
    }
}

} // verus!
