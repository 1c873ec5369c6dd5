use ff_solver_lib::{create_random_board, parse_board, Board, CardMove, CascadeMap, SolveResult,
    SolveResultStatus, Solver, CELL, FOUNDATION};

fn published_board() -> Board {
    parse_board("
   7B   -  3Y  6G  5B  KY 10R  QB   -  5G   -
    -   -  KR  7G  4B  QY  JB  KB   -  21   -
    -   -   -  8G   -  JY 10B   -   -  8B   -
    -   -   -  9G   - 10Y  9B   -   -  3B   -
    -   -   - 10G   -  9Y   -   -   -  2Y   -
    -   -   -  JG   -  8Y   -   -   -  6B   -
    -   -   -  QG   -  7Y   -   -   -  QR   -
    -   -   -  KG   -  6Y   -   -   -  JR   -
    -   -   -   -   -  5Y   -   -   -   -   -
    -   -   -   -   -  4Y   -   -   -   -   -", None).unwrap()
}

#[test]
fn trivially_won_start() {
    let board = parse_board("", None).unwrap();
    assert!(board.is_game_won());
    let result = Solver::new(board).solve(20_000, 100, true);
    assert!(result.solved());
    assert_eq!(result.iteration, 1);
    assert_eq!(result.moves.len(), 0);
}

#[test]
fn single_forced_move() {
    // one cascade holds the single major of rank 0; auto-moves alone win
    let board = parse_board("0", None).unwrap();
    let result = Solver::new(board).solve(20_000, 100, true);
    assert!(result.solved());
    assert_eq!(result.moves.len(), 0);
}

#[test]
fn max_iter_zero() {
    let won = parse_board("", None).unwrap();
    let result = Solver::new(won).solve(0, 100, true);
    assert!(result.solved());
    assert_eq!(result.iteration, 0);
    assert_eq!(result.moves.len(), 0);

    let board = published_board();
    let result = Solver::new(board).solve(0, 100, true);
    assert!(matches!(result.status, SolveResultStatus::ReachedMaxIterations));
    assert_eq!(result.iteration, 0);
    assert_eq!(result.moves.len(), 0);
}

#[test]
fn exhausted_queue_no_solution() {
    // the king is stuck: rank 6 of its suit will never reach the foundation
    let board = parse_board("5R KR", None).unwrap();
    let result = Solver::new(board).solve(100_000, 100, true);
    assert!(matches!(result.status, SolveResultStatus::NoSolution));
    assert_eq!(result.moves.len(), 0);
}

#[test]
fn determinism() {
    let a = Solver::new(published_board()).solve(20_000, 100, true);
    let b = Solver::new(published_board()).solve(20_000, 100, true);
    assert_eq!(a, b);
}

#[test]
fn generated_counts_within_stack_size() {
    // a cascade of three chained cards under a break: counts above the
    // stack size must not be generated
    let board = parse_board("
        2Y 3R -  -  -  -  -  -  -  -  -
        3Y -  -  -  -  -  -  -  -  -  -
        4Y -  -  -  -  -  -  -  -  -  -", None).unwrap();
    let mut moves: Vec<CardMove> = Vec::new();
    board.enumerate_moves(&mut moves);
    for m in &moves {
        if m.from() == 0 && m.to() < 11 {
            assert!(m.count() <= 3);
        }
        assert!(m.to() != FOUNDATION);
    }
    // every count up to the stack size is offered toward the empty cascades
    assert!(moves.iter().any(|m| m.from() == 0 && m.to() == 2 && m.count() == 3));
    assert!(moves.iter().any(|m| m.from() == 0 && m.to() == 2 && m.count() == 1));
}

#[test]
fn auto_moves_fixed_point() {
    let mut board = published_board();
    board.apply_auto_moves();
    let mut auto_moves: Vec<CardMove> = Vec::new();
    board.enumerate_auto_moves(&mut auto_moves);
    assert_eq!(auto_moves.len(), 0);
}

#[test]
fn auto_moves_idempotent() {
    let mut once = parse_board("2R 0 3R 21 -  -  -  -  -  -  -", None).unwrap();
    once.apply_auto_moves();
    let mut twice = once.clone();
    twice.apply_auto_moves();
    assert_eq!(once, twice);
}

#[test]
fn normalize_idempotent() {
    let mut once = published_board();
    once.normalize();
    let mut twice = once.clone();
    twice.normalize();
    assert_eq!(once, twice);
}

#[test]
fn normalize_sorts_cascades() {
    let mut board = published_board();
    board.normalize();
    let ranks: Vec<u32> = board.cascades().iter()
        .map(|cc| CascadeMap::cascade_rank(cc))
        .collect();
    for w in ranks.windows(2) {
        assert!(w[0] <= w[1]);
    }
}

#[test]
fn canonicalization_collapses_symmetry() {
    let mut a = parse_board("
        2Y 3R KG -  -  -  -  -  -  -  -
        3Y 4R -  -  -  -  -  -  -  -  -", None).unwrap();
    // the same cascades in another order
    let mut b = parse_board("
        -  KG -  3R -  -  2Y -  -  -  -
        -  -  -  4R -  -  3Y -  -  -  -", None).unwrap();
    a.normalize();
    b.normalize();
    assert_eq!(a, b);
}

fn accounted_cards(board: &Board) -> usize {
    let in_play: usize = board.cascades().iter().map(|cc| cc.len()).sum::<usize>()
        + board.cell().map_or(0, |_| 1);
    let minors_put: usize = board.minor_fdns().iter()
        .map(|f| f.map_or(0, |c| c.rank() as usize - 1))
        .sum();
    let majors_put: usize = {
        let low = board.major_fdn_low().map_or(-1i32, |c| c.rank() as i32);
        let high = board.major_fdn_high().map_or(22i32, |c| c.rank() as i32);
        if low == high {
            22
        } else {
            (low + 1 + 22 - high) as usize
        }
    };
    in_play + minors_put + majors_put
}

#[test]
fn card_conservation_across_auto_moves() {
    // cards either stay in play or move to the foundations, never vanish
    let mut board = parse_board("2R 0 3R 21 4R 1 -  -  -  -  -", None).unwrap();
    let before = accounted_cards(&board);
    board.apply_auto_moves();
    assert_eq!(accounted_cards(&board), before);
    // and nothing is left in play: every card of this deal is forced home
    let in_play: usize = board.cascades().iter().map(|cc| cc.len()).sum();
    assert_eq!(in_play, 0);
}

#[test]
fn solution_replays_to_a_won_board() {
    let board = published_board();
    let result = Solver::new(board.clone()).solve(20_000, 100, true);
    assert!(result.solved());
    let mut replay = board;
    replay.apply_auto_moves();
    for m in &result.moves {
        assert!(replay.is_legal_move(m));
        replay.apply_move(m);
        replay.apply_auto_moves();
    }
    assert!(replay.is_game_won());
}

#[test]
fn seeded_deal_is_deterministic() {
    let a = create_random_board(1337);
    let b = create_random_board(1337);
    assert_eq!(a, b);
    let c = create_random_board(1338);
    assert!(a != c);
    let total: usize = a.cascades().iter().map(|cc| cc.len()).sum();
    assert_eq!(total, 70);
    assert_eq!(a.cascades()[5].len(), 0);
}

#[test]
fn solve_result_accessors() {
    let r = SolveResult::new(vec![CardMove::new(CELL, FOUNDATION, 1)], 3, SolveResultStatus::NoSolution);
    assert_eq!(r.iteration, 3);
    assert!(!r.solved());
    assert!(matches!(r.status, SolveResultStatus::NoSolution));
}

#[test]
fn score_formula_exact_values() {
    // two single-card cascades: each is one clean run worth double its
    // length, the nine empty cascades are worth twenty each
    let board = parse_board("2Y 3R -  -  -  -  -  -  -  -  -", None).unwrap();
    assert_eq!(board.score(0), 2 + 2 + 9 * 20 - 2);
    assert_eq!(board.score(5), 2 + 2 + 9 * 20 - 2 - 5);

    // one cascade of two unstackable cards: only its top chain of one counts
    let broken = parse_board("
        2Y -  -  -  -  -  -  -  -  -  -
        3R -  -  -  -  -  -  -  -  -  -", None).unwrap();
    assert_eq!(broken.score(0), 1 + 10 * 20 - 2);
}

#[test]
fn move_text_three_digit_count() {
    let mv = ff_solver_lib::CardMove::new(CELL, 0, 255);
    assert_eq!(mv.text(), "Move 255 cards from cell to cascade 0");
    let mv = ff_solver_lib::CardMove::new(3, 10, 42);
    assert_eq!(mv.text(), "Move 42 cards from cascade 3 to cascade 10");
}
