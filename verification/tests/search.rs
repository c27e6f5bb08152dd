use std::sync::atomic::{AtomicBool, Ordering};
use std::sync::Arc;

use fianco_brain::board::{Board, EngineError, Move};
use fianco_brain::budget::{flag_asks_to_stop, time_is_up, SearchBudget};
use fianco_brain::eval::{
    evaluate_board, is_game_over, DRAW_SCORE, MAX_SCORE, MIN_SCORE, WIN_BY_TRIANGLE,
};
use fianco_brain::moves::get_valid_moves;
use fianco_brain::search::{
    choose_principal_variation, classify_bound, consult_entry, copy_line, count_repetitions,
    is_loss_score, is_win_score, DepthResult, FiancoAI, PonderReport, SINGLE_MOVE_SCORE,
};
use fianco_brain::table::{TTEntry, TTFlag};

fn place(men: &[(usize, usize, i8)]) -> Board {
    let mut b = Board::empty();
    for &(r, c, v) in men {
        b.set(r, c, v);
    }
    b
}

/// Every man looks at an opposing man straight ahead, so no lane is open.
fn quiet_position() -> Board {
    place(&[(3, 2, 1), (4, 2, -1), (3, 6, 1), (4, 6, -1)])
}

/// Plain negamax without pruning, table or repetition check, with the same
/// rule for depth: a capture does not use any.
fn exhaustive(board: &mut Board, depth: i32, player: i8) -> i32 {
    if depth <= 0 || is_game_over(board, player) {
        return -(player as i32) * evaluate_board(board, player);
    }
    let mut best = -i32::MAX;
    for (fr, fc, tr, tc) in get_valid_moves(board, player) {
        let capture = (fr as i32 - tr as i32).abs() == 2;
        board.set(fr, fc, 0);
        board.set(tr, tc, player);
        if capture {
            board.set((fr + tr) / 2, (fc + tc) / 2, 0);
        }
        let value = -exhaustive(board, if capture { depth } else { depth - 1 }, -player);
        board.set(tr, tc, 0);
        board.set(fr, fc, player);
        if capture {
            board.set((fr + tr) / 2, (fc + tc) / 2, -player);
        }
        if value > best {
            best = value;
        }
    }
    best
}

fn result(depth: i32, score: i32, pv: Vec<Move>) -> DepthResult {
    DepthResult { depth, score, pv }
}

#[test]
fn new_engine_is_empty() {
    let ai = FiancoAI::new(-1);
    assert_eq!(ai.ai_player, -1);
    assert_eq!(ai.get_tt_size(), 0);
    assert_eq!(ai.current_hash_key, 0);
    assert!(ai.hash_history.is_empty());
    assert_eq!(ai.zobrist_table.keys.len(), 162);
}

#[test]
fn repetitions_are_counted_on_the_path() {
    assert_eq!(count_repetitions(&vec![], 5), 0);
    assert_eq!(count_repetitions(&vec![5, 7, 5, 9, 5], 5), 3);
    assert_eq!(count_repetitions(&vec![5, 7, 5, 9, 5], 7), 1);
    assert_eq!(count_repetitions(&vec![5, 7, 5, 9, 5], 8), 0);
}

#[test]
fn missing_entry_leaves_the_window() {
    let p = consult_entry(None, 3, -10, 10);
    assert!(p.cutoff.is_none());
    assert_eq!((p.alpha, p.beta), (-10, 10));
    assert!(p.hint.is_none());
}

#[test]
fn exact_entry_settles_the_node() {
    let e = TTEntry { best_move: Some((1, 1, 2, 1)), eval: 7, depth: 3, flag: TTFlag::Exact };
    let p = consult_entry(Some(e), 3, -10, 10);
    assert_eq!(p.cutoff, Some((7, Some((1, 1, 2, 1)))));
    let q = consult_entry(Some(e), 2, -10, 10);
    assert_eq!(q.cutoff, Some((7, Some((1, 1, 2, 1)))));
}

#[test]
fn shallow_entry_only_gives_a_hint() {
    let e = TTEntry { best_move: Some((1, 1, 2, 1)), eval: 7, depth: 2, flag: TTFlag::Exact };
    let p = consult_entry(Some(e), 3, -10, 10);
    assert!(p.cutoff.is_none());
    assert_eq!((p.alpha, p.beta), (-10, 10));
    assert_eq!(p.hint, Some((1, 1, 2, 1)));
}

#[test]
fn lower_bound_raises_alpha() {
    let e = TTEntry { best_move: None, eval: 4, depth: 3, flag: TTFlag::LowerBound };
    let p = consult_entry(Some(e), 3, -10, 10);
    assert!(p.cutoff.is_none());
    assert_eq!((p.alpha, p.beta), (4, 10));
    assert!(p.hint.is_none());
    let q = consult_entry(Some(e), 3, 6, 10);
    assert_eq!((q.alpha, q.beta), (6, 10));
}

#[test]
fn upper_bound_lowers_beta() {
    let e = TTEntry { best_move: Some((2, 2, 3, 2)), eval: 4, depth: 5, flag: TTFlag::UpperBound };
    let p = consult_entry(Some(e), 3, -10, 10);
    assert!(p.cutoff.is_none());
    assert_eq!((p.alpha, p.beta), (-10, 4));
    assert_eq!(p.hint, Some((2, 2, 3, 2)));
}

#[test]
fn closed_window_settles_the_node_without_a_line() {
    let lower =
        TTEntry { best_move: Some((2, 2, 3, 2)), eval: 12, depth: 5, flag: TTFlag::LowerBound };
    let p = consult_entry(Some(lower), 3, -10, 10);
    assert_eq!(p.cutoff, Some((12, None)));
    let upper =
        TTEntry { best_move: Some((2, 2, 3, 2)), eval: -10, depth: 5, flag: TTFlag::UpperBound };
    let q = consult_entry(Some(upper), 3, -10, 10);
    assert_eq!(q.cutoff, Some((-10, None)));
}

#[test]
fn bound_kind_follows_the_window() {
    assert_eq!(classify_bound(-10, -10, 10), TTFlag::UpperBound);
    assert_eq!(classify_bound(-11, -10, 10), TTFlag::UpperBound);
    assert_eq!(classify_bound(10, -10, 10), TTFlag::LowerBound);
    assert_eq!(classify_bound(11, -10, 10), TTFlag::LowerBound);
    assert_eq!(classify_bound(0, -10, 10), TTFlag::Exact);
    assert_eq!(classify_bound(5, 5, 5), TTFlag::UpperBound);
}

#[test]
fn invalid_side_is_refused() {
    let mut ai = FiancoAI::new(1);
    let b = quiet_position();
    assert_eq!(ai.get_best_move(&b, 0, 3, 60).unwrap_err(), EngineError::InvalidSide);
    assert_eq!(ai.get_best_move(&b, 2, 3, 60).unwrap_err(), EngineError::InvalidSide);
    assert_eq!(ai.get_best_move(&b, -128, 3, 60).unwrap_err(), EngineError::InvalidSide);
    assert_eq!(ai.get_legal_moves(&b, 0).unwrap_err(), EngineError::InvalidSide);
    assert_eq!(ai.evaluate_position(&b, 3).unwrap_err(), EngineError::InvalidSide);
    assert!(ai.hash_history.is_empty());
    assert_eq!(ai.get_tt_size(), 0);
}

#[test]
fn boundary_functions_agree_with_the_components() {
    let ai = FiancoAI::new(1);
    let b = quiet_position();
    assert_eq!(ai.get_legal_moves(&b, 1).unwrap(), get_valid_moves(&b, 1));
    assert_eq!(ai.get_legal_moves(&b, -1).unwrap(), get_valid_moves(&b, -1));
    assert_eq!(ai.evaluate_position(&b, 1).unwrap(), evaluate_board(&b, 1));
    assert_eq!(ai.evaluate_position(&b, -1).unwrap(), 6);
}

#[test]
fn single_legal_move_comes_back_at_once() {
    let mut ai = FiancoAI::new(1);
    // the capture is forced and it is the only one
    let b = place(&[(3, 4, 1), (4, 5, -1), (0, 0, 1), (8, 8, -1)]);
    let (score, pv) = ai.get_best_move(&b, 1, 5, 60).unwrap();
    assert_eq!(score, SINGLE_MOVE_SCORE);
    assert_eq!(score, 404);
    assert_eq!(pv, vec![(3, 4, 5, 6)]);
    assert_eq!(ai.get_tt_size(), 0);
    assert!(ai.hash_history.is_empty());
    assert_eq!(ai.current_hash_key, 0);
}

#[test]
fn single_legal_move_needs_no_time() {
    let mut ai = FiancoAI::new(1);
    let b = place(&[(8, 0, 1), (5, 5, -1)]);
    let (score, pv) = ai.get_best_move(&b, 1, 0, 0).unwrap();
    assert_eq!(score, 404);
    assert_eq!(pv, vec![(8, 0, 8, 1)]);
}

#[test]
fn no_legal_move_is_reported() {
    let mut ai = FiancoAI::new(1);
    let b = place(&[(8, 0, 1), (8, 1, -1)]);
    assert_eq!(ai.get_best_move(&b, 1, 3, 60).unwrap_err(), EngineError::NoLegalMove);
    assert_eq!(ai.get_best_move(&Board::empty(), -1, 3, 60).unwrap_err(), EngineError::NoLegalMove);
}

#[test]
fn decided_game_has_no_move_to_report() {
    let mut ai = FiancoAI::new(1);
    // white already stands on row 0; black still has moves
    let b = place(&[(0, 3, -1), (4, 4, 1), (5, 7, 1)]);
    assert!(get_valid_moves(&b, 1).len() > 1);
    assert_eq!(ai.get_best_move(&b, 1, 3, 60).unwrap_err(), EngineError::NoLegalMove);
}

#[test]
fn no_budget_no_move() {
    let mut ai = FiancoAI::new(1);
    let b = quiet_position();
    assert_eq!(ai.get_best_move(&b, 1, 3, 0).unwrap_err(), EngineError::NoLegalMove);
    assert_eq!(ai.get_best_move(&b, 1, 0, 60).unwrap_err(), EngineError::NoLegalMove);
    assert_eq!(ai.get_best_move(&b, 1, -4, 60).unwrap_err(), EngineError::NoLegalMove);
}

#[test]
fn root_fingerprint_goes_on_the_path_and_stays() {
    let mut ai = FiancoAI::new(1);
    let b = quiet_position();
    let key = ai.compute_hash_key(&b);
    let (_, pv) = ai.get_best_move(&b, 1, 2, 60).unwrap();
    assert!(!pv.is_empty());
    assert_eq!(ai.hash_history, vec![key]);
    assert_eq!(ai.current_hash_key, key);
    let again = ai.get_best_move(&b, 1, 2, 60);
    assert!(again.is_ok());
    assert_eq!(ai.hash_history, vec![key, key]);
}

#[test]
fn position_seen_twice_before_is_not_searched() {
    let mut ai = FiancoAI::new(1);
    let b = quiet_position();
    assert!(ai.get_best_move(&b, 1, 2, 60).is_ok());
    assert!(ai.get_best_move(&b, 1, 2, 60).is_ok());
    assert_eq!(ai.get_best_move(&b, 1, 2, 60).unwrap_err(), EngineError::NoLegalMove);
}

#[test]
fn reported_move_is_legal_and_score_in_range() {
    let mut ai = FiancoAI::new(-1);
    let b = quiet_position();
    for side in [1i8, -1i8] {
        let (score, pv) = ai.get_best_move(&b, side, 3, 60).unwrap();
        assert!(MIN_SCORE <= score && score <= MAX_SCORE);
        assert!(get_valid_moves(&b, side).contains(&pv[0]));
    }
    assert!(ai.get_tt_size() > 0);
}

#[test]
fn threefold_repetition_is_a_draw() {
    let mut ai = FiancoAI::new(1);
    // white has an open lane: the position is far from even
    let mut b = place(&[(2, 4, -1), (0, 0, 1), (8, 3, -1)]);
    assert_eq!(evaluate_board(&b, 1), 650_000);
    let mut key = ai.compute_hash_key(&b);
    ai.hash_history.push(key);
    let cycle: [(i8, Move); 4] = [
        (1, (0, 0, 0, 1)),
        (-1, (8, 3, 8, 4)),
        (1, (0, 1, 0, 0)),
        (-1, (8, 4, 8, 3)),
    ];
    for _ in 0..2 {
        for (side, m) in cycle.iter() {
            ai.make_move(&mut b, *side, *m, &mut key);
        }
    }
    assert_eq!(count_repetitions(&ai.hash_history, key), 3);
    let mut budget = SearchBudget::start(3600);
    let (score, pv) = ai
        .negamax(&mut b, 4, 1, MIN_SCORE, MAX_SCORE, &mut key, false, &mut budget)
        .unwrap();
    assert_eq!(score, -(ai.ai_player as i32) * DRAW_SCORE);
    assert_eq!(score, 30);
    assert!(pv.is_empty());
    assert_eq!(ai.get_tt_size(), 0);
}

#[test]
fn draw_score_is_signed_for_the_engine_side() {
    let mut ai = FiancoAI::new(-1);
    let mut b = quiet_position();
    let mut key = ai.compute_hash_key(&b);
    ai.hash_history = vec![key, 1, key, 2, key];
    let mut budget = SearchBudget::start(3600);
    let (score, pv) = ai
        .negamax(&mut b, 2, -1, MIN_SCORE, MAX_SCORE, &mut key, false, &mut budget)
        .unwrap();
    assert_eq!(score, -30);
    assert!(pv.is_empty());
}

#[test]
fn twice_on_the_path_is_no_draw_yet() {
    let mut ai = FiancoAI::new(1);
    let mut b = quiet_position();
    let mut key = ai.compute_hash_key(&b);
    ai.hash_history = vec![key, 1, key];
    let mut budget = SearchBudget::start(3600);
    let (score, _) = ai
        .negamax(&mut b, 0, 1, MIN_SCORE, MAX_SCORE, &mut key, false, &mut budget)
        .unwrap();
    assert_eq!(score, -evaluate_board(&b, 1));
}

#[test]
fn winning_capture_is_found_at_depth_one() {
    let mut ai = FiancoAI::new(1);
    // two captures are open to black; the one from (6, 2) lands on row 8
    let b = place(&[(2, 2, 1), (3, 3, -1), (6, 2, 1), (7, 3, -1), (8, 8, -1)]);
    assert_eq!(get_valid_moves(&b, 1), vec![(2, 2, 4, 4), (6, 2, 8, 4)]);
    let (score, pv) = ai.get_best_move(&b, 1, 1, 60).unwrap();
    assert_eq!(pv[0], (6, 2, 8, 4));
    assert_eq!(score, -MAX_SCORE);
    assert_eq!(score.abs(), 1_000_000);
}

#[test]
fn winning_capture_is_found_for_white_too() {
    let mut ai = FiancoAI::new(-1);
    let b = place(&[(6, 2, -1), (5, 3, 1), (2, 6, -1), (1, 5, 1), (0, 0, 1)]);
    assert_eq!(get_valid_moves(&b, -1), vec![(2, 6, 0, 4), (6, 2, 4, 4)]);
    let (score, pv) = ai.get_best_move(&b, -1, 1, 60).unwrap();
    assert_eq!(pv[0], (2, 6, 0, 4));
    assert_eq!(score, MAX_SCORE);
}

#[test]
fn leaf_returns_the_evaluation_for_the_mover() {
    let mut ai = FiancoAI::new(1);
    let mut b = quiet_position();
    let mut budget = SearchBudget::start(3600);
    let mut key = ai.compute_hash_key(&b);
    ai.hash_history.push(key);
    let (black, line) = ai
        .negamax(&mut b, 0, 1, MIN_SCORE, MAX_SCORE, &mut key, false, &mut budget)
        .unwrap();
    assert_eq!(black, -6);
    assert!(line.is_empty());
    let (white, _) = ai
        .negamax(&mut b, 0, -1, MIN_SCORE, MAX_SCORE, &mut key, false, &mut budget)
        .unwrap();
    assert_eq!(white, 6);
    assert_eq!(ai.get_tt_size(), 0);
}

#[test]
fn table_settles_a_position_that_is_new_to_the_path() {
    let mut ai = FiancoAI::new(1);
    let mut b = quiet_position();
    let mut key = ai.compute_hash_key(&b);
    ai.tt.store(
        key,
        TTEntry { best_move: Some((3, 2, 3, 1)), eval: 1234, depth: 9, flag: TTFlag::Exact },
    );
    let mut budget = SearchBudget::start(3600);
    let (score, pv) = ai
        .negamax(&mut b, 2, 1, MIN_SCORE, MAX_SCORE, &mut key, false, &mut budget)
        .unwrap();
    assert_eq!(score, 1234);
    assert_eq!(pv, vec![(3, 2, 3, 1)]);
    // once the position stands on the path the table is not asked
    ai.hash_history.push(key);
    let (searched, line) = ai
        .negamax(&mut b, 1, 1, MIN_SCORE, MAX_SCORE, &mut key, false, &mut budget)
        .unwrap();
    assert_ne!(searched, 1234);
    assert!(get_valid_moves(&b, 1).contains(&line[0]));
}

#[test]
fn searched_node_is_stored_with_its_bound_kind() {
    let mut ai = FiancoAI::new(1);
    let mut b = quiet_position();
    let mut key = ai.compute_hash_key(&b);
    ai.hash_history.push(key);
    let mut budget = SearchBudget::start(3600);
    let (score, pv) = ai
        .negamax(&mut b, 2, 1, MIN_SCORE, MAX_SCORE, &mut key, true, &mut budget)
        .unwrap();
    let e = ai.tt.probe(key).unwrap();
    assert_eq!(e.eval, score);
    assert_eq!(e.depth, 2);
    assert_eq!(e.best_move, Some(pv[0]));
    assert_eq!(e.flag, TTFlag::Exact);
    assert_eq!(ai.root_move_scores.get(pv[0]), score);
}

#[test]
fn pruning_does_not_change_the_score() {
    let positions = [
        quiet_position(),
        place(&[(1, 1, 1), (2, 5, 1), (6, 3, -1), (7, 7, -1)]),
        place(&[(3, 3, 1), (3, 5, 1), (5, 4, -1), (5, 6, -1), (4, 0, 1), (6, 0, -1)]),
    ];
    for start in positions.iter() {
        for side in [1i8, -1i8] {
            for depth in 1..4 {
                let mut ai = FiancoAI::new(1);
                let mut b = *start;
                let mut key = ai.compute_hash_key(&b);
                ai.hash_history.push(key);
                let mut budget = SearchBudget::start(3600);
                let (score, _) = ai
                    .negamax(&mut b, depth, side, MIN_SCORE, MAX_SCORE, &mut key, true, &mut budget)
                    .unwrap();
                let mut copy = *start;
                assert_eq!(score, exhaustive(&mut copy, depth, side));
            }
        }
    }
}

#[test]
fn open_lane_is_reported_and_kept() {
    let mut ai = FiancoAI::new(-1);
    let b = place(&[(3, 4, -1), (0, 0, 1), (8, 3, -1)]);
    assert_eq!(evaluate_board(&b, -1), (2 * (9 - 3) + 1) * WIN_BY_TRIANGLE);
    let (score, pv) = ai.get_best_move(&b, -1, 2, 60).unwrap();
    assert!(score >= WIN_BY_TRIANGLE);
    let (fr, fc, tr, tc) = pv[0];
    let mut after = b;
    after.set(fr, fc, 0);
    after.set(tr, tc, -1);
    assert!(evaluate_board(&after, 1) >= WIN_BY_TRIANGLE);
}

#[test]
fn exhausted_budget_aborts_the_node() {
    let mut ai = FiancoAI::new(1);
    let mut b = quiet_position();
    let mut key = ai.compute_hash_key(&b);
    let mut none = SearchBudget::start(0);
    assert!(none.time_exceeded());
    assert!(!none.spent);
    assert!(ai.negamax(&mut b, 2, 1, MIN_SCORE, MAX_SCORE, &mut key, true, &mut none).is_err());
    assert!(none.spent);
    assert!(none.exhausted());
    assert_eq!(ai.get_tt_size(), 0);
}

#[test]
fn spent_budget_aborts_without_a_look_at_the_clock() {
    let mut ai = FiancoAI::new(1);
    let mut b = quiet_position();
    let mut key = ai.compute_hash_key(&b);
    let mut budget = SearchBudget::start(3600);
    budget.spent = true;
    assert!(!budget.time_exceeded());
    assert!(budget.exhausted());
    assert!(ai.negamax(&mut b, 2, 1, MIN_SCORE, MAX_SCORE, &mut key, true, &mut budget).is_err());
    assert_eq!(budget.max_seconds, 3600);
    assert_eq!(ai.get_tt_size(), 0);
}

#[test]
fn completed_search_leaves_the_budget_unspent() {
    let mut ai = FiancoAI::new(1);
    let mut b = quiet_position();
    let mut key = ai.compute_hash_key(&b);
    ai.hash_history.push(key);
    let mut budget = SearchBudget::start(3600);
    assert!(ai.negamax(&mut b, 2, 1, MIN_SCORE, MAX_SCORE, &mut key, true, &mut budget).is_ok());
    assert!(!budget.spent);
    assert!(!budget.exhausted());
    assert!(!budget.spent);
}

#[test]
fn flag_and_clock_are_read_as_they_are() {
    assert!(flag_asks_to_stop(Some(true)));
    assert!(!flag_asks_to_stop(Some(false)));
    assert!(!flag_asks_to_stop(None));
    assert!(time_is_up(0, 0));
    assert!(time_is_up(5, 5));
    assert!(time_is_up(6, 5));
    assert!(!time_is_up(4, 5));
    assert!(!time_is_up(0, 1));
}

#[test]
fn raised_flag_cancels_a_background_search() {
    let flag = Arc::new(AtomicBool::new(false));
    let mut budget = SearchBudget::start_cancellable(3600, flag.clone());
    assert!(!budget.cancelled());
    assert!(!budget.exhausted());
    assert!(!budget.spent);
    flag.store(true, Ordering::Relaxed);
    assert!(budget.cancelled());
    assert!(budget.exhausted());
    assert!(budget.spent);
    assert!(!budget.time_exceeded());
    // a spent budget stays spent, whatever the flag says afterwards
    flag.store(false, Ordering::Relaxed);
    assert!(!budget.cancelled());
    assert!(budget.exhausted());
    let mut plain = SearchBudget::start(3600);
    assert!(!plain.cancelled());
    assert!(!plain.exhausted());
    assert!(!plain.spent);
}

#[test]
fn pondering_fills_the_table_and_nothing_else() {
    let mut ai = FiancoAI::new(1);
    let b = quiet_position();
    ai.hash_history = vec![11, 22];
    ai.current_hash_key = 33;
    ai.root_move_scores.record((1, 1, 2, 1), 9);
    let flag = Arc::new(AtomicBool::new(false));
    let mut budget = SearchBudget::start_cancellable(60, flag);
    let report = ai.ponder(&b, -1, 2, &mut budget);
    assert_eq!(report, PonderReport { completed: 2, interrupted: false });
    assert!(!budget.spent);
    assert!(ai.get_tt_size() > 0);
    assert_eq!(ai.hash_history, vec![11, 22]);
    assert_eq!(ai.current_hash_key, 33);
    assert_eq!(ai.root_move_scores.get((1, 1, 2, 1)), 9);
    assert_eq!(ai.root_move_scores.scores.len(), 1);
}

#[test]
fn pondering_leaves_what_its_iterations_leave() {
    // the background search of a fresh engine stores what the same
    // iterations store when they are run one by one on an empty path
    let b = quiet_position();
    let mut background = FiancoAI::new(1);
    let mut budget = SearchBudget::start(3600);
    let report = background.ponder(&b, 1, 3, &mut budget);
    assert_eq!(report.completed, 3);
    let mut by_hand = FiancoAI::new(1);
    let mut board = b;
    let mut key = by_hand.compute_hash_key(&board);
    let mut clock = SearchBudget::start(3600);
    for depth in 1..4 {
        let done = by_hand.negamax(
            &mut board, depth, 1, MIN_SCORE, MAX_SCORE, &mut key, true, &mut clock,
        );
        assert!(done.is_ok());
    }
    assert_eq!(background.get_tt_size(), by_hand.get_tt_size());
    let root = background.tt.probe(key).unwrap();
    let same = by_hand.tt.probe(key).unwrap();
    assert_eq!((root.eval, root.depth, root.best_move), (same.eval, same.depth, same.best_move));
    assert_eq!(root.depth, 3);
}

#[test]
fn cancelled_pondering_leaves_the_table_alone() {
    let mut ai = FiancoAI::new(1);
    let b = quiet_position();
    let idle = PonderReport { completed: 0, interrupted: false };
    let mut raised = SearchBudget::start_cancellable(60, Arc::new(AtomicBool::new(true)));
    assert_eq!(ai.ponder(&b, -1, 4, &mut raised), idle);
    assert!(raised.spent);
    assert_eq!(ai.get_tt_size(), 0);
    let mut no_time = SearchBudget::start_cancellable(0, Arc::new(AtomicBool::new(false)));
    assert_eq!(ai.ponder(&b, -1, 4, &mut no_time), idle);
    assert!(no_time.spent);
    assert_eq!(ai.get_tt_size(), 0);
    let mut no_depth = SearchBudget::start_cancellable(60, Arc::new(AtomicBool::new(false)));
    assert_eq!(ai.ponder(&b, -1, 0, &mut no_depth), idle);
    assert!(!no_depth.spent);
    assert_eq!(ai.get_tt_size(), 0);
}

#[test]
fn scores_are_told_apart() {
    assert!(is_loss_score(1, 50_000));
    assert!(!is_loss_score(1, 49_999));
    assert!(is_loss_score(-1, -50_000));
    assert!(!is_loss_score(-1, 50_000));
    assert!(is_win_score(1, -1_000_000));
    assert!(!is_win_score(1, 1_000_000));
    assert!(is_win_score(-1, 1_000_000));
    assert!(!is_win_score(-1, 999_999));
}

#[test]
fn deepest_result_is_reported_by_default() {
    let rs = vec![result(1, 5, vec![(1, 1, 2, 1)]), result(2, -8, vec![(1, 1, 1, 0)])];
    assert_eq!(choose_principal_variation(&rs, 1), 1);
    assert_eq!(choose_principal_variation(&rs, -1), 1);
    let one = vec![result(1, 5, vec![(1, 1, 2, 1)])];
    assert_eq!(choose_principal_variation(&one, 1), 0);
}

#[test]
fn loss_in_sight_falls_back_to_the_last_safe_result() {
    // black is the mover: scores of 50000 and more show it losing
    let rs = vec![
        result(1, 10, vec![(1, 1, 2, 1)]),
        result(2, 20, vec![(1, 1, 1, 0)]),
        result(3, 650_000, vec![(1, 1, 1, 2)]),
        result(4, 700_000, vec![(3, 3, 4, 3)]),
    ];
    assert_eq!(choose_principal_variation(&rs, 1), 1);
    let mixed = vec![
        result(1, 10, vec![(1, 1, 2, 1)]),
        result(2, 650_000, vec![(1, 1, 1, 0)]),
        result(3, 20, vec![(1, 1, 1, 2)]),
        result(4, 700_000, vec![(3, 3, 4, 3)]),
    ];
    assert_eq!(choose_principal_variation(&mixed, 1), 2);
}

#[test]
fn loss_at_every_depth_keeps_the_deepest_result() {
    let rs = vec![result(1, -60_000, vec![(1, 1, 2, 1)]), result(2, -700_000, vec![(1, 1, 1, 0)])];
    assert_eq!(choose_principal_variation(&rs, -1), 1);
}

#[test]
fn loss_in_sight_comes_before_a_win() {
    let rs = vec![
        result(1, -1_000_000, vec![(1, 1, 2, 1)]),
        result(2, 60_000, vec![(1, 1, 1, 0)]),
        result(3, -1_000_000, vec![(1, 1, 1, 2)]),
    ];
    assert_eq!(choose_principal_variation(&rs, 1), 2);
}

#[test]
fn confirmed_win_reports_the_first_depth_of_the_run() {
    // white is the mover: 1000000 is its outright win
    let rs = vec![
        result(1, 10, vec![(5, 5, 4, 5)]),
        result(2, 1_000_000, vec![(5, 5, 5, 4)]),
        result(3, 1_000_000, vec![(5, 5, 5, 6)]),
        result(4, 1_000_000, vec![(6, 6, 5, 6)]),
    ];
    assert_eq!(choose_principal_variation(&rs, -1), 1);
}

#[test]
fn win_at_every_depth_reports_the_shallowest() {
    let rs = vec![
        result(1, -1_000_000, vec![(1, 1, 2, 1)]),
        result(2, -1_000_000, vec![(1, 1, 1, 0)]),
    ];
    assert_eq!(choose_principal_variation(&rs, 1), 0);
}

#[test]
fn contradicted_win_keeps_the_deepest_result() {
    let rs = vec![
        result(1, 1_000_000, vec![(5, 5, 4, 5)]),
        result(2, 1_000_000, vec![(5, 5, 5, 4)]),
        result(3, 40, vec![(5, 5, 5, 6)]),
    ];
    assert_eq!(choose_principal_variation(&rs, -1), 2);
}

#[test]
fn win_without_a_line_gives_way_to_the_result_before_it() {
    let rs = vec![
        result(1, 10, vec![(5, 5, 4, 5)]),
        result(2, 1_000_000, vec![]),
        result(3, 1_000_000, vec![(5, 5, 5, 6)]),
    ];
    assert_eq!(choose_principal_variation(&rs, -1), 0);
}

#[test]
fn line_is_copied_move_for_move() {
    let line: Vec<Move> = vec![(1, 1, 2, 1), (7, 7, 6, 7), (2, 1, 3, 1)];
    assert_eq!(copy_line(&line), line);
    assert!(copy_line(&Vec::new()).is_empty());
}

#[test]
fn reply_position_is_the_position_after_the_first_move() {
    let mut ai = FiancoAI::new(1);
    let b = quiet_position();
    let (_, pv) = ai.get_best_move(&b, 1, 2, 60).unwrap();
    let root_key = ai.current_hash_key;
    let next = ai.reply_position(&b, 1, &pv).unwrap();
    let (fr, fc, tr, tc) = pv[0];
    assert_eq!(next.get(fr, fc), 0);
    assert_eq!(next.get(tr, tc), 1);
    assert_eq!(ai.hash_history, vec![root_key, ai.compute_hash_key(&next)]);
    assert_eq!(ai.current_hash_key, root_key);
}

#[test]
fn no_reply_position_without_a_search() {
    let mut ai = FiancoAI::new(1);
    let forced = place(&[(3, 4, 1), (4, 5, -1), (0, 0, 1), (8, 8, -1)]);
    let (_, pv) = ai.get_best_move(&forced, 1, 2, 60).unwrap();
    assert!(ai.reply_position(&forced, 1, &pv).is_none());
    assert!(ai.hash_history.is_empty());
    let b = quiet_position();
    assert!(ai.reply_position(&b, 1, &Vec::new()).is_none());
    assert!(ai.reply_position(&b, 1, &vec![(9, 0, 10, 0)]).is_none());
    assert!(ai.hash_history.is_empty());
}

#[test]
fn deeper_iterations_start_with_the_best_root_move() {
    let mut ai = FiancoAI::new(1);
    let mut b = quiet_position();
    let mut key = ai.compute_hash_key(&b);
    ai.hash_history.push(key);
    let mut budget = SearchBudget::start(3600);
    let (first_score, first) = ai
        .negamax(&mut b, 1, 1, MIN_SCORE, MAX_SCORE, &mut key, true, &mut budget)
        .unwrap();
    assert_eq!(ai.root_move_scores.get(first[0]), first_score);
    let (second_score, second) = ai
        .negamax(&mut b, 2, 1, MIN_SCORE, MAX_SCORE, &mut key, true, &mut budget)
        .unwrap();
    assert_eq!(ai.root_move_scores.get(second[0]), second_score);
    let mut copy = quiet_position();
    assert_eq!(second_score, exhaustive(&mut copy, 2, 1));
}

#[test]
fn search_reports_the_score_from_whites_side() {
    let b = quiet_position();
    let mut black = FiancoAI::new(1);
    let (score, _) = black.get_best_move(&b, 1, 2, 60).unwrap();
    let mut copy = b;
    assert_eq!(score, -exhaustive(&mut copy, 2, 1));
    let mut white = FiancoAI::new(-1);
    let (score, _) = white.get_best_move(&b, -1, 2, 60).unwrap();
    assert_eq!(score, exhaustive(&mut copy, 2, -1));
}
