use fianco_brain::board::Move;
use fianco_brain::ordering::{order_root_moves, promote_hint, same_move, RootMoveScores};
use fianco_brain::pondering::{PonderAction, PonderingController};
use fianco_brain::table::{TTEntry, TTFlag, TranspositionTable, MAX_TT_SIZE};

fn entry(eval: i32, depth: i32, flag: TTFlag) -> TTEntry {
    TTEntry { best_move: Some((1, 2, 2, 2)), eval, depth, flag }
}

#[test]
fn new_table_is_empty() {
    let t = TranspositionTable::new();
    assert_eq!(t.len(), 0);
    assert_eq!(t.ceiling, MAX_TT_SIZE);
    assert_eq!(t.ceiling, 30_000_000);
    assert!(t.probe(17).is_none());
}

#[test]
fn stored_entry_is_found_again() {
    let mut t = TranspositionTable::new();
    t.store(17, entry(42, 3, TTFlag::Exact));
    assert_eq!(t.len(), 1);
    let e = t.probe(17).unwrap();
    assert_eq!(e.eval, 42);
    assert_eq!(e.depth, 3);
    assert_eq!(e.flag, TTFlag::Exact);
    assert_eq!(e.best_move, Some((1, 2, 2, 2)));
    assert!(t.probe(18).is_none());
}

#[test]
fn deeper_or_equal_search_replaces_the_entry() {
    let mut t = TranspositionTable::new();
    t.store(17, entry(42, 3, TTFlag::Exact));
    t.store(17, entry(-7, 3, TTFlag::LowerBound));
    assert_eq!(t.probe(17).unwrap().eval, -7);
    t.store(17, entry(99, 5, TTFlag::UpperBound));
    assert_eq!(t.probe(17).unwrap().eval, 99);
    assert_eq!(t.probe(17).unwrap().flag, TTFlag::UpperBound);
    assert_eq!(t.len(), 1);
}

#[test]
fn shallower_search_does_not_replace_the_entry() {
    let mut t = TranspositionTable::new();
    t.store(17, entry(42, 5, TTFlag::Exact));
    t.store(17, entry(-7, 4, TTFlag::Exact));
    assert_eq!(t.probe(17).unwrap().eval, 42);
    assert_eq!(t.probe(17).unwrap().depth, 5);
}

#[test]
fn full_table_is_emptied_as_a_whole() {
    let mut t = TranspositionTable::with_ceiling(3);
    t.store(1, entry(1, 1, TTFlag::Exact));
    t.store(2, entry(2, 1, TTFlag::Exact));
    assert!(!t.clear_if_full());
    assert_eq!(t.len(), 2);
    t.store(3, entry(3, 1, TTFlag::Exact));
    assert!(t.clear_if_full());
    assert_eq!(t.len(), 0);
    assert!(t.probe(1).is_none());
    assert_eq!(t.ceiling, 3);
}

#[test]
fn moves_compare_by_all_four_coordinates() {
    assert!(same_move((1, 2, 3, 4), (1, 2, 3, 4)));
    assert!(!same_move((1, 2, 3, 4), (0, 2, 3, 4)));
    assert!(!same_move((1, 2, 3, 4), (1, 0, 3, 4)));
    assert!(!same_move((1, 2, 3, 4), (1, 2, 0, 4)));
    assert!(!same_move((1, 2, 3, 4), (1, 2, 3, 0)));
}

#[test]
fn unknown_move_has_score_zero() {
    let s = RootMoveScores::new();
    assert_eq!(s.get((1, 2, 2, 2)), 0);
}

#[test]
fn recorded_score_is_read_back() {
    let mut s = RootMoveScores::new();
    s.record((1, 2, 2, 2), -15);
    s.record((1, 2, 1, 3), 8);
    assert_eq!(s.get((1, 2, 2, 2)), -15);
    assert_eq!(s.get((1, 2, 1, 3)), 8);
    assert_eq!(s.get((2, 2, 1, 3)), 0);
    s.record((1, 2, 2, 2), 4);
    assert_eq!(s.get((1, 2, 2, 2)), 4);
    s.clear();
    assert_eq!(s.get((1, 2, 2, 2)), 0);
}

#[test]
fn root_moves_without_scores_keep_their_order() {
    let s = RootMoveScores::new();
    let moves: Vec<Move> = vec![(1, 1, 2, 1), (1, 1, 1, 0), (1, 1, 1, 2), (3, 3, 4, 3)];
    assert_eq!(order_root_moves(&moves, &s), moves);
}

#[test]
fn root_moves_are_ordered_best_first() {
    let mut s = RootMoveScores::new();
    let moves: Vec<Move> = vec![(1, 1, 2, 1), (1, 1, 1, 0), (1, 1, 1, 2), (3, 3, 4, 3)];
    s.record((1, 1, 1, 2), 50);
    s.record((1, 1, 2, 1), -20);
    s.record((3, 3, 4, 3), 50);
    assert_eq!(
        order_root_moves(&moves, &s),
        vec![(1, 1, 1, 2), (3, 3, 4, 3), (1, 1, 1, 0), (1, 1, 2, 1)]
    );
}

#[test]
fn ordering_an_empty_list_gives_an_empty_list() {
    let s = RootMoveScores::new();
    let moves: Vec<Move> = Vec::new();
    assert!(order_root_moves(&moves, &s).is_empty());
}

#[test]
fn hint_is_exchanged_with_the_first_move() {
    let mut moves: Vec<Move> = vec![(1, 1, 2, 1), (1, 1, 1, 0), (1, 1, 1, 2), (3, 3, 4, 3)];
    promote_hint(&mut moves, (1, 1, 1, 2));
    assert_eq!(moves, vec![(1, 1, 1, 2), (1, 1, 1, 0), (1, 1, 2, 1), (3, 3, 4, 3)]);
}

#[test]
fn hint_that_is_no_legal_move_changes_nothing() {
    let mut moves: Vec<Move> = vec![(1, 1, 2, 1), (1, 1, 1, 0)];
    promote_hint(&mut moves, (5, 5, 6, 5));
    assert_eq!(moves, vec![(1, 1, 2, 1), (1, 1, 1, 0)]);
    let mut none: Vec<Move> = Vec::new();
    promote_hint(&mut none, (5, 5, 6, 5));
    assert!(none.is_empty());
}

#[test]
fn hint_already_in_front_changes_nothing() {
    let mut moves: Vec<Move> = vec![(1, 1, 2, 1), (1, 1, 1, 0)];
    promote_hint(&mut moves, (1, 1, 2, 1));
    assert_eq!(moves, vec![(1, 1, 2, 1), (1, 1, 1, 0)]);
}

#[test]
fn pondering_starts_once() {
    let mut c = PonderingController::new();
    assert!(!c.active);
    assert_eq!(c.start_pondering(), PonderAction::Launch);
    assert!(c.active);
    assert_eq!(c.start_pondering(), PonderAction::Nothing);
    assert!(c.active);
}

#[test]
fn pondering_stops_by_signal_and_join() {
    let mut c = PonderingController::new();
    assert_eq!(c.stop_pondering(), PonderAction::Nothing);
    c.start_pondering();
    assert_eq!(c.stop_pondering(), PonderAction::SignalAndJoin);
    assert!(!c.active);
    assert_eq!(c.stop_pondering(), PonderAction::Nothing);
    assert_eq!(c.start_pondering(), PonderAction::Launch);
}
