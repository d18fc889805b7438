use std::time::Duration;

use sanqi::board::{Color, Move, Square};
use sanqi::eval::{evaluate, WIN_SCORE};
use sanqi::position::Position;
use sanqi::search::{
    analyze_iterative, best_move, best_move_iterative, best_move_with_table, capture_moves,
    ordered_moves, quiescence, SearchStats, MAX_QUIESCENCE_MOVES,
};
use sanqi::table::{position_key, Bound, TableEntry, TranspositionTable};

#[test]
fn engine_finds_a_legal_move() {
    let position = Position::initial();
    let result = best_move(&position, 1).expect("move");
    assert!(position.legal_moves().contains(&result.best_move));
    assert_eq!(
        result.principal_variation.first().copied(),
        Some(result.best_move)
    );
}

#[test]
fn evaluation_prefers_extra_material() {
    let mut position = Position::empty(Color::White);
    position.set_piece(Color::White, Square::from_coords(0, 0).expect("square"));
    position.set_piece(Color::White, Square::from_coords(1, 0).expect("square"));
    position.set_piece(Color::White, Square::from_coords(2, 0).expect("square"));
    position.set_piece(Color::Black, Square::from_coords(7, 7).expect("square"));
    position.set_piece(Color::Black, Square::from_coords(6, 7).expect("square"));
    assert!(evaluate(&position) > 0);
}

#[test]
fn evaluation_prefers_capture_pressure() {
    let mut attacking = Position::empty(Color::White);
    attacking.set_piece(Color::White, Square::from_coords(0, 0).expect("square"));
    attacking.set_piece(Color::White, Square::from_coords(0, 1).expect("square"));
    attacking.set_piece(Color::White, Square::from_coords(1, 1).expect("square"));
    attacking.set_piece(Color::Black, Square::from_coords(1, 2).expect("square"));
    attacking.set_piece(Color::Black, Square::from_coords(7, 7).expect("square"));

    let mut quiet = Position::empty(Color::White);
    quiet.set_piece(Color::White, Square::from_coords(0, 0).expect("square"));
    quiet.set_piece(Color::White, Square::from_coords(0, 1).expect("square"));
    quiet.set_piece(Color::White, Square::from_coords(1, 1).expect("square"));
    quiet.set_piece(Color::Black, Square::from_coords(7, 7).expect("square"));
    quiet.set_piece(Color::Black, Square::from_coords(6, 7).expect("square"));

    assert!(evaluate(&attacking) > evaluate(&quiet));
}

#[test]
fn evaluation_prefers_centralized_pieces() {
    let mut centered = Position::empty(Color::White);
    centered.set_piece(Color::White, Square::from_coords(3, 3).expect("square"));
    centered.set_piece(Color::White, Square::from_coords(3, 4).expect("square"));
    centered.set_piece(Color::White, Square::from_coords(4, 3).expect("square"));
    centered.set_piece(Color::Black, Square::from_coords(7, 7).expect("square"));
    centered.set_piece(Color::Black, Square::from_coords(7, 6).expect("square"));
    centered.set_piece(Color::Black, Square::from_coords(6, 7).expect("square"));

    let mut rim = Position::empty(Color::White);
    rim.set_piece(Color::White, Square::from_coords(0, 0).expect("square"));
    rim.set_piece(Color::White, Square::from_coords(0, 1).expect("square"));
    rim.set_piece(Color::White, Square::from_coords(1, 0).expect("square"));
    rim.set_piece(Color::Black, Square::from_coords(7, 7).expect("square"));
    rim.set_piece(Color::Black, Square::from_coords(7, 6).expect("square"));
    rim.set_piece(Color::Black, Square::from_coords(6, 7).expect("square"));

    assert!(evaluate(&centered) > evaluate(&rim));
}

#[test]
fn identical_positions_have_identical_keys() {
    let left = Position::initial();
    let right = Position::initial();
    assert_eq!(position_key(&left), position_key(&right));
}

#[test]
fn different_side_to_move_changes_key() {
    let left = Position::initial();
    let mut right = Position::initial();
    right.set_side_to_move(Color::Black);
    assert_ne!(position_key(&left), position_key(&right));
}

#[test]
fn different_piece_placement_changes_key() {
    let left = Position::initial();
    let mut right = Position::initial();
    right.clear_square("a1".parse().expect("square"));
    right.set_piece(Color::White, "a3".parse().expect("square"));
    assert_ne!(position_key(&left), position_key(&right));
}

#[test]
fn position_key_is_stable_through_apply_and_undo() {
    let mut position = Position::initial();
    let original = position_key(&position);
    let mv: Move = "a1-b3".parse().expect("move");
    let undo = position.apply_move(mv).expect("apply");
    assert_ne!(position_key(&position), original);
    position.undo_move(mv, undo).expect("undo");
    assert_eq!(position_key(&position), original);
}

#[test]
fn transposition_table_stores_root_result() {
    let position = Position::initial();
    let mut table = TranspositionTable::default();
    let mut stats = SearchStats::default();
    let result = best_move_with_table(&position, 2, &mut table, None, &mut stats).expect("move");
    let entry = table.get(&position).expect("table entry");
    assert_eq!(entry.depth, 2);
    assert_eq!(entry.best_move, Some(result.best_move));
}

#[test]
fn move_ordering_prefers_captures() {
    let mut position = Position::empty(Color::White);
    position.set_piece(Color::White, Square::from_coords(0, 0).expect("square"));
    position.set_piece(Color::White, Square::from_coords(0, 1).expect("square"));
    position.set_piece(Color::White, Square::from_coords(1, 1).expect("square"));
    position.set_piece(Color::Black, Square::from_coords(1, 2).expect("square"));
    position.set_piece(Color::Black, Square::from_coords(7, 7).expect("square"));
    position.set_side_to_move(Color::White);

    let mut stats = SearchStats::default();
    let moves = ordered_moves(&position, None, &mut stats);
    assert_eq!(moves.first().copied(), Some("a1-b3".parse().expect("move")));
}

#[test]
fn move_ordering_prefers_tt_move() {
    let position = Position::initial();
    let candidate: Move = "a1-b3".parse().expect("move");
    let mut stats = SearchStats::default();
    let moves = ordered_moves(&position, Some(candidate), &mut stats);
    assert_eq!(moves.first().copied(), Some(candidate));
}

#[test]
fn iterative_search_returns_legal_move() {
    let position = Position::initial();
    let result = best_move_iterative(&position, 3, Duration::from_millis(50)).expect("move");
    assert!(position.legal_moves().contains(&result.best_move));
    assert!(result.depth >= 1);
    if let Some(first) = result.principal_variation.first().copied() {
        assert_eq!(first, result.best_move);
    }
}

#[test]
fn analysis_reports_root_move_count_and_nodes() {
    let position = Position::initial();
    let analysis = analyze_iterative(&position, 2, Duration::from_millis(20));
    assert_eq!(
        analysis.stats.root_legal_moves,
        position.legal_moves().len()
    );
    assert!(analysis.stats.nodes > 0 || analysis.stats.timed_out);
    assert!(analysis.stats.legal_move_generations > 0);
    assert!(analysis.stats.evaluation_calls > 0 || analysis.stats.timed_out);
}

#[test]
fn iterative_analysis_returns_fallback_move_on_immediate_timeout() {
    let position = Position::initial();
    let analysis = analyze_iterative(&position, 4, Duration::from_millis(0));
    assert!(analysis.best.is_some());
    let best = analysis.best.expect("fallback");
    assert!(position.legal_moves().contains(&best.best_move));
}

#[test]
fn partial_root_progress_is_preserved_on_timeout() {
    let position = Position::initial();
    let analysis = analyze_iterative(&position, 1, Duration::from_millis(1));
    assert!(analysis.best.is_some());
    assert!(
        analysis.stats.completed_root_moves_current_depth <= analysis.stats.root_legal_moves
    );
    assert!(
        analysis.stats.completed_root_moves_total
            >= analysis.stats.completed_root_moves_current_depth
    );
}

#[test]
fn quiescence_depth_is_bounded() {
    let mut position = Position::empty(Color::White);
    position.set_piece(Color::White, Square::from_coords(0, 0).expect("square"));
    position.set_piece(Color::White, Square::from_coords(0, 1).expect("square"));
    position.set_piece(Color::White, Square::from_coords(1, 1).expect("square"));
    position.set_piece(Color::Black, Square::from_coords(1, 2).expect("square"));
    position.set_piece(Color::Black, Square::from_coords(1, 4).expect("square"));
    position.set_piece(Color::Black, Square::from_coords(0, 4).expect("square"));

    let mut stats = SearchStats::default();
    let mut table = TranspositionTable::default();
    let _ = quiescence(
        &position,
        -WIN_SCORE - 1,
        WIN_SCORE + 1,
        0,
        &mut table,
        None,
        &mut stats,
    )
    .expect("quiescence");
    assert!(stats.quiescence_nodes > 0);
    assert!(stats.quiescence_nodes < 10_000);
}

#[test]
fn quiescence_move_count_is_bounded() {
    let mut position = Position::empty(Color::White);
    position.set_piece(Color::White, Square::from_coords(3, 3).expect("square"));
    position.set_piece(Color::White, Square::from_coords(2, 2).expect("square"));
    position.set_piece(Color::White, Square::from_coords(4, 2).expect("square"));
    position.set_piece(Color::White, Square::from_coords(2, 4).expect("square"));
    position.set_piece(Color::White, Square::from_coords(4, 4).expect("square"));
    position.set_piece(Color::Black, Square::from_coords(1, 1).expect("square"));
    position.set_piece(Color::Black, Square::from_coords(5, 1).expect("square"));
    position.set_piece(Color::Black, Square::from_coords(1, 5).expect("square"));
    position.set_piece(Color::Black, Square::from_coords(5, 5).expect("square"));
    position.set_piece(Color::Black, Square::from_coords(3, 1).expect("square"));

    let mut stats = SearchStats::default();
    assert!(capture_moves(&position, None, &mut stats).len() <= MAX_QUIESCENCE_MOVES);
}

#[test]
fn tt_keeps_deeper_entry_for_same_key() {
    let position = Position::initial();
    let mut table = TranspositionTable::new(1);
    table.insert(
        &position,
        TableEntry {
            key: 0,
            depth: 4,
            score: 10,
            bound: Bound::Exact,
            best_move: None,
        },
    );
    table.insert(
        &position,
        TableEntry {
            key: 0,
            depth: 2,
            score: 99,
            bound: Bound::Exact,
            best_move: None,
        },
    );

    let entry = table.get(&position).expect("entry");
    assert_eq!(entry.depth, 4);
    assert_eq!(entry.score, 10);
}

#[test]
fn tt_bucket_can_hold_multiple_colliding_positions() {
    let first = Position::initial();
    let mut second = Position::initial();
    second.clear_square("a1".parse().expect("square"));
    second.set_piece(Color::White, "a3".parse().expect("square"));

    let mut table = TranspositionTable::new(1);
    table.insert(
        &first,
        TableEntry {
            key: 0,
            depth: 3,
            score: 11,
            bound: Bound::Exact,
            best_move: None,
        },
    );
    table.insert(
        &second,
        TableEntry {
            key: 0,
            depth: 2,
            score: 22,
            bound: Bound::Exact,
            best_move: None,
        },
    );

    assert_eq!(table.get(&first).expect("first").score, 11);
    assert_eq!(table.get(&second).expect("second").score, 22);
}

#[test]
fn quiescence_search_follows_capture_sequence() {
    let mut position = Position::empty(Color::White);
    position.set_piece(Color::White, Square::from_coords(0, 0).expect("square"));
    position.set_piece(Color::White, Square::from_coords(0, 1).expect("square"));
    position.set_piece(Color::White, Square::from_coords(1, 1).expect("square"));
    position.set_piece(Color::Black, Square::from_coords(1, 2).expect("square"));
    position.set_piece(Color::Black, Square::from_coords(1, 4).expect("square"));
    position.set_piece(Color::Black, Square::from_coords(0, 4).expect("square"));

    let static_eval = evaluate(&position);
    let mut stats = SearchStats::default();
    let mut table = TranspositionTable::default();
    let quiet_eval = quiescence(
        &position,
        -WIN_SCORE - 1,
        WIN_SCORE + 1,
        0,
        &mut table,
        None,
        &mut stats,
    )
    .expect("quiescence");
    assert!(quiet_eval != static_eval);
}
