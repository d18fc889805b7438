use sanqi::board::{Color, Move, Square, SupportPair};
use sanqi::position::{Outcome, Position};

#[test]
fn initial_position_has_expected_piece_counts() {
    let position = Position::initial();
    assert_eq!(position.piece_count(Color::White), 16);
    assert_eq!(position.piece_count(Color::Black), 16);
    assert_eq!(position.side_to_move(), Color::White);
    assert!(position.has_piece(Color::White, "a1".parse().expect("square")));
    assert!(position.has_piece(Color::White, "h2".parse().expect("square")));
    assert!(position.has_piece(Color::Black, "a7".parse().expect("square")));
    assert!(position.has_piece(Color::Black, "h8".parse().expect("square")));
}

#[test]
fn parses_move() {
    let mv: Move = "a1-b3".parse().expect("move");
    assert_eq!(mv.from, "a1".parse::<Square>().expect("square"));
    assert_eq!(mv.to, "b3".parse::<Square>().expect("square"));
    assert_eq!(mv.to_string(), "a1-b3");
}

#[test]
fn legal_move_is_generated_from_initial_position() {
    let position = Position::initial();
    let mv: Move = "a1-b3".parse().expect("move");
    let legal_moves = position.legal_moves();
    assert!(legal_moves.contains(&mv));
}

#[test]
fn applying_move_updates_board_and_side_to_move() {
    let mut position = Position::initial();
    let mv: Move = "a1-b3".parse().expect("move");
    let undo = position.apply_move(mv).expect("legal move");
    assert!(!position.has_piece(Color::White, "a1".parse().expect("square")));
    assert!(position.has_piece(Color::White, "b3".parse().expect("square")));
    assert_eq!(position.side_to_move(), Color::Black);
    position.undo_move(mv, undo).expect("undo");
    assert!(position.has_piece(Color::White, "a1".parse().expect("square")));
    assert_eq!(position.side_to_move(), Color::White);
}

#[test]
fn position_with_two_pieces_has_no_legal_moves() {
    let mut position = Position::empty(Color::White);
    position.set_piece(Color::White, "a1".parse().expect("square"));
    position.set_piece(Color::White, "b1".parse().expect("square"));
    position.set_piece(Color::Black, "h8".parse().expect("square"));
    assert!(position.legal_moves().is_empty());
    assert_eq!(position.outcome(), Some(Outcome::Winner(Color::Black)));
}

#[test]
fn multiple_support_pairs_collapse_to_single_move() {
    let mut position = Position::empty(Color::White);
    position.set_piece(Color::White, "b2".parse().expect("square"));
    position.set_piece(Color::White, "a1".parse().expect("square"));
    position.set_piece(Color::White, "c1".parse().expect("square"));
    position.set_piece(Color::White, "a3".parse().expect("square"));
    position.set_piece(Color::White, "c3".parse().expect("square"));

    let target: Move = "b2-b4".parse().expect("move");
    let matching = position
        .legal_moves()
        .into_iter()
        .filter(|mv| *mv == target)
        .count();
    assert_eq!(matching, 1);
}

#[test]
fn zobrist_key_is_restored_after_undo() {
    let mut position = Position::initial();
    let original_key = position.zobrist_key();
    let mv: Move = "a1-b3".parse().expect("move");
    let undo = position.apply_move(mv).expect("apply");
    assert_ne!(position.zobrist_key(), original_key);
    position.undo_move(mv, undo).expect("undo");
    assert_eq!(position.zobrist_key(), original_key);
}

#[test]
fn pivot_api_exposes_center_and_reflections() {
    let supports = SupportPair::new("a2".parse().expect("square"), "b2".parse().expect("square"));
    let pivot = supports.pivot();
    assert!(!pivot.is_square_center());
    assert_eq!(pivot.center_square(), None);
    assert_eq!(
        pivot.reflect("a1".parse().expect("square")),
        Some("b3".parse().expect("square"))
    );
}

#[test]
fn supporting_pivots_are_queryable_for_move() {
    let position = Position::initial();
    let mv: Move = "a1-b3".parse().expect("move");
    let pivots = position.supporting_pivots(Color::White, mv);
    assert!(!pivots.is_empty());
    assert!(pivots.iter().any(|entry| {
        entry.supports
            == SupportPair::new("a2".parse().expect("square"), "b2".parse().expect("square"))
    }));
}
