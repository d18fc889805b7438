use sanqi::board::{Move, SupportPair};
use sanqi::position::Position;
use sanqi::render::{
    ascii_board, ascii_board_with_style, svg_board, svg_board_with_options, svg_for_move,
    RenderOptions, TextPieceStyle,
};

#[test]
fn ascii_board_contains_coordinates() {
    let board = ascii_board(&Position::initial());
    assert!(board.starts_with("  a b c d e f g h\n"));
    assert!(board.contains("8 ○ ○ ○"));
    assert!(board.contains("8\n"));
    assert!(board.ends_with("  a b c d e f g h\n"));
}

#[test]
fn ascii_board_can_use_letter_style() {
    let board = ascii_board_with_style(&Position::initial(), TextPieceStyle::Letters);
    assert!(board.contains("8 B B B"));
    assert!(board.contains("1 W W W"));
}

#[test]
fn svg_board_contains_svg_root() {
    let svg = svg_board(&Position::initial());
    assert!(svg.starts_with("<svg"));
    assert!(svg.contains("<circle"));
}

#[test]
fn svg_board_can_highlight_move_and_pivots() {
    let position = Position::initial();
    let highlight: Move = "a1-b3".parse().expect("move");
    let options = RenderOptions {
        highlight_move: Some(highlight),
        pivots: vec![SupportPair::new(
            "a2".parse().expect("square"),
            "b2".parse().expect("square"),
        )
        .pivot()],
    };

    let svg = svg_board_with_options(&position, &options);
    assert!(svg.contains("stroke=\"#d7263d\""));
    assert!(svg.contains("fill=\"#118ab2\""));
}

#[test]
fn svg_for_move_resolves_pivots_automatically() {
    let position = Position::initial();
    let svg = svg_for_move(&position, "a1-b3".parse().expect("move"));
    assert!(svg.contains("stroke=\"#d7263d\""));
    assert!(svg.contains("fill=\"#118ab2\""));
}
