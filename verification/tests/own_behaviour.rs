use std::time::Duration;

use sanqi::board::{Color, Move, ParseMoveError, ParseSquareError, Pivot, Square, SupportPair};
use sanqi::eval::{evaluate, square_centrality, WIN_SCORE};
use sanqi::frontend::{color_name, parse_color, parse_piece_style, parse_side, position_from_moves};
use sanqi::game::{Game, GameError};
use sanqi::movetext::{format_movetext, parse_movetext};
use sanqi::position::{MoveError, Outcome, Position};
use sanqi::render::{
    ascii_board, ascii_board_with_style, svg_board_with_options, svg_for_move_for_color,
    RenderOptions, TextPieceStyle,
};
use sanqi::search::{
    analyze, analyze_fixed_depth, analyze_iterative, best_move, best_move_with_table, build_principal_variation,
    capture_moves, cheap_fallback, move_ordering_score, negamax, ordered_moves,
    quiescence_capture_delta, SearchStats, SCORE_BOUND,
};
use sanqi::table::{position_key, Bound, TableEntry, TranspositionTable, TT_BUCKETS};
use sanqi::zobrist::{compute_zobrist_key, splitmix64, SIDE_TO_MOVE_KEY};

fn sq(text: &str) -> Square {
    text.parse().expect("square")
}

fn mv(text: &str) -> Move {
    text.parse().expect("move")
}

#[test]
fn every_move_text_parses_back_to_the_move() {
    for from in 0..64u8 {
        for to in 0..64u8 {
            let m = Move::new(Square::new(from).unwrap(), Square::new(to).unwrap());
            assert_eq!(Move::parse(&m.to_string()), Ok(m));
        }
    }
}

#[test]
fn square_coordinates_round_trip_and_reject_bad_text() {
    for index in 0..64u8 {
        let square = Square::new(index).unwrap();
        assert_eq!(Square::parse(&square.to_coord()), Ok(square));
        assert_eq!(square.to_string(), square.to_coord());
    }
    assert_eq!(Square::parse("A1"), Ok(sq("a1")));
    assert_eq!(Square::parse("i1"), Err(ParseSquareError));
    assert_eq!(Square::parse("a9"), Err(ParseSquareError));
    assert_eq!(Square::parse("a10"), Err(ParseSquareError));
    assert_eq!(Square::new(64), None);
    assert_eq!(Square::from_coords(8, 0), None);
    assert_eq!(Square::from_coords(-1, 0), None);
    assert_eq!(sq("c5").file(), 2);
    assert_eq!(sq("c5").rank(), 4);
    assert_eq!(sq("c5").index(), 34);
}

#[test]
fn move_parse_errors_are_reported() {
    assert_eq!(Move::parse("h1"), Err(ParseMoveError::InvalidFormat));
    assert_eq!(Move::parse("h1-d3-e4"), Err(ParseMoveError::InvalidFormat));
    assert_eq!(
        Move::parse("h1d3"),
        Err(ParseMoveError::InvalidSquare(ParseSquareError))
    );
    assert_eq!(
        Move::parse("h1-"),
        Err(ParseMoveError::InvalidSquare(ParseSquareError))
    );
    assert_eq!(ParseMoveError::InvalidFormat.to_string(), "invalid move format");
    assert_eq!(
        ParseMoveError::InvalidSquare(ParseSquareError).to_string(),
        "invalid square in move"
    );
    assert_eq!(ParseSquareError.to_string(), "invalid square");
}

#[test]
fn move_errors_name_each_reason() {
    let position = Position::initial();
    assert_eq!(position.is_legal_move(mv("a7-a5")), Err(MoveError::WrongColorToMove));
    assert_eq!(position.is_legal_move(mv("a4-a5")), Err(MoveError::OriginMissing));
    assert_eq!(position.is_legal_move(mv("a1-a1")), Err(MoveError::NullMove));
    assert_eq!(
        position.is_legal_move(mv("a1-a2")),
        Err(MoveError::DestinationOccupiedByOwnPiece)
    );
    assert_eq!(position.is_legal_move(mv("a1-h6")), Err(MoveError::MissingPivot));
    assert_eq!(position.is_legal_move(mv("a1-b3")), Ok(()));
    assert_eq!(
        MoveError::WrongColorToMove.to_string(),
        "piece does not belong to player to move"
    );
    assert_eq!(MoveError::OriginMissing.to_string(), "origin square is empty");
    assert_eq!(MoveError::NullMove.to_string(), "start and destination must differ");
    assert_eq!(
        MoveError::DestinationOccupiedByOwnPiece.to_string(),
        "destination is occupied by a friendly piece"
    );
    assert_eq!(
        MoveError::MissingPivot.to_string(),
        "no supporting pivot exists for this move"
    );
}

#[test]
fn legal_moves_agree_with_the_legality_check() {
    let mut position = Position::initial();
    position.apply_move(mv("a1-b3")).expect("legal");
    let legal = position.legal_moves();
    for from in 0..64u8 {
        for to in 0..64u8 {
            let m = Move::new(Square::new(from).unwrap(), Square::new(to).unwrap());
            assert_eq!(legal.contains(&m), position.is_legal_move(m).is_ok());
        }
    }
}

#[test]
fn undo_restores_every_position_after_each_legal_move() {
    let mut start = Position::initial();
    start.apply_move(mv("a1-b3")).expect("legal");
    start.apply_move(mv("a8-b6")).expect("legal");
    for m in start.legal_moves() {
        let mut position = start.clone();
        let undo = position.apply_move(m).expect("legal");
        position.undo_move(m, undo).expect("undo");
        assert_eq!(position, start);
    }
}

#[test]
fn applying_a_capture_removes_the_enemy_piece() {
    let mut position = Position::empty(Color::White);
    position.set_piece(Color::White, sq("a1"));
    position.set_piece(Color::White, sq("a2"));
    position.set_piece(Color::White, sq("b2"));
    position.set_piece(Color::Black, sq("b3"));
    position.set_piece(Color::Black, sq("h8"));
    let undo = position.apply_move(mv("a1-b3")).expect("legal capture");
    assert_eq!(position.piece_at(sq("b3")), Some(Color::White));
    assert_eq!(position.piece_at(sq("a1")), None);
    assert_eq!(position.piece_count(Color::Black), 1);
    assert_eq!(position.side_to_move(), Color::Black);
    position.undo_move(mv("a1-b3"), undo).expect("undo");
    assert_eq!(position.piece_at(sq("b3")), Some(Color::Black));
    assert_eq!(position.piece_at(sq("a1")), Some(Color::White));
}

#[test]
fn key_after_a_move_is_the_key_of_the_new_position() {
    let mut played = Position::initial();
    played.apply_move(mv("a1-b3")).expect("legal");
    let mut rebuilt = Position::initial();
    rebuilt.clear_square(sq("a1"));
    rebuilt.set_piece(Color::White, sq("b3"));
    assert_ne!(played.zobrist_key(), rebuilt.zobrist_key());
    rebuilt.set_side_to_move(Color::Black);
    assert_eq!(played.zobrist_key(), rebuilt.zobrist_key());
    assert_eq!(
        played.zobrist_key(),
        compute_zobrist_key(played.occupancy_of(Color::White), played.occupancy_of(Color::Black), Color::Black)
    );
    assert!(played == rebuilt);

    let mut first = Position::empty(Color::Black);
    first.set_piece(Color::White, sq("c3"));
    first.set_piece(Color::Black, sq("f6"));
    let mut second = Position::empty(Color::Black);
    second.set_piece(Color::Black, sq("f6"));
    second.set_piece(Color::White, sq("c3"));
    assert_eq!(first.zobrist_key(), second.zobrist_key());
    assert_eq!(
        first.zobrist_key(),
        compute_zobrist_key(first.occupancy_of(Color::White), first.occupancy_of(Color::Black), Color::Black)
    );
}

#[test]
fn zobrist_values_are_fixed() {
    assert_eq!(splitmix64(0), 0xe220_a839_7b1d_cdaf);
    assert_eq!(splitmix64(1), 0x910a_2dec_8902_5cc1);
    assert_eq!(compute_zobrist_key(0, 0, Color::Black), 0);
    assert_eq!(compute_zobrist_key(0, 0, Color::White), SIDE_TO_MOVE_KEY);
    assert_eq!(Position::empty(Color::White).zobrist_key(), SIDE_TO_MOVE_KEY);
}

#[test]
fn occupancy_and_default_position() {
    let position = Position::default();
    assert_eq!(position, Position::initial());
    assert_eq!(position.occupancy_of(Color::White), 0xFFFF);
    assert_eq!(position.occupancy_of(Color::Black), 0xFFFF_0000_0000_0000);
    assert_eq!(position.occupancy(), 0xFFFF_0000_0000_FFFF);
    assert_eq!(position.squares_of(Color::White).len(), 16);
    assert_eq!(position.squares_of(Color::Black)[0], sq("a7"));
}

#[test]
fn outcome_names_the_winner() {
    let mut position = Position::empty(Color::Black);
    position.set_piece(Color::Black, sq("a1"));
    position.set_piece(Color::White, sq("h8"));
    assert_eq!(position.outcome(), Some(Outcome::Winner(Color::White)));
    assert_eq!(Position::initial().outcome(), None);
    assert_eq!(evaluate(&position), -WIN_SCORE);
    assert_eq!(best_move(&position, 2), None);
}

#[test]
fn pivots_reflect_and_pair_symmetrically() {
    let pair = SupportPair::new(sq("c3"), sq("a1"));
    assert_eq!(pair, SupportPair::new(sq("a1"), sq("c3")));
    assert_eq!(pair.a, sq("a1"));
    let pivot = pair.pivot();
    assert_eq!(pivot, Pivot::from_supports(pair));
    assert_eq!((pivot.file_twice(), pivot.rank_twice()), (2, 2));
    assert!(pivot.is_square_center());
    assert_eq!(pivot.center_square(), Some(sq("b2")));
    for index in 0..64u8 {
        let square = Square::new(index).unwrap();
        if let Some(image) = pivot.reflect(square) {
            assert_eq!(pivot.reflect(image), Some(square));
        }
    }
    assert_eq!(pivot.reflect(sq("h8")), None);
}

#[test]
fn pivot_queries_list_moves_and_pairs() {
    let position = Position::initial();
    let pivots = position.pivots();
    assert_eq!(pivots.len(), 120);
    assert_eq!(pivots.len(), position.pivots_for(Color::White).len());
    let pivot = SupportPair::new(sq("a2"), sq("b2")).pivot();
    let moves = position.moves_from_pivot(Color::White, pivot);
    assert!(moves.contains(&mv("a1-b3")));
    for m in moves {
        assert!(position.is_legal_move(m).is_ok());
    }
}

#[test]
fn game_records_moves_and_positions() {
    let mut game = Game::new();
    assert_eq!(game.current_position(), &Position::initial());
    game.play_str("a1-b3").expect("legal");
    assert_eq!(game.moves(), &[mv("a1-b3")]);
    assert_eq!(game.current_position().side_to_move(), Color::Black);
    assert_eq!(
        game.play_str("b3-b5"),
        Err(GameError::IllegalMove(MoveError::WrongColorToMove))
    );
    assert_eq!(
        game.play_str("a1-b3"),
        Err(GameError::IllegalMove(MoveError::OriginMissing))
    );
    assert_eq!(
        game.play_str("b3"),
        Err(GameError::Parse(ParseMoveError::InvalidFormat))
    );
    assert_eq!(game.moves().len(), 1);
    assert_eq!(game.play(mv("a8-b6")), Ok(()));
    assert_eq!(game.moves().len(), 2);
    assert_eq!(Game::default().current_position(), &Position::initial());
    let other = Game::from_position(Position::empty(Color::White));
    assert_eq!(other.current_position(), &Position::empty(Color::White));
    assert_eq!(
        GameError::IllegalMove(MoveError::NullMove).to_string(),
        "start and destination must differ"
    );
}

#[test]
fn movetext_formats_and_parses() {
    let moves = vec![mv("h1-d3"), mv("h8-d6"), mv("a1-d4")];
    let text = format_movetext(&moves);
    assert_eq!(text, "1. h1-d3 h8-d6 2. a1-d4");
    assert_eq!(parse_movetext(&text), Ok(moves.clone()));
    assert_eq!(parse_movetext("  1.\th1-d3\nh8-d6  2. a1-d4 "), Ok(moves));
    assert_eq!(format_movetext(&[]), "");
    assert_eq!(parse_movetext(""), Ok(Vec::new()));
    assert_eq!(
        parse_movetext("1. h1-d9"),
        Err(ParseMoveError::InvalidSquare(ParseSquareError))
    );
    assert_eq!(
        parse_movetext("1.h1-d3"),
        Err(ParseMoveError::InvalidSquare(ParseSquareError))
    );
    assert_eq!(parse_movetext("1. h1"), Err(ParseMoveError::InvalidFormat));
}

#[test]
fn movetext_round_trips_a_long_game() {
    let mut position = Position::initial();
    let mut moves = Vec::new();
    for _ in 0..25 {
        let Some(m) = position.legal_moves().first().copied() else {
            break;
        };
        position.apply_move(m).expect("legal");
        moves.push(m);
    }
    let text = format_movetext(&moves);
    assert!(text.contains("10. "));
    assert_eq!(parse_movetext(&text), Ok(moves));
}

#[test]
fn front_end_replays_and_reads_names() {
    let position = position_from_moves(vec!["a1-b3".to_string(), "a8-b6".to_string()])
        .expect("legal");
    assert_eq!(position.side_to_move(), Color::White);
    assert_eq!(
        position_from_moves(vec!["a1-b3".to_string(), "zz".to_string()]),
        Err("invalid move 'zz': invalid square in move".to_string())
    );
    assert_eq!(
        position_from_moves(vec!["a1-a1".to_string()]),
        Err("illegal move 'a1-a1': start and destination must differ".to_string())
    );
    assert_eq!(parse_side("White"), Ok(Color::White));
    assert_eq!(parse_side("B"), Ok(Color::Black));
    assert_eq!(
        parse_side("red"),
        Err("side must be 'white' or 'black'".to_string())
    );
    assert_eq!(parse_color("w"), Ok(Color::White));
    assert_eq!(
        parse_color("whit"),
        Err("color must be 'white' or 'black'".to_string())
    );
    assert_eq!(parse_piece_style(None), Ok(TextPieceStyle::Discs));
    assert_eq!(parse_piece_style(Some("ASCII")), Ok(TextPieceStyle::Letters));
    assert_eq!(parse_piece_style(Some("Circle")), Ok(TextPieceStyle::Discs));
    assert_eq!(
        parse_piece_style(Some("emoji")),
        Err("style must be 'discs' or 'letters'".to_string())
    );
    assert_eq!(color_name(Color::White), "white");
    assert_eq!(color_name(Color::Black), "black");
    assert_eq!(TextPieceStyle::default(), TextPieceStyle::Discs);
}

#[test]
fn ascii_board_is_exact() {
    let board = ascii_board_with_style(&Position::initial(), TextPieceStyle::Letters);
    let expected = [
        "  a b c d e f g h\n",
        "8 B B B B B B B B 8\n",
        "7 B B B B B B B B 7\n",
        "6 . . . . . . . . 6\n",
        "5 . . . . . . . . 5\n",
        "4 . . . . . . . . 4\n",
        "3 . . . . . . . . 3\n",
        "2 W W W W W W W W 2\n",
        "1 W W W W W W W W 1\n",
        "  a b c d e f g h\n",
    ]
    .concat();
    assert_eq!(board, expected);
    let discs = ascii_board(&Position::initial());
    assert!(discs.contains("1 \u{25CF} \u{25CF}"));
}

#[test]
fn svg_places_pieces_and_pivot_markers() {
    let options = RenderOptions {
        highlight_move: None,
        pivots: vec![SupportPair::new(sq("a2"), sq("b2")).pivot()],
    };
    let svg = svg_board_with_options(&Position::empty(Color::White), &options);
    assert!(svg.starts_with(
        "<svg xmlns=\"http://www.w3.org/2000/svg\" viewBox=\"0 0 512 512\" width=\"512\" height=\"512\">"
    ));
    assert!(svg.contains("<circle cx=\"64.0\" cy=\"416.0\" r=\"8\" fill=\"#118ab2\" opacity=\"0.9\"/>"));
    assert!(svg.contains("<rect x=\"0\" y=\"448\" width=\"64\" height=\"64\" fill=\"#f5e6c8\"/>"));
    assert!(svg.contains("<rect x=\"64\" y=\"448\" width=\"64\" height=\"64\" fill=\"#a06b3b\"/>"));
    assert!(!svg.contains("r=\"20\""));
    assert!(svg.ends_with("</svg>"));
    let with_piece = svg_for_move_for_color(&Position::initial(), Color::White, mv("a1-b3"));
    assert!(with_piece.contains(
        "<line x1=\"32\" y1=\"480\" x2=\"96\" y2=\"352\" stroke=\"#d7263d\""
    ));
    assert!(with_piece.contains(
        "<circle cx=\"32\" cy=\"480\" r=\"20\" fill=\"#fffdf7\" stroke=\"#56452f\" stroke-width=\"3\"/>"
    ));
    assert!(with_piece.contains("cx=\"64.0\" cy=\"416.0\""));
    let defaults = RenderOptions::default();
    assert!(defaults.highlight_move.is_none() && defaults.pivots.is_empty());
}

#[test]
fn ordering_and_delta_formulas() {
    let position = Position::initial();
    assert_eq!(square_centrality(sq("a1")), -14);
    assert_eq!(square_centrality(sq("d4")), -2);
    assert_eq!(move_ordering_score(&position, mv("a1-b3"), None), 360);
    assert_eq!(
        move_ordering_score(&position, mv("a1-b3"), Some(mv("a1-b3"))),
        1_000_360
    );
    assert_eq!(quiescence_capture_delta(&position, mv("a1-b3")), 98);
}

#[test]
fn ordered_moves_are_sorted_and_complete() {
    let position = Position::initial();
    let mut stats = SearchStats::default();
    let moves = ordered_moves(&position, None, &mut stats);
    assert_eq!(stats.legal_move_generations, 1);
    assert_eq!(moves.len(), position.legal_moves().len());
    for pair in moves.windows(2) {
        assert!(
            move_ordering_score(&position, pair[0], None)
                >= move_ordering_score(&position, pair[1], None)
        );
    }
    for m in position.legal_moves() {
        assert!(moves.contains(&m));
    }
    let captures = capture_moves(&position, None, &mut stats);
    assert!(captures.is_empty());
}

#[test]
fn capture_moves_keep_the_best_captures() {
    let mut position = Position::empty(Color::White);
    for text in ["d4", "c3", "e3", "c5", "e5"] {
        position.set_piece(Color::White, sq(text));
    }
    for text in ["b2", "f2", "b6", "f6", "d2"] {
        position.set_piece(Color::Black, sq(text));
    }
    let mut stats = SearchStats::default();
    let all: Vec<Move> = position
        .legal_moves()
        .into_iter()
        .filter(|m| position.has_piece(Color::Black, m.to))
        .collect();
    let best = capture_moves(&position, None, &mut stats);
    assert_eq!(best.len(), all.len().min(4));
    let lowest = move_ordering_score(&position, *best.last().unwrap(), None);
    for m in all {
        if !best.contains(&m) {
            assert!(move_ordering_score(&position, m, None) <= lowest);
        }
    }
}

#[test]
fn fixed_depth_analysis_reports_one_iteration() {
    let position = Position::initial();
    let analysis = analyze_fixed_depth(&position, 1);
    let best = analysis.best.expect("move");
    assert_eq!(best.depth, 1);
    assert_eq!(best.principal_variation[0], best.best_move);
    assert_eq!(analysis.stats.depth_timings.len(), 1);
    assert_eq!(analysis.stats.depth_timings[0].depth, 1);
    assert_eq!(analysis.stats.completed_depth, 1);
    assert_eq!(analysis.stats.root_legal_moves, position.legal_moves().len());
    assert!(analysis.stats.completed_root_moves_current_depth <= analysis.stats.root_legal_moves);
    assert!(!analysis.stats.timed_out);
    assert_eq!(
        analysis.stats.completed_root_moves_total,
        analysis.stats.completed_root_moves_current_depth
    );
    assert_eq!(
        analysis.stats.completed_root_moves_current_depth,
        analysis.stats.root_legal_moves
    );
    let timed = analyze_iterative(&position, 2, Duration::from_millis(200));
    for (i, timing) in timed.stats.depth_timings.iter().enumerate() {
        assert_eq!(timing.depth as usize, i + 1);
    }
}

#[test]
fn negamax_and_principal_variation_from_a_table() {
    let position = Position::initial();
    let mut table = TranspositionTable::default();
    let mut stats = SearchStats::default();
    let score = negamax(&position, 1, -SCORE_BOUND, SCORE_BOUND, &mut table, None, &mut stats)
        .expect("no deadline");
    assert!((-SCORE_BOUND..=SCORE_BOUND).contains(&score));
    assert!(stats.nodes > 0);
    let entry = table.get(&position).expect("stored");
    assert_eq!(entry.depth, 1);
    assert_eq!(entry.key, position_key(&position));
    let pv = build_principal_variation(&position, 3, &table);
    if let Some(first) = pv.first() {
        assert_eq!(Some(*first), entry.best_move);
    }
    let fallback = cheap_fallback(&position, &table).expect("move");
    assert_eq!(fallback.depth, 0);
    assert_eq!(fallback.principal_variation, vec![fallback.best_move]);
    assert_eq!(fallback.score, evaluate(&position));
}

#[test]
fn table_keeps_other_keys_when_storing() {
    let first = Position::initial();
    let mut second = Position::initial();
    second.set_side_to_move(Color::Black);
    let mut table = TranspositionTable::new(0);
    let entry = |depth: u8, score: i32| TableEntry {
        key: 0,
        depth,
        score,
        bound: Bound::Lower,
        best_move: None,
    };
    table.insert(&first, entry(1, 5));
    table.insert(&second, entry(3, 7));
    table.insert(&first, entry(2, 6));
    assert_eq!(table.get(&first).unwrap().score, 6);
    assert_eq!(table.get(&second).unwrap().score, 7);
    assert_eq!(table.get(&second).unwrap().key, second.zobrist_key());
    assert_eq!(table.index_for(12345), 0);
    assert_eq!(TranspositionTable::default().index_for(TT_BUCKETS as u64 + 3), 3);
}

#[test]
fn evaluation_is_zero_sum_between_the_sides() {
    let mut position = Position::initial();
    position.apply_move(mv("a1-b3")).expect("legal");
    let mut flipped = position.clone();
    flipped.set_side_to_move(Color::White);
    assert_eq!(evaluate(&flipped), -evaluate(&position));
    assert_eq!(evaluate(&Position::initial()), 0);
}

#[test]
fn quiescence_visits_at_most_341_nodes() {
    let mut position = Position::empty(Color::White);
    for text in ["d4", "c3", "e3", "c5", "e5", "a1", "h1"] {
        position.set_piece(Color::White, sq(text));
    }
    for text in ["b2", "f2", "b6", "f6", "d2", "d6", "b4", "f4"] {
        position.set_piece(Color::Black, sq(text));
    }
    let mut stats = SearchStats::default();
    let mut table = TranspositionTable::default();
    sanqi::search::quiescence(
        &position,
        -SCORE_BOUND,
        SCORE_BOUND,
        0,
        &mut table,
        None,
        &mut stats,
    )
    .expect("no deadline");
    assert!(stats.quiescence_nodes >= 1);
    assert!(stats.quiescence_nodes <= 341);
}

#[test]
fn root_search_without_deadline_always_answers_within_the_win_score() {
    let position = Position::initial();
    let mut table = TranspositionTable::default();
    let mut stats = SearchStats::default();
    let result = best_move_with_table(&position, 1, &mut table, None, &mut stats).expect("no deadline");
    assert!(position.legal_moves().contains(&result.best_move));
    assert!((-WIN_SCORE..=WIN_SCORE).contains(&result.score));
    let score = negamax(&position, 2, -WIN_SCORE - 1, WIN_SCORE + 1, &mut table, None, &mut stats)
        .expect("no deadline");
    assert!((-WIN_SCORE..=WIN_SCORE).contains(&score));
    let deeper = best_move_with_table(&position, 2, &mut table, None, &mut stats).expect("no deadline");
    assert!((-WIN_SCORE..=WIN_SCORE).contains(&deeper.score));
    assert_eq!(deeper.depth, 2);
}

#[test]
fn root_search_finds_nothing_when_every_reply_is_stored_beyond_the_win_score() {
    let position = Position::initial();
    let mut table = TranspositionTable::default();
    for reply in position.legal_moves() {
        let mut next = position.clone();
        next.apply_move(reply).expect("legal");
        table.insert(
            &next,
            TableEntry { key: 0, depth: 0, score: 500_000, bound: Bound::Exact, best_move: None },
        );
    }
    let mut stats = SearchStats::default();
    assert!(best_move_with_table(&position, 1, &mut table, None, &mut stats).is_none());
}

#[test]
fn deepening_with_an_unreachable_deadline_finishes_every_depth() {
    let position = Position::initial();
    let result = analyze(&position, 2, Some(Duration::MAX));
    assert_eq!(result.stats.completed_depth, 2);
    assert_eq!(result.stats.depth_timings.len(), 2);
    assert!(!result.stats.timed_out);
    assert_eq!(result.best.expect("move").depth, 2);
}

fn lone_black_piece() -> Position {
    let mut position = Position::empty(Color::White);
    for text in ["a1", "a2", "b2"] {
        position.set_piece(Color::White, sq(text));
    }
    position.set_piece(Color::Black, sq("b3"));
    position
}

#[test]
fn quiescence_finds_the_capture_that_wins() {
    let position = lone_black_piece();
    assert_eq!(evaluate(&position), 215);
    let mut table = TranspositionTable::default();
    let mut stats = SearchStats::default();
    let score = sanqi::search::quiescence(&position, -WIN_SCORE - 1, WIN_SCORE + 1, 0, &mut table, None, &mut stats);
    assert_eq!(score, Some(WIN_SCORE));
    assert!(stats.quiescence_nodes >= 1);
}

#[test]
fn negamax_scores_a_winning_move_as_a_win() {
    let position = lone_black_piece();
    let mut table = TranspositionTable::default();
    let mut stats = SearchStats::default();
    let score = negamax(&position, 1, -WIN_SCORE - 1, WIN_SCORE + 1, &mut table, None, &mut stats);
    assert_eq!(score, Some(WIN_SCORE));
    let result = best_move(&position, 2).expect("move");
    assert_eq!(result.best_move, mv("a1-b3"));
    assert_eq!(result.score, WIN_SCORE);
}

#[test]
fn fixed_depth_search_reports_the_asked_depth_and_repeats() {
    let position = Position::initial();
    let first = best_move(&position, 2).expect("move");
    let second = best_move(&position, 2).expect("move");
    assert_eq!(first, second);
    assert_eq!(first.depth, 2);
    assert!(first.principal_variation.len() <= 2);
    assert!((-WIN_SCORE..=WIN_SCORE).contains(&first.score));
    let analysis = analyze_fixed_depth(&position, 2);
    let n = position.legal_moves().len();
    assert_eq!(analysis.best, Some(first));
    assert!(!analysis.stats.timed_out);
    assert_eq!(analysis.stats.root_legal_moves, n);
    assert_eq!(analysis.stats.completed_root_moves_total, n);
    assert_eq!(analysis.stats.completed_root_moves_current_depth, n);
    assert_eq!(analysis.stats.completed_depth, 2);
    assert_eq!(analysis.stats.depth_timings.len(), 1);
}

#[test]
fn iterative_completed_depth_counts_only_full_iterations() {
    let position = Position::initial();
    let n = position.legal_moves().len();
    for budget in [0u64, 1, 20] {
        let analysis = analyze_iterative(&position, 3, Duration::from_millis(budget));
        assert!(analysis.stats.completed_depth <= 3);
        assert!(analysis.stats.completed_root_moves_total >= analysis.stats.completed_depth as usize * n);
    }
}

#[test]
fn fixed_depth_zero_still_searches_every_root_move() {
    let position = Position::initial();
    let n = position.legal_moves().len();
    let analysis = analyze_fixed_depth(&position, 0);
    assert_eq!(analysis.stats.completed_root_moves_total, n);
    assert_eq!(analysis.best.expect("move").depth, 0);
}

#[test]
fn zero_budget_falls_back_to_the_first_ranked_move() {
    let position = Position::initial();
    let analysis = analyze_iterative(&position, 4, Duration::from_millis(0));
    let best = analysis.best.expect("move");
    if best.depth == 0 {
        assert_eq!(best.principal_variation, vec![best.best_move]);
        assert_eq!(best.score, evaluate(&position));
        assert_eq!(analysis.stats.completed_root_moves_total, 0);
    } else {
        assert!(analysis.stats.depth_timings.len() >= best.depth as usize);
    }
}
