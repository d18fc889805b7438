use sanqi::board::{Color, Move, ParseMoveError};
use sanqi::interactive::{parse_repl_command, repl_apply, repl_step, ReplCommand, ReplOutput, ReplStep};
use sanqi::position::{MoveError, Position};

fn mv(text: &str) -> Move {
    Move::parse(text).expect("move")
}

#[test]
fn repl_commands_are_read_from_words_and_moves() {
    assert_eq!(parse_repl_command(""), Ok(None));
    assert_eq!(parse_repl_command("quit"), Ok(Some(ReplCommand::Quit)));
    assert_eq!(parse_repl_command("exit"), Ok(Some(ReplCommand::Quit)));
    assert_eq!(parse_repl_command("help"), Ok(Some(ReplCommand::Help)));
    assert_eq!(parse_repl_command("board"), Ok(Some(ReplCommand::Board)));
    assert_eq!(parse_repl_command("moves"), Ok(Some(ReplCommand::Moves)));
    assert_eq!(parse_repl_command("go"), Ok(Some(ReplCommand::Go)));
    assert_eq!(parse_repl_command("hint"), Ok(Some(ReplCommand::Go)));
    assert_eq!(parse_repl_command("svg   a1-b3"), Ok(Some(ReplCommand::Svg(mv("a1-b3")))));
    assert_eq!(parse_repl_command("a1-b3"), Ok(Some(ReplCommand::Play(mv("a1-b3")))));
    assert_eq!(parse_repl_command("svg x"), Err(ParseMoveError::InvalidSquare(sanqi::board::ParseSquareError)));
    assert_eq!(parse_repl_command("a1b3"), Err(ParseMoveError::InvalidSquare(sanqi::board::ParseSquareError)));
    assert_eq!(parse_repl_command("a1-b3-c4"), Err(ParseMoveError::InvalidFormat));
}

#[test]
fn repl_lines_are_trimmed_of_all_white_space() {
    assert_eq!(parse_repl_command("  quit\n"), Ok(Some(ReplCommand::Quit)));
    assert_eq!(parse_repl_command(" \t\r\n"), Ok(None));
    assert_eq!(parse_repl_command("svg \u{a0}a1-b3"), Ok(Some(ReplCommand::Svg(mv("a1-b3")))));
    assert_eq!(parse_repl_command("svg \ra1-b3\u{3000}"), Ok(Some(ReplCommand::Svg(mv("a1-b3")))));
    assert_eq!(parse_repl_command("\u{2003}a1-b3\r\n"), Ok(Some(ReplCommand::Play(mv("a1-b3")))));
}

#[test]
fn repl_step_awaits_input_moves_for_the_engine_and_ends_the_game() {
    let mut position = Position::initial();
    assert!(matches!(repl_step(&mut position, Color::Black, 1), ReplStep::AwaitInput(Color::White)));
    assert!(position == Position::initial());
    let before = position.clone();
    match repl_step(&mut position, Color::White, 1) {
        ReplStep::EngineMove(result) => {
            assert_eq!(result.depth, 1);
            let mut expected = before.clone();
            expected.apply_move(result.best_move).expect("legal");
            assert!(position == expected);
            assert_eq!(position.side_to_move(), Color::Black);
        }
        _ => panic!("the engine is to move"),
    }
    let mut lost = Position::empty(Color::White);
    lost.set_piece(Color::Black, sanqi::board::Square::parse("a1").unwrap());
    assert!(matches!(repl_step(&mut lost, Color::Black, 1), ReplStep::GameOver(Color::Black)));
}

#[test]
fn repl_apply_plays_legal_moves_and_refuses_others() {
    let mut position = Position::initial();
    match repl_apply(&mut position, ReplCommand::Moves, 1) {
        Ok(ReplOutput::Moves(moves)) => assert_eq!(moves, Position::initial().legal_moves()),
        _ => panic!("moves"),
    }
    assert!(matches!(repl_apply(&mut position, ReplCommand::Go, 1), Ok(ReplOutput::Recommendation(Some(_)))));
    assert!(matches!(repl_apply(&mut position, ReplCommand::Play(mv("a1-b3")), 1), Ok(ReplOutput::Played)));
    assert_eq!(position.side_to_move(), Color::Black);
    let after = position.clone();
    let refused = repl_apply(&mut position, ReplCommand::Play(mv("a1-a2")), 1);
    assert_eq!(refused.err(), Some(MoveError::OriginMissing));
    assert!(position == after);
    assert!(matches!(repl_apply(&mut position, ReplCommand::Quit, 1), Ok(ReplOutput::Quit)));
}
