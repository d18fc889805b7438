//! Interactive play: the decisions of the play loop, one step at a time.
//!
//! The program around the library reads a line, hands it to
//! [`parse_repl_command`], performs the command with [`repl_apply`] and shows
//! what came back; before each prompt, [`repl_step`] decides whether the game
//! is over, whether the engine moves, or whose input is awaited.
use vstd::prelude::*;

use crate::board::{spec_parse_move, Color, Move, ParseMoveError, Square};
use crate::position::{MoveError, PivotEntry, Position};
use crate::render::{spec_svg, supporting_list};
use crate::search::{best_move, best_pair, fixed_depth_result, reported, SearchResult};

verus! {

/// A command typed in interactive play.
#[derive(Clone, Copy, Debug, PartialEq, Eq, Structural)]
pub enum ReplCommand {
    /// Leave interactive play (`quit` or `exit`).
    Quit,
    /// Show the list of commands (`help`).
    Help,
    /// Show the board (`board`).
    Board,
    /// List the legal moves (`moves`).
    Moves,
    /// Ask the engine for the side to move (`go` or `hint`).
    Go,
    /// Show the annotated board of a move (`svg <move>`).
    Svg(Move),
    /// Play a move for the side to move.
    Play(Move),
}

/// What the play loop does before it reads input.
#[derive(Debug)]
pub enum ReplStep {
    /// The side to move has no legal move: the other side has won.
    GameOver(Color),
    /// The engine played the result's best move.
    EngineMove(SearchResult),
    /// The given side is to enter a command.
    AwaitInput(Color),
}

/// What performing a command gives back to show.
#[derive(Debug)]
pub enum ReplOutput {
    /// Interactive play ends.
    Quit,
    /// The list of commands is to be shown.
    Help,
    /// The board is to be shown.
    Board,
    /// The legal moves of the side to move.
    Moves(Vec<Move>),
    /// The engine's recommendation, if the side to move can move.
    Recommendation(Option<SearchResult>),
    /// The annotated board of a move.
    Svg(String),
    /// The move was played.
    Played,
}

/// The move with origin index `from` and destination index `to`.
pub open(crate) spec fn move_of(from: int, to: int) -> Move {
    Move { from: Square(from as u8), to: Square(to as u8) }
}

/// Whether `c` is white space: a character with the Unicode `White_Space`
/// property, as `char::is_whitespace` documents it.
pub open spec fn is_space(c: char) -> bool {
    ||| '\u{9}' <= c <= '\u{d}'
    ||| c == ' '
    ||| c == '\u{85}'
    ||| c == '\u{a0}'
    ||| c == '\u{1680}'
    ||| '\u{2000}' <= c <= '\u{200a}'
    ||| c == '\u{2028}'
    ||| c == '\u{2029}'
    ||| c == '\u{202f}'
    ||| c == '\u{205f}'
    ||| c == '\u{3000}'
}

/// Index of the first character at or after `i` that is not white space.
pub open(crate) spec fn skip_blanks(s: Seq<char>, i: int) -> int
    decreases s.len() - i,
{
    if 0 <= i < s.len() && is_space(s[i]) {
        skip_blanks(s, i + 1)
    } else {
        i
    }
}

/// End of the first `j` characters of `s` without the white space they end with.
pub open(crate) spec fn trim_end(s: Seq<char>, j: int) -> int
    decreases j,
{
    if 0 < j <= s.len() && is_space(s[j - 1]) {
        trim_end(s, j - 1)
    } else {
        j
    }
}

/// `s` without the white space it starts and ends with.
pub open(crate) spec fn trimmed(s: Seq<char>) -> Seq<char> {
    let a = skip_blanks(s, 0);
    let b = trim_end(s, s.len() as int);
    if a < b {
        s.subrange(a, b)
    } else {
        Seq::empty()
    }
}

/// Whether `c` is white space.
fn space_char(c: char) -> (r: bool)
    ensures
        r == is_space(c),
{
    ('\u{9}' <= c && c <= '\u{d}') || c == ' ' || c == '\u{85}' || c == '\u{a0}' || c == '\u{1680}' || ('\u{2000}'
        <= c && c <= '\u{200a}') || c == '\u{2028}' || c == '\u{2029}' || c == '\u{202f}' || c == '\u{205f}' || c
        == '\u{3000}'
}

/// The move written in `s`, to show as a board (`svg`) or to play.
pub open(crate) spec fn move_command(s: Seq<char>, svg: bool) -> Result<Option<ReplCommand>, ParseMoveError> {
    match spec_parse_move(s) {
        Ok((from, to)) => Ok(
            Some(
                if svg {
                    ReplCommand::Svg(move_of(from, to))
                } else {
                    ReplCommand::Play(move_of(from, to))
                },
            ),
        ),
        Err(e) => Err(e),
    }
}

/// The command that an input line names, once trimmed of white space.
pub open(crate) spec fn spec_repl_command(s: Seq<char>) -> Result<Option<ReplCommand>, ParseMoveError> {
    trimmed_command(trimmed(s))
}

/// The command that a trimmed input line names: nothing for an empty line, a
/// keyword, `svg` followed by a space and a move, or a move to play.
pub open(crate) spec fn trimmed_command(s: Seq<char>) -> Result<Option<ReplCommand>, ParseMoveError> {
    if s.len() == 0 {
        Ok(None)
    } else if s == "quit"@ || s == "exit"@ {
        Ok(Some(ReplCommand::Quit))
    } else if s == "help"@ {
        Ok(Some(ReplCommand::Help))
    } else if s == "board"@ {
        Ok(Some(ReplCommand::Board))
    } else if s == "moves"@ {
        Ok(Some(ReplCommand::Moves))
    } else if s == "go"@ || s == "hint"@ {
        Ok(Some(ReplCommand::Go))
    } else if s.len() >= 4 && s.subrange(0, 4) == "svg "@ {
        move_command(s.subrange(skip_blanks(s, 4), s.len() as int), true)
    } else {
        move_command(s, false)
    }
}

/// Whether the characters of `value` are exactly those of `word`.
fn is_word(value: &str, word: &str) -> (r: bool)
    ensures
        r == (value@ == word@),
{
    let n = value.unicode_len();
    if n != word.unicode_len() {
        return false;
    }
    let mut i: usize = 0;
    while i < n
        invariant
            n == value@.len(),
            n == word@.len(),
            i <= n,
            forall|j: int| 0 <= j < i ==> value@[j] == word@[j],
        decreases n - i,
    {
        if value.get_char(i) != word.get_char(i) {
            return false;
        }
        i += 1;
    }
    assert(value@ =~= word@);
    true
}

/// The characters of `value` from index `start` up to `end`, as a new string.
fn range_of(value: &str, start: usize, end: usize) -> (r: String)
    requires
        start <= end <= value@.len(),
    ensures
        r@ == value@.subrange(start as int, end as int),
{
    let n = end;
    let mut out = String::new();
    let mut i: usize = start;
    while i < n
        invariant
            n <= value@.len(),
            start <= i <= n,
            out@ == value@.subrange(start as int, i as int),
        decreases n - i,
    {
        crate::text::push_char(&mut out, value.get_char(i));
        assert(value@.subrange(start as int, i + 1) =~= value@.subrange(start as int, i as int).push(value@[i as int]));
        i += 1;
    }
    out
}

/// A move command from the text of `value`.
fn parse_move_command(value: &str, svg: bool) -> (r: Result<Option<ReplCommand>, ParseMoveError>)
    ensures
        r == move_command(value@, svg),
{
    match Move::parse(value) {
        Ok(m) => {
            if svg {
                Ok(Some(ReplCommand::Svg(m)))
            } else {
                Ok(Some(ReplCommand::Play(m)))
            }
        },
        Err(e) => Err(e),
    }
}

/// Reads one input line of interactive play, trimmed of white space:
/// `Ok(None)` for an empty line, the command it names, or the error of the
/// move it fails to name.
pub fn parse_repl_command(input: &str) -> (r: Result<Option<ReplCommand>, ParseMoveError>)
    ensures
        r == spec_repl_command(input@),
{
    let n = input.unicode_len();
    let mut a: usize = 0;
    while a < n && space_char(input.get_char(a))
        invariant
            n == input@.len(),
            a <= n,
            skip_blanks(input@, a as int) == skip_blanks(input@, 0),
        decreases n - a,
    {
        a += 1;
    }
    let mut b: usize = n;
    while b > 0 && space_char(input.get_char(b - 1))
        invariant
            n == input@.len(),
            b <= n,
            trim_end(input@, b as int) == trim_end(input@, n as int),
        decreases b,
    {
        b -= 1;
    }
    if a >= b {
        return Ok(None);
    }
    let line = range_of(input, a, b);
    parse_trimmed(line.as_str())
}

/// Reads a trimmed input line of interactive play.
fn parse_trimmed(input: &str) -> (r: Result<Option<ReplCommand>, ParseMoveError>)
    ensures
        r == trimmed_command(input@),
{
    proof {
        reveal_strlit("quit");
        reveal_strlit("exit");
        reveal_strlit("help");
        reveal_strlit("board");
        reveal_strlit("moves");
        reveal_strlit("go");
        reveal_strlit("hint");
        reveal_strlit("svg ");
    }
    let n = input.unicode_len();
    if n == 0 {
        return Ok(None);
    }
    if is_word(input, "quit") || is_word(input, "exit") {
        return Ok(Some(ReplCommand::Quit));
    }
    if is_word(input, "help") {
        return Ok(Some(ReplCommand::Help));
    }
    if is_word(input, "board") {
        return Ok(Some(ReplCommand::Board));
    }
    if is_word(input, "moves") {
        return Ok(Some(ReplCommand::Moves));
    }
    if is_word(input, "go") || is_word(input, "hint") {
        return Ok(Some(ReplCommand::Go));
    }
    if n >= 4 && input.get_char(0) == 's' && input.get_char(1) == 'v' && input.get_char(2) == 'g' && input.get_char(3)
        == ' ' {
        assert(input@.subrange(0, 4) =~= "svg "@);
        let mut k: usize = 4;
        while k < n && space_char(input.get_char(k))
            invariant
                n == input@.len(),
                4 <= k <= n,
                skip_blanks(input@, k as int) == skip_blanks(input@, 4),
            decreases n - k,
        {
            k += 1;
        }
        let rest = range_of(input, k, n);
        return parse_move_command(rest.as_str(), true);
    }
    proof {
        if n >= 4 {
            if input@.subrange(0, 4) == "svg "@ {
                assert(input@[0] == input@.subrange(0, 4)[0]);
                assert(input@[1] == input@.subrange(0, 4)[1]);
                assert(input@[2] == input@.subrange(0, 4)[2]);
                assert(input@[3] == input@.subrange(0, 4)[3]);
            }
        }
    }
    parse_move_command(input, false)
}

/// One step of the play loop before input is read: the game is over when
/// the side to move cannot move; when the engine is to move it searches to
/// `depth` plies and plays its best move; otherwise the side to move is to
/// enter a command.
pub fn repl_step(position: &mut Position, engine_side: Color, depth: u8) -> (r: ReplStep)
    ensures
        !old(position).can_move() ==> r == ReplStep::GameOver(old(position).side().other()) && *final(position)
            == *old(position),
        old(position).can_move() && old(position).side() == engine_side ==> (r matches ReplStep::EngineMove(b)
            && reported(*old(position), depth, b) && b.depth == depth && Some((b.best_move, b.score as int))
            == fixed_depth_result(*old(position), depth) && *final(position) == old(position).applied(b.best_move)),
        old(position).can_move() && old(position).side() != engine_side ==> r == ReplStep::AwaitInput(
            old(position).side(),
        ) && *final(position) == *old(position),
{
    match position.outcome() {
        Some(crate::position::Outcome::Winner(color)) => {
            return ReplStep::GameOver(color);
        },
        None => {},
    }
    let side = position.side_to_move();
    if side == engine_side {
        match best_move(position, depth) {
            Some(result) => {
                proof {
                    crate::position::lemma_legal_iff_checked(*position, result.best_move);
                }
                let _ = position.apply_move(result.best_move);
                ReplStep::EngineMove(result)
            },
            None => ReplStep::GameOver(side.opponent()),
        }
    } else {
        ReplStep::AwaitInput(side)
    }
}

/// Performs a command of interactive play: a move is played when it is legal
/// (its error otherwise, with the position unchanged); every other command
/// leaves the position as it is and gives back what it is to show.
pub fn repl_apply(position: &mut Position, cmd: ReplCommand, depth: u8) -> (r: Result<ReplOutput, MoveError>)
    ensures
        cmd matches ReplCommand::Play(mv) ==> match old(position).check_move(mv) {
            Err(e) => r == Err::<ReplOutput, MoveError>(e) && *final(position) == *old(position),
            Ok(_) => r matches Ok(ReplOutput::Played) && *final(position) == old(position).applied(mv),
        },
        !(cmd is Play) ==> *final(position) == *old(position) && r is Ok,
        cmd is Quit ==> r matches Ok(ReplOutput::Quit),
        cmd is Help ==> r matches Ok(ReplOutput::Help),
        cmd is Board ==> r matches Ok(ReplOutput::Board),
        cmd is Moves ==> (r matches Ok(ReplOutput::Moves(v)) && (forall|m: Move| #[trigger] v@.contains(m)
            <==> old(position).is_legal(m)) && v@.no_duplicates() && old(position).in_generation_order(
            old(position).side(),
            false,
            v@,
        )),
        cmd is Go ==> (r matches Ok(ReplOutput::Recommendation(b)) && (b is Some <==> old(position).can_move()) && (
        b matches Some(x) ==> reported(*old(position), depth, x) && x.depth == depth) && best_pair(b)
            == fixed_depth_result(*old(position), depth)),
        cmd matches ReplCommand::Svg(mv) ==> (r matches Ok(ReplOutput::Svg(s)) && exists|entries: Seq<PivotEntry>|
            supporting_list(*old(position), old(position).side(), mv, entries) && s@ == spec_svg(
                *old(position),
                Some(mv),
                entries.map_values(|e: PivotEntry| e.pivot),
            )),
{
    match cmd {
        ReplCommand::Quit => Ok(ReplOutput::Quit),
        ReplCommand::Help => Ok(ReplOutput::Help),
        ReplCommand::Board => Ok(ReplOutput::Board),
        ReplCommand::Moves => Ok(ReplOutput::Moves(position.legal_moves())),
        ReplCommand::Go => Ok(ReplOutput::Recommendation(best_move(position, depth))),
        ReplCommand::Svg(mv) => Ok(ReplOutput::Svg(crate::render::svg_for_move(position, mv))),
        ReplCommand::Play(mv) => match position.apply_move(mv) {
            Ok(_) => Ok(ReplOutput::Played),
            Err(e) => Err(e),
        },
    }
}

} // verus!
