//! Complete games: a start position, the moves played and every position reached.
use vstd::prelude::*;

use crate::board::{spec_parse_move, Move, ParseMoveError};
use crate::position::{MoveError, Position};

verus! {

/// A move history together with all reached positions.
#[derive(Debug)]
pub struct Game {
    pub(crate) positions: Vec<Position>,
    pub(crate) moves: Vec<Move>,
}

/// Errors that can occur while parsing or playing moves in a game.
#[derive(Debug, PartialEq, Eq, Structural)]
pub enum GameError {
    Parse(ParseMoveError),
    IllegalMove(MoveError),
}

impl GameError {
    /// Human-readable description of the error.
    pub fn to_string(&self) -> (s: String)
        ensures
            s@ == (match self {
                GameError::Parse(e) => e.message(),
                GameError::IllegalMove(e) => e.message(),
            }),
    {
        match self {
            GameError::Parse(e) => e.to_string(),
            GameError::IllegalMove(e) => e.to_string(),
        }
    }
}

impl From<ParseMoveError> for GameError {
    fn from(value: ParseMoveError) -> GameError {
        GameError::Parse(value)
    }
}

impl vstd::std_specs::convert::FromSpecImpl<ParseMoveError> for GameError {
    open spec fn obeys_from_spec() -> bool {
        true
    }

    open spec fn from_spec(v: ParseMoveError) -> GameError {
        GameError::Parse(v)
    }
}

impl From<MoveError> for GameError {
    fn from(value: MoveError) -> GameError {
        GameError::IllegalMove(value)
    }
}

impl vstd::std_specs::convert::FromSpecImpl<MoveError> for GameError {
    open spec fn obeys_from_spec() -> bool {
        true
    }

    open spec fn from_spec(v: MoveError) -> GameError {
        GameError::IllegalMove(v)
    }
}

/// Whether `q` is the position reached by playing the legal move `m` in `p`.
#[verifier::opaque]
pub open spec fn follows(p: Position, m: Move, q: Position) -> bool {
    p.check_move(m) is Ok && q == p.applied(m)
}

impl Default for Game {
    /// A game from the standard initial position, as [`Game::new`]: a game
    /// always holds its current position.
    fn default() -> (g: Game)
        ensures
            g.history() == seq![Position::spec_initial()],
            g.played().len() == 0,
    {
        Game::new()
    }
}

impl Clone for Game {
    fn clone(&self) -> (g: Game)
        ensures
            g.history() == self.history(),
            g.played() == self.played(),
    {
        proof {
            use_type_invariant(self);
        }
        let positions = self.positions.clone();
        let moves = self.moves.clone();
        proof {
            assert(positions@ =~= self.positions@);
            assert(moves@ =~= self.moves@);
        }
        Game { positions, moves }
    }
}

impl Game {
    /// Every recorded position follows from the previous one by the recorded move.
    #[verifier::type_invariant]
    pub open(crate) spec fn valid(self) -> bool {
        &&& self.positions.len() == self.moves.len() + 1
        &&& forall|i: int|
            0 <= i < self.moves.len() ==> follows(#[trigger] self.positions[i], self.moves[i], self.positions[i + 1])
    }

    /// The positions reached, starting with the start position.
    pub open(crate) spec fn history(self) -> Seq<Position> {
        self.positions@
    }

    /// The moves played.
    pub open(crate) spec fn played(self) -> Seq<Move> {
        self.moves@
    }

    /// Creates a game from the standard initial position.
    pub fn new() -> (g: Game)
        ensures
            g.history() == seq![Position::spec_initial()],
            g.played().len() == 0,
    {
        let mut positions = Vec::new();
        positions.push(Position::initial());
        Game { positions, moves: Vec::new() }
    }

    /// Creates a game from an arbitrary starting position.
    pub fn from_position(position: Position) -> (g: Game)
        ensures
            g.history() == seq![position],
            g.played().len() == 0,
    {
        let mut positions = Vec::new();
        positions.push(position);
        Game { positions, moves: Vec::new() }
    }

    /// Returns the current position.
    pub fn current_position(&self) -> (p: &Position)
        ensures
            *p == self.history().last(),
    {
        proof {
            use_type_invariant(self);
        }
        &self.positions[self.positions.len() - 1]
    }

    /// Returns the played move list.
    ///
    /// The game holds one more position than moves, and each move is legal in
    /// the position before it and leads to the position after it.
    pub fn moves(&self) -> (m: &[Move])
        ensures
            m@ == self.played(),
            self.history().len() == self.played().len() + 1,
            forall|i: int|
                0 <= i < self.played().len() ==> (#[trigger] self.history()[i]).check_move(self.played()[i]) is Ok
                    && self.history()[i + 1] == self.history()[i].applied(self.played()[i]),
    {
        proof {
            use_type_invariant(self);
            reveal(follows);
            assert forall|i: int| 0 <= i < self.played().len() implies (#[trigger] self.history()[i]).check_move(
                self.played()[i],
            ) is Ok && self.history()[i + 1] == self.history()[i].applied(self.played()[i]) by {
                assert(follows(self.positions[i], self.moves[i], self.positions[i + 1]));
            }
        }
        self.moves.as_slice()
    }

    /// Plays one move from the current position.
    pub fn play(&mut self, mv: Move) -> (r: Result<(), MoveError>)
        ensures
            match old(self).history().last().check_move(mv) {
                Err(e) => r == Err::<(), MoveError>(e) && final(self).history() == old(self).history()
                    && final(self).played() == old(self).played(),
                Ok(_) => r is Ok && final(self).history() == old(self).history().push(
                    old(self).history().last().applied(mv),
                ) && final(self).played() == old(self).played().push(mv),
            },
    {
        proof {
            use_type_invariant(&*self);
        }
        let mut position = self.current_position().clone();
        match position.apply_move(mv) {
            Err(e) => {
                return Err(e);
            },
            Ok(_) => {},
        }
        let ghost next = position;
        let mut taken = Game::from_position(position.clone());
        std::mem::swap(self, &mut taken);
        proof {
            use_type_invariant(&taken);
        }
        let Game { mut positions, mut moves } = taken;
        let ghost ops = positions@;
        let ghost oms = moves@;
        positions.push(position);
        moves.push(mv);
        proof {
            assert(positions@ == ops.push(next));
            assert(moves@ == oms.push(mv));
            assert forall|i: int| 0 <= i < moves.len() implies follows(#[trigger] positions[i], moves[i], positions[i + 1]) by {
                if i < moves.len() - 1 {
                    assert(positions[i] == ops[i]);
                    assert(positions[i + 1] == ops[i + 1]);
                    assert(moves[i] == oms[i]);
                } else {
                    assert(positions[i] == ops.last());
                    reveal(follows);
                }
            }
        }
        *self = Game { positions, moves };
        Ok(())
    }

    /// Parses and plays one move in `from-to` notation.
    pub fn play_str(&mut self, mv: &str) -> (r: Result<(), GameError>)
        ensures
            match spec_parse_move(mv@) {
                Err(e) => r == Err::<(), GameError>(GameError::Parse(e)) && *final(self) == *old(self),
                Ok((from, to)) => exists|m: Move|
                    m.from.idx() == from && m.to.idx() == to && match old(self).history().last().check_move(m) {
                        Err(e) => r == Err::<(), GameError>(GameError::IllegalMove(e)) && final(self).history()
                            == old(self).history() && final(self).played() == old(self).played(),
                        Ok(_) => r is Ok && final(self).history() == old(self).history().push(
                            old(self).history().last().applied(m),
                        ) && final(self).played() == old(self).played().push(m),
                    },
            },
    {
        let parsed = match Move::parse(mv) {
            Ok(m) => m,
            Err(e) => {
                return Err(GameError::Parse(e));
            },
        };
        match self.play(parsed) {
            Ok(()) => Ok(()),
            Err(e) => Err(GameError::IllegalMove(e)),
        }
    }
}

} // verus!
