//! Board positions: bitboards, piece placement, move generation and move application.
use vstd::prelude::*;

use crate::board::{BOARD_SIZE, Color, Square, Move, Pivot, SupportPair, file_of, rank_of, on_board, index_of, BOARD_SQUARES};
use vstd::string::*;
use crate::zobrist::{spec_piece_key, zobrist_piece, compute_zobrist_key, spec_zobrist_key, SIDE_TO_MOVE_KEY, placement_key, square_contribution};

verus! {

/// Whether bit `i` of `b` is set.
pub open spec fn bit(b: u64, i: int) -> bool {
    0 <= i < 64 && (b >> (i as u64)) & 1u64 == 1u64
}

/// The single-bit mask of square index `i`.
pub open spec fn mask(i: int) -> u64 {
    1u64 << (i as u64)
}

/// Masking with the bit of square `i` tests that bit.
pub proof fn lemma_mask_bit(b: u64, i: int)
    requires
        0 <= i < 64,
    ensures
        (b & mask(i) != 0) == bit(b, i),
{
    let k = i as u64;
    assert((b & (1u64 << k) != 0) == ((b >> k) & 1u64 == 1u64)) by (bit_vector)
        requires
            k < 64,
    ;
}

} // verus!

verus! {

/// The empty bitboard has no bit set.
pub proof fn lemma_zero_bits(i: int)
    ensures
        !bit(0u64, i),
{
    if 0 <= i < 64 {
        let k = i as u64;
        assert((0u64 >> k) & 1u64 == 0u64) by (bit_vector);
    }
}

/// Clearing or setting the bit of square `i` changes no other bit.
pub proof fn lemma_clear_bits(b: u64, i: int, j: int)
    requires
        0 <= i < 64,
    ensures
        bit(b & !mask(i), j) == (j != i && bit(b, j)),
        bit(b | mask(i), j) == (j == i || bit(b, j)),
{
    if 0 <= j < 64 {
        let k = i as u64;
        let l = j as u64;
        assert(((b & !(1u64 << k)) >> l) & 1u64 == 1u64 <==> (l != k && (b >> l) & 1u64 == 1u64))
            by (bit_vector)
            requires
                k < 64,
                l < 64,
        ;
        assert(((b | (1u64 << k)) >> l) & 1u64 == 1u64 <==> (l == k || (b >> l) & 1u64 == 1u64))
            by (bit_vector)
            requires
                k < 64,
                l < 64,
        ;
    }
}

/// Square indices (ascending) whose bit is set among the first `n` bits of `bits`.
pub open spec fn squares_upto(bits: u64, n: nat) -> Seq<int>
    decreases n,
{
    if n == 0 {
        Seq::<int>::empty()
    } else if bit(bits, n - 1) {
        squares_upto(bits, (n - 1) as nat).push(n - 1)
    } else {
        squares_upto(bits, (n - 1) as nat)
    }
}

/// Square indices (ascending) whose bit is set in `bits`.
pub open spec fn squares_in(bits: u64) -> Seq<int> {
    squares_upto(bits, 64)
}

/// The squares among the first `n` are ascending, in range, and exactly those set.
pub proof fn lemma_squares_upto(bits: u64, n: nat)
    ensures
        forall|k: int| 0 <= k < squares_upto(bits, n).len() ==> 0 <= #[trigger] squares_upto(bits, n)[k] < n
            && bit(bits, squares_upto(bits, n)[k]),
        forall|a: int, b: int|
            0 <= a < b < squares_upto(bits, n).len() ==> #[trigger] squares_upto(bits, n)[a]
                < #[trigger] squares_upto(bits, n)[b],
        forall|j: int| 0 <= j < n && bit(bits, j) ==> #[trigger] squares_upto(bits, n).contains(j),
        squares_upto(bits, n).len() <= n,
    decreases n,
{
    if n > 0 {
        lemma_squares_upto(bits, (n - 1) as nat);
        let prev = squares_upto(bits, (n - 1) as nat);
        let cur = squares_upto(bits, n);
        assert forall|j: int| 0 <= j < n && bit(bits, j) implies #[trigger] cur.contains(j) by {
            if j < n - 1 {
                assert(prev.contains(j));
                let k = choose|k: int| 0 <= k < prev.len() && prev[k] == j;
                assert(cur[k] == j);
            } else {
                assert(cur[cur.len() - 1] == j);
            }
        }
    }
}

/// The squares of a bitboard are ascending, on the board, and exactly those set.
pub proof fn lemma_squares_in(bits: u64)
    ensures
        forall|k: int| 0 <= k < squares_in(bits).len() ==> 0 <= #[trigger] squares_in(bits)[k] < 64
            && bit(bits, squares_in(bits)[k]),
        forall|a: int, b: int|
            0 <= a < b < squares_in(bits).len() ==> #[trigger] squares_in(bits)[a]
                < #[trigger] squares_in(bits)[b],
        forall|j: int| bit(bits, j) <==> #[trigger] squares_in(bits).contains(j),
        squares_in(bits).len() <= 64,
{
    lemma_squares_upto(bits, 64);
    assert forall|j: int| #[trigger] squares_in(bits).contains(j) implies bit(bits, j) by {
        let k = choose|k: int| 0 <= k < squares_in(bits).len() && squares_in(bits)[k] == j;
    }
}

/// Collects the squares whose bit is set, in ascending index order.
pub fn squares_from_bits(bits: u64) -> (r: Vec<Square>)
    ensures
        r.len() == squares_in(bits).len(),
        forall|k: int| 0 <= k < r.len() ==> #[trigger] r[k].idx() == squares_in(bits)[k],
{
    let mut squares: Vec<Square> = Vec::new();
    let mut index: u8 = 0;
    while index < 64
        invariant
            index <= 64,
            squares.len() == squares_upto(bits, index as nat).len(),
            forall|k: int| 0 <= k < squares.len() ==> #[trigger] squares[k].idx() == squares_upto(
                bits,
                index as nat,
            )[k],
        decreases 64 - index,
    {
        proof {
            lemma_mask_bit(bits, index as int);
        }
        if bits & (1u64 << index) != 0 {
            squares.push(Square(index));
        }
        index += 1;
    }
    squares
}

/// Information required to undo a previously applied move.
#[derive(Clone, Copy, Debug, PartialEq, Eq, Structural)]
pub struct Undo {
    pub(crate) moved_color: Color,
    pub(crate) captured: Option<Square>,
    pub(crate) previous_side_to_move: Color,
}

/// Errors that can occur when validating or applying a move.
#[derive(Clone, Copy, Debug, PartialEq, Eq, Structural)]
pub enum MoveError {
    WrongColorToMove,
    OriginMissing,
    NullMove,
    DestinationOccupiedByOwnPiece,
    MissingPivot,
}

impl MoveError {
    /// Human-readable description of the error.
    pub open spec fn message(self) -> Seq<char> {
        match self {
            MoveError::WrongColorToMove => "piece does not belong to player to move"@,
            MoveError::OriginMissing => "origin square is empty"@,
            MoveError::NullMove => "start and destination must differ"@,
            MoveError::DestinationOccupiedByOwnPiece => "destination is occupied by a friendly piece"@,
            MoveError::MissingPivot => "no supporting pivot exists for this move"@,
        }
    }

    /// Human-readable description of the error.
    pub fn to_string(&self) -> (s: String)
        ensures
            s@ == self.message(),
    {
        match self {
            MoveError::WrongColorToMove => String::from_str("piece does not belong to player to move"),
            MoveError::OriginMissing => String::from_str("origin square is empty"),
            MoveError::NullMove => String::from_str("start and destination must differ"),
            MoveError::DestinationOccupiedByOwnPiece => String::from_str(
                "destination is occupied by a friendly piece",
            ),
            MoveError::MissingPivot => String::from_str("no supporting pivot exists for this move"),
        }
    }
}

/// The result of a finished position.
#[derive(Clone, Copy, Debug, PartialEq, Eq, Structural)]
pub enum Outcome {
    Winner(Color),
}

/// A complete Sanqi board position.
///
/// The position stores both bitboards and the side to move. Legal move
/// generation uses pivot geometry and returns de-duplicated `from-to` moves.
#[derive(Debug, PartialEq, Eq, Structural)]
pub struct Position {
    pub(crate) white: u64,
    pub(crate) black: u64,
    pub(crate) side_to_move: Color,
    pub(crate) zobrist_key: u64,
}

impl Position {
    /// No square holds pieces of both colors, and the kept key is the
    /// Zobrist key of the pieces and the side to move.
    #[verifier::type_invariant]
    pub open(crate) spec fn valid(self) -> bool {
        &&& self.white & self.black == 0
        &&& self.zobrist_key == spec_zobrist_key(self.white, self.black, self.side_to_move)
    }

    /// Bitboard of one side.
    pub open(crate) spec fn occ(self, c: Color) -> u64 {
        match c {
            Color::White => self.white,
            Color::Black => self.black,
        }
    }

    /// Whether a piece of `c` stands on square index `i`.
    pub open(crate) spec fn holds(self, c: Color, i: int) -> bool {
        bit(self.occ(c), i)
    }

    /// The color of the piece on square index `i`, if any.
    pub open(crate) spec fn occupant(self, i: int) -> Option<Color> {
        if bit(self.white, i) {
            Some(Color::White)
        } else if bit(self.black, i) {
            Some(Color::Black)
        } else {
            None
        }
    }

    pub open(crate) spec fn side(self) -> Color {
        self.side_to_move
    }

    pub open(crate) spec fn key(self) -> u64 {
        self.zobrist_key
    }

    /// Ascending square indices of the pieces of `c`.
    pub open(crate) spec fn pieces(self, c: Color) -> Seq<int> {
        squares_in(self.occ(c))
    }

    /// Zobrist contribution of the piece on square index `i` (zero when empty).
    pub open(crate) spec fn square_key(self, i: int) -> u64 {
        match self.occupant(i) {
            Some(c) => spec_piece_key(c, i),
            None => 0u64,
        }
    }

    /// The position with square index `i` emptied.
    pub open(crate) spec fn cleared(self, i: int) -> Position {
        Position {
            white: self.white & !mask(i),
            black: self.black & !mask(i),
            side_to_move: self.side_to_move,
            zobrist_key: self.zobrist_key ^ self.square_key(i),
        }
    }

    /// The position with a piece of `c` placed on square index `i`.
    pub open(crate) spec fn placed(self, c: Color, i: int) -> Position {
        let p = self.cleared(i);
        Position {
            white: if c == Color::White { p.white | mask(i) } else { p.white },
            black: if c == Color::Black { p.black | mask(i) } else { p.black },
            side_to_move: p.side_to_move,
            zobrist_key: p.zobrist_key ^ spec_piece_key(c, i),
        }
    }

    /// The position with `c` to move.
    pub open(crate) spec fn with_side(self, c: Color) -> Position {
        if self.side_to_move == c {
            self
        } else {
            Position {
                white: self.white,
                black: self.black,
                side_to_move: c,
                zobrist_key: self.zobrist_key ^ SIDE_TO_MOVE_KEY,
            }
        }
    }

    /// The standard initial position: White on the first two ranks, Black on
    /// the last two, White to move.
    pub open(crate) spec fn spec_initial() -> Position {
        Position {
            white: 0xFFFFu64,
            black: 0xFFFF_0000_0000_0000u64,
            side_to_move: Color::White,
            zobrist_key: spec_zobrist_key(0xFFFFu64, 0xFFFF_0000_0000_0000u64, Color::White),
        }
    }

    /// Returns the standard initial position.
    pub fn initial() -> (p: Position)
        ensures
            p == Position::spec_initial(),
            forall|i: int| #[trigger] p.holds(Color::White, i) <==> 0 <= i < 16,
            forall|i: int| #[trigger] p.holds(Color::Black, i) <==> 48 <= i < 64,
            p.side() == Color::White,
            p.key() == spec_zobrist_key(p.occ(Color::White), p.occ(Color::Black), Color::White),
    {
        let mut white: u64 = 0;
        let mut black: u64 = 0;
        proof {
            assert forall|i: int| !#[trigger] bit(0u64, i) by {
                lemma_zero_bits(i);
            }
        }
        let mut rank: i8 = 0;
        while rank <= 1
            invariant
                0 <= rank <= 2,
                forall|i: int| #[trigger] bit(white, i) <==> 0 <= i < rank * 8,
            decreases 2 - rank,
        {
            let mut file: i8 = 0;
            while file < BOARD_SIZE
                invariant
                    0 <= rank <= 1,
                    0 <= file <= 8,
                    forall|i: int| #[trigger] bit(white, i) <==> 0 <= i < rank * 8 + file,
                decreases 8 - file,
            {
                let square = Square::from_coords(file, rank).unwrap();
                let ghost old_white = white;
                white = white | (1u64 << square.index());
                proof {
                    assert forall|i: int| #[trigger] bit(white, i) <==> 0 <= i < rank * 8 + file + 1 by {
                        lemma_clear_bits(old_white, square.idx(), i);
                    }
                }
                file += 1;
            }
            rank += 1;
        }
        let mut rank: i8 = 6;
        while rank <= 7
            invariant
                6 <= rank <= 8,
                forall|i: int| #[trigger] bit(black, i) <==> 48 <= i < rank * 8,
            decreases 8 - rank,
        {
            let mut file: i8 = 0;
            while file < BOARD_SIZE
                invariant
                    6 <= rank <= 7,
                    0 <= file <= 8,
                    forall|i: int| #[trigger] bit(black, i) <==> 48 <= i < rank * 8 + file,
                decreases 8 - file,
            {
                let square = Square::from_coords(file, rank).unwrap();
                let ghost old_black = black;
                black = black | (1u64 << square.index());
                proof {
                    assert forall|i: int| #[trigger] bit(black, i) <==> 48 <= i < rank * 8 + file + 1 by {
                        lemma_clear_bits(old_black, square.idx(), i);
                    }
                }
                file += 1;
            }
            rank += 1;
        }
        proof {
            lemma_disjoint_from_bits(white, black);
            assert forall|i: int| #[trigger] bit(white, i) == bit(0xFFFFu64, i) by {
                lemma_initial_bits(i);
            }
            assert forall|i: int| #[trigger] bit(black, i) == bit(0xFFFF_0000_0000_0000u64, i) by {
                lemma_initial_bits(i);
            }
            lemma_bits_equal(white, 0xFFFFu64);
            lemma_bits_equal(black, 0xFFFF_0000_0000_0000u64);
        }
        Position {
            white,
            black,
            side_to_move: Color::White,
            zobrist_key: compute_zobrist_key(white, black, Color::White),
        }
    }
}

/// The bits of the initial bitboards: the first two ranks and the last two.
pub proof fn lemma_initial_bits(i: int)
    ensures
        bit(0xFFFFu64, i) <==> 0 <= i < 16,
        bit(0xFFFF_0000_0000_0000u64, i) <==> 48 <= i < 64,
{
    if 0 <= i < 64 {
        let k = i as u64;
        assert((((0xFFFFu64 >> k) & 1u64 == 1u64) <==> k < 16) && (((0xFFFF_0000_0000_0000u64 >> k)
            & 1u64 == 1u64) <==> 48 <= k)) by (bit_vector)
            requires
                k < 64,
        ;
    }
}

/// Two bitboards with the same set bits are equal.
pub proof fn lemma_bits_equal(x: u64, y: u64)
    requires
        forall|i: int| #[trigger] bit(x, i) == bit(y, i),
    ensures
        x == y,
{
    assert forall|k: u64| k < 64 implies (#[trigger] ((x ^ y) >> k)) & 1u64 == 0u64 by {
        assert(bit(x, k as int) == bit(y, k as int));
        assert((((x ^ y) >> k) & 1u64 == 0u64) <==> (((x >> k) & 1u64 == 1u64) == ((y >> k) & 1u64
            == 1u64))) by (bit_vector);
    }
    lemma_zero_from_bits(x ^ y);
    assert(x ^ y == 0 ==> x == y) by (bit_vector);
}

/// Two bitboards with no common set bit are disjoint.
pub proof fn lemma_disjoint_from_bits(a: u64, b: u64)
    requires
        forall|i: int| !(#[trigger] bit(a, i) && bit(b, i)),
    ensures
        a & b == 0,
{
    assert forall|k: u64| k < 64 implies #[trigger] ((a & b) >> k) & 1u64 == 0u64 by {
        assert(!(bit(a, k as int) && bit(b, k as int)));
        assert(((a & b) >> k) & 1u64 == 0u64) by (bit_vector)
            requires
                !((a >> k) & 1u64 == 1u64 && (b >> k) & 1u64 == 1u64),
        ;
    }
    lemma_zero_from_bits(a & b);
}

/// A word whose every bit is clear is zero.
pub proof fn lemma_zero_from_bits(x: u64)
    requires
        forall|k: u64| k < 64 ==> (#[trigger] (x >> k)) & 1u64 == 0u64,
    ensures
        x == 0,
{
    assert(x == 0) by (bit_vector)
        requires
            (x >> 0u64) & 1 == 0, (x >> 1u64) & 1 == 0, (x >> 2u64) & 1 == 0, (x >> 3u64) & 1 == 0,
            (x >> 4u64) & 1 == 0, (x >> 5u64) & 1 == 0, (x >> 6u64) & 1 == 0, (x >> 7u64) & 1 == 0,
            (x >> 8u64) & 1 == 0, (x >> 9u64) & 1 == 0, (x >> 10u64) & 1 == 0, (x >> 11u64) & 1 == 0,
            (x >> 12u64) & 1 == 0, (x >> 13u64) & 1 == 0, (x >> 14u64) & 1 == 0, (x >> 15u64) & 1 == 0,
            (x >> 16u64) & 1 == 0, (x >> 17u64) & 1 == 0, (x >> 18u64) & 1 == 0, (x >> 19u64) & 1 == 0,
            (x >> 20u64) & 1 == 0, (x >> 21u64) & 1 == 0, (x >> 22u64) & 1 == 0, (x >> 23u64) & 1 == 0,
            (x >> 24u64) & 1 == 0, (x >> 25u64) & 1 == 0, (x >> 26u64) & 1 == 0, (x >> 27u64) & 1 == 0,
            (x >> 28u64) & 1 == 0, (x >> 29u64) & 1 == 0, (x >> 30u64) & 1 == 0, (x >> 31u64) & 1 == 0,
            (x >> 32u64) & 1 == 0, (x >> 33u64) & 1 == 0, (x >> 34u64) & 1 == 0, (x >> 35u64) & 1 == 0,
            (x >> 36u64) & 1 == 0, (x >> 37u64) & 1 == 0, (x >> 38u64) & 1 == 0, (x >> 39u64) & 1 == 0,
            (x >> 40u64) & 1 == 0, (x >> 41u64) & 1 == 0, (x >> 42u64) & 1 == 0, (x >> 43u64) & 1 == 0,
            (x >> 44u64) & 1 == 0, (x >> 45u64) & 1 == 0, (x >> 46u64) & 1 == 0, (x >> 47u64) & 1 == 0,
            (x >> 48u64) & 1 == 0, (x >> 49u64) & 1 == 0, (x >> 50u64) & 1 == 0, (x >> 51u64) & 1 == 0,
            (x >> 52u64) & 1 == 0, (x >> 53u64) & 1 == 0, (x >> 54u64) & 1 == 0, (x >> 55u64) & 1 == 0,
            (x >> 56u64) & 1 == 0, (x >> 57u64) & 1 == 0, (x >> 58u64) & 1 == 0, (x >> 59u64) & 1 == 0,
            (x >> 60u64) & 1 == 0, (x >> 61u64) & 1 == 0, (x >> 62u64) & 1 == 0, (x >> 63u64) & 1 == 0,
    ;
}

} // verus!

verus! {

impl Default for Position {
    fn default() -> (p: Position)
        ensures
            p == Position::spec_initial(),
    {
        Position::initial()
    }
}

impl Clone for Position {
    fn clone(&self) -> (r: Position)
        ensures
            r == *self,
    {
        proof {
            use_type_invariant(self);
        }
        Position {
            white: self.white,
            black: self.black,
            side_to_move: self.side_to_move,
            zobrist_key: self.zobrist_key,
        }
    }
}

impl Position {
    /// Returns an empty position with the given side to move.
    pub fn empty(side_to_move: Color) -> (p: Position)
        ensures
            forall|c: Color, i: int| !#[trigger] p.holds(c, i),
            p.side() == side_to_move,
            p.key() == spec_zobrist_key(0, 0, side_to_move),
    {
        proof {
            assert(0u64 & 0u64 == 0u64) by (bit_vector);
            assert forall|i: int| !#[trigger] bit(0u64, i) by {
                lemma_zero_bits(i);
            }
        }
        Position {
            white: 0,
            black: 0,
            side_to_move,
            zobrist_key: compute_zobrist_key(0, 0, side_to_move),
        }
    }

    /// Returns the side to move.
    pub fn side_to_move(&self) -> (c: Color)
        ensures
            c == self.side(),
    {
        self.side_to_move
    }

    /// Sets the side to move.
    pub fn set_side_to_move(&mut self, color: Color)
        ensures
            *final(self) == old(self).with_side(color),
    {
        proof {
            use_type_invariant(&*self);
        }
        if self.side_to_move == color {
            return;
        }
        proof {
            lemma_with_side_key(*self, color);
        }
        *self = Position {
            white: self.white,
            black: self.black,
            side_to_move: color,
            zobrist_key: self.zobrist_key ^ SIDE_TO_MOVE_KEY,
        };
    }

    /// Returns the incremental Zobrist key for the position.
    pub fn zobrist_key(&self) -> (k: u64)
        ensures
            k == self.key(),
            k == spec_zobrist_key(self.occ(Color::White), self.occ(Color::Black), self.side()),
    {
        proof {
            use_type_invariant(self);
        }
        self.zobrist_key
    }

    /// Returns the occupancy bitboard of both sides.
    pub fn occupancy(&self) -> (b: u64)
        ensures
            b == self.occ(Color::White) | self.occ(Color::Black),
    {
        self.white | self.black
    }

    /// Returns the occupancy bitboard for one side.
    pub fn occupancy_of(&self, color: Color) -> (b: u64)
        ensures
            b == self.occ(color),
    {
        match color {
            Color::White => self.white,
            Color::Black => self.black,
        }
    }

    /// Returns the piece color on a square, if any.
    pub fn piece_at(&self, square: Square) -> (r: Option<Color>)
        ensures
            r == self.occupant(square.idx()),
            r == Some(Color::White) <==> self.holds(Color::White, square.idx()),
            r == Some(Color::Black) <==> self.holds(Color::Black, square.idx()),
    {
        proof {
            use_type_invariant(self);
            lemma_disjoint_bits(self.white, self.black, square.idx());
        }
        let i = square.index();
        let mask = 1u64 << i;
        proof {
            lemma_mask_bit(self.white, i as int);
            lemma_mask_bit(self.black, i as int);
        }
        if self.white & mask != 0 {
            Some(Color::White)
        } else if self.black & mask != 0 {
            Some(Color::Black)
        } else {
            None
        }
    }

    /// Returns whether `color` occupies `square`.
    pub fn has_piece(&self, color: Color, square: Square) -> (b: bool)
        ensures
            b == self.holds(color, square.idx()),
    {
        let i = square.index();
        proof {
            lemma_mask_bit(self.occ(color), i as int);
        }
        self.occupancy_of(color) & (1u64 << i) != 0
    }

    /// Returns the number of pieces owned by one side.
    pub fn piece_count(&self, color: Color) -> (n: usize)
        ensures
            n == self.pieces(color).len(),
    {
        squares_from_bits(self.occupancy_of(color)).len()
    }

    /// Places a piece on a square, replacing any previous occupant.
    pub fn set_piece(&mut self, color: Color, square: Square)
        ensures
            *final(self) == old(self).placed(color, square.idx()),
    {
        proof {
            use_type_invariant(&*self);
        }
        self.clear_square(square);
        let i = square.index();
        let mask = 1u64 << i;
        proof {
            use_type_invariant(&*self);
            let w = self.white;
            let b = self.black;
            let ow = old(self).white;
            let ob = old(self).black;
            let k = i as u64;
            assert(w & (1u64 << k) == 0 && b & (1u64 << k) == 0) by (bit_vector)
                requires
                    k < 64,
                    w == ow & !(1u64 << k),
                    b == ob & !(1u64 << k),
            ;
            assert((w | (1u64 << k)) & b == 0 && w & (b | (1u64 << k)) == 0) by (bit_vector)
                requires
                    w & b == 0,
                    w & (1u64 << k) == 0,
                    b & (1u64 << k) == 0,
            ;
            use_type_invariant(&*self);
        }
        let key = self.zobrist_key ^ zobrist_piece(color, i as usize);
        proof {
            lemma_placed_key(*old(self), color, i as int, old(self).side());
        }
        match color {
            Color::White => {
                *self = Position { white: self.white | mask, black: self.black, side_to_move: self.side_to_move, zobrist_key: key };
            },
            Color::Black => {
                *self = Position { white: self.white, black: self.black | mask, side_to_move: self.side_to_move, zobrist_key: key };
            },
        }
    }

    /// Removes any piece from a square.
    pub fn clear_square(&mut self, square: Square)
        ensures
            *final(self) == old(self).cleared(square.idx()),
    {
        proof {
            use_type_invariant(&*self);
        }
        let i = square.index();
        let mask = 1u64 << i;
        proof {
            lemma_mask_bit(self.white, i as int);
            lemma_mask_bit(self.black, i as int);
            let w = self.white;
            let b = self.black;
            let k = i as u64;
            assert((w & !(1u64 << k)) & b == 0 && w & (b & !(1u64 << k)) == 0) by (bit_vector)
                requires
                    w & b == 0,
            ;
            assert(w & (1u64 << k) != 0 ==> b & !(1u64 << k) == b) by (bit_vector)
                requires
                    w & b == 0,
                    k < 64,
            ;
            assert(w & (1u64 << k) == 0 ==> w & !(1u64 << k) == w) by (bit_vector);
            assert(b & (1u64 << k) == 0 ==> b & !(1u64 << k) == b) by (bit_vector);
            let z = self.zobrist_key;
            assert(z ^ 0u64 == z) by (bit_vector);
        }
        proof {
            lemma_cleared_key(*self, i as int, self.side());
        }
        if self.white & mask != 0 {
            *self = Position {
                white: self.white & !mask,
                black: self.black,
                side_to_move: self.side_to_move,
                zobrist_key: self.zobrist_key ^ zobrist_piece(Color::White, i as usize),
            };
        } else if self.black & mask != 0 {
            *self = Position {
                white: self.white,
                black: self.black & !mask,
                side_to_move: self.side_to_move,
                zobrist_key: self.zobrist_key ^ zobrist_piece(Color::Black, i as usize),
            };
        }
    }

    /// Returns all occupied squares for one side, in ascending index order.
    pub fn squares_of(&self, color: Color) -> (r: Vec<Square>)
        ensures
            r.len() == self.pieces(color).len(),
            forall|k: int| 0 <= k < r.len() ==> #[trigger] r[k].idx() == self.pieces(color)[k],
    {
        squares_from_bits(self.occupancy_of(color))
    }
}

/// Disjoint bitboards never share a set bit.
pub proof fn lemma_disjoint_bits(a: u64, b: u64, i: int)
    requires
        a & b == 0,
    ensures
        !(bit(a, i) && bit(b, i)),
{
    if 0 <= i < 64 {
        let k = i as u64;
        assert(!((a >> k) & 1u64 == 1u64 && (b >> k) & 1u64 == 1u64)) by (bit_vector)
            requires
                a & b == 0,
        ;
    }
}

} // verus!

verus! {

/// Whether distinct squares `s1` and `s2`, neither of them `from`, have their
/// midpoint exactly halfway between `from` and `to`.
pub open spec fn pair_supports(from: int, to: int, s1: int, s2: int) -> bool {
    &&& s1 != s2
    &&& s1 != from
    &&& s2 != from
    &&& file_of(s1) + file_of(s2) == file_of(from) + file_of(to)
    &&& rank_of(s1) + rank_of(s2) == rank_of(from) + rank_of(to)
}

/// Slot of a move in a `64 * 64` table.
pub open spec fn slot(from: int, to: int) -> int {
    from * 64 + to
}

/// Number of `true` entries in a sequence.
pub open spec fn count_true(s: Seq<bool>) -> nat
    decreases s.len(),
{
    if s.len() == 0 {
        0
    } else {
        count_true(s.drop_last()) + if s.last() {
            1nat
        } else {
            0nat
        }
    }
}

/// No more flags are set than there are flags.
pub proof fn lemma_count_true_bound(s: Seq<bool>)
    ensures
        count_true(s) <= s.len(),
    decreases s.len(),
{
    if s.len() > 0 {
        lemma_count_true_bound(s.drop_last());
    }
}

/// Setting a flag that was clear counts one more.
pub proof fn lemma_count_true_update(s: Seq<bool>, i: int)
    requires
        0 <= i < s.len(),
        !s[i],
    ensures
        count_true(s.update(i, true)) == count_true(s) + 1,
    decreases s.len(),
{
    let u = s.update(i, true);
    if i == s.len() - 1 {
        assert(u.drop_last() =~= s.drop_last());
    } else {
        lemma_count_true_update(s.drop_last(), i);
        assert(u.drop_last() =~= s.drop_last().update(i, true));
    }
}

/// A pivot together with the supporting pair that defines it.
#[derive(Clone, Copy, Debug, PartialEq, Eq, Hash, Structural)]
pub struct PivotEntry {
    /// The pivot derived from `supports`.
    pub pivot: Pivot,
    /// The support pair that defines the pivot.
    pub supports: SupportPair,
}

/// Lexicographic order on pairs of integers.
pub open spec fn pair_lt(a1: int, b1: int, a2: int, b2: int) -> bool {
    a1 < a2 || (a1 == a2 && b1 < b2)
}

/// Lexicographic order on triples of integers.
pub open spec fn triple_lt(a1: int, b1: int, c1: int, a2: int, b2: int, c2: int) -> bool {
    a1 < a2 || (a1 == a2 && b1 < b2) || (a1 == a2 && b1 == b2 && c1 < c2)
}

/// Target square index of reflecting square index `f` through the pivot with
/// doubled coordinates `(pf, pr)`, if it lands on the board.
pub open spec fn reflect_target(pf: int, pr: int, f: int) -> Option<int> {
    if on_board(pf - file_of(f), pr - rank_of(f)) {
        Some(index_of(pf - file_of(f), pr - rank_of(f)))
    } else {
        None
    }
}

impl Position {
    /// Whether two pieces of `c` support the move `from`-`to`.
    pub open(crate) spec fn has_support(self, c: Color, from: int, to: int) -> bool {
        exists|s1: int, s2: int|
            #![trigger self.holds(c, s1), self.holds(c, s2)]
            self.holds(c, s1) && self.holds(c, s2) && pair_supports(from, to, s1, s2)
    }

    /// Whether `from`-`to` is a legal move for `c` in this position.
    pub open(crate) spec fn legal_for(self, c: Color, from: int, to: int) -> bool {
        &&& 0 <= to < 64
        &&& from != to
        &&& self.holds(c, from)
        &&& !self.holds(c, to)
        &&& self.has_support(c, from, to)
    }

    /// Whether `m` is a legal move for the side to move.
    pub open(crate) spec fn is_legal(self, m: Move) -> bool {
        self.legal_for(self.side(), m.from.idx(), m.to.idx())
    }

    /// Whether the side to move has at least one legal move.
    pub open(crate) spec fn can_move(self) -> bool {
        exists|f: int, t: int| #[trigger] self.legal_for(self.side(), f, t)
    }

    /// Legal for `c`, and a capture when `captures_only` holds.
    pub open(crate) spec fn gen_ok(self, c: Color, captures_only: bool, from: int, to: int) -> bool {
        self.legal_for(c, from, to) && (captures_only ==> self.holds(c.other(), to))
    }

    /// Destination the generator considers for support pair `(a, b)` and attacker `k`
    /// (positions in the ascending piece list), if the move passes the filters.
    pub open(crate) spec fn gen_move(self, c: Color, captures_only: bool, a: int, b: int, k: int) -> Option<int> {
        let p = self.pieces(c);
        let f = p[k];
        match reflect_target(file_of(p[a]) + file_of(p[b]), rank_of(p[a]) + rank_of(p[b]), f) {
            Some(t) => if t != f && !self.holds(c, t) && (captures_only ==> self.holds(c.other(), t)) {
                Some(t)
            } else {
                None
            },
            None => None,
        }
    }

    /// Invariant of the move generator after all triples before `(i, j, kk)`.
    pub open(crate) spec fn gen_inv(
        self,
        c: Color,
        captures_only: bool,
        seen: Seq<bool>,
        moves: Seq<Move>,
        i: int,
        j: int,
        kk: int,
    ) -> bool {
        let n = self.pieces(c).len();
        &&& seen.len() == 4096
        &&& moves.len() == count_true(seen)
        &&& forall|m: int| 0 <= m < moves.len() ==> #[trigger] seen[slot(moves[m].from.idx(), moves[m].to.idx())]
        &&& forall|m: int| 0 <= m < moves.len() ==> self.gen_ok(c, captures_only, #[trigger] moves[m].from.idx(), moves[m].to.idx())
        &&& forall|s: int| 0 <= s < 4096 && #[trigger] seen[s] ==> exists|m: int| 0 <= m < moves.len() && slot(moves[m].from.idx(), moves[m].to.idx()) == s
        &&& forall|m1: int, m2: int| 0 <= m1 < moves.len() && 0 <= m2 < moves.len() && m1 != m2 ==> #[trigger] moves[m1] != #[trigger] moves[m2]
        &&& forall|a: int, b: int, k: int|
            #![trigger self.gen_move(c, captures_only, a, b, k)]
            0 <= a < b < n && 0 <= k < n && triple_lt(a, b, k, i, j, kk) && self.gen_move(c, captures_only, a, b, k) is Some
                ==> seen[slot(self.pieces(c)[k], self.gen_move(c, captures_only, a, b, k)->0)]
    }
}

impl Position {
    /// Whether the triple `(a, b, k)` is the first, in generation order, to
    /// produce the move `f`-`t` for `c`: pieces `a < b` (positions in the
    /// ascending piece list) support piece `k` onto `t`, and no earlier triple
    /// produces the same move.
    pub open(crate) spec fn first_gen(self, c: Color, captures_only: bool, f: int, t: int, a: int, b: int, k: int) -> bool {
        let p = self.pieces(c);
        let n = p.len();
        &&& 0 <= a < b < n
        &&& 0 <= k < n
        &&& p[k] == f
        &&& self.gen_move(c, captures_only, a, b, k) == Some(t)
        &&& forall|a2: int, b2: int, k2: int|
            #![trigger self.gen_move(c, captures_only, a2, b2, k2)]
            0 <= a2 < b2 < n && 0 <= k2 < n && triple_lt(a2, b2, k2, a, b, k) && p[k2] == f
                ==> self.gen_move(c, captures_only, a2, b2, k2) != Some(t)
    }

    /// `firsts` gives the first producing triple of each of `moves`, in
    /// increasing order.
    pub open(crate) spec fn ordered_by_firsts(self, c: Color, captures_only: bool, moves: Seq<Move>, firsts: Seq<(int, int, int)>) -> bool {
        &&& firsts.len() == moves.len()
        &&& forall|x: int|
            0 <= x < moves.len() ==> self.first_gen(
                c,
                captures_only,
                moves[x].from.idx(),
                moves[x].to.idx(),
                (#[trigger] firsts[x]).0,
                firsts[x].1,
                firsts[x].2,
            )
        &&& forall|x: int, y: int|
            0 <= x < y < moves.len() ==> triple_lt(
                (#[trigger] firsts[x]).0,
                firsts[x].1,
                firsts[x].2,
                (#[trigger] firsts[y]).0,
                firsts[y].1,
                firsts[y].2,
            )
    }

    /// The moves are listed in the order in which the generator first meets
    /// them: pairs of pieces by ascending square indices, then attackers by
    /// ascending square index.
    pub open(crate) spec fn in_generation_order(self, c: Color, captures_only: bool, moves: Seq<Move>) -> bool {
        exists|firsts: Seq<(int, int, int)>| #[trigger] self.ordered_by_firsts(c, captures_only, moves, firsts)
    }

    /// The moves found so far are listed in the order of their first
    /// producing triples, all before `(i, j, kk)`.
    pub open(crate) spec fn gen_order(
        self,
        c: Color,
        captures_only: bool,
        moves: Seq<Move>,
        firsts: Seq<(int, int, int)>,
        i: int,
        j: int,
        kk: int,
    ) -> bool {
        &&& firsts.len() == moves.len()
        &&& forall|x: int|
            0 <= x < moves.len() ==> self.first_gen(
                c,
                captures_only,
                moves[x].from.idx(),
                moves[x].to.idx(),
                (#[trigger] firsts[x]).0,
                firsts[x].1,
                firsts[x].2,
            )
        &&& forall|x: int, y: int|
            0 <= x < y < moves.len() ==> triple_lt(
                (#[trigger] firsts[x]).0,
                firsts[x].1,
                firsts[x].2,
                (#[trigger] firsts[y]).0,
                firsts[y].1,
                firsts[y].2,
            )
        &&& forall|x: int| 0 <= x < moves.len() ==> triple_lt((#[trigger] firsts[x]).0, firsts[x].1, firsts[x].2, i, j, kk)
    }

    /// A move produces by one triple has exactly one first producing triple.
    pub(crate) proof fn lemma_first_gen_unique(
        self,
        c: Color,
        captures_only: bool,
        f: int,
        t: int,
        a1: int,
        b1: int,
        k1: int,
        a2: int,
        b2: int,
        k2: int,
    )
        requires
            self.first_gen(c, captures_only, f, t, a1, b1, k1),
            self.first_gen(c, captures_only, f, t, a2, b2, k2),
        ensures
            a1 == a2 && b1 == b2 && k1 == k2,
    {
        if triple_lt(a1, b1, k1, a2, b2, k2) {
            assert(self.gen_move(c, captures_only, a1, b1, k1) == Some(t));
        } else if triple_lt(a2, b2, k2, a1, b1, k1) {
            assert(self.gen_move(c, captures_only, a2, b2, k2) == Some(t));
        }
    }

    /// A move met for the first time at `(i, j, k)` has that triple as its
    /// first producing triple.
    proof fn lemma_first_gen_here(self, c: Color, captures_only: bool, seen: Seq<bool>, moves: Seq<Move>, i: int, j: int, k: int)
        requires
            self.gen_inv(c, captures_only, seen, moves, i, j, k),
            0 <= i < j < self.pieces(c).len(),
            0 <= k < self.pieces(c).len(),
            self.gen_move(c, captures_only, i, j, k) is Some,
            !seen[slot(self.pieces(c)[k], self.gen_move(c, captures_only, i, j, k)->0)],
        ensures
            self.first_gen(c, captures_only, self.pieces(c)[k], self.gen_move(c, captures_only, i, j, k)->0, i, j, k),
    {
        let p = self.pieces(c);
        let t = self.gen_move(c, captures_only, i, j, k)->0;
        assert forall|a2: int, b2: int, k2: int|
            #![trigger self.gen_move(c, captures_only, a2, b2, k2)]
            0 <= a2 < b2 < p.len() && 0 <= k2 < p.len() && triple_lt(a2, b2, k2, i, j, k) && p[k2] == p[k]
                implies self.gen_move(c, captures_only, a2, b2, k2) != Some(t) by {
            if self.gen_move(c, captures_only, a2, b2, k2) == Some(t) {
                assert(seen[slot(p[k2], t)]);
            }
        }
    }

    /// Moving past a triple that adds nothing keeps the order facts.
    proof fn lemma_order_skip(self, c: Color, co: bool, moves: Seq<Move>, firsts: Seq<(int, int, int)>, i: int, j: int, k: int)
        requires
            self.gen_order(c, co, moves, firsts, i, j, k),
        ensures
            self.gen_order(c, co, moves, firsts, i, j, k + 1),
    {
        assert forall|x: int| 0 <= x < moves.len() implies triple_lt((#[trigger] firsts[x]).0, firsts[x].1, firsts[x].2, i, j, k + 1) by {
            assert(triple_lt(firsts[x].0, firsts[x].1, firsts[x].2, i, j, k));
        }
    }

    /// Adding the move first met at `(i, j, k)` keeps the order facts.
    proof fn lemma_order_push(self, c: Color, co: bool, moves: Seq<Move>, firsts: Seq<(int, int, int)>, m: Move, i: int, j: int, k: int)
        requires
            self.gen_order(c, co, moves, firsts, i, j, k),
            self.first_gen(c, co, m.from.idx(), m.to.idx(), i, j, k),
        ensures
            self.gen_order(c, co, moves.push(m), firsts.push((i, j, k)), i, j, k + 1),
    {
        let ms = moves.push(m);
        let fs = firsts.push((i, j, k));
        assert forall|x: int| 0 <= x < ms.len() implies self.first_gen(c, co, ms[x].from.idx(), ms[x].to.idx(), (#[trigger] fs[x]).0, fs[x].1, fs[x].2) by {
            if x < moves.len() {
                assert(ms[x] == moves[x] && fs[x] == firsts[x]);
            }
        }
        assert forall|x: int, y: int| 0 <= x < y < ms.len() implies triple_lt((#[trigger] fs[x]).0, fs[x].1, fs[x].2, (#[trigger] fs[y]).0, fs[y].1, fs[y].2) by {
            assert(fs[x] == firsts[x]);
            if y < moves.len() {
                assert(fs[y] == firsts[y]);
            } else {
                assert(triple_lt(firsts[x].0, firsts[x].1, firsts[x].2, i, j, k));
            }
        }
        assert forall|x: int| 0 <= x < ms.len() implies triple_lt((#[trigger] fs[x]).0, fs[x].1, fs[x].2, i, j, k + 1) by {
            if x < moves.len() {
                assert(fs[x] == firsts[x]);
                assert(triple_lt(firsts[x].0, firsts[x].1, firsts[x].2, i, j, k));
            }
        }
    }

    /// Finishing the attackers of one pair keeps the order facts for the next pair.
    proof fn lemma_order_next_pair(self, c: Color, co: bool, moves: Seq<Move>, firsts: Seq<(int, int, int)>, i: int, j: int)
        requires
            self.gen_order(c, co, moves, firsts, i, j, self.pieces(c).len() as int),
        ensures
            self.gen_order(c, co, moves, firsts, i, j + 1, 0),
    {
        assert forall|x: int| 0 <= x < moves.len() implies triple_lt((#[trigger] firsts[x]).0, firsts[x].1, firsts[x].2, i, j + 1, 0) by {
            assert(triple_lt(firsts[x].0, firsts[x].1, firsts[x].2, i, j, self.pieces(c).len() as int));
            assert(self.first_gen(c, co, moves[x].from.idx(), moves[x].to.idx(), firsts[x].0, firsts[x].1, firsts[x].2));
        }
    }

    /// Finishing the pairs with first piece `i` keeps the order facts for the next one.
    proof fn lemma_order_next_first(self, c: Color, co: bool, moves: Seq<Move>, firsts: Seq<(int, int, int)>, i: int, j: int)
        requires
            self.gen_order(c, co, moves, firsts, i, j, 0),
            j >= self.pieces(c).len(),
        ensures
            self.gen_order(c, co, moves, firsts, i + 1, i + 2, 0),
    {
        assert forall|x: int| 0 <= x < moves.len() implies triple_lt((#[trigger] firsts[x]).0, firsts[x].1, firsts[x].2, i + 1, i + 2, 0) by {
            assert(triple_lt(firsts[x].0, firsts[x].1, firsts[x].2, i, j, 0));
            assert(self.first_gen(c, co, moves[x].from.idx(), moves[x].to.idx(), firsts[x].0, firsts[x].1, firsts[x].2));
        }
    }
}

/// A square index is rebuilt from its file and rank, which lie on the board.
pub proof fn lemma_idx_roundtrip(x: int)
    requires
        0 <= x < 64,
    ensures
        index_of(file_of(x), rank_of(x)) == x,
        on_board(file_of(x), rank_of(x)),
{
}

} // verus!

verus! {

/// With every flag clear none is counted.
pub proof fn lemma_count_true_all_false(s: Seq<bool>)
    requires
        forall|i: int| 0 <= i < s.len() ==> !s[i],
    ensures
        count_true(s) == 0,
    decreases s.len(),
{
    if s.len() > 0 {
        lemma_count_true_all_false(s.drop_last());
    }
}

impl Position {
    /// Generates the moves of the side to move (only captures when
    /// `captures_only`), de-duplicated, in generation order: for each pair of
    /// own pieces in ascending order, every own piece reflected through their
    /// pivot.
    pub(crate) fn generate_moves(&self, captures_only: bool) -> (r: Vec<Move>)
        ensures
            r.len() <= 4096,
            forall|m1: int, m2: int|
                0 <= m1 < r.len() && 0 <= m2 < r.len() && m1 != m2 ==> #[trigger] r[m1] != #[trigger] r[m2],
            forall|m: int|
                0 <= m < r.len() ==> self.gen_ok(
                    self.side(),
                    captures_only,
                    #[trigger] r[m].from.idx(),
                    r[m].to.idx(),
                ),
            forall|f: int, t: int| #[trigger]
                self.gen_ok(self.side(), captures_only, f, t) ==> exists|m: int|
                    0 <= m < r.len() && r[m].from.idx() == f && r[m].to.idx() == t,
            self.in_generation_order(self.side(), captures_only, r@),
            forall|x: int, y: int, a1: int, b1: int, k1: int, a2: int, b2: int, k2: int|
                0 <= x < y < r.len() && #[trigger] self.first_gen(
                    self.side(),
                    captures_only,
                    r[x].from.idx(),
                    r[x].to.idx(),
                    a1,
                    b1,
                    k1,
                ) && #[trigger] self.first_gen(self.side(), captures_only, r[y].from.idx(), r[y].to.idx(), a2, b2, k2)
                    ==> triple_lt(a1, b1, k1, a2, b2, k2),
    {
        let color = self.side_to_move;
        let opponent = color.opponent();
        let pieces = self.squares_of(color);
        let own_occupancy = self.occupancy_of(color);
        let opponent_occupancy = self.occupancy_of(opponent);
        let n = pieces.len();
        let mut seen: Vec<bool> = vec![false; 4096];
        let mut moves: Vec<Move> = Vec::new();
        let ghost pc = self.pieces(color);
        let ghost mut firsts: Seq<(int, int, int)> = Seq::empty();
        proof {
            lemma_squares_in(self.occ(color));
            assert forall|x: int| 0 <= x < seen.len() implies !seen@[x] by {
                assert(cloned::<bool>(false, seen@[x]));
            }
            lemma_count_true_all_false(seen@);
        }
        let mut i: usize = 0;
        while i < n
            invariant
                n == pieces.len(),
                pc == self.pieces(color),
                n == pc.len(),
                color == self.side(),
                opponent == color.other(),
                own_occupancy == self.occ(color),
                opponent_occupancy == self.occ(opponent),
                forall|x: int| 0 <= x < n ==> #[trigger] pieces[x].idx() == pc[x],
                0 <= i <= n,
                self.gen_inv(color, captures_only, seen@, moves@, i as int, i + 1, 0),
                self.gen_order(color, captures_only, moves@, firsts, i as int, i + 1, 0),
            decreases n - i,
        {
            let mut j: usize = i + 1;
            while j < n
                invariant
                    n == pieces.len(),
                    pc == self.pieces(color),
                    n == pc.len(),
                    color == self.side(),
                    opponent == color.other(),
                    own_occupancy == self.occ(color),
                    opponent_occupancy == self.occ(opponent),
                    forall|x: int| 0 <= x < n ==> #[trigger] pieces[x].idx() == pc[x],
                    i < n,
                    i + 1 <= j <= n,
                    self.gen_inv(color, captures_only, seen@, moves@, i as int, j as int, 0),
                    self.gen_order(color, captures_only, moves@, firsts, i as int, j as int, 0),
                decreases n - j,
            {
                let pivot = SupportPair::new(pieces[i], pieces[j]).pivot();
                let mut k: usize = 0;
                while k < n
                    invariant
                        n == pieces.len(),
                        pc == self.pieces(color),
                        n == pc.len(),
                        color == self.side(),
                        opponent == color.other(),
                        own_occupancy == self.occ(color),
                        opponent_occupancy == self.occ(opponent),
                        forall|x: int| 0 <= x < n ==> #[trigger] pieces[x].idx() == pc[x],
                        i < j < n,
                        0 <= k <= n,
                        pivot.ft() == file_of(pc[i as int]) + file_of(pc[j as int]),
                        pivot.rt() == rank_of(pc[i as int]) + rank_of(pc[j as int]),
                        self.gen_inv(color, captures_only, seen@, moves@, i as int, j as int, k as int),
                        self.gen_order(color, captures_only, moves@, firsts, i as int, j as int, k as int),
                    decreases n - k,
                {
                    let attacker = pieces[k];
                    let ghost f = pc[k as int];
                    let ghost old_seen = seen@;
                    let ghost old_moves = moves@;
                    match pivot.reflect(attacker) {
                        Some(to) => {
                            let to_index = to.index();
                            let target_mask = 1u64 << to_index;
                            proof {
                                lemma_mask_bit(own_occupancy, to_index as int);
                                lemma_mask_bit(opponent_occupancy, to_index as int);
                                lemma_idx_roundtrip(to.idx());
                                assert(reflect_target(pivot.ft(), pivot.rt(), f) == Some(to.idx()));
                            }
                            if !(to == attacker || own_occupancy & target_mask != 0 || (captures_only
                                && opponent_occupancy & target_mask == 0)) {
                                let slot_index = (attacker.index() as usize) * 64 + (to_index as usize);
                                let ghost t = to.idx();
                                assert(self.gen_move(color, captures_only, i as int, j as int, k as int)
                                    == Some(t));
                                if !seen[slot_index] {
                                    proof {
                                        self.lemma_first_gen_here(color, captures_only, seen@, moves@, i as int, j as int, k as int);
                                        lemma_count_true_update(seen@, slot_index as int);
                                        self.lemma_generated_is_legal(
                                            color,
                                            captures_only,
                                            i as int,
                                            j as int,
                                            k as int,
                                        );
                                    }
                                    seen.set(slot_index, true);
                                    let ghost old_firsts = firsts;
                                    moves.push(Move::new(attacker, to));
                                    proof {
                                        self.lemma_order_push(color, captures_only, old_moves, old_firsts, moves@[moves@.len() - 1], i as int, j as int, k as int);
                                        firsts = old_firsts.push((i as int, j as int, k as int));
                                        assert(seen@ == old_seen.update(slot_index as int, true));
                                        let nm = moves@.len() - 1;
                                        assert(moves@[nm].from.idx() == f && moves@[nm].to.idx() == t);
                                        assert forall|m: int| 0 <= m < old_moves.len() implies slot(
                                            old_moves[m].from.idx(),
                                            old_moves[m].to.idx(),
                                        ) != slot_index by {
                                            assert(old_seen[slot(
                                                old_moves[m].from.idx(),
                                                old_moves[m].to.idx(),
                                            )]);
                                        }
                                        assert forall|s: int|
                                            0 <= s < 4096 && #[trigger] seen@[s] implies exists|m: int|
                                            0 <= m < moves@.len() && slot(
                                                moves@[m].from.idx(),
                                                moves@[m].to.idx(),
                                            ) == s by {
                                            if s == slot_index {
                                                assert(slot(moves@[nm].from.idx(), moves@[nm].to.idx())
                                                    == s);
                                            } else {
                                                assert(old_seen[s]);
                                                let m = choose|m: int|
                                                    0 <= m < old_moves.len() && slot(
                                                        old_moves[m].from.idx(),
                                                        old_moves[m].to.idx(),
                                                    ) == s;
                                                assert(moves@[m] == old_moves[m]);
                                            }
                                        }
                                        assert forall|m1: int, m2: int|
                                            0 <= m1 < moves@.len() && 0 <= m2 < moves@.len() && m1
                                                != m2 implies #[trigger] moves@[m1]
                                            != #[trigger] moves@[m2] by {
                                            if m1 == nm {
                                                assert(slot(moves@[m2].from.idx(), moves@[m2].to.idx())
                                                    != slot_index);
                                            } else if m2 == nm {
                                                assert(slot(moves@[m1].from.idx(), moves@[m1].to.idx())
                                                    != slot_index);
                                            } else {
                                                assert(moves@[m1] == old_moves[m1]);
                                                assert(moves@[m2] == old_moves[m2]);
                                            }
                                        }
                                        assert(moves@.len() == count_true(seen@));
                                        assert forall|m: int| 0 <= m < moves@.len() implies #[trigger] seen@[slot(moves@[m].from.idx(), moves@[m].to.idx())] by {
                                            if m < nm {
                                                assert(moves@[m] == old_moves[m]);
                                                assert(old_seen[slot(old_moves[m].from.idx(), old_moves[m].to.idx())]);
                                            }
                                        }
                                        assert forall|m: int| 0 <= m < moves@.len() implies self.gen_ok(color, captures_only, #[trigger] moves@[m].from.idx(), moves@[m].to.idx()) by {
                                            if m < nm {
                                                assert(moves@[m] == old_moves[m]);
                                            }
                                        }
                                        let nn = pc.len();
                                        assert forall|a: int, b: int, kx: int|
                                            #![trigger self.gen_move(color, captures_only, a, b, kx)]
                                            0 <= a < b < nn && 0 <= kx < nn && triple_lt(a, b, kx, i as int, j as int, k + 1) && self.gen_move(color, captures_only, a, b, kx) is Some
                                            implies seen@[slot(pc[kx], self.gen_move(color, captures_only, a, b, kx)->0)] by {
                                            let x = slot(pc[kx], self.gen_move(color, captures_only, a, b, kx)->0);
                                            lemma_squares_in(self.occ(color));
                                            assert(0 <= pc[kx] < 64);
                                            assert(0 <= x < 4096);
                                            if triple_lt(a, b, kx, i as int, j as int, k as int) {
                                                assert(old_seen[x]);
                                                assert(seen@[x]);
                                            } else {
                                                assert(a == i && b == j && kx == k);
                                                assert(x == slot_index);
                                            }
                                        }
                                    }
                                }
                            } else {
                                assert(self.gen_move(color, captures_only, i as int, j as int, k as int)
                                    is None);
                            }
                        },
                        None => {
                            assert(self.gen_move(color, captures_only, i as int, j as int, k as int)
                                is None);
                        },
                    }
                    proof {
                        if moves@.len() == old_moves.len() {
                            self.lemma_order_skip(color, captures_only, moves@, firsts, i as int, j as int, k as int);
                        }
                    }
                    k += 1;
                }
                proof {
                    self.lemma_order_next_pair(color, captures_only, moves@, firsts, i as int, j as int);
                }
                j += 1;
            }
            proof {
                self.lemma_order_next_first(color, captures_only, moves@, firsts, i as int, j as int);
            }
            i += 1;
        }
        proof {
            lemma_count_true_bound(seen@);
            assert forall|f: int, t: int| #[trigger]
                self.gen_ok(color, captures_only, f, t) implies exists|m: int|
                0 <= m < moves@.len() && moves@[m].from.idx() == f && moves@[m].to.idx() == t by {
                self.lemma_legal_is_generated(color, captures_only, f, t);
                let (a, b, k) = choose|a: int, b: int, k: int|
                    0 <= a < b < n && 0 <= k < n && self.gen_move(color, captures_only, a, b, k) == Some(t)
                        && pc[k] == f;
                assert(seen@[slot(pc[k], t)]);
                let m = choose|m: int|
                    0 <= m < moves@.len() && slot(moves@[m].from.idx(), moves@[m].to.idx()) == slot(f, t);
                assert(0 <= moves@[m].to.idx() < 64);
            }
            assert(self.ordered_by_firsts(color, captures_only, moves@, firsts));
            assert forall|x: int, y: int, a1: int, b1: int, k1: int, a2: int, b2: int, k2: int|
                0 <= x < y < moves@.len() && #[trigger] self.first_gen(color, captures_only, moves@[x].from.idx(), moves@[x].to.idx(), a1, b1, k1)
                    && #[trigger] self.first_gen(color, captures_only, moves@[y].from.idx(), moves@[y].to.idx(), a2, b2, k2)
                implies triple_lt(a1, b1, k1, a2, b2, k2) by {
                assert(self.first_gen(color, captures_only, moves@[x].from.idx(), moves@[x].to.idx(), firsts[x].0, firsts[x].1, firsts[x].2));
                assert(self.first_gen(color, captures_only, moves@[y].from.idx(), moves@[y].to.idx(), firsts[y].0, firsts[y].1, firsts[y].2));
                self.lemma_first_gen_unique(color, captures_only, moves@[x].from.idx(), moves@[x].to.idx(), a1, b1, k1, firsts[x].0, firsts[x].1, firsts[x].2);
                self.lemma_first_gen_unique(color, captures_only, moves@[y].from.idx(), moves@[y].to.idx(), a2, b2, k2, firsts[y].0, firsts[y].1, firsts[y].2);
            }
        }
        moves
    }

    /// A move produced by the generator is legal (and a capture when required).
    pub(crate) proof fn lemma_generated_is_legal(self, c: Color, captures_only: bool, a: int, b: int, k: int)
        requires
            0 <= a < b < self.pieces(c).len(),
            0 <= k < self.pieces(c).len(),
            self.gen_move(c, captures_only, a, b, k) is Some,
        ensures
            self.gen_ok(c, captures_only, self.pieces(c)[k], self.gen_move(c, captures_only, a, b, k)->0),
    {
        lemma_squares_in(self.occ(c));
        let p = self.pieces(c);
        let s1 = p[a];
        let s2 = p[b];
        let f = p[k];
        let t = self.gen_move(c, captures_only, a, b, k)->0;
        assert(self.holds(c, s1) && self.holds(c, s2) && self.holds(c, f));
        crate::board::lemma_coords_index(file_of(s1) + file_of(s2) - file_of(f), rank_of(s1) + rank_of(s2) - rank_of(f));
        if s1 == f {
            lemma_idx_roundtrip(s2);
            assert(t == s2);
        }
        if s2 == f {
            lemma_idx_roundtrip(s1);
            assert(t == s1);
        }
        assert(pair_supports(f, t, s1, s2));
    }

    /// Every legal move (capture when required) is produced by some generator triple.
    pub(crate) proof fn lemma_legal_is_generated(self, c: Color, captures_only: bool, f: int, t: int)
        requires
            self.gen_ok(c, captures_only, f, t),
        ensures
            exists|a: int, b: int, k: int|
                0 <= a < b < self.pieces(c).len() && 0 <= k < self.pieces(c).len()
                    && self.gen_move(c, captures_only, a, b, k) == Some(t) && self.pieces(c)[k] == f,
    {
        lemma_squares_in(self.occ(c));
        let p = self.pieces(c);
        let (s1, s2) = choose|s1: int, s2: int|
            #![trigger self.holds(c, s1), self.holds(c, s2)]
            self.holds(c, s1) && self.holds(c, s2) && pair_supports(f, t, s1, s2);
        assert(p.contains(s1) && p.contains(s2) && p.contains(f));
        let k1 = choose|x: int| 0 <= x < p.len() && p[x] == s1;
        let k2 = choose|x: int| 0 <= x < p.len() && p[x] == s2;
        let kf = choose|x: int| 0 <= x < p.len() && p[x] == f;
        lemma_idx_roundtrip(t);
        let (a, b) = if k1 < k2 { (k1, k2) } else { (k2, k1) };
        assert(k1 != k2);
        assert(self.gen_move(c, captures_only, a, b, kf) == Some(t));
    }
}

} // verus!

verus! {

/// Entry of a sorted piece list, or `64` past its end.
pub open spec fn entry_or_end(p: Seq<int>, j: int) -> int {
    if j < p.len() {
        p[j]
    } else {
        64
    }
}

impl Position {
    /// Result of validating `mv` for the side to move.
    pub open(crate) spec fn check_move(self, mv: Move) -> Result<(), MoveError> {
        let c = self.side();
        let f = mv.from.idx();
        let t = mv.to.idx();
        if f == t {
            Err(MoveError::NullMove)
        } else if !self.holds(c, f) {
            if self.occupant(f) is Some {
                Err(MoveError::WrongColorToMove)
            } else {
                Err(MoveError::OriginMissing)
            }
        } else if self.holds(c, t) {
            Err(MoveError::DestinationOccupiedByOwnPiece)
        } else if !self.has_support(c, f, t) {
            Err(MoveError::MissingPivot)
        } else {
            Ok(())
        }
    }

    /// The undo record produced when the side to move plays `mv`.
    pub open(crate) spec fn undo_record(self, mv: Move) -> Undo {
        Undo {
            moved_color: self.side(),
            captured: if self.holds(self.side().other(), mv.to.idx()) {
                Some(mv.to)
            } else {
                None
            },
            previous_side_to_move: self.side(),
        }
    }

    /// The position after the side to move plays `mv`.
    pub open(crate) spec fn applied(self, mv: Move) -> Position {
        self.cleared(mv.from.idx()).placed(self.side(), mv.to.idx()).with_side(self.side().other())
    }

    /// The position after reverting `mv` with the undo record `undo`.
    pub open(crate) spec fn undone(self, mv: Move, undo: Undo) -> Position {
        let p0 = self.with_side(undo.previous_side_to_move);
        let p1 = p0.cleared(mv.to.idx()).placed(undo.moved_color, mv.from.idx());
        match undo.captured {
            Some(sq) => p1.placed(undo.moved_color.other(), sq.idx()),
            None => p1,
        }
    }

    /// Whether `e` records a pair of pieces of `c` (lower index first) that
    /// supports the move `from`-`to`, with the pivot of that move.
    pub open(crate) spec fn support_entry(self, c: Color, from: int, to: int, e: PivotEntry) -> bool {
        &&& e.supports.a.idx() < e.supports.b.idx()
        &&& self.holds(c, e.supports.a.idx())
        &&& self.holds(c, e.supports.b.idx())
        &&& pair_supports(from, to, e.supports.a.idx(), e.supports.b.idx())
        &&& e.pivot.ft() == file_of(from) + file_of(to)
        &&& e.pivot.rt() == rank_of(from) + rank_of(to)
    }

    /// Returns all legal moves for the side to move.
    ///
    /// Moves are returned in `from-to` form and are de-duplicated even when
    /// multiple support pairs allow the same move. They come in the order in
    /// which the support pairs (by ascending square indices) and then the
    /// attackers (by ascending square index) first produce them.
    pub fn legal_moves(&self) -> (r: Vec<Move>)
        ensures
            r.len() <= 4096,
            r@.no_duplicates(),
            forall|m: Move| #[trigger] r@.contains(m) <==> self.is_legal(m),
            self.in_generation_order(self.side(), false, r@),
    {
        let moves = self.generate_moves(false);
        proof {
            assert forall|m: Move| #[trigger] moves@.contains(m) <==> self.is_legal(m) by {
                if self.is_legal(m) {
                    assert(self.gen_ok(self.side(), false, m.from.idx(), m.to.idx()));
                    let k = choose|k: int|
                        0 <= k < moves.len() && moves[k].from.idx() == m.from.idx() && moves[k].to.idx()
                            == m.to.idx();
                    assert(moves@[k] == m);
                }
                if moves@.contains(m) {
                    let k = choose|k: int| 0 <= k < moves.len() && moves@[k] == m;
                    assert(self.gen_ok(self.side(), false, moves[k].from.idx(), moves[k].to.idx()));
                }
            }
        }
        moves
    }

    /// Whether two pieces of `color`, neither on the origin, support `mv`.
    fn has_supporting_pivot(&self, color: Color, mv: Move) -> (b: bool)
        ensures
            b == self.has_support(color, mv.from.idx(), mv.to.idx()),
    {
        let pieces = self.squares_of(color);
        let pivot = Pivot::between(mv.from, mv.to);
        let n = pieces.len();
        let ghost pc = self.pieces(color);
        let ghost f = mv.from.idx();
        let ghost t = mv.to.idx();
        proof {
            lemma_squares_in(self.occ(color));
        }
        let mut i: usize = 0;
        while i < n
            invariant
                n == pieces.len(),
                pc == self.pieces(color),
                n == pc.len(),
                forall|x: int| 0 <= x < n ==> #[trigger] pieces[x].idx() == pc[x],
                pivot.ft() == file_of(f) + file_of(t),
                pivot.rt() == rank_of(f) + rank_of(t),
                f == mv.from.idx(),
                t == mv.to.idx(),
                0 <= i <= n,
                forall|a: int, b: int|
                    0 <= a < i && a < b < n ==> !pair_supports(f, t, #[trigger] pc[a], #[trigger] pc[b]),
            decreases n - i,
        {
            let support_a = pieces[i];
            if support_a != mv.from {
                let mut j: usize = i + 1;
                while j < n
                    invariant
                        n == pieces.len(),
                        pc == self.pieces(color),
                        n == pc.len(),
                        forall|x: int| 0 <= x < n ==> #[trigger] pieces[x].idx() == pc[x],
                        pivot.ft() == file_of(f) + file_of(t),
                        pivot.rt() == rank_of(f) + rank_of(t),
                        f == mv.from.idx(),
                        t == mv.to.idx(),
                        i < n,
                        support_a == pieces[i as int],
                        support_a.idx() != f,
                        i + 1 <= j <= n,
                        forall|a: int, b: int|
                            0 <= a < i && a < b < n ==> !pair_supports(f, t, #[trigger] pc[a], #[trigger] pc[b]),
                        forall|b: int| i < b < j ==> !pair_supports(f, t, pc[i as int], #[trigger] pc[b]),
                    decreases n - j,
                {
                    let support_b = pieces[j];
                    if support_b != mv.from {
                        if SupportPair::new(support_a, support_b).pivot() == pivot {
                            proof {
                                lemma_squares_in(self.occ(color));
                                assert(pc[i as int] < pc[j as int]);
                                assert(pc[i as int] != f);
                                assert(pc[j as int] != f);
                                assert(file_of(pc[i as int]) + file_of(pc[j as int]) == file_of(f) + file_of(t));
                                assert(rank_of(pc[i as int]) + rank_of(pc[j as int]) == rank_of(f) + rank_of(t));
                                assert(pair_supports(f, t, pc[i as int], pc[j as int]));
                                assert(self.holds(color, pc[i as int]) && self.holds(color, pc[j as int]));
                            }
                            return true;
                        }
                    }
                    j += 1;
                }
            }
            i += 1;
        }
        proof {
            if self.has_support(color, f, t) {
                let (s1, s2) = choose|s1: int, s2: int|
                    #![trigger self.holds(color, s1), self.holds(color, s2)]
                    self.holds(color, s1) && self.holds(color, s2) && pair_supports(f, t, s1, s2);
                assert(pc.contains(s1) && pc.contains(s2));
                let k1 = choose|x: int| 0 <= x < pc.len() && pc[x] == s1;
                let k2 = choose|x: int| 0 <= x < pc.len() && pc[x] == s2;
                if k1 < k2 {
                    assert(!pair_supports(f, t, pc[k1], pc[k2]));
                } else {
                    assert(!pair_supports(f, t, pc[k2], pc[k1]));
                }
            }
        }
        false
    }

    /// Checks whether a move is legal in the current position.
    pub fn is_legal_move(&self, mv: Move) -> (r: Result<(), MoveError>)
        ensures
            r == self.check_move(mv),
            r is Ok <==> self.is_legal(mv),
    {
        let color = self.side_to_move;
        if mv.from == mv.to {
            return Err(MoveError::NullMove);
        }
        if !self.has_piece(color, mv.from) {
            return match self.piece_at(mv.from) {
                Some(_) => Err(MoveError::WrongColorToMove),
                None => Err(MoveError::OriginMissing),
            };
        }
        if self.has_piece(color, mv.to) {
            return Err(MoveError::DestinationOccupiedByOwnPiece);
        }
        if !self.has_supporting_pivot(color, mv) {
            return Err(MoveError::MissingPivot);
        }
        let _ = mv.to.index();
        Ok(())
    }

    /// Applies a legal move and returns undo information.
    pub fn apply_move(&mut self, mv: Move) -> (r: Result<Undo, MoveError>)
        ensures
            match old(self).check_move(mv) {
                Err(e) => r == Err::<Undo, MoveError>(e) && *final(self) == *old(self),
                Ok(_) => r == Ok::<Undo, MoveError>(old(self).undo_record(mv)) && *final(self) == old(
                    self,
                ).applied(mv),
            },
            final(self).key() == spec_zobrist_key(
                final(self).occ(Color::White),
                final(self).occ(Color::Black),
                final(self).side(),
            ),
    {
        proof {
            use_type_invariant(&*self);
        }
        match self.is_legal_move(mv) {
            Err(e) => {
                return Err(e);
            },
            Ok(()) => {},
        }
        let color = self.side_to_move;
        let opponent = color.opponent();
        let captured = if self.has_piece(opponent, mv.to) {
            Some(mv.to)
        } else {
            None
        };
        self.clear_square(mv.from);
        self.set_piece(color, mv.to);
        self.set_side_to_move(opponent);
        proof {
            use_type_invariant(&*self);
        }
        Ok(Undo { moved_color: color, captured, previous_side_to_move: color })
    }

    /// Reverts a move that was previously applied with [`Position::apply_move`].
    pub fn undo_move(&mut self, mv: Move, undo: Undo) -> (r: Result<(), MoveError>)
        ensures
            r is Ok,
            *final(self) == old(self).undone(mv, undo),
    {
        proof {
            use_type_invariant(&*self);
        }
        self.set_side_to_move(undo.previous_side_to_move);
        self.clear_square(mv.to);
        self.set_piece(undo.moved_color, mv.from);
        if let Some(square) = undo.captured {
            self.set_piece(undo.moved_color.opponent(), square);
        }
        Ok(())
    }

    /// Returns the winner if the side to move has no legal moves.
    pub fn outcome(&self) -> (r: Option<Outcome>)
        ensures
            r == (if self.can_move() {
                None
            } else {
                Some(Outcome::Winner(self.side().other()))
            }),
    {
        let moves = self.legal_moves();
        proof {
            if self.can_move() {
                let (f, t) = choose|f: int, t: int| #[trigger] self.legal_for(self.side(), f, t);
                let m = Move { from: Square(f as u8), to: Square(t as u8) };
                assert(self.is_legal(m));
                assert(moves@.contains(m));
            }
            if moves.len() > 0 {
                assert(moves@.contains(moves@[0]));
                assert(self.legal_for(self.side(), moves@[0].from.idx(), moves@[0].to.idx()));
            }
        }
        if moves.len() == 0 {
            Some(Outcome::Winner(self.side_to_move.opponent()))
        } else {
            None
        }
    }
}

} // verus!

verus! {

/// Facts about the bitboards met while applying and reverting a move of the
/// side owning `own` from the square of `mf` to the square of `mt`.
proof fn lemma_apply_undo_words(own: u64, opp: u64, mf: u64, mt: u64)
    by (bit_vector)
    requires
        mf != 0,
        mt != 0,
        mf & mt == 0,
        own & mf == mf,
        own & mt == 0,
        opp & mf == 0,
        opp & mt == mt || opp & mt == 0,
    ensures
        (own & !mf) & mt == 0,
        (opp & !mf) & mt == opp & mt,
        ((((own & !mf) & !mt) | mt) & mt) != 0,
        ((((((own & !mf) & !mt) | mt) & !mt) & !mf) & mf) == 0,
        (((((opp & !mf) & !mt) & !mt) & !mf) & mf) == 0,
        ((((((own & !mf) & !mt) | mt) & !mt) & !mf) | mf) == own,
        (((((((own & !mf) & !mt) | mt) & !mt) & !mf) | mf) & mt) == 0,
        ((((((opp & !mf) & !mt) & !mt) & !mf) & !mf) & mt) == 0,
        opp & mt == 0 ==> ((((opp & !mf) & !mt) & !mt) & !mf) & !mf == opp,
        opp & mt == mt ==> ((((((opp & !mf) & !mt) & !mt) & !mf) & !mt) | mt) == opp,
        opp & mt == 0 ==> (((opp & !mf) & !mt) & !mt) & !mf == opp,
        ((opp & !mf) & !mt) & mt == 0,
        ((((own & !mf) & !mt) | mt) & !mt) & mf == 0,
        (((opp & !mf) & !mt) & !mt) & mf == 0,
        ((((opp & !mf) & !mt) & !mt) & !mf) & mt == 0,
        (((((((own & !mf) & !mt) | mt) & !mt) & !mf) | mf) & !mt) == own,
{
}

/// Bits of single squares.
proof fn lemma_single_bits(f: int, t: int, w: u64)
    requires
        0 <= f < 64,
        0 <= t < 64,
        f != t,
    ensures
        mask(f) != 0,
        mask(t) != 0,
        mask(f) & mask(t) == 0,
        bit(w, f) ==> w & mask(f) == mask(f),
        !bit(w, f) ==> w & mask(f) == 0,
        bit(w, t) ==> w & mask(t) == mask(t),
        !bit(w, t) ==> w & mask(t) == 0,
{
    let a = f as u64;
    let b = t as u64;
    assert(1u64 << a != 0 && 1u64 << b != 0) by (bit_vector)
        requires
            a < 64,
            b < 64,
    ;
    assert((1u64 << a) & (1u64 << b) == 0) by (bit_vector)
        requires
            a < 64,
            b < 64,
            a != b,
    ;
    assert(((w >> a) & 1u64 == 1u64) ==> w & (1u64 << a) == (1u64 << a)) by (bit_vector)
        requires
            a < 64,
    ;
    assert(!((w >> a) & 1u64 == 1u64) ==> w & (1u64 << a) == 0) by (bit_vector)
        requires
            a < 64,
    ;
    assert(((w >> b) & 1u64 == 1u64) ==> w & (1u64 << b) == (1u64 << b)) by (bit_vector)
        requires
            b < 64,
    ;
    assert(!((w >> b) & 1u64 == 1u64) ==> w & (1u64 << b) == 0) by (bit_vector)
        requires
            b < 64,
    ;
}

/// Applying a legal move and then reverting it with the returned undo record
/// restores the position it started from exactly, Zobrist key included.
#[verifier::rlimit(50)]
pub proof fn lemma_undo_restores(p: Position, mv: Move)
    requires
        p.valid(),
        mv.from.valid(),
        mv.to.valid(),
        p.check_move(mv) is Ok,
    ensures
        p.applied(mv).undone(mv, p.undo_record(mv)) == p,
{
    let f = mv.from.idx();
    let t = mv.to.idx();
    let c = p.side();
    let o = c.other();
    let mf = mask(f);
    let mt = mask(t);
    let own = p.occ(c);
    let opp = p.occ(o);
    lemma_single_bits(f, t, own);
    lemma_single_bits(f, t, opp);
    lemma_disjoint_bits(p.white, p.black, f);
    lemma_apply_undo_words(own, opp, mf, mt);
    let k = p.zobrist_key;
    let zf = spec_piece_key(c, f);
    let zt = spec_piece_key(c, t);
    let zx = spec_piece_key(o, t);
    let cap = bit(opp, t);
    // Stage 1: the origin is emptied.
    let p1 = p.cleared(f);
    assert(p.occupant(f) == Some(c));
    assert(p1.zobrist_key == k ^ zf);
    assert(p1.occ(c) == own & !mf);
    assert(p1.occ(o) == opp & !mf);
    // Stage 2: the destination is emptied (capturing if needed).
    let p2 = p1.cleared(t);
    lemma_mask_bit(p1.occ(c), t);
    lemma_mask_bit(p1.occ(o), t);
    assert(!bit(p1.occ(c), t));
    assert(bit(p1.occ(o), t) == cap);
    assert(p1.occupant(t) == if cap { Some(o) } else { None::<Color> });
    let x: u64 = if cap { zx } else { 0u64 };
    assert(p2.zobrist_key == k ^ zf ^ x);
    // Stage 3: the mover lands.
    let q = p.applied(mv);
    assert(q.occ(c) == ((own & !mf) & !mt) | mt);
    assert(q.occ(o) == (opp & !mf) & !mt);
    let sk = SIDE_TO_MOVE_KEY;
    assert(q.zobrist_key == k ^ zf ^ x ^ zt ^ sk);
    let u = p.undo_record(mv);
    assert(u.moved_color == c && u.previous_side_to_move == c);
    assert(u.captured == if cap { Some(mv.to) } else { None::<Square> });
    // Undo stage 1: the destination is emptied.
    let r0 = q.with_side(c);
    assert(r0.zobrist_key == k ^ zf ^ x ^ zt ^ sk ^ sk);
    let r1 = r0.cleared(t);
    lemma_mask_bit(r0.occ(c), t);
    lemma_mask_bit(r0.occ(o), t);
    assert(bit(r0.occ(c), t));
    assert(!bit(r0.occ(o), t));
    assert(r0.occupant(t) == Some(c));
    assert(r1.zobrist_key == k ^ zf ^ x ^ zt ^ sk ^ sk ^ zt);
    assert(r1.occ(c) == (((own & !mf) & !mt) | mt) & !mt);
    assert(r1.occ(o) == ((opp & !mf) & !mt) & !mt);
    // Undo stage 2: the origin (empty) is cleared and the mover returns.
    lemma_mask_bit(r1.occ(c), f);
    lemma_mask_bit(r1.occ(o), f);
    assert(!bit(r1.occ(c), f));
    assert(!bit(r1.occ(o), f));
    assert(r1.occupant(f) is None);
    let r3 = r1.placed(c, f);
    assert(r3.occ(c) == ((((own & !mf) & !mt) | mt) & !mt) & !mf | mf);
    assert(r3.occ(o) == (((opp & !mf) & !mt) & !mt) & !mf);
    assert(r3.zobrist_key == k ^ zf ^ x ^ zt ^ sk ^ sk ^ zt ^ 0u64 ^ zf);
    assert(r3.side_to_move == c);
    let fin = p.applied(mv).undone(mv, u);
    if cap {
        lemma_mask_bit(r3.occ(c), t);
        lemma_mask_bit(r3.occ(o), t);
        assert(r3.occupant(t) is None);
        assert(fin == r3.placed(o, t));
        assert(fin.occ(c) == own);
        assert(fin.occ(o) == opp);
        assert(k ^ zf ^ zx ^ zt ^ sk ^ sk ^ zt ^ 0u64 ^ zf ^ 0u64 ^ zx == k) by (bit_vector);
        assert(fin.zobrist_key == k);
    } else {
        assert(fin == r3);
        assert(fin.occ(c) == own);
        assert(fin.occ(o) == opp);
        assert(k ^ zf ^ 0u64 ^ zt ^ sk ^ sk ^ zt ^ 0u64 ^ zf == k) by (bit_vector);
        assert(fin.zobrist_key == k);
    }
    assert(fin.white == p.white && fin.black == p.black);
}

} // verus!

verus! {

impl Position {
    /// Whether reflecting square index `f` through the pivot `(pf, pr)` lands on
    /// the board, on another square, and not on a piece of `c`.
    pub open(crate) spec fn pivot_move_ok(self, c: Color, pf: int, pr: int, f: int) -> bool {
        match reflect_target(pf, pr, f) {
            Some(t) => t != f && !self.holds(c, t),
            None => false,
        }
    }

    /// Whether `e` records a pair of pieces of `c` (lower index first) together
    /// with the pivot between them.
    pub open(crate) spec fn pair_entry(self, c: Color, e: PivotEntry) -> bool {
        &&& e.supports.a.idx() < e.supports.b.idx()
        &&& self.holds(c, e.supports.a.idx())
        &&& self.holds(c, e.supports.b.idx())
        &&& e.pivot.ft() == file_of(e.supports.a.idx()) + file_of(e.supports.b.idx())
        &&& e.pivot.rt() == rank_of(e.supports.a.idx()) + rank_of(e.supports.b.idx())
    }

    /// Returns all supporting pivots for the side to move.
    pub fn pivots(&self) -> (r: Vec<PivotEntry>)
        ensures
            forall|k: int| 0 <= k < r.len() ==> self.pair_entry(self.side(), #[trigger] r[k]),
            forall|k1: int, k2: int|
                0 <= k1 < k2 < r.len() ==> pair_lt(
                    #[trigger] r[k1].supports.a.idx(),
                    r[k1].supports.b.idx(),
                    #[trigger] r[k2].supports.a.idx(),
                    r[k2].supports.b.idx(),
                ),
            forall|s1: int, s2: int|
                s1 < s2 && #[trigger] self.holds(self.side(), s1) && #[trigger] self.holds(self.side(), s2)
                    ==> exists|k: int|
                    0 <= k < r.len() && r[k].supports.a.idx() == s1 && r[k].supports.b.idx() == s2,
    {
        self.pivots_for(self.side_to_move)
    }

    /// Returns all supporting pivots for a given side: one entry for every pair
    /// of its pieces, ordered by the pair's square indices.
    pub fn pivots_for(&self, color: Color) -> (r: Vec<PivotEntry>)
        ensures
            forall|k: int| 0 <= k < r.len() ==> self.pair_entry(color, #[trigger] r[k]),
            forall|k1: int, k2: int|
                0 <= k1 < k2 < r.len() ==> pair_lt(
                    #[trigger] r[k1].supports.a.idx(),
                    r[k1].supports.b.idx(),
                    #[trigger] r[k2].supports.a.idx(),
                    r[k2].supports.b.idx(),
                ),
            forall|s1: int, s2: int|
                s1 < s2 && #[trigger] self.holds(color, s1) && #[trigger] self.holds(color, s2) ==> exists|k: int|
                    0 <= k < r.len() && r[k].supports.a.idx() == s1 && r[k].supports.b.idx() == s2,
    {
        let pieces = self.squares_of(color);
        let n = pieces.len();
        let ghost pc = self.pieces(color);
        let mut pivots: Vec<PivotEntry> = Vec::new();
        proof {
            lemma_squares_in(self.occ(color));
        }
        let mut i: usize = 0;
        while i < n
            invariant
                n == pieces.len(),
                pc == self.pieces(color),
                n == pc.len(),
                forall|x: int| 0 <= x < n ==> #[trigger] pieces[x].idx() == pc[x],
                0 <= i <= n,
                forall|k: int| 0 <= k < pivots.len() ==> self.pair_entry(color, #[trigger] pivots[k]),
                forall|k1: int, k2: int|
                    0 <= k1 < k2 < pivots.len() ==> pair_lt(
                        #[trigger] pivots[k1].supports.a.idx(),
                        pivots[k1].supports.b.idx(),
                        #[trigger] pivots[k2].supports.a.idx(),
                        pivots[k2].supports.b.idx(),
                    ),
                forall|k: int| 0 <= k < pivots.len() ==> #[trigger] pivots[k].supports.a.idx() < entry_or_end(pc, i as int),
                forall|x: int, y: int|
                    0 <= x < i && x < y < n && pc[x] < pc[y] ==> exists|k: int|
                        0 <= k < pivots.len() && pivots[k].supports.a.idx() == #[trigger] pc[x]
                            && pivots[k].supports.b.idx() == #[trigger] pc[y],
            decreases n - i,
        {
            let mut j: usize = i + 1;
            proof {
                assert forall|x: int, y: int|
                    0 <= x < y < n && pair_lt(x, y, i as int, j as int) && pc[x] < pc[y] implies exists|k: int|
                    0 <= k < pivots.len() && pivots[k].supports.a.idx() == #[trigger] pc[x]
                        && pivots[k].supports.b.idx() == #[trigger] pc[y] by {
                    let px = pc[x];
                    let py = pc[y];
                    assert(0 <= x < i);
                }
            }
            while j < n
                invariant
                    n == pieces.len(),
                    pc == self.pieces(color),
                    n == pc.len(),
                    forall|x: int| 0 <= x < n ==> #[trigger] pieces[x].idx() == pc[x],
                    i < n,
                    i + 1 <= j <= n,
                    forall|k: int| 0 <= k < pivots.len() ==> self.pair_entry(color, #[trigger] pivots[k]),
                    forall|k1: int, k2: int|
                        0 <= k1 < k2 < pivots.len() ==> pair_lt(
                            #[trigger] pivots[k1].supports.a.idx(),
                            pivots[k1].supports.b.idx(),
                            #[trigger] pivots[k2].supports.a.idx(),
                            pivots[k2].supports.b.idx(),
                        ),
                    forall|k: int|
                        0 <= k < pivots.len() ==> #[trigger] pivots[k].supports.a.idx() < pc[i as int] || (
                        pivots[k].supports.a.idx() == pc[i as int] && pivots[k].supports.b.idx()
                            < entry_or_end(pc, j as int)),
                    forall|x: int, y: int|
                        0 <= x < y < n && pair_lt(x, y, i as int, j as int) && pc[x] < pc[y] ==> exists|k: int|
                            0 <= k < pivots.len() && pivots[k].supports.a.idx() == #[trigger] pc[x]
                                && pivots[k].supports.b.idx() == #[trigger] pc[y],
                decreases n - j,
            {
                let supports = SupportPair::new(pieces[i], pieces[j]);
                let ghost old_pivots = pivots@;
                pivots.push(PivotEntry { pivot: supports.pivot(), supports });
                proof {
                    lemma_squares_in(self.occ(color));
                    assert(pc[i as int] < pc[j as int]);
                    assert forall|x: int, y: int|
                        0 <= x < y < n && pair_lt(x, y, i as int, j + 1) && pc[x] < pc[y] implies exists|k: int|
                        0 <= k < pivots.len() && pivots[k].supports.a.idx() == #[trigger] pc[x]
                            && pivots[k].supports.b.idx() == #[trigger] pc[y] by {
                        if x == i && y == j {
                            assert(pivots[old_pivots.len() as int].supports.a.idx() == pc[x]);
                        } else {
                            let k = choose|k: int|
                                0 <= k < old_pivots.len() && old_pivots[k].supports.a.idx() == pc[x]
                                    && old_pivots[k].supports.b.idx() == pc[y];
                            assert(pivots[k] == old_pivots[k]);
                        }
                    }
                    assert forall|k: int|
                        0 <= k < pivots.len() implies #[trigger] pivots[k].supports.a.idx() < pc[i as int] || (
                        pivots[k].supports.a.idx() == pc[i as int] && pivots[k].supports.b.idx()
                            < entry_or_end(pc, j + 1)) by {
                        if j + 1 < n {
                            assert(pc[j as int] < pc[j + 1]);
                        }
                    }
                }
                j += 1;
            }
            proof {
                lemma_squares_in(self.occ(color));
                if i + 1 < n {
                    assert(pc[i as int] < pc[i + 1]);
                }
            }
            i += 1;
        }
        proof {
            lemma_squares_in(self.occ(color));
            assert forall|s1: int, s2: int|
                s1 < s2 && #[trigger] self.holds(color, s1) && #[trigger] self.holds(color, s2) implies exists|k: int|
                0 <= k < pivots.len() && pivots[k].supports.a.idx() == s1 && pivots[k].supports.b.idx() == s2 by {
                assert(pc.contains(s1) && pc.contains(s2));
                let x = choose|x: int| 0 <= x < pc.len() && pc[x] == s1;
                let y = choose|y: int| 0 <= y < pc.len() && pc[y] == s2;
                if y <= x {
                    if y < x {
                        assert(pc[y] < pc[x]);
                    }
                    assert(false);
                }
                assert(pc[x] == s1 && pc[y] == s2);
            }
        }
        pivots
    }

    /// Returns all moves that can be generated from one pivot for one side:
    /// every piece of `color` reflected through `pivot` onto a square that is on
    /// the board, differs from its origin and holds no piece of `color`, in
    /// ascending order of origin.
    pub fn moves_from_pivot(&self, color: Color, pivot: Pivot) -> (r: Vec<Move>)
        ensures
            forall|k: int|
                0 <= k < r.len() ==> {
                    &&& self.holds(color, #[trigger] r[k].from.idx())
                    &&& reflect_target(pivot.ft(), pivot.rt(), r[k].from.idx()) == Some(r[k].to.idx())
                    &&& r[k].to.idx() != r[k].from.idx()
                    &&& !self.holds(color, r[k].to.idx())
                },
            forall|k1: int, k2: int|
                0 <= k1 < k2 < r.len() ==> #[trigger] r[k1].from.idx() < #[trigger] r[k2].from.idx(),
            forall|f: int|
                #[trigger] self.holds(color, f) && self.pivot_move_ok(color, pivot.ft(), pivot.rt(), f) ==> exists|k: int|
                    0 <= k < r.len() && r[k].from.idx() == f,
    {
        let pieces = self.squares_of(color);
        let own_occupancy = self.occupancy_of(color);
        let n = pieces.len();
        let ghost pc = self.pieces(color);
        let mut moves: Vec<Move> = Vec::new();
        proof {
            lemma_squares_in(self.occ(color));
        }
        let mut k: usize = 0;
        while k < n
            invariant
                n == pieces.len(),
                pc == self.pieces(color),
                n == pc.len(),
                own_occupancy == self.occ(color),
                forall|x: int| 0 <= x < n ==> #[trigger] pieces[x].idx() == pc[x],
                0 <= k <= n,
                forall|m: int|
                    0 <= m < moves.len() ==> {
                        &&& self.holds(color, #[trigger] moves[m].from.idx())
                        &&& reflect_target(pivot.ft(), pivot.rt(), moves[m].from.idx()) == Some(
                            moves[m].to.idx(),
                        )
                        &&& moves[m].to.idx() != moves[m].from.idx()
                        &&& !self.holds(color, moves[m].to.idx())
                    },
                forall|m1: int, m2: int|
                    0 <= m1 < m2 < moves.len() ==> #[trigger] moves[m1].from.idx()
                        < #[trigger] moves[m2].from.idx(),
                forall|m: int| 0 <= m < moves.len() ==> #[trigger] moves[m].from.idx() < entry_or_end(pc, k as int),
                forall|x: int|
                    0 <= x < k && self.pivot_move_ok(color, pivot.ft(), pivot.rt(), #[trigger] pc[x]) ==> exists|m: int|
                        0 <= m < moves.len() && moves[m].from.idx() == pc[x],
            decreases n - k,
        {
            let attacker = pieces[k];
            let ghost old_moves = moves@;
            proof {
                lemma_squares_in(self.occ(color));
            }
            match pivot.reflect(attacker) {
                Some(to) => {
                    let to_index = to.index();
                    proof {
                        lemma_mask_bit(own_occupancy, to_index as int);
                        lemma_idx_roundtrip(to.idx());
                    }
                    if to != attacker && own_occupancy & (1u64 << to_index) == 0 {
                        moves.push(Move::new(attacker, to));
                        proof {
                            assert forall|x: int|
                                0 <= x < k + 1 && self.pivot_move_ok(color, pivot.ft(), pivot.rt(), #[trigger] pc[x]) implies exists|m: int|
                                    0 <= m < moves.len() && moves[m].from.idx() == pc[x] by {
                                if x == k {
                                    assert(moves[old_moves.len() as int].from.idx() == pc[x]);
                                } else {
                                    let m = choose|m: int| 0 <= m < old_moves.len() && old_moves[m].from.idx() == pc[x];
                                    assert(moves[m] == old_moves[m]);
                                }
                            }
                        }
                    }
                },
                None => {},
            }
            proof {
                if k + 1 < n {
                    assert(pc[k as int] < pc[k + 1]);
                }
            }
            k += 1;
        }
        proof {
            assert forall|f: int|
                #[trigger] self.holds(color, f) && self.pivot_move_ok(color, pivot.ft(), pivot.rt(), f) implies exists|m: int|
                    0 <= m < moves.len() && moves[m].from.idx() == f by {
                assert(pc.contains(f));
                let x = choose|x: int| 0 <= x < pc.len() && pc[x] == f;
                assert(self.pivot_move_ok(color, pivot.ft(), pivot.rt(), pc[x]));
            }
        }
        moves
    }

    /// Returns all pivots and support pairs that justify a given move for
    /// `color`: every pair of its pieces, neither on the origin, whose pivot is
    /// the midpoint of the move, ordered by the pair's square indices.
    pub fn supporting_pivots(&self, color: Color, mv: Move) -> (r: Vec<PivotEntry>)
        ensures
            forall|k: int|
                0 <= k < r.len() ==> self.support_entry(color, mv.from.idx(), mv.to.idx(), #[trigger] r[k]),
            forall|k1: int, k2: int|
                0 <= k1 < k2 < r.len() ==> pair_lt(
                    #[trigger] r[k1].supports.a.idx(),
                    r[k1].supports.b.idx(),
                    #[trigger] r[k2].supports.a.idx(),
                    r[k2].supports.b.idx(),
                ),
            forall|s1: int, s2: int|
                s1 < s2 && #[trigger] self.holds(color, s1) && #[trigger] self.holds(color, s2)
                    && pair_supports(mv.from.idx(), mv.to.idx(), s1, s2) ==> exists|k: int|
                    0 <= k < r.len() && r[k].supports.a.idx() == s1 && r[k].supports.b.idx() == s2,
    {
        let pieces = self.squares_of(color);
        let n = pieces.len();
        let pivot = Pivot::between(mv.from, mv.to);
        let ghost pc = self.pieces(color);
        let ghost f = mv.from.idx();
        let ghost t = mv.to.idx();
        let mut matches: Vec<PivotEntry> = Vec::new();
        proof {
            lemma_squares_in(self.occ(color));
        }
        let mut i: usize = 0;
        while i < n
            invariant
                n == pieces.len(),
                pc == self.pieces(color),
                n == pc.len(),
                forall|x: int| 0 <= x < n ==> #[trigger] pieces[x].idx() == pc[x],
                f == mv.from.idx(),
                t == mv.to.idx(),
                pivot.ft() == file_of(f) + file_of(t),
                pivot.rt() == rank_of(f) + rank_of(t),
                0 <= i <= n,
                forall|k: int| 0 <= k < matches.len() ==> self.support_entry(color, f, t, #[trigger] matches[k]),
                forall|k1: int, k2: int|
                    0 <= k1 < k2 < matches.len() ==> pair_lt(
                        #[trigger] matches[k1].supports.a.idx(),
                        matches[k1].supports.b.idx(),
                        #[trigger] matches[k2].supports.a.idx(),
                        matches[k2].supports.b.idx(),
                    ),
                forall|k: int| 0 <= k < matches.len() ==> #[trigger] matches[k].supports.a.idx() < entry_or_end(pc, i as int),
                forall|x: int, y: int|
                    0 <= x < i && x < y < n && pair_supports(f, t, pc[x], pc[y]) ==> exists|k: int|
                        0 <= k < matches.len() && matches[k].supports.a.idx() == #[trigger] pc[x]
                            && matches[k].supports.b.idx() == #[trigger] pc[y],
            decreases n - i,
        {
            let support_a = pieces[i];
            if support_a != mv.from {
                let mut j: usize = i + 1;
                while j < n
                    invariant
                        n == pieces.len(),
                        pc == self.pieces(color),
                        n == pc.len(),
                        forall|x: int| 0 <= x < n ==> #[trigger] pieces[x].idx() == pc[x],
                        f == mv.from.idx(),
                        t == mv.to.idx(),
                        pivot.ft() == file_of(f) + file_of(t),
                        pivot.rt() == rank_of(f) + rank_of(t),
                        i < n,
                        support_a == pieces[i as int],
                        support_a.idx() != f,
                        i + 1 <= j <= n,
                        forall|k: int| 0 <= k < matches.len() ==> self.support_entry(color, f, t, #[trigger] matches[k]),
                        forall|k1: int, k2: int|
                            0 <= k1 < k2 < matches.len() ==> pair_lt(
                                #[trigger] matches[k1].supports.a.idx(),
                                matches[k1].supports.b.idx(),
                                #[trigger] matches[k2].supports.a.idx(),
                                matches[k2].supports.b.idx(),
                            ),
                        forall|k: int|
                            0 <= k < matches.len() ==> #[trigger] matches[k].supports.a.idx() < pc[i as int] || (
                            matches[k].supports.a.idx() == pc[i as int] && matches[k].supports.b.idx()
                                < entry_or_end(pc, j as int)),
                        forall|x: int, y: int|
                            ((0 <= x < i && x < y < n) || (x == i && i < y < j)) && pair_supports(f, t, pc[x], pc[y])
                                ==> exists|k: int|
                                0 <= k < matches.len() && matches[k].supports.a.idx() == #[trigger] pc[x]
                                    && matches[k].supports.b.idx() == #[trigger] pc[y],
                    decreases n - j,
                {
                    let support_b = pieces[j];
                    proof {
                        lemma_squares_in(self.occ(color));
                        assert(pc[i as int] < pc[j as int]);
                        if j + 1 < n {
                            assert(pc[j as int] < pc[j + 1]);
                        }
                    }
                    if support_b != mv.from {
                        let supports = SupportPair::new(support_a, support_b);
                        if supports.pivot() == pivot {
                            let ghost old_matches = matches@;
                            matches.push(PivotEntry { pivot, supports });
                            proof {
                                assert forall|x: int, y: int|
                                    ((0 <= x < i && x < y < n) || (x == i && i < y < j + 1)) && pair_supports(f, t, pc[x], pc[y])
                                        implies exists|k: int|
                                        0 <= k < matches.len() && matches[k].supports.a.idx() == #[trigger] pc[x]
                                            && matches[k].supports.b.idx() == #[trigger] pc[y] by {
                                    if x == i && y == j {
                                        assert(matches[old_matches.len() as int].supports.a.idx() == pc[x]);
                                    } else {
                                        let k = choose|k: int|
                                            0 <= k < old_matches.len() && old_matches[k].supports.a.idx() == pc[x]
                                                && old_matches[k].supports.b.idx() == pc[y];
                                        assert(matches[k] == old_matches[k]);
                                    }
                                }
                            }
                        }
                    }
                    j += 1;
                }
            }
            proof {
                lemma_squares_in(self.occ(color));
                if i + 1 < n {
                    assert(pc[i as int] < pc[i + 1]);
                }
            }
            i += 1;
        }
        proof {
            lemma_squares_in(self.occ(color));
            assert forall|s1: int, s2: int|
                s1 < s2 && #[trigger] self.holds(color, s1) && #[trigger] self.holds(color, s2)
                    && pair_supports(f, t, s1, s2) implies exists|k: int|
                0 <= k < matches.len() && matches[k].supports.a.idx() == s1 && matches[k].supports.b.idx() == s2 by {
                assert(pc.contains(s1) && pc.contains(s2));
                let x = choose|x: int| 0 <= x < pc.len() && pc[x] == s1;
                let y = choose|y: int| 0 <= y < pc.len() && pc[y] == s2;
                if y <= x {
                    if y < x {
                        assert(pc[y] < pc[x]);
                    }
                    assert(false);
                }
                assert(pc[x] == s1 && pc[y] == s2);
            }
        }
        matches
    }
}

} // verus!

verus! {

/// Legality depends only on the pieces, not on the side to move or the key.
pub(crate) proof fn lemma_same_pieces_legal(p: Position, q: Position, c: Color, f: int, t: int)
    requires
        q.white == p.white,
        q.black == p.black,
    ensures
        q.legal_for(c, f, t) == p.legal_for(c, f, t),
        q.has_support(c, f, t) == p.has_support(c, f, t),
{
    assert(q.occ(c) == p.occ(c));
    if q.has_support(c, f, t) {
        let (s1, s2) = choose|s1: int, s2: int|
            #![trigger q.holds(c, s1), q.holds(c, s2)]
            q.holds(c, s1) && q.holds(c, s2) && pair_supports(f, t, s1, s2);
        assert(p.holds(c, s1) && p.holds(c, s2));
    }
    if p.has_support(c, f, t) {
        let (s1, s2) = choose|s1: int, s2: int|
            #![trigger p.holds(c, s1), p.holds(c, s2)]
            p.holds(c, s1) && p.holds(c, s2) && pair_supports(f, t, s1, s2);
        assert(q.holds(c, s1) && q.holds(c, s2));
    }
}

/// A move of squares on the board is legal exactly when it passes the
/// legality check, so `legal_moves` lists exactly the moves that
/// `is_legal_move` accepts.
pub proof fn lemma_legal_iff_checked(p: Position, mv: Move)
    requires
        mv.from.idx() < 64,
        mv.to.idx() < 64,
    ensures
        p.is_legal(mv) <==> p.check_move(mv) is Ok,
{
}

/// Playing a legal move puts the mover's piece on the destination, empties
/// the origin, removes any enemy piece from the destination, leaves every
/// other square as it was and passes the turn.
pub proof fn lemma_apply_effect(p: Position, mv: Move)
    requires
        p.valid(),
        p.is_legal(mv),
    ensures
        ({
            let q = p.applied(mv);
            let c = p.side();
            &&& q.side() == c.other()
            &&& q.occupant(mv.to.idx()) == Some(c)
            &&& q.occupant(mv.from.idx()) is None
            &&& forall|i: int| i != mv.from.idx() && i != mv.to.idx() ==> #[trigger] q.occupant(i) == p.occupant(i)
        }),
{
    let f = mv.from.idx();
    let t = mv.to.idx();
    let c = p.side();
    let a = p.cleared(f);
    let q = p.applied(mv);
    assert(0 <= f < 64) by {
        assert(bit(p.occ(c), f));
    }
    assert forall|i: int| #[trigger] q.occupant(i) == (if i == t {
        Some(c)
    } else if i == f {
        None
    } else {
        p.occupant(i)
    }) by {
        lemma_clear_bits(p.white, f, i);
        lemma_clear_bits(p.black, f, i);
        lemma_clear_bits(a.white, t, i);
        lemma_clear_bits(a.black, t, i);
        lemma_clear_bits(a.white & !mask(t), t, i);
        lemma_clear_bits(a.black & !mask(t), t, i);
        lemma_disjoint_bits(p.white, p.black, i);
    }
    assert(q.occupant(t) == Some(c));
    assert(q.occupant(f) is None);
}

/// Changing the side to move changes the Zobrist key.
pub proof fn lemma_side_changes_key(p: Position, c: Color)
    requires
        c != p.side(),
    ensures
        p.with_side(c).key() != p.key(),
{
    let k = p.key();
    assert(k ^ 0x9e37_79b9_7f4a_7c15u64 != k) by (bit_vector);
}

/// Reflecting through a pivot twice returns to the starting square: whenever
/// a square reflects onto the board, its image reflects back onto it.
pub proof fn lemma_reflect_involution(pf: int, pr: int, i: int)
    requires
        0 <= i < 64,
        reflect_target(pf, pr, i) is Some,
    ensures
        reflect_target(pf, pr, reflect_target(pf, pr, i)->0) == Some(i),
{
    let t = reflect_target(pf, pr, i)->0;
    crate::board::lemma_coords_index(pf - file_of(i), pr - rank_of(i));
    assert(pf - file_of(t) == file_of(i));
    assert(pr - rank_of(t) == rank_of(i));
    crate::board::lemma_index_coords(i);
}

/// The key of `p` is the Zobrist key of its pieces with `side` to move.
pub open(crate) spec fn key_matches(p: Position, side: Color) -> bool {
    p.key() == spec_zobrist_key(p.white, p.black, side)
}

/// The order of two XORs does not matter.
proof fn lemma_xor_swap(a: u64, b: u64, c: u64)
    ensures
        (a ^ b) ^ c == (a ^ c) ^ b,
{
    assert((a ^ b) ^ c == (a ^ c) ^ b) by (bit_vector);
}

/// XOR undoes itself: replacing one contribution by another.
proof fn lemma_xor_replace(a: u64, c1: u64, c2: u64)
    ensures
        (a ^ c1) ^ (c1 ^ c2) == a ^ c2,
        (a ^ c1) ^ c1 == a,
        a ^ 0u64 == a,
{
    assert((a ^ c1) ^ (c1 ^ c2) == a ^ c2 && (a ^ c1) ^ c1 == a && a ^ 0u64 == a) by (bit_vector);
}

/// Changing only square `i` changes the placement key by the XOR of the old
/// and new contributions of that square.
proof fn lemma_placement_update(w1: u64, b1: u64, w2: u64, b2: u64, i: int, n: nat)
    requires
        0 <= i < 64,
        forall|j: int| j != i ==> #[trigger] square_contribution(w2, b2, j) == square_contribution(w1, b1, j),
    ensures
        placement_key(w2, b2, n) == placement_key(w1, b1, n) ^ (if i < n {
            square_contribution(w1, b1, i) ^ square_contribution(w2, b2, i)
        } else {
            0u64
        }),
    decreases n,
{
    let c1 = square_contribution(w1, b1, i);
    let c2 = square_contribution(w2, b2, i);
    if n == 0 {
        lemma_xor_replace(0u64, c1, c2);
    } else {
        lemma_placement_update(w1, b1, w2, b2, i, (n - 1) as nat);
        let p1 = placement_key(w1, b1, (n - 1) as nat);
        let p2 = placement_key(w2, b2, (n - 1) as nat);
        let a1 = square_contribution(w1, b1, n - 1);
        let a2 = square_contribution(w2, b2, n - 1);
        assert(placement_key(w1, b1, n) == p1 ^ a1);
        assert(placement_key(w2, b2, n) == p2 ^ a2);
        lemma_xor_replace(p1, c1, c2);
        lemma_xor_replace(p1 ^ a1, 0u64, 0u64);
        lemma_xor_replace(p1, 0u64, 0u64);
        if n - 1 == i {
            assert(p2 == p1);
        } else if i < n - 1 {
            assert(a2 == a1);
            assert(p2 == p1 ^ (c1 ^ c2));
            lemma_xor_swap(p1, c1 ^ c2, a1);
        } else {
            assert(a2 == a1);
            assert(p2 == p1);
        }
    }
}

/// Emptying a square keeps the key equal to the Zobrist key of the pieces.
pub proof fn lemma_cleared_key(p: Position, i: int, side: Color)
    requires
        0 <= i < 64,
        key_matches(p, side),
    ensures
        key_matches(p.cleared(i), side),
{
    let q = p.cleared(i);
    assert forall|j: int| j != i implies #[trigger] square_contribution(q.white, q.black, j) == square_contribution(
        p.white,
        p.black,
        j,
    ) by {
        lemma_clear_bits(p.white, i, j);
        lemma_clear_bits(p.black, i, j);
    }
    lemma_clear_bits(p.white, i, i);
    lemma_clear_bits(p.black, i, i);
    lemma_placement_update(p.white, p.black, q.white, q.black, i, 64);
    let c = square_contribution(p.white, p.black, i);
    let pk = placement_key(p.white, p.black, 64);
    lemma_xor_replace(pk, c, 0u64);
    assert(c ^ 0u64 == c) by {
        lemma_xor_replace(c, 0u64, 0u64);
    }
    assert(p.square_key(i) == c);
    lemma_xor_swap(pk, SIDE_TO_MOVE_KEY, c);
}

/// Placing a piece keeps the key equal to the Zobrist key of the pieces.
pub proof fn lemma_placed_key(p: Position, c: Color, i: int, side: Color)
    requires
        0 <= i < 64,
        key_matches(p, side),
    ensures
        key_matches(p.placed(c, i), side),
{
    let a = p.cleared(i);
    lemma_cleared_key(p, i, side);
    let q = p.placed(c, i);
    assert forall|j: int| j != i implies #[trigger] square_contribution(q.white, q.black, j) == square_contribution(
        a.white,
        a.black,
        j,
    ) by {
        lemma_clear_bits(a.white, i, j);
        lemma_clear_bits(a.black, i, j);
        lemma_clear_bits(p.white, i, j);
        lemma_clear_bits(p.black, i, j);
    }
    lemma_clear_bits(a.white, i, i);
    lemma_clear_bits(a.black, i, i);
    lemma_clear_bits(p.white, i, i);
    lemma_clear_bits(p.black, i, i);
    assert(square_contribution(a.white, a.black, i) == 0u64);
    assert(square_contribution(q.white, q.black, i) == spec_piece_key(c, i));
    lemma_placement_update(a.white, a.black, q.white, q.black, i, 64);
    let pk = placement_key(a.white, a.black, 64);
    let k = spec_piece_key(c, i);
    lemma_xor_replace(pk, 0u64, k);
    assert(pk ^ 0u64 == pk) by {
        lemma_xor_replace(pk, 0u64, 0u64);
    }
    assert((0u64 ^ k) == k) by (bit_vector);
    lemma_xor_swap(pk, SIDE_TO_MOVE_KEY, k);
}

/// Setting the side to move keeps the key equal to the Zobrist key of the
/// pieces and the side to move.
pub proof fn lemma_with_side_key(p: Position, c: Color)
    requires
        key_matches(p, p.side()),
    ensures
        key_matches(p.with_side(c), c),
{
    lemma_xor_replace(placement_key(p.white, p.black, 64), SIDE_TO_MOVE_KEY, 0u64);
}

/// The key kept by a position is its incremental Zobrist key: when it is the
/// Zobrist key of the pieces and the side to move, placing and removing
/// pieces, setting the side to move and playing a move all keep it so.
pub proof fn lemma_key_tracks_pieces(p: Position, c: Color, i: int, mv: Move)
    requires
        0 <= i < 64,
        p.is_legal(mv),
        key_matches(p, p.side()),
    ensures
        key_matches(p.cleared(i), p.side()),
        key_matches(p.placed(c, i), p.side()),
        key_matches(p.with_side(c), c),
        key_matches(p.applied(mv), p.side().other()),
{
    lemma_cleared_key(p, i, p.side());
    lemma_placed_key(p, c, i, p.side());
    lemma_with_side_key(p, c);
    let f = mv.from.idx();
    let t = mv.to.idx();
    assert(0 <= f < 64 && 0 <= t < 64) by {
        assert(bit(p.occ(p.side()), f));
    }
    lemma_cleared_key(p, f, p.side());
    lemma_placed_key(p.cleared(f), p.side(), t, p.side());
    lemma_with_side_key(p.cleared(f).placed(p.side(), t), p.side().other());
}

/// Two positions with the same pieces and the same side to move have the
/// same key, and so are the same position.
pub proof fn lemma_same_placement_same_position(p: Position, q: Position)
    requires
        p.valid(),
        q.valid(),
        p.occ(Color::White) == q.occ(Color::White),
        p.occ(Color::Black) == q.occ(Color::Black),
        p.side() == q.side(),
    ensures
        p.key() == q.key(),
        p == q,
{
}

/// Emptying a square removes only the piece on it and keeps the key the
/// Zobrist key of the position; emptying an empty square changes nothing, and
/// putting the removed piece back restores the position.
pub proof fn lemma_clear_square_law(p: Position, i: int)
    requires
        p.valid(),
        0 <= i < 64,
    ensures
        p.cleared(i).occupant(i) is None,
        forall|j: int| j != i ==> #[trigger] p.cleared(i).occupant(j) == p.occupant(j),
        p.cleared(i).side() == p.side(),
        p.cleared(i).valid(),
        p.occupant(i) is None ==> p.cleared(i) == p,
        p.occupant(i) matches Some(c) ==> p.cleared(i).placed(c, i) == p,
{
    let q = p.cleared(i);
    assert forall|j: int| j != i implies #[trigger] q.occupant(j) == p.occupant(j) by {
        lemma_clear_bits(p.white, i, j);
        lemma_clear_bits(p.black, i, j);
    }
    lemma_clear_bits(p.white, i, i);
    lemma_clear_bits(p.black, i, i);
    lemma_cleared_key(p, i, p.side());
    lemma_disjoint_bits(p.white, p.black, i);
    let w = p.white;
    let b = p.black;
    let k = p.zobrist_key;
    let m = mask(i);
    let t = i as u64;
    assert(m == 1u64 << t);
    lemma_mask_bit(w, i);
    lemma_mask_bit(b, i);
    lemma_clear_words(w, b, k, t);
    if p.occupant(i) is None {
        assert(q.white == w && q.black == b);
    }
    if let Some(c) = p.occupant(i) {
        let z = spec_piece_key(c, i);
        lemma_xor_replace(k, z, 0u64);
        lemma_xor_replace(k ^ z, 0u64, 0u64);
        assert(p.square_key(i) == z);
        assert(q.occupant(i) is None);
        assert(q.square_key(i) == 0u64);
        let r = q.placed(c, i);
        assert(r.zobrist_key == ((k ^ z) ^ 0u64) ^ z);
        if c == Color::White {
            assert(w & m != 0);
            assert(r.white == w && r.black == b);
        } else {
            assert(b & m != 0);
            assert(r.white == w && r.black == b);
        }
    }
}

/// Word facts behind emptying square `t` and putting its piece back.
proof fn lemma_clear_words(w: u64, b: u64, k: u64, t: u64)
    by (bit_vector)
    requires
        w & b == 0,
        t < 64,
    ensures
        (w & !(1u64 << t)) & (b & !(1u64 << t)) == 0,
        w & (1u64 << t) == 0 ==> w & !(1u64 << t) == w,
        b & (1u64 << t) == 0 ==> b & !(1u64 << t) == b,
        k ^ 0u64 == k,
        w & (1u64 << t) != 0 ==> ((w & !(1u64 << t)) & !(1u64 << t)) | (1u64 << t) == w,
        b & (1u64 << t) != 0 ==> ((b & !(1u64 << t)) & !(1u64 << t)) | (1u64 << t) == b,
        (w & !(1u64 << t)) & !(1u64 << t) == w & !(1u64 << t),
        (b & !(1u64 << t)) & !(1u64 << t) == b & !(1u64 << t),
        w & (1u64 << t) != 0 ==> b & !(1u64 << t) == b,
        b & (1u64 << t) != 0 ==> w & !(1u64 << t) == w,
{
}

/// A move takes three pieces of the side to move (an attacker and two
/// supports), so a side with fewer than three pieces cannot move and has lost.
pub proof fn lemma_fewer_than_three_pieces_cannot_move(p: Position)
    requires
        p.pieces(p.side()).len() < 3,
    ensures
        !p.can_move(),
{
    let c = p.side();
    let ps = p.pieces(c);
    if p.can_move() {
        let (f, t) = choose|f: int, t: int| #[trigger] p.legal_for(c, f, t);
        let (s1, s2) = choose|s1: int, s2: int|
            #![trigger p.holds(c, s1), p.holds(c, s2)]
            p.holds(c, s1) && p.holds(c, s2) && pair_supports(f, t, s1, s2);
        lemma_squares_in(p.occ(c));
        assert(ps.contains(f) && ps.contains(s1) && ps.contains(s2));
        let i0 = choose|i: int| 0 <= i < ps.len() && ps[i] == f;
        let i1 = choose|i: int| 0 <= i < ps.len() && ps[i] == s1;
        let i2 = choose|i: int| 0 <= i < ps.len() && ps[i] == s2;
        assert(i0 != i1 && i0 != i2 && i1 != i2);
    }
}

} // verus!
