//! Board geometry: colors, squares, moves, support pairs and pivots.
use vstd::prelude::*;

use crate::text::{push_char, spec_coord};
use vstd::string::*;

verus! {

/// Board width and height in squares.
pub const BOARD_SIZE: i8 = 8;

/// Number of squares on the Sanqi board.
pub const BOARD_SQUARES: usize = 64;

/// The side to move or the owner of a piece.
#[derive(Clone, Copy, Debug, PartialEq, Eq, Hash, Structural)]
pub enum Color {
    White,
    Black,
}

impl Color {
    /// The opposite color.
    pub open spec fn other(self) -> Color {
        match self {
            Color::White => Color::Black,
            Color::Black => Color::White,
        }
    }

    /// Returns the opposite color.
    pub fn opponent(self) -> (c: Color)
        ensures
            c == self.other(),
            c != self,
    {
        match self {
            Color::White => Color::Black,
            Color::Black => Color::White,
        }
    }
}

/// File (column) of a square index, `0..8`.
pub open spec fn file_of(i: int) -> int {
    i % 8
}

/// Rank (row) of a square index, `0..8`.
pub open spec fn rank_of(i: int) -> int {
    i / 8
}

/// Index of the square with the given file and rank.
pub open spec fn index_of(file: int, rank: int) -> int {
    rank * 8 + file
}

/// Whether a file/rank pair lies on the board.
pub open spec fn on_board(file: int, rank: int) -> bool {
    0 <= file < 8 && 0 <= rank < 8
}

/// A square index lies on the board and is rebuilt from its file and rank.
pub proof fn lemma_index_coords(i: int)
    requires
        0 <= i < 64,
    ensures
        on_board(file_of(i), rank_of(i)),
        index_of(file_of(i), rank_of(i)) == i,
{
}

/// A file and rank on the board give an index whose file and rank they are.
pub proof fn lemma_coords_index(file: int, rank: int)
    requires
        on_board(file, rank),
    ensures
        0 <= index_of(file, rank) < 64,
        file_of(index_of(file, rank)) == file,
        rank_of(index_of(file, rank)) == rank,
{
}

/// A square on the 8x8 Sanqi board, stored as a zero-based index.
///
/// Squares use chess-like coordinates such as `a1` and `h8`.
#[derive(Clone, Copy, Debug, PartialEq, Eq, Hash, PartialOrd, Ord, Structural)]
pub struct Square(pub(crate) u8);

impl Square {
    #[verifier::type_invariant]
    pub open(crate) spec fn valid(self) -> bool {
        self.0 < 64
    }

    /// The zero-based index of the square.
    pub open(crate) spec fn idx(self) -> int {
        self.0 as int
    }

    /// File of the square.
    pub open(crate) spec fn f(self) -> int {
        file_of(self.idx())
    }

    /// Rank of the square.
    pub open(crate) spec fn r(self) -> int {
        rank_of(self.idx())
    }

    /// Creates a square from a zero-based board index.
    pub fn new(index: u8) -> (r: Option<Square>)
        ensures
            r is Some <==> index < 64,
            r matches Some(s) ==> s.idx() == index,
    {
        if index < 64 {
            Some(Square(index))
        } else {
            None
        }
    }

    /// Creates a square from zero-based file and rank coordinates.
    pub fn from_coords(file: i8, rank: i8) -> (r: Option<Square>)
        ensures
            r is Some <==> on_board(file as int, rank as int),
            r matches Some(s) ==> s.idx() == index_of(file as int, rank as int) && s.f() == file
                && s.r() == rank,
    {
        if 0 <= file && file < BOARD_SIZE && 0 <= rank && rank < BOARD_SIZE {
            let index = (rank as u8) * 8 + (file as u8);
            proof {
                lemma_coords_index(file as int, rank as int);
            }
            Some(Square(index))
        } else {
            None
        }
    }

    /// Returns the zero-based square index.
    pub fn index(self) -> (r: u8)
        ensures
            r == self.idx(),
            r < 64,
    {
        proof {
            use_type_invariant(&self);
        }
        self.0
    }

    /// Returns the zero-based file.
    pub fn file(self) -> (r: i8)
        ensures
            r == self.f(),
            0 <= r < 8,
    {
        proof {
            use_type_invariant(&self);
        }
        (self.0 % 8) as i8
    }

    /// Returns the zero-based rank.
    pub fn rank(self) -> (r: i8)
        ensures
            r == self.r(),
            0 <= r < 8,
    {
        proof {
            use_type_invariant(&self);
        }
        (self.0 / 8) as i8
    }

    /// Formats the square as an algebraic coordinate such as `a1`.
    pub fn to_coord(self) -> (s: String)
        ensures
            s@ == spec_coord(self.idx()),
    {
        let mut s = String::new();
        self.push_coord(&mut s);
        s
    }

    /// Formats the square as an algebraic coordinate such as `a1`.
    pub fn to_string(&self) -> (s: String)
        ensures
            s@ == spec_coord(self.idx()),
    {
        self.to_coord()
    }

    /// Appends the algebraic coordinate of the square to `out`.
    pub fn push_coord(self, out: &mut String)
        ensures
            final(out)@ == old(out)@ + spec_coord(self.idx()),
    {
        proof {
            use_type_invariant(&self);
        }
        let file = (97u8 + (self.0 % 8)) as char;
        let rank = (49u8 + (self.0 / 8)) as char;
        push_char(out, file);
        push_char(out, rank);
        proof {
            assert(out@ =~= old(out)@ + spec_coord(self.idx()));
        }
    }
}


/// Value of a file letter (`a`..`h`, either case), if the character is one.
pub open spec fn file_letter_value(c: char) -> Option<int> {
    if 'a' <= c && c <= 'h' {
        Some(c as int - 97)
    } else if 'A' <= c && c <= 'H' {
        Some(c as int - 65)
    } else {
        None
    }
}

/// The square index named by a two-character coordinate, if it names one.
pub open spec fn spec_parse_square(s: Seq<char>) -> Option<int> {
    if s.len() == 2 && file_letter_value(s[0]) is Some && '1' <= s[1] && s[1] <= '8' {
        Some(index_of(file_letter_value(s[0])->0, s[1] as int - 49))
    } else {
        None
    }
}

/// Error returned when parsing a square from text fails.
#[derive(Clone, Copy, Debug, PartialEq, Eq, Structural)]
pub struct ParseSquareError;

impl ParseSquareError {
    /// Human-readable description of the error.
    pub fn to_string(&self) -> (s: String)
        ensures
            s@ == "invalid square"@,
    {
        String::from_str("invalid square")
    }
}

/// Parses the characters `start..end` of `value` as a square coordinate.
fn parse_square_chars(value: &str, start: usize, end: usize) -> (r: Result<Square, ParseSquareError>)
    requires
        start <= end <= value@.len(),
    ensures
        match spec_parse_square(value@.subrange(start as int, end as int)) {
            Some(i) => r matches Ok(sq) && sq.idx() == i,
            None => r is Err,
        },
{
    if end - start != 2 {
        return Err(ParseSquareError);
    }
    let c0 = value.get_char(start);
    let c1 = value.get_char(start + 1);
    let ghost sub = value@.subrange(start as int, end as int);
    assert(sub[0] == c0 && sub[1] == c1);
    let file: u32 = if 'a' <= c0 && c0 <= 'h' {
        (c0 as u32) - 97
    } else if 'A' <= c0 && c0 <= 'H' {
        (c0 as u32) - 65
    } else {
        return Err(ParseSquareError);
    };
    if !('1' <= c1 && c1 <= '8') {
        return Err(ParseSquareError);
    }
    let rank = (c1 as u32) - 49;
    proof {
        lemma_coords_index(file as int, rank as int);
    }
    Ok(Square((rank * 8 + file) as u8))
}

impl Square {
    /// Parses a coordinate such as `a1` (the file letter may be upper case).
    pub fn parse(value: &str) -> (r: Result<Square, ParseSquareError>)
        ensures
            match spec_parse_square(value@) {
                Some(i) => r matches Ok(sq) && sq.idx() == i,
                None => r is Err,
            },
    {
        let n = value.unicode_len();
        proof {
            assert(value@.subrange(0, n as int) =~= value@);
        }
        parse_square_chars(value, 0, n)
    }
}

impl std::str::FromStr for Square {
    type Err = ParseSquareError;

    fn from_str(value: &str) -> (r: Result<Square, ParseSquareError>)
        ensures
            match spec_parse_square(value@) {
                Some(i) => r matches Ok(sq) && sq.idx() == i,
                None => r is Err,
            },
    {
        Square::parse(value)
    }
}

/// A Sanqi move written as `from-to`.
#[derive(Clone, Copy, Debug, PartialEq, Eq, Hash, Structural)]
pub struct Move {
    /// Origin square.
    pub from: Square,
    /// Destination square.
    pub to: Square,
}

/// Notation of a move given by its two square indices, such as `a1-b3`.
pub open spec fn spec_move_text(from: int, to: int) -> Seq<char> {
    spec_coord(from) + seq!['-'] + spec_coord(to)
}

impl Move {
    /// Creates a move from two squares.
    pub fn new(from: Square, to: Square) -> (m: Move)
        ensures
            m.from == from,
            m.to == to,
    {
        Move { from, to }
    }

    /// Formats the move as `from-to`, for example `a1-b3`.
    pub fn to_string(&self) -> (s: String)
        ensures
            s@ == spec_move_text(self.from.idx(), self.to.idx()),
    {
        let mut s = String::new();
        self.push_text(&mut s);
        s
    }

    /// Appends the `from-to` notation of the move to `out`.
    pub fn push_text(&self, out: &mut String)
        ensures
            final(out)@ == old(out)@ + spec_move_text(self.from.idx(), self.to.idx()),
    {
        self.from.push_coord(out);
        push_char(out, '-');
        self.to.push_coord(out);
        proof {
            assert(out@ =~= old(out)@ + spec_move_text(self.from.idx(), self.to.idx()));
        }
    }
}

/// Error returned when parsing a move from text fails.
#[derive(Clone, Debug, PartialEq, Eq, Structural)]
pub enum ParseMoveError {
    InvalidFormat,
    InvalidSquare(ParseSquareError),
}

impl ParseMoveError {
    /// Human-readable description of the error.
    pub open spec fn message(self) -> Seq<char> {
        match self {
            ParseMoveError::InvalidFormat => "invalid move format"@,
            ParseMoveError::InvalidSquare(_) => "invalid square in move"@,
        }
    }

    /// Human-readable description of the error.
    pub fn to_string(&self) -> (s: String)
        ensures
            s@ == self.message(),
    {
        match self {
            ParseMoveError::InvalidFormat => String::from_str("invalid move format"),
            ParseMoveError::InvalidSquare(_) => String::from_str("invalid square in move"),
        }
    }
}

impl From<ParseSquareError> for ParseMoveError {
    fn from(value: ParseSquareError) -> (r: ParseMoveError)
    {
        ParseMoveError::InvalidSquare(value)
    }
}

impl vstd::std_specs::convert::FromSpecImpl<ParseSquareError> for ParseMoveError {
    open spec fn obeys_from_spec() -> bool {
        true
    }

    open spec fn from_spec(v: ParseSquareError) -> ParseMoveError {
        ParseMoveError::InvalidSquare(v)
    }
}

/// Index of the first `-` in `s` at or after `start`, or `s.len()` if there is none.
pub open spec fn next_dash(s: Seq<char>, start: int) -> int
    decreases s.len() - start,
{
    if start >= s.len() {
        s.len() as int
    } else if s[start] == '-' {
        start
    } else {
        next_dash(s, start + 1)
    }
}

/// Result of parsing move notation: the two square indices, or the error.
///
/// The text is split at `-`; the first piece must name a square, then a second
/// piece must exist and name a square, and no third piece may follow.
pub open spec fn spec_parse_move(s: Seq<char>) -> Result<(int, int), ParseMoveError> {
    let d1 = next_dash(s, 0);
    match spec_parse_square(s.subrange(0, d1)) {
        None => Err(ParseMoveError::InvalidSquare(ParseSquareError)),
        Some(from) => if d1 >= s.len() {
            Err(ParseMoveError::InvalidFormat)
        } else {
            let d2 = next_dash(s, d1 + 1);
            match spec_parse_square(s.subrange(d1 + 1, d2)) {
                None => Err(ParseMoveError::InvalidSquare(ParseSquareError)),
                Some(to) => if d2 < s.len() {
                    Err(ParseMoveError::InvalidFormat)
                } else {
                    Ok((from, to))
                },
            }
        },
    }
}

/// Finds the first `-` in `value` at or after `start`.
fn find_dash(value: &str, start: usize, n: usize) -> (r: usize)
    requires
        n == value@.len(),
        start <= n,
    ensures
        r == next_dash(value@, start as int),
        start <= r <= n,
    decreases n - start,
{
    if start >= n {
        n
    } else if value.get_char(start) == '-' {
        start
    } else {
        find_dash(value, start + 1, n)
    }
}

impl Move {
    /// Parses `from-to` notation such as `a1-b3`.
    pub fn parse(value: &str) -> (r: Result<Move, ParseMoveError>)
        ensures
            match spec_parse_move(value@) {
                Ok((from, to)) => r matches Ok(m) && m.from.idx() == from && m.to.idx() == to,
                Err(e) => r == Err::<Move, ParseMoveError>(e),
            },
    {
        let n = value.unicode_len();
        let d1 = find_dash(value, 0, n);
        let from = match parse_square_chars(value, 0, d1) {
            Ok(sq) => sq,
            Err(e) => return Err(ParseMoveError::InvalidSquare(e)),
        };
        if d1 >= n {
            return Err(ParseMoveError::InvalidFormat);
        }
        let d2 = find_dash(value, d1 + 1, n);
        let to = match parse_square_chars(value, d1 + 1, d2) {
            Ok(sq) => sq,
            Err(e) => return Err(ParseMoveError::InvalidSquare(e)),
        };
        if d2 < n {
            return Err(ParseMoveError::InvalidFormat);
        }
        Ok(Move::new(from, to))
    }
}

impl std::str::FromStr for Move {
    type Err = ParseMoveError;

    fn from_str(value: &str) -> (r: Result<Move, ParseMoveError>)
        ensures
            match spec_parse_move(value@) {
                Ok((from, to)) => r matches Ok(m) && m.from.idx() == from && m.to.idx() == to,
                Err(e) => r == Err::<Move, ParseMoveError>(e),
            },
    {
        Move::parse(value)
    }
}

/// A canonicalized pair of supporting pieces.
#[derive(Clone, Copy, Debug, PartialEq, Eq, Hash, Structural)]
pub struct SupportPair {
    /// First support square.
    pub a: Square,
    /// Second support square.
    pub b: Square,
}

/// The support pair of two squares, lower index first.
pub open(crate) spec fn support_pair(a: Square, b: Square) -> SupportPair {
    if a.idx() <= b.idx() {
        SupportPair { a, b }
    } else {
        SupportPair { a: b, b: a }
    }
}

/// A support pair does not depend on the order its squares are given in.
pub proof fn lemma_support_pair_symmetric(a: Square, b: Square)
    ensures
        support_pair(a, b) == support_pair(b, a),
{
}

impl SupportPair {
    /// Creates a support pair and stores it in a stable order (lower index first).
    pub fn new(a: Square, b: Square) -> (p: SupportPair)
        ensures
            p == support_pair(a, b),
            p.a.idx() <= p.b.idx(),
            (p.a == a && p.b == b) || (p.a == b && p.b == a),
    {
        if a.index() <= b.index() {
            SupportPair { a, b }
        } else {
            SupportPair { a: b, b: a }
        }
    }

    /// Returns the pivot implied by the support pair.
    pub fn pivot(self) -> (p: Pivot)
        ensures
            p.ft() == self.a.f() + self.b.f(),
            p.rt() == self.a.r() + self.b.r(),
    {
        Pivot::from_supports(self)
    }
}

/// A doubled-coordinate pivot used for Sanqi reflections.
///
/// The pivot lies halfway between two squares; its coordinates are stored
/// doubled so that they stay integral.
#[derive(Clone, Copy, Debug, PartialEq, Eq, Hash, Structural)]
pub struct Pivot {
    pub(crate) file_twice: i8,
    pub(crate) rank_twice: i8,
}

impl Pivot {
    #[verifier::type_invariant]
    pub open(crate) spec fn valid(self) -> bool {
        0 <= self.file_twice <= 14 && 0 <= self.rank_twice <= 14
    }

    /// Twice the file coordinate.
    pub open(crate) spec fn ft(self) -> int {
        self.file_twice as int
    }

    /// Twice the rank coordinate.
    pub open(crate) spec fn rt(self) -> int {
        self.rank_twice as int
    }

    /// The pivot halfway between two squares.
    pub(crate) fn between(x: Square, y: Square) -> (p: Pivot)
        ensures
            p.ft() == x.f() + y.f(),
            p.rt() == x.r() + y.r(),
    {
        Pivot { file_twice: x.file() + y.file(), rank_twice: x.rank() + y.rank() }
    }

    /// Builds a pivot from a support pair.
    pub fn from_supports(supports: SupportPair) -> (p: Pivot)
        ensures
            p.ft() == supports.a.f() + supports.b.f(),
            p.rt() == supports.a.r() + supports.b.r(),
    {
        Pivot::between(supports.a, supports.b)
    }

    /// Returns twice the file coordinate of the pivot.
    pub fn file_twice(self) -> (r: i8)
        ensures
            r == self.ft(),
            0 <= r <= 14,
    {
        proof {
            use_type_invariant(&self);
        }
        self.file_twice
    }

    /// Returns twice the rank coordinate of the pivot.
    pub fn rank_twice(self) -> (r: i8)
        ensures
            r == self.rt(),
            0 <= r <= 14,
    {
        proof {
            use_type_invariant(&self);
        }
        self.rank_twice
    }

    /// Returns whether the pivot lies on the center of a board square.
    pub fn is_square_center(self) -> (b: bool)
        ensures
            b == (self.ft() % 2 == 0 && self.rt() % 2 == 0),
    {
        proof {
            use_type_invariant(&self);
        }
        self.file_twice % 2 == 0 && self.rank_twice % 2 == 0
    }

    /// Returns the center square if the pivot lies on an actual square center.
    pub fn center_square(self) -> (r: Option<Square>)
        ensures
            r is Some <==> (self.ft() % 2 == 0 && self.rt() % 2 == 0),
            r matches Some(s) ==> 2 * s.f() == self.ft() && 2 * s.r() == self.rt(),
    {
        proof {
            use_type_invariant(&self);
        }
        if self.is_square_center() {
            Square::from_coords(self.file_twice / 2, self.rank_twice / 2)
        } else {
            None
        }
    }

    /// Reflects a square through this pivot.
    pub fn reflect(self, square: Square) -> (r: Option<Square>)
        ensures
            r is Some <==> on_board(self.ft() - square.f(), self.rt() - square.r()),
            r matches Some(s) ==> s.f() == self.ft() - square.f() && s.r() == self.rt()
                - square.r(),
    {
        proof {
            use_type_invariant(&self);
        }
        Square::from_coords(self.file_twice - square.file(), self.rank_twice - square.rank())
    }
}

/// Parsing the coordinate of a square gives the square back.
pub proof fn lemma_coord_roundtrip(i: int)
    requires
        0 <= i < 64,
    ensures
        spec_parse_square(spec_coord(i)) == Some(i),
{
    let s = spec_coord(i);
    assert(file_letter_value(s[0]) == Some(i % 8));
    assert(s[1] as int - 49 == i / 8);
}

/// Parsing the notation of a move gives its two squares back.
pub proof fn lemma_move_text_roundtrip(from: int, to: int)
    requires
        0 <= from < 64,
        0 <= to < 64,
    ensures
        spec_parse_move(spec_move_text(from, to)) == Ok::<(int, int), ParseMoveError>((from, to)),
{
    let s = spec_move_text(from, to);
    assert(s.len() == 5);
    assert(s[0] != '-' && s[1] != '-' && s[2] == '-' && s[3] != '-' && s[4] != '-');
    reveal_with_fuel(next_dash, 4);
    assert(next_dash(s, 0) == 2);
    assert(next_dash(s, 3) == 5);
    assert(s.subrange(0, 2) =~= spec_coord(from));
    assert(s.subrange(3, 5) =~= spec_coord(to));
    lemma_coord_roundtrip(from);
    lemma_coord_roundtrip(to);
}

} // verus!
