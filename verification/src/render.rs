//! Text and SVG rendering of positions.
use vstd::prelude::*;
use vstd::string::*;

use crate::board::{file_of, index_of, rank_of, Color, Move, Pivot, Square};
use crate::position::{PivotEntry, Position};
use crate::text::{decimal, push_char, push_decimal, rank_char};

verus! {

/// Width of one board square in SVG units.
pub const TILE: i32 = 64;

/// Width of the whole board in SVG units.
pub const BOARD_PX: i32 = 512;

/// Rendering options for SVG output.
#[derive(Clone, Debug)]
pub struct RenderOptions {
    /// Optional move to highlight.
    pub highlight_move: Option<Move>,
    /// Optional pivots to draw as blue markers.
    pub pivots: Vec<Pivot>,
}

impl Default for RenderOptions {
    fn default() -> (r: RenderOptions)
        ensures
            r.highlight_move is None,
            r.pivots@.len() == 0,
    {
        RenderOptions { highlight_move: None, pivots: Vec::new() }
    }
}

/// Piece style for ASCII board rendering.
#[derive(Clone, Copy, Debug, PartialEq, Eq, Structural)]
pub enum TextPieceStyle {
    /// Render white and black pieces as `W` and `B`.
    Letters,
    /// Render white and black pieces as filled and hollow discs.
    Discs,
}

impl Default for TextPieceStyle {
    fn default() -> (r: TextPieceStyle)
        ensures
            r == TextPieceStyle::Discs,
    {
        TextPieceStyle::Discs
    }
}

/// Character shown for a square holding `piece`.
pub open spec fn symbol(piece: Option<Color>, style: TextPieceStyle) -> char {
    match piece {
        Some(Color::White) => if style == TextPieceStyle::Letters {
            'W'
        } else {
            '\u{25CF}'
        },
        Some(Color::Black) => if style == TextPieceStyle::Letters {
            'B'
        } else {
            '\u{25CB}'
        },
        None => '.',
    }
}

/// The line of file letters above and below the board.
pub open spec fn file_line() -> Seq<char> {
    "  a b c d e f g h\n"@
}

/// The symbols of the first `n` files of a rank, each followed by a space.
pub open(crate) spec fn ascii_cells(p: Position, style: TextPieceStyle, rank: int, n: int) -> Seq<char>
    decreases n,
{
    if n <= 0 {
        Seq::empty()
    } else {
        ascii_cells(p, style, rank, n - 1) + seq![symbol(p.occupant(index_of(n - 1, rank)), style), ' ']
    }
}

/// One rank of the text board: its number, its squares, its number again.
pub open(crate) spec fn ascii_row(p: Position, style: TextPieceStyle, rank: int) -> Seq<char> {
    seq![rank_char(rank), ' '] + ascii_cells(p, style, rank, 8) + seq![rank_char(rank), '\n']
}

/// The ranks from the eighth down to `rank`.
pub open(crate) spec fn ascii_rows_from(p: Position, style: TextPieceStyle, rank: int) -> Seq<char>
    decreases 8 - rank,
{
    if rank >= 8 {
        Seq::empty()
    } else {
        ascii_rows_from(p, style, rank + 1) + ascii_row(p, style, rank)
    }
}

/// The text board: file letters, the ranks from the eighth down to the
/// first, file letters again.
pub open(crate) spec fn spec_ascii_board(p: Position, style: TextPieceStyle) -> Seq<char> {
    file_line() + ascii_rows_from(p, style, 0) + file_line()
}

/// Character shown for a square holding `piece`.
pub fn piece_symbol(piece: Option<Color>, style: TextPieceStyle) -> (c: char)
    ensures
        c == symbol(piece, style),
{
    match piece {
        Some(Color::White) => match style {
            TextPieceStyle::Letters => 'W',
            TextPieceStyle::Discs => '\u{25CF}',
        },
        Some(Color::Black) => match style {
            TextPieceStyle::Letters => 'B',
            TextPieceStyle::Discs => '\u{25CB}',
        },
        None => '.',
    }
}

/// Renders a position as an ASCII board using [`TextPieceStyle::Discs`].
pub fn ascii_board(position: &Position) -> (s: String)
    ensures
        s@ == spec_ascii_board(*position, TextPieceStyle::Discs),
{
    ascii_board_with_style(position, TextPieceStyle::Discs)
}

/// Renders a position as an ASCII board with an explicit piece style.
pub fn ascii_board_with_style(position: &Position, style: TextPieceStyle) -> (s: String)
    ensures
        s@ == spec_ascii_board(*position, style),
{
    let mut out = String::new();
    out.append("  a b c d e f g h\n");
    let mut r: u8 = 8;
    while r > 0
        invariant
            r <= 8,
            out@ == file_line() + ascii_rows_from(*position, style, r as int),
        decreases r,
    {
        let rank = r - 1;
        let label = (49u8 + rank) as char;
        let ghost before = out@;
        push_char(&mut out, label);
        push_char(&mut out, ' ');
        let mut file: u8 = 0;
        while file < 8
            invariant
                file <= 8,
                rank < 8,
                label == rank_char(rank as int),
                out@ == before + seq![label, ' '] + ascii_cells(*position, style, rank as int, file as int),
            decreases 8 - file,
        {
            let square = Square(rank * 8 + file);
            let sym = piece_symbol(position.piece_at(square), style);
            push_char(&mut out, sym);
            push_char(&mut out, ' ');
            proof {
                assert(square.idx() == index_of(file as int, rank as int));
                assert(out@ =~= before + seq![label, ' '] + ascii_cells(*position, style, rank as int, file + 1));
            }
            file += 1;
        }
        push_char(&mut out, label);
        push_char(&mut out, '\n');
        proof {
            assert(out@ =~= before + ascii_row(*position, style, rank as int));
            assert(ascii_rows_from(*position, style, rank as int) == ascii_rows_from(*position, style, r as int)
                + ascii_row(*position, style, rank as int));
            assert(out@ =~= file_line() + ascii_rows_from(*position, style, rank as int));
        }
        r = rank;
    }
    out.append("  a b c d e f g h\n");
    out
}

/// Opening tag of the SVG document.
pub open spec fn svg_header() -> Seq<char> {
    "<svg xmlns=\"http://www.w3.org/2000/svg\" viewBox=\"0 0 "@ + decimal(512) + " "@ + decimal(512)
        + "\" width=\""@ + decimal(512) + "\" height=\""@ + decimal(512) + "\">"@
}

/// Background of the SVG document.
pub open spec fn svg_background() -> Seq<char> {
    "<rect width=\"100%\" height=\"100%\" fill=\"#f5e6c8\"/>"@
}

/// Horizontal SVG coordinate of the center of file `f`.
pub open spec fn center_x(f: int) -> int {
    f * 64 + 32
}

/// Vertical SVG coordinate of the center of rank `r` (the first rank at the bottom).
pub open spec fn center_y(r: int) -> int {
    (7 - r) * 64 + 32
}

/// The board square with index `i`.
pub open spec fn square_rect(i: int) -> Seq<char> {
    "<rect x=\""@ + decimal((file_of(i) * 64) as nat) + "\" y=\""@ + decimal(((7 - rank_of(i)) * 64) as nat)
        + "\" width=\""@ + decimal(64) + "\" height=\""@ + decimal(64) + "\" fill=\""@ + (if (file_of(i)
        + rank_of(i)) % 2 == 1 {
        "#a06b3b"@
    } else {
        "#f5e6c8"@
    }) + "\"/>"@
}

/// The squares with index below `n`, in index order.
pub open spec fn square_rects(n: int) -> Seq<char>
    decreases n,
{
    if n <= 0 {
        Seq::empty()
    } else {
        square_rects(n - 1) + square_rect(n - 1)
    }
}

/// Ring around the square with index `i` of a highlighted move.
pub open spec fn highlight_ring(i: int) -> Seq<char> {
    "<circle cx=\""@ + decimal(center_x(file_of(i)) as nat) + "\" cy=\""@ + decimal(
        center_y(rank_of(i)) as nat,
    ) + "\" r=\"26\" fill=\"none\" stroke=\"#d7263d\" stroke-width=\"4\"/>"@
}

/// Line and rings marking a move.
pub open spec fn highlight(mv: Option<Move>) -> Seq<char> {
    match mv {
        None => Seq::empty(),
        Some(m) => {
            let f = m.from.idx();
            let t = m.to.idx();
            "<line x1=\""@ + decimal(center_x(file_of(f)) as nat) + "\" y1=\""@ + decimal(
                center_y(rank_of(f)) as nat,
            ) + "\" x2=\""@ + decimal(center_x(file_of(t)) as nat) + "\" y2=\""@ + decimal(
                center_y(rank_of(t)) as nat,
            )
                + "\" stroke=\"#d7263d\" stroke-width=\"6\" stroke-linecap=\"round\" opacity=\"0.75\"/>"@
                + highlight_ring(f) + highlight_ring(t)
        },
    }
}

/// Marker of a pivot, drawn at the point halfway between its squares.
pub open(crate) spec fn pivot_marker(pv: Pivot) -> Seq<char> {
    "<circle cx=\""@ + decimal((pv.ft() * 32 + 32) as nat) + ".0\" cy=\""@ + decimal(
        ((14 - pv.rt()) * 32 + 32) as nat,
    ) + ".0\" r=\"8\" fill=\"#118ab2\" opacity=\"0.9\"/>"@
}

/// Markers of the pivots in `s`, in order.
pub open(crate) spec fn pivot_markers(s: Seq<Pivot>) -> Seq<char>
    decreases s.len(),
{
    if s.len() == 0 {
        Seq::empty()
    } else {
        pivot_markers(s.drop_last()) + pivot_marker(s.last())
    }
}

/// The piece on the square with index `i`, if any.
pub open(crate) spec fn piece_circle(p: Position, i: int) -> Seq<char> {
    match p.occupant(i) {
        None => Seq::empty(),
        Some(c) => "<circle cx=\""@ + decimal(center_x(file_of(i)) as nat) + "\" cy=\""@ + decimal(
            center_y(rank_of(i)) as nat,
        ) + "\" r=\"20\" fill=\""@ + (if c == Color::White {
            "#fffdf7"@
        } else {
            "#1f1f1f"@
        }) + "\" stroke=\""@ + (if c == Color::White {
            "#56452f"@
        } else {
            "#f2eadb"@
        }) + "\" stroke-width=\"3\"/>"@,
    }
}

/// Whether the text `t` occurs in `s`.
pub open spec fn contains_text(s: Seq<char>, t: Seq<char>) -> bool {
    exists|k: int| 0 <= k && k + t.len() <= s.len() && #[trigger] s.subrange(k, k + t.len()) == t
}

/// The disc of a piece is drawn in its owner's colors: a white piece light
/// (fill `#fffdf7`) with a dark rim (stroke `#56452f`), a black piece dark
/// (fill `#1f1f1f`) with a light rim (stroke `#f2eadb`).
pub proof fn lemma_disc_colors(p: Position, i: int)
    requires
        p.occupant(i) is Some,
    ensures
        p.occupant(i) == Some(Color::White) ==> contains_text(piece_circle(p, i), "fill=\"#fffdf7\""@)
            && contains_text(piece_circle(p, i), "stroke=\"#56452f\""@) && piece_circle(p, i)[disc_fill_at(i)]
            == 'f',
        p.occupant(i) == Some(Color::Black) ==> contains_text(piece_circle(p, i), "fill=\"#1f1f1f\""@)
            && contains_text(piece_circle(p, i), "stroke=\"#f2eadb\""@) && piece_circle(p, i)[disc_fill_at(i)]
            == '1',
{
    reveal_strlit("<circle cx=\"");
    reveal_strlit("\" cy=\"");
    reveal_strlit("\" r=\"20\" fill=\"");
    reveal_strlit("#fffdf7");
    reveal_strlit("#1f1f1f");
    reveal_strlit("\" stroke=\"");
    reveal_strlit("#56452f");
    reveal_strlit("#f2eadb");
    reveal_strlit("\" stroke-width=\"3\"/>");
    reveal_strlit("fill=\"#fffdf7\"");
    reveal_strlit("fill=\"#1f1f1f\"");
    reveal_strlit("stroke=\"#56452f\"");
    reveal_strlit("stroke=\"#f2eadb\"");
    let a = "<circle cx=\""@ + decimal(center_x(file_of(i)) as nat) + "\" cy=\""@ + decimal(
        center_y(rank_of(i)) as nat,
    );
    let b = "\" r=\"20\" fill=\""@;
    let tail = "\" stroke-width=\"3\"/>"@;
    let mid = "\" stroke=\""@;
    let cp = piece_circle(p, i);
    let n: int = a.len() as int;
    assert(n + 16 == disc_fill_at(i));
    if p.occupant(i) == Some(Color::White) {
        assert(cp == a + b + "#fffdf7"@ + mid + "#56452f"@ + tail);
        assert(cp[n + 16] == 'f');
        let t1 = "fill=\"#fffdf7\""@;
        assert(cp.subrange(n + 9, n + 9 + t1.len()) =~= t1);
        let t2 = "stroke=\"#56452f\""@;
        assert(cp.subrange(n + 24, n + 24 + t2.len()) =~= t2);
    } else {
        assert(cp == a + b + "#1f1f1f"@ + mid + "#f2eadb"@ + tail);
        assert(cp[n + 16] == '1');
        let t1 = "fill=\"#1f1f1f\""@;
        assert(cp.subrange(n + 9, n + 9 + t1.len()) =~= t1);
        let t2 = "stroke=\"#f2eadb\""@;
        assert(cp.subrange(n + 24, n + 24 + t2.len()) =~= t2);
    }
}

/// Where the second character of the fill color of the disc on square `i` stands.
pub open spec fn disc_fill_at(i: int) -> int {
    ("<circle cx=\""@ + decimal(center_x(file_of(i)) as nat) + "\" cy=\""@ + decimal(center_y(rank_of(i)) as nat)).len()
        + 16int
}

/// On any square the discs of the two sides differ.
pub proof fn lemma_piece_discs_differ(p: Position, q: Position, i: int)
    requires
        p.occupant(i) == Some(Color::White),
        q.occupant(i) == Some(Color::Black),
    ensures
        piece_circle(p, i) != piece_circle(q, i),
{
    lemma_disc_colors(p, i);
    lemma_disc_colors(q, i);
}

/// Text found in a part of a text is found in the whole.
proof fn lemma_contains_in_whole(x: Seq<char>, y: Seq<char>, t: Seq<char>)
    ensures
        contains_text(x, t) ==> contains_text(x + y, t),
        contains_text(y, t) ==> contains_text(x + y, t),
{
    if contains_text(x, t) {
        let k = choose|k: int| 0 <= k && k + t.len() <= x.len() && #[trigger] x.subrange(k, k + t.len()) == t;
        assert((x + y).subrange(k, k + t.len()) =~= x.subrange(k, k + t.len()));
    }
    if contains_text(y, t) {
        let k = choose|k: int| 0 <= k && k + t.len() <= y.len() && #[trigger] y.subrange(k, k + t.len()) == t;
        assert((x + y).subrange(x.len() + k, x.len() + k + t.len()) =~= y.subrange(k, k + t.len()));
    }
}

/// Text found in a text found in `s` is found in `s`.
proof fn lemma_contains_trans(s: Seq<char>, u: Seq<char>, t: Seq<char>)
    requires
        contains_text(s, u),
        contains_text(u, t),
    ensures
        contains_text(s, t),
{
    let k = choose|k: int| 0 <= k && k + u.len() <= s.len() && #[trigger] s.subrange(k, k + u.len()) == u;
    let j = choose|j: int| 0 <= j && j + t.len() <= u.len() && #[trigger] u.subrange(j, j + t.len()) == t;
    assert(s.subrange(k + j, k + j + t.len()) =~= u.subrange(j, j + t.len()));
}

/// Every piece on the squares below `n` has its disc among the discs drawn.
proof fn lemma_discs_drawn(p: Position, n: int, i: int)
    requires
        0 <= i < n,
    ensures
        contains_text(piece_circles(p, n), piece_circle(p, i)),
    decreases n,
{
    let c = piece_circle(p, i);
    assert(piece_circles(p, n) == piece_circles(p, n - 1) + piece_circle(p, n - 1));
    if i < n - 1 {
        lemma_discs_drawn(p, n - 1, i);
        lemma_contains_in_whole(piece_circles(p, n - 1), piece_circle(p, n - 1), c);
    } else {
        assert(c.subrange(0int, 0int + c.len()) =~= c);
        assert(contains_text(c, c));
        lemma_contains_in_whole(piece_circles(p, n - 1), c, c);
    }
}

/// The SVG of a position shows every piece in its owner's colors: a disc
/// filled `#fffdf7` for a white piece and `#1f1f1f` for a black one.
pub proof fn lemma_svg_shows_owners(p: Position, mv: Option<Move>, pivots: Seq<Pivot>, i: int)
    requires
        0 <= i < 64,
        p.occupant(i) is Some,
    ensures
        p.occupant(i) == Some(Color::White) ==> contains_text(spec_svg(p, mv, pivots), "fill=\"#fffdf7\""@),
        p.occupant(i) == Some(Color::Black) ==> contains_text(spec_svg(p, mv, pivots), "fill=\"#1f1f1f\""@),
{
    let disc = piece_circle(p, i);
    lemma_discs_drawn(p, 64, i);
    let before = svg_header() + svg_background() + square_rects(64) + highlight(mv) + pivot_markers(pivots);
    lemma_contains_in_whole(before, piece_circles(p, 64), disc);
    lemma_contains_in_whole(before + piece_circles(p, 64), "</svg>"@, disc);
    assert(spec_svg(p, mv, pivots) == before + piece_circles(p, 64) + "</svg>"@);
    lemma_disc_colors(p, i);
    if p.occupant(i) == Some(Color::White) {
        lemma_contains_trans(spec_svg(p, mv, pivots), disc, "fill=\"#fffdf7\""@);
    } else {
        lemma_contains_trans(spec_svg(p, mv, pivots), disc, "fill=\"#1f1f1f\""@);
    }
}

/// The pieces on the squares with index below `n`, in index order.
pub open(crate) spec fn piece_circles(p: Position, n: int) -> Seq<char>
    decreases n,
{
    if n <= 0 {
        Seq::empty()
    } else {
        piece_circles(p, n - 1) + piece_circle(p, n - 1)
    }
}

/// The SVG document: board, highlighted move, pivot markers, then pieces.
pub open(crate) spec fn spec_svg(p: Position, mv: Option<Move>, pivots: Seq<Pivot>) -> Seq<char> {
    svg_header() + svg_background() + square_rects(64) + highlight(mv) + pivot_markers(pivots)
        + piece_circles(p, 64) + "</svg>"@
}

/// SVG coordinates of the center of a square.
pub fn square_center(square: Square) -> (r: (i32, i32))
    ensures
        r.0 == center_x(square.f()),
        r.1 == center_y(square.r()),
        32 <= r.0 <= 480,
        32 <= r.1 <= 480,
{
    let x = square.file() as i32 * TILE + TILE / 2;
    let y = (7 - square.rank() as i32) * TILE + TILE / 2;
    (x, y)
}

/// Appends the 64 board squares.
fn render_squares(svg: &mut String)
    ensures
        final(svg)@ == old(svg)@ + square_rects(64),
{
    let mut i: u8 = 0;
    while i < 64
        invariant
            i <= 64,
            svg@ == old(svg)@ + square_rects(i as int),
        decreases 64 - i,
    {
        let file = i % 8;
        let rank = i / 8;
        let x = file as i32 * TILE;
        let y = (7 - rank as i32) * TILE;
        let ghost before = svg@;
        svg.append("<rect x=\"");
        push_decimal(svg, x as u64);
        svg.append("\" y=\"");
        push_decimal(svg, y as u64);
        svg.append("\" width=\"");
        push_decimal(svg, TILE as u64);
        svg.append("\" height=\"");
        push_decimal(svg, TILE as u64);
        svg.append("\" fill=\"");
        if (file + rank) % 2 == 1 {
            svg.append("#a06b3b");
        } else {
            svg.append("#f5e6c8");
        }
        svg.append("\"/>");
        proof {
            assert(svg@ =~= before + square_rect(i as int));
        }
        i += 1;
    }
}

/// Appends the ring around one square of a highlighted move.
fn render_ring(svg: &mut String, square: Square)
    ensures
        final(svg)@ == old(svg)@ + highlight_ring(square.idx()),
{
    let (cx, cy) = square_center(square);
    svg.append("<circle cx=\"");
    push_decimal(svg, cx as u64);
    svg.append("\" cy=\"");
    push_decimal(svg, cy as u64);
    svg.append("\" r=\"26\" fill=\"none\" stroke=\"#d7263d\" stroke-width=\"4\"/>");
    proof {
        assert(svg@ =~= old(svg)@ + highlight_ring(square.idx()));
    }
}

/// Appends the line and rings marking a move, if there is one.
fn render_move_highlight(svg: &mut String, highlight_move: Option<Move>)
    ensures
        final(svg)@ == old(svg)@ + highlight(highlight_move),
{
    let mv = match highlight_move {
        Some(mv) => mv,
        None => {
            proof {
                assert(svg@ =~= old(svg)@ + highlight(highlight_move));
            }
            return;
        },
    };
    let (from_x, from_y) = square_center(mv.from);
    let (to_x, to_y) = square_center(mv.to);
    svg.append("<line x1=\"");
    push_decimal(svg, from_x as u64);
    svg.append("\" y1=\"");
    push_decimal(svg, from_y as u64);
    svg.append("\" x2=\"");
    push_decimal(svg, to_x as u64);
    svg.append("\" y2=\"");
    push_decimal(svg, to_y as u64);
    svg.append("\" stroke=\"#d7263d\" stroke-width=\"6\" stroke-linecap=\"round\" opacity=\"0.75\"/>");
    render_ring(svg, mv.from);
    render_ring(svg, mv.to);
    proof {
        assert(svg@ =~= old(svg)@ + highlight(highlight_move));
    }
}

/// Appends a marker for each pivot, at the point halfway between its squares.
fn render_pivots(svg: &mut String, pivots: &[Pivot])
    ensures
        final(svg)@ == old(svg)@ + pivot_markers(pivots@),
{
    let mut k: usize = 0;
    while k < pivots.len()
        invariant
            k <= pivots.len(),
            svg@ == old(svg)@ + pivot_markers(pivots@.take(k as int)),
        decreases pivots.len() - k,
    {
        let pivot = pivots[k];
        let x = pivot.file_twice() as i32 * 32 + 32;
        let y = (14 - pivot.rank_twice() as i32) * 32 + 32;
        let ghost before = svg@;
        svg.append("<circle cx=\"");
        push_decimal(svg, x as u64);
        svg.append(".0\" cy=\"");
        push_decimal(svg, y as u64);
        svg.append(".0\" r=\"8\" fill=\"#118ab2\" opacity=\"0.9\"/>");
        proof {
            assert(pivots@.take(k + 1).drop_last() =~= pivots@.take(k as int));
            assert(svg@ =~= before + pivot_marker(pivot));
        }
        k += 1;
    }
    proof {
        assert(pivots@.take(pivots.len() as int) =~= pivots@);
    }
}

/// Appends a disc for every piece, square by square in index order.
fn render_pieces(svg: &mut String, position: &Position)
    ensures
        final(svg)@ == old(svg)@ + piece_circles(*position, 64),
{
    let mut i: u8 = 0;
    while i < 64
        invariant
            i <= 64,
            svg@ == old(svg)@ + piece_circles(*position, i as int),
        decreases 64 - i,
    {
        let square = Square(i);
        let ghost before = svg@;
        match position.piece_at(square) {
            Some(color) => {
                let (cx, cy) = square_center(square);
                svg.append("<circle cx=\"");
                push_decimal(svg, cx as u64);
                svg.append("\" cy=\"");
                push_decimal(svg, cy as u64);
                svg.append("\" r=\"20\" fill=\"");
                match color {
                    Color::White => svg.append("#fffdf7"),
                    Color::Black => svg.append("#1f1f1f"),
                }
                svg.append("\" stroke=\"");
                match color {
                    Color::White => svg.append("#56452f"),
                    Color::Black => svg.append("#f2eadb"),
                }
                svg.append("\" stroke-width=\"3\"/>");
            },
            None => {},
        }
        proof {
            assert(svg@ =~= before + piece_circle(*position, i as int));
        }
        i += 1;
    }
}

/// Renders a position as SVG with explicit rendering options.
pub fn svg_board_with_options(position: &Position, options: &RenderOptions) -> (s: String)
    ensures
        s@ == spec_svg(*position, options.highlight_move, options.pivots@),
{
    let mut svg = String::new();
    svg.append("<svg xmlns=\"http://www.w3.org/2000/svg\" viewBox=\"0 0 ");
    push_decimal(&mut svg, BOARD_PX as u64);
    svg.append(" ");
    push_decimal(&mut svg, BOARD_PX as u64);
    svg.append("\" width=\"");
    push_decimal(&mut svg, BOARD_PX as u64);
    svg.append("\" height=\"");
    push_decimal(&mut svg, BOARD_PX as u64);
    svg.append("\">");
    svg.append("<rect width=\"100%\" height=\"100%\" fill=\"#f5e6c8\"/>");
    proof {
        assert(svg@ =~= svg_header() + svg_background());
    }
    render_squares(&mut svg);
    render_move_highlight(&mut svg, options.highlight_move);
    render_pivots(&mut svg, options.pivots.as_slice());
    render_pieces(&mut svg, position);
    svg.append("</svg>");
    proof {
        assert(svg@ =~= spec_svg(*position, options.highlight_move, options.pivots@));
    }
    svg
}

/// Renders a position as plain SVG without highlights.
pub fn svg_board(position: &Position) -> (s: String)
    ensures
        s@ == spec_svg(*position, None, Seq::empty()),
{
    let options = RenderOptions::default();
    proof {
        assert(options.pivots@ =~= Seq::<Pivot>::empty());
    }
    svg_board_with_options(position, &options)
}

/// Whether `entries` lists exactly the pairs of pieces of `c` that support
/// `mv`, ordered by the pair's square indices.
pub open(crate) spec fn supporting_list(p: Position, c: Color, mv: Move, entries: Seq<PivotEntry>) -> bool {
    &&& forall|k: int|
        0 <= k < entries.len() ==> p.support_entry(c, mv.from.idx(), mv.to.idx(), #[trigger] entries[k])
    &&& forall|k1: int, k2: int|
        0 <= k1 < k2 < entries.len() ==> crate::position::pair_lt(
            #[trigger] entries[k1].supports.a.idx(),
            entries[k1].supports.b.idx(),
            #[trigger] entries[k2].supports.a.idx(),
            entries[k2].supports.b.idx(),
        )
    &&& forall|s1: int, s2: int|
        s1 < s2 && #[trigger] p.holds(c, s1) && #[trigger] p.holds(c, s2) && crate::position::pair_supports(
            mv.from.idx(),
            mv.to.idx(),
            s1,
            s2,
        ) ==> exists|k: int|
            0 <= k < entries.len() && entries[k].supports.a.idx() == s1 && entries[k].supports.b.idx() == s2
}

/// Renders a position as SVG and highlights a move for an explicit side.
///
/// Any pivots supporting the move for `color` are also marked automatically.
pub fn svg_for_move_for_color(position: &Position, color: Color, mv: Move) -> (s: String)
    ensures
        exists|entries: Seq<PivotEntry>|
            supporting_list(*position, color, mv, entries) && s@ == spec_svg(
                *position,
                Some(mv),
                entries.map_values(|e: PivotEntry| e.pivot),
            ),
{
    let entries = position.supporting_pivots(color, mv);
    let mut pivots: Vec<Pivot> = Vec::new();
    let mut k: usize = 0;
    while k < entries.len()
        invariant
            k <= entries.len(),
            pivots@ == entries@.take(k as int).map_values(|e: PivotEntry| e.pivot),
        decreases entries.len() - k,
    {
        pivots.push(entries[k].pivot);
        proof {
            assert(entries@.take(k + 1).map_values(|e: PivotEntry| e.pivot) =~= entries@.take(
                k as int,
            ).map_values(|e: PivotEntry| e.pivot).push(entries@[k as int].pivot));
        }
        k += 1;
    }
    proof {
        assert(entries@.take(entries.len() as int) =~= entries@);
    }
    let options = RenderOptions { highlight_move: Some(mv), pivots };
    let s = svg_board_with_options(position, &options);
    proof {
        assert(supporting_list(*position, color, mv, entries@));
    }
    s
}

/// Renders a position as SVG and highlights a move for the side to move.
pub fn svg_for_move(position: &Position, mv: Move) -> (s: String)
    ensures
        exists|entries: Seq<PivotEntry>|
            supporting_list(*position, position.side(), mv, entries) && s@ == spec_svg(
                *position,
                Some(mv),
                entries.map_values(|e: PivotEntry| e.pivot),
            ),
{
    svg_for_move_for_color(position, position.side_to_move(), mv)
}

} // verus!
