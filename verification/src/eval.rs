//! Static evaluation of positions.
use vstd::prelude::*;

use crate::board::{file_of, rank_of, Color, Move, Square};
use crate::position::{slot, Outcome, Position};

verus! {

/// Score assigned to positions where the side to move has already lost.
pub const WIN_SCORE: i32 = 100_000;

/// Absolute value.
pub open spec fn abs_int(x: int) -> int {
    if x < 0 {
        -x
    } else {
        x
    }
}

/// Centrality of a square index: minus its doubled Manhattan distance from the
/// board's center.
pub open spec fn centrality(i: int) -> int {
    -(abs_int(2 * file_of(i) - 7) + abs_int(2 * rank_of(i) - 7))
}

/// Sum of the centralities of the square indices in `s`.
pub open spec fn centrality_total(s: Seq<int>) -> int
    decreases s.len(),
{
    if s.len() == 0 {
        0
    } else {
        centrality_total(s.drop_last()) + centrality(s.last())
    }
}

/// Slots (`from * 64 + to`) of a sequence of moves.
pub open(crate) spec fn move_slots(ms: Seq<Move>) -> Seq<int> {
    ms.map_values(|m: Move| slot(m.from.idx(), m.to.idx()))
}

/// Slots of the legal moves of `c` in `p`.
pub open(crate) spec fn legal_slots(p: Position, c: Color) -> Set<int> {
    Set::new(|s: int| 0 <= s < 4096 && p.legal_for(c, s / 64, s % 64))
}

/// Slots of the legal moves of `c` in `p` that capture.
pub open(crate) spec fn capture_slots(p: Position, c: Color) -> Set<int> {
    legal_slots(p, c).filter(|s: int| p.holds(c.other(), s % 64))
}

/// Whether the piece of `c` on square index `i` has a legal move.
pub open(crate) spec fn has_move_from(p: Position, c: Color, i: int) -> bool {
    exists|t: int| #[trigger] p.legal_for(c, i, t)
}

/// Squares of pieces of `c` that have no legal move.
pub open(crate) spec fn blocked_squares(p: Position, c: Color) -> Set<int> {
    Set::new(|i: int| p.holds(c, i)).filter(|i: int| !has_move_from(p, c, i))
}

/// The static evaluation, from the point of view of the side to move.
///
/// A side without legal moves has lost. Otherwise material, mobility, capture
/// pressure, centrality and blocked pieces are compared between both sides,
/// each side's moves counted as if it were to move.
pub open(crate) spec fn spec_evaluate(p: Position) -> int {
    let s = p.side();
    let o = s.other();
    if !p.can_move() {
        -WIN_SCORE
    } else {
        (p.pieces(s).len() - p.pieces(o).len()) * 120 + (legal_slots(p, s).len() - legal_slots(
            p,
            o,
        ).len()) * 12 + (capture_slots(p, s).len() - capture_slots(p, o).len()) * 35 + (
        centrality_total(p.pieces(s)) - centrality_total(p.pieces(o))) * 3 + (blocked_squares(
            p,
            o,
        ).len() - blocked_squares(p, s).len()) * 8
    }
}

/// Centrality of a square: minus the doubled Manhattan distance to the center.
pub fn square_centrality(square: Square) -> (r: i32)
    ensures
        r == centrality(square.idx()),
        -14 <= r <= 0,
{
    let file = square.file() as i32;
    let rank = square.rank() as i32;
    let df = 2 * file - 7;
    let dr = 2 * rank - 7;
    let af = if df < 0 { -df } else { df };
    let ar = if dr < 0 { -dr } else { dr };
    -(af + ar)
}

/// Number of moves in `moves` whose destination holds a piece of the
/// opponent of the side to move.
pub fn capture_count_from_moves(position: &Position, moves: &[Move]) -> (r: usize)
    ensures
        r == move_slots(moves@).filter(|s: int| position.holds(position.side().other(), s % 64)).len(),
        r <= moves.len(),
{
    let opponent = position.side_to_move().opponent();
    let ghost pred = |s: int| position.holds(position.side().other(), s % 64);
    let ghost ss = move_slots(moves@);
    let mut count: usize = 0;
    let mut k: usize = 0;
    while k < moves.len()
        invariant
            k <= moves.len(),
            ss == move_slots(moves@),
            opponent == position.side().other(),
            pred == (|s: int| position.holds(position.side().other(), s % 64)),
            count == ss.take(k as int).filter(pred).len(),
            count <= k,
        decreases moves.len() - k,
    {
        let mv = moves[k];
        let from = mv.from.index();
        let to = mv.to.index();
        proof {
            assert(ss.take(k + 1) =~= ss.take(k as int).push(ss[k as int]));
            ss.take(k as int).lemma_filter_push(ss[k as int], pred);
            assert(ss[k as int] % 64 == to);
        }
        if position.has_piece(opponent, mv.to) {
            count = count + 1;
        }
        k += 1;
    }
    proof {
        assert(ss.take(moves.len() as int) =~= ss);
    }
    count
}

/// Whether some move in `moves` starts on square index `i`.
pub open spec fn moves_from(ms: Seq<Move>, i: int) -> bool {
    exists|k: int| 0 <= k < ms.len() && #[trigger] ms[k].from.idx() == i
}

/// Number of squares in `pieces` from which no move in `moves` starts.
pub fn blocked_piece_count_from_moves(pieces: &[Square], moves: &[Move]) -> (r: usize)
    ensures
        r == pieces@.map_values(|s: Square| s.idx()).filter(|i: int| !moves_from(moves@, i)).len(),
        r <= pieces.len(),
{
    let ghost pred = |i: int| !moves_from(moves@, i);
    let ghost ps = pieces@.map_values(|s: Square| s.idx());
    let mut count: usize = 0;
    let mut k: usize = 0;
    while k < pieces.len()
        invariant
            k <= pieces.len(),
            ps == pieces@.map_values(|s: Square| s.idx()),
            pred == (|i: int| !moves_from(moves@, i)),
            count == ps.take(k as int).filter(pred).len(),
            count <= k,
        decreases pieces.len() - k,
    {
        let square = pieces[k];
        let mut found = false;
        let mut m: usize = 0;
        while m < moves.len()
            invariant
                m <= moves.len(),
                found == exists|x: int| 0 <= x < m && #[trigger] moves@[x].from.idx() == square.idx(),
            decreases moves.len() - m,
        {
            if moves[m].from == square {
                found = true;
                proof {
                    assert(moves@[m as int].from.idx() == square.idx());
                }
            } else {
                proof {
                    assert(moves@[m as int].from.idx() != square.idx());
                    assert forall|x: int| 0 <= x < m + 1 && #[trigger] moves@[x].from.idx() == square.idx() implies x < m by {}
                }
            }
            m += 1;
        }
        proof {
            assert(ps.take(k + 1) =~= ps.take(k as int).push(ps[k as int]));
            ps.take(k as int).lemma_filter_push(ps[k as int], pred);
            assert(found == moves_from(moves@, square.idx()));
        }
        if !found {
            count = count + 1;
        }
        k += 1;
    }
    proof {
        assert(ps.take(pieces.len() as int) =~= ps);
    }
    count
}

/// Sum of the centralities of `squares`.
fn centrality_sum(squares: &[Square]) -> (r: i32)
    requires
        squares.len() <= 64,
    ensures
        r == centrality_total(squares@.map_values(|s: Square| s.idx())),
        -14 * squares.len() <= r <= 0,
{
    let ghost ps = squares@.map_values(|s: Square| s.idx());
    let mut sum: i32 = 0;
    let mut k: usize = 0;
    while k < squares.len()
        invariant
            k <= squares.len() <= 64,
            ps == squares@.map_values(|s: Square| s.idx()),
            sum == centrality_total(ps.take(k as int)),
            -14 * k <= sum <= 0,
        decreases squares.len() - k,
    {
        let c = square_centrality(squares[k]);
        proof {
            assert(ps.take(k + 1).drop_last() =~= ps.take(k as int));
        }
        sum = sum + c;
        k += 1;
    }
    proof {
        assert(ps.take(squares.len() as int) =~= ps);
    }
    sum
}

} // verus!

verus! {

/// A slot gives back its two square indices.
proof fn lemma_slot_parts(f: int, t: int)
    requires
        0 <= f < 64,
        0 <= t < 64,
    ensures
        slot(f, t) / 64 == f,
        slot(f, t) % 64 == t,
        0 <= slot(f, t) < 4096,
{
    assert((f * 64 + t) / 64 == f && (f * 64 + t) % 64 == t) by (nonlinear_arith)
        requires
            0 <= f < 64,
            0 <= t < 64,
    ;
}

/// Every slot is made of two square indices.
proof fn lemma_slot_split(s: int)
    requires
        0 <= s < 4096,
    ensures
        0 <= s / 64 < 64,
        0 <= s % 64 < 64,
        slot(s / 64, s % 64) == s,
{
}

/// The slots of a duplicate-free list of exactly the legal moves of `q` are the
/// legal slots of any position with the same pieces.
pub(crate) proof fn lemma_legal_vec_slots(p: Position, q: Position, ms: Seq<Move>)
    requires
        q.white == p.white,
        q.black == p.black,
        ms.no_duplicates(),
        forall|m: Move| #[trigger] ms.contains(m) <==> q.is_legal(m),
    ensures
        move_slots(ms).no_duplicates(),
        move_slots(ms).to_set() == legal_slots(p, q.side()),
        move_slots(ms).len() == ms.len(),
{
    let ss = move_slots(ms);
    let c = q.side();
    assert forall|f: int, t: int| #[trigger] p.legal_for(c, f, t) == q.legal_for(c, f, t) by {
        crate::position::lemma_same_pieces_legal(p, q, c, f, t);
    }
    assert forall|k: int| 0 <= k < ms.len() implies p.legal_for(c, #[trigger] ms[k].from.idx(), ms[k].to.idx()) by {
        assert(ms.contains(ms[k]));
        assert(q.is_legal(ms[k]));
    }
    assert forall|a: int, b: int| 0 <= a < ss.len() && 0 <= b < ss.len() && a != b implies ss[a] != ss[b] by {
        assert(p.legal_for(c, ms[a].from.idx(), ms[a].to.idx()));
        assert(p.legal_for(c, ms[b].from.idx(), ms[b].to.idx()));
        crate::position::lemma_squares_in(p.occ(c));
        lemma_slot_parts(ms[a].from.idx(), ms[a].to.idx());
        lemma_slot_parts(ms[b].from.idx(), ms[b].to.idx());
        if ss[a] == ss[b] {
            assert(ms[a].from.idx() == ms[b].from.idx());
            assert(ms[a].to.idx() == ms[b].to.idx());
            assert(ms[a] == ms[b]);
        }
    }
    assert forall|s: int| #[trigger] ss.to_set().contains(s) <==> legal_slots(p, c).contains(s) by {
        if ss.to_set().contains(s) {
            assert(ss.contains(s));
            let k = choose|k: int| 0 <= k < ss.len() && ss[k] == s;
            assert(p.legal_for(c, ms[k].from.idx(), ms[k].to.idx()));
            crate::position::lemma_squares_in(p.occ(c));
            lemma_slot_parts(ms[k].from.idx(), ms[k].to.idx());
        }
        if legal_slots(p, c).contains(s) {
            lemma_slot_split(s);
            let m = Move { from: Square((s / 64) as u8), to: Square((s % 64) as u8) };
            assert(q.is_legal(m));
            assert(ms.contains(m));
            let k = choose|k: int| 0 <= k < ms.len() && ms[k] == m;
            assert(ss[k] == s);
        }
    }
    assert(ss.to_set() =~= legal_slots(p, c));
}

/// The square indices of a list of squares, in order.
pub open(crate) spec fn square_indices(sq: Seq<Square>) -> Seq<int> {
    sq.map_values(|s: Square| s.idx())
}

/// Counts of the side-dependent evaluation terms of one side, computed from
/// its legal moves.
proof fn lemma_side_terms(p: Position, q: Position, pieces: Seq<Square>, ms: Seq<Move>)
    requires
        q.white == p.white,
        q.black == p.black,
        ms.no_duplicates(),
        forall|m: Move| #[trigger] ms.contains(m) <==> q.is_legal(m),
        pieces.len() == p.pieces(q.side()).len(),
        forall|k: int| 0 <= k < pieces.len() ==> #[trigger] pieces[k].idx() == p.pieces(q.side())[k],
    ensures
        ms.len() == legal_slots(p, q.side()).len(),
        move_slots(ms).filter(|s: int| q.holds(q.side().other(), s % 64)).len() == capture_slots(
            p,
            q.side(),
        ).len(),
        square_indices(pieces) == p.pieces(q.side()),
        square_indices(pieces).filter(|i: int| !moves_from(ms, i)).len() == blocked_squares(
            p,
            q.side(),
        ).len(),
{
    let c = q.side();
    assert forall|f: int, t: int| #[trigger] p.legal_for(c, f, t) == q.legal_for(c, f, t) by {
        crate::position::lemma_same_pieces_legal(p, q, c, f, t);
    }
    lemma_legal_vec_slots(p, q, ms);
    crate::counting::lemma_seq_set_card(move_slots(ms));
    crate::counting::lemma_filter_card(move_slots(ms), |s: int| q.holds(c.other(), s % 64));
    assert(legal_slots(p, c).filter(|s: int| q.holds(c.other(), s % 64)) =~= capture_slots(p, c));
    let ps = square_indices(pieces);
    assert(ps =~= p.pieces(c));
    crate::position::lemma_squares_in(p.occ(c));
    assert(ps.no_duplicates()) by {
        assert forall|a: int, b: int| 0 <= a < ps.len() && 0 <= b < ps.len() && a != b implies ps[a] != ps[b] by {
            if a < b {
                assert(ps[a] < ps[b]);
            } else {
                assert(ps[b] < ps[a]);
            }
        }
    }
    crate::counting::lemma_filter_card(ps, |i: int| !moves_from(ms, i));
    assert(ps.to_set() =~= Set::new(|i: int| p.holds(c, i)));
    assert forall|i: int| #[trigger] p.holds(c, i) implies (moves_from(ms, i) <==> has_move_from(p, c, i)) by {
        if moves_from(ms, i) {
            let k = choose|k: int| 0 <= k < ms.len() && #[trigger] ms[k].from.idx() == i;
            assert(ms.contains(ms[k]));
            assert(p.legal_for(c, i, ms[k].to.idx()));
        }
        if has_move_from(p, c, i) {
            let t = choose|t: int| #[trigger] p.legal_for(c, i, t);
            let m = Move { from: Square(i as u8), to: Square(t as u8) };
            assert(q.is_legal(m));
            assert(ms.contains(m));
            let k = choose|k: int| 0 <= k < ms.len() && ms[k] == m;
            assert(ms[k].from.idx() == i);
        }
    }
    assert(ps.to_set().filter(|i: int| !moves_from(ms, i)) =~= blocked_squares(p, c));
}

} // verus!

verus! {

/// Evaluates a position and reports how many move lists were generated for
/// the side-dependent terms (none when the side to move has already lost).
pub(crate) fn evaluate_parts(position: &Position) -> (r: (i32, u64))
    ensures
        r.0 == spec_evaluate(*position),
        -WIN_SCORE <= r.0 <= WIN_SCORE,
        r.1 == (if position.can_move() { 2u64 } else { 0u64 }),
{
    proof {
        use_type_invariant(position);
        lemma_evaluation_bounded(*position);
    }
    if let Some(Outcome::Winner(_)) = position.outcome() {
        return (-WIN_SCORE, 0);
    }
    let side = position.side_to_move();
    let opponent = side.opponent();
    let side_pieces = position.squares_of(side);
    let opponent_pieces = position.squares_of(opponent);
    proof {
        crate::position::lemma_squares_in(position.occ(side));
        crate::position::lemma_squares_in(position.occ(opponent));
    }
    let material = side_pieces.len() as i32 - opponent_pieces.len() as i32;
    let side_moves = position.legal_moves();
    let mobility = side_moves.len() as i32;
    let capture_pressure = capture_count_from_moves(position, side_moves.as_slice()) as i32;
    let centrality = centrality_sum(side_pieces.as_slice());
    let blocked = blocked_piece_count_from_moves(side_pieces.as_slice(), side_moves.as_slice()) as i32;

    let mut flipped = position.clone();
    flipped.set_side_to_move(opponent);
    let opponent_moves = flipped.legal_moves();
    let opponent_mobility = opponent_moves.len() as i32;
    let opponent_capture_pressure = capture_count_from_moves(&flipped, opponent_moves.as_slice()) as i32;
    let opponent_centrality = centrality_sum(opponent_pieces.as_slice());
    let opponent_blocked = blocked_piece_count_from_moves(
        opponent_pieces.as_slice(),
        opponent_moves.as_slice(),
    ) as i32;
    proof {
        lemma_side_terms(*position, *position, side_pieces@, side_moves@);
        lemma_side_terms(*position, flipped, opponent_pieces@, opponent_moves@);
        assert(square_indices(side_pieces@) == side_pieces@.map_values(|s: Square| s.idx()));
        assert(square_indices(opponent_pieces@) == opponent_pieces@.map_values(|s: Square| s.idx()));
    }
    let score = material * 120 + (mobility - opponent_mobility) * 12 + (capture_pressure
        - opponent_capture_pressure) * 35 + (centrality - opponent_centrality) * 3 + (
    opponent_blocked - blocked) * 8;
    (score, 2)
}

/// Returns a static evaluation of a position.
///
/// Positive scores favor the side to move and negative scores favor the
/// opponent.
pub fn evaluate(position: &Position) -> (r: i32)
    ensures
        r == spec_evaluate(*position),
        -WIN_SCORE <= r <= WIN_SCORE,
{
    evaluate_parts(position).0
}

/// The evaluation is zero-sum: giving the move to the other side negates it,
/// as long as both sides have a legal move.
pub proof fn lemma_evaluation_antisymmetric(p: Position)
    requires
        p.can_move(),
        p.with_side(p.side().other()).can_move(),
    ensures
        spec_evaluate(p.with_side(p.side().other())) == -spec_evaluate(p),
{
    let q = p.with_side(p.side().other());
    assert forall|c: Color, f: int, t: int| #[trigger] q.legal_for(c, f, t) == p.legal_for(c, f, t) by {
        crate::position::lemma_same_pieces_legal(p, q, c, f, t);
    }
    assert forall|c: Color| #[trigger] legal_slots(q, c) == legal_slots(p, c) by {
        assert(legal_slots(q, c) =~= legal_slots(p, c));
    }
    assert forall|c: Color| #[trigger] capture_slots(q, c) == capture_slots(p, c) by {
        assert(capture_slots(q, c) =~= capture_slots(p, c));
    }
    assert forall|c: Color| #[trigger] blocked_squares(q, c) == blocked_squares(p, c) by {
        assert forall|i: int| has_move_from(q, c, i) == has_move_from(p, c, i) by {
            if has_move_from(p, c, i) {
                let t = choose|t: int| #[trigger] p.legal_for(c, i, t);
                assert(q.legal_for(c, i, t));
            }
            if has_move_from(q, c, i) {
                let t = choose|t: int| #[trigger] q.legal_for(c, i, t);
                assert(p.legal_for(c, i, t));
            }
        }
        assert(blocked_squares(q, c) =~= blocked_squares(p, c));
    }
    assert(q.pieces(Color::White) == p.pieces(Color::White));
    assert(q.pieces(Color::Black) == p.pieces(Color::Black));
}

/// Slots of the moves from each square of `ps` to each square of `qs`.
pub open spec fn cross_slots(ps: Seq<int>, qs: Seq<int>) -> Seq<int>
    decreases ps.len(),
{
    if ps.len() == 0 {
        Seq::empty()
    } else {
        cross_slots(ps.drop_last(), qs) + qs.map_values(|t: int| slot(ps.last(), t))
    }
}

/// There are as many cross slots as pairs of squares, and each pair has its slot.
proof fn lemma_cross_slots(ps: Seq<int>, qs: Seq<int>)
    ensures
        cross_slots(ps, qs).len() == ps.len() * qs.len(),
        forall|f: int, t: int| ps.contains(f) && qs.contains(t) ==> #[trigger] cross_slots(ps, qs).contains(slot(f, t)),
    decreases ps.len(),
{
    if ps.len() > 0 {
        let pre = ps.drop_last();
        lemma_cross_slots(pre, qs);
        let n = ps.len() - 1;
        let m = qs.len();
        assert(n * m + m == ps.len() * qs.len()) by (nonlinear_arith)
            requires
                n == ps.len() - 1,
                m == qs.len(),
        ;
        let c = cross_slots(ps, qs);
        let tail = qs.map_values(|t: int| slot(ps.last(), t));
        assert forall|f: int, t: int| ps.contains(f) && qs.contains(t) implies #[trigger] c.contains(slot(f, t)) by {
            let j = choose|j: int| 0 <= j < qs.len() && qs[j] == t;
            if f == ps.last() {
                assert(tail[j] == slot(f, t));
                assert(c[cross_slots(pre, qs).len() + j] == tail[j]);
            } else {
                let i = choose|i: int| 0 <= i < ps.len() && ps[i] == f;
                assert(i != ps.len() - 1);
                assert(pre[i] == f);
                assert(pre.contains(f));
                assert(cross_slots(pre, qs).contains(slot(f, t)));
                let k = choose|k: int| 0 <= k < cross_slots(pre, qs).len() && cross_slots(pre, qs)[k] == slot(f, t);
                assert(c[k] == slot(f, t));
            }
        }
    }
}

/// Two sides together hold at most 64 pieces.
proof fn lemma_piece_counts(p: Position)
    requires
        p.valid(),
    ensures
        p.pieces(Color::White).len() + p.pieces(Color::Black).len() <= 64,
{
    let ws = p.pieces(Color::White);
    let bs = p.pieces(Color::Black);
    crate::position::lemma_squares_in(p.occ(Color::White));
    crate::position::lemma_squares_in(p.occ(Color::Black));
    let all = ws + bs;
    assert forall|a: int, b: int| 0 <= a < all.len() && 0 <= b < all.len() && a != b implies all[a] != all[b] by {
        if a < ws.len() && b < ws.len() {
            if a < b {
                assert(ws[a] < ws[b]);
            } else {
                assert(ws[b] < ws[a]);
            }
        } else if a >= ws.len() && b >= ws.len() {
            if a < b {
                assert(bs[a - ws.len()] < bs[b - ws.len()]);
            } else {
                assert(bs[b - ws.len()] < bs[a - ws.len()]);
            }
        } else {
            let w = if a < ws.len() { all[a] } else { all[b] };
            let k = if a < ws.len() { all[b] } else { all[a] };
            assert(p.holds(Color::White, w));
            assert(p.holds(Color::Black, k));
            crate::position::lemma_disjoint_bits(p.white, p.black, w);
        }
    }
    assert(all.no_duplicates());
    crate::counting::lemma_seq_set_card(all);
    assert forall|x: int| all.to_set().contains(x) implies vstd::set_lib::set_int_range(0, 64).contains(x) by {
        let i = choose|i: int| 0 <= i < all.len() && all[i] == x;
        if i < ws.len() {
            assert(ws[i] == x);
        } else {
            assert(bs[i - ws.len()] == x);
        }
    }
    vstd::set_lib::lemma_int_range(0, 64);
    vstd::set_lib::lemma_len_subset(all.to_set(), vstd::set_lib::set_int_range(0, 64));
}

/// A side has at most 4096 legal moves, and their slots form a finite set.
proof fn lemma_legal_count(p: Position, c: Color)
    ensures
        legal_slots(p, c).finite(),
        legal_slots(p, c).len() <= 4096,
{
    vstd::set_lib::lemma_int_range(0, 4096);
    assert(legal_slots(p, c).subset_of(vstd::set_lib::set_int_range(0, 4096)));
    vstd::set_lib::lemma_len_subset(legal_slots(p, c), vstd::set_lib::set_int_range(0, 4096));
}

/// A side has at most one capture for each pair of its piece and an enemy piece.
proof fn lemma_capture_count(p: Position, c: Color)
    requires
        p.valid(),
    ensures
        capture_slots(p, c).len() <= 1024,
{
    let ps = p.pieces(c);
    let qs = p.pieces(c.other());
    crate::position::lemma_squares_in(p.occ(c));
    crate::position::lemma_squares_in(p.occ(c.other()));
    lemma_cross_slots(ps, qs);
    let cs = cross_slots(ps, qs);
    assert forall|x: int| capture_slots(p, c).contains(x) implies cs.to_set().contains(x) by {
        lemma_slot_split(x);
        assert(p.legal_for(c, x / 64, x % 64));
        assert(ps.contains(x / 64));
        assert(qs.contains(x % 64));
        assert(cs.contains(slot(x / 64, x % 64)));
    }
    cs.lemma_cardinality_of_set();
    broadcast use vstd::seq_lib::seq_to_set_is_finite;
    vstd::set_lib::lemma_len_subset(capture_slots(p, c), cs.to_set());
    lemma_piece_counts(p);
    let n = ps.len();
    let m = qs.len();
    assert(n * m <= 1024) by (nonlinear_arith)
        requires
            n + m <= 64,
    ;
}

/// The pieces of a side without a legal move are among its pieces.
proof fn lemma_blocked_count(p: Position, c: Color)
    ensures
        blocked_squares(p, c).len() <= p.pieces(c).len(),
{
    let ps = p.pieces(c);
    crate::position::lemma_squares_in(p.occ(c));
    assert forall|x: int| blocked_squares(p, c).contains(x) implies ps.to_set().contains(x) by {
        assert(ps.contains(x));
    }
    ps.lemma_cardinality_of_set();
    broadcast use vstd::seq_lib::seq_to_set_is_finite;
    vstd::set_lib::lemma_len_subset(blocked_squares(p, c), ps.to_set());
}

/// Centralities of squares on the board sum to between `-14` per square and 0.
proof fn lemma_centrality_bound(s: Seq<int>)
    requires
        forall|i: int| 0 <= i < s.len() ==> 0 <= #[trigger] s[i] < 64,
    ensures
        -14 * s.len() <= centrality_total(s) <= 0,
    decreases s.len(),
{
    if s.len() > 0 {
        lemma_centrality_bound(s.drop_last());
        let x = s.last();
        assert(0 <= x < 64);
        assert(-14 <= centrality(x) <= 0);
    }
}

/// The evaluation never goes beyond the score of a lost position.
pub proof fn lemma_evaluation_bounded(p: Position)
    requires
        p.valid(),
    ensures
        -WIN_SCORE <= spec_evaluate(p) <= WIN_SCORE,
{
    if p.can_move() {
        lemma_movable_evaluation_inside(p);
    }
}

/// A side that can move is evaluated strictly between a loss and a win: only
/// a side with no legal move gets the score of a lost position.
pub proof fn lemma_movable_evaluation_inside(p: Position)
    requires
        p.valid(),
        p.can_move(),
    ensures
        -WIN_SCORE < spec_evaluate(p) < WIN_SCORE,
{
    let s = p.side();
    let o = s.other();
    lemma_piece_counts(p);
    lemma_legal_count(p, s);
    lemma_legal_count(p, o);
    lemma_capture_count(p, s);
    lemma_capture_count(p, o);
    lemma_blocked_count(p, s);
    lemma_blocked_count(p, o);
    crate::position::lemma_squares_in(p.occ(s));
    crate::position::lemma_squares_in(p.occ(o));
    lemma_centrality_bound(p.pieces(s));
    lemma_centrality_bound(p.pieces(o));
    assert(p.pieces(s).len() + p.pieces(o).len() <= 64) by {
        if s == Color::White {
        } else {
        }
    }
}

/// Blocked pieces count against their owner: between two positions with the
/// same side to move, both able to move, that agree on material, mobility,
/// capture pressure and centrality for both sides, the score rises by 8 for
/// each more blocked piece of the opponent and falls by 8 for each more
/// blocked piece of the side to move.
pub proof fn lemma_blocked_pieces_cost(p: Position, q: Position)
    requires
        p.can_move(),
        q.can_move(),
        p.side() == q.side(),
        forall|c: Color|
            #![trigger p.pieces(c)]
            p.pieces(c).len() == q.pieces(c).len() && legal_slots(p, c).len() == legal_slots(q, c).len()
                && capture_slots(p, c).len() == capture_slots(q, c).len() && centrality_total(p.pieces(c))
                == centrality_total(q.pieces(c)),
    ensures
        spec_evaluate(p) - spec_evaluate(q) == 8 * ((blocked_squares(p, p.side().other()).len() - blocked_squares(
            q,
            p.side().other(),
        ).len()) - (blocked_squares(p, p.side()).len() - blocked_squares(q, p.side()).len())),
{
    let s = p.side();
    let o = s.other();
    assert(p.pieces(s).len() == q.pieces(s).len());
    assert(p.pieces(o).len() == q.pieces(o).len());
}

} // verus!
