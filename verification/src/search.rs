//! Alpha-beta search with a transposition table, quiescence search and
//! iterative deepening under a time budget.
use vstd::prelude::*;

use std::time::{Duration, Instant};

use crate::board::{file_of, rank_of, Move};
use crate::eval::{abs_int, centrality, legal_slots, spec_evaluate, square_centrality, WIN_SCORE};
use crate::position::Position;
use crate::table::{entries_bounded, spec_lookup, spec_store, Bound, TableEntry, TranspositionTable};

verus! {

/// Deepest quiescence ply.
pub const MAX_QUIESCENCE_DEPTH: u8 = 4;

/// Number of captures examined at each quiescence node.
pub const MAX_QUIESCENCE_MOVES: usize = 4;

/// Safety margin of the quiescence delta pruning.
pub const QUIESCENCE_DELTA_MARGIN: i32 = 80;

/// Bound on every score the search produces or stores: every `i32` but the
/// one whose negation overflows, since the search negates scores and windows.
pub const SCORE_BOUND: i32 = 2_147_483_647;

/// Result of a completed search.
#[derive(Clone, Debug, PartialEq, Eq)]
pub struct SearchResult {
    /// Best move found by the search.
    pub best_move: Move,
    /// Evaluation score from the perspective of the side to move.
    pub score: i32,
    /// Search depth that produced this result.
    pub depth: u8,
    /// Principal variation starting with `best_move`.
    pub principal_variation: Vec<Move>,
}

/// Timing information for one completed iterative-deepening iteration.
#[derive(Clone, Copy, Debug, PartialEq, Eq)]
pub struct DepthTiming {
    /// Search depth for this iteration.
    pub depth: u8,
    /// Wall-clock time spent in this iteration.
    pub elapsed: Duration,
    /// Number of root moves finished at this depth.
    pub completed_root_moves: usize,
}

/// Search diagnostics collected during one engine run.
#[derive(Debug, PartialEq, Eq)]
pub struct SearchStats {
    /// Number of normal search nodes visited.
    pub nodes: u64,
    /// Number of quiescence nodes visited.
    pub quiescence_nodes: u64,
    /// Number of quiescence moves skipped by pruning.
    pub quiescence_pruned_moves: u64,
    /// Number of static evaluations performed.
    pub evaluation_calls: u64,
    /// Number of move-generation calls performed.
    pub legal_move_generations: u64,
    /// Total wall-clock time spent in the search.
    pub total_time: Duration,
    /// Time spent specifically inside quiescence search.
    pub quiescence_time: Duration,
    /// Per-depth timing information for iterative deepening.
    pub depth_timings: Vec<DepthTiming>,
    /// Deepest fully completed iteration.
    pub completed_depth: u8,
    /// Whether the search stopped because the deadline was reached.
    pub timed_out: bool,
    /// Number of legal moves at the root position.
    pub root_legal_moves: usize,
    /// Total number of root moves completed across all iterations.
    pub completed_root_moves_total: usize,
    /// Number of root moves completed in the last attempted depth.
    pub completed_root_moves_current_depth: usize,
}

impl Clone for SearchStats {
    fn clone(&self) -> (s: SearchStats)
        ensures
            s.nodes == self.nodes,
            s.quiescence_nodes == self.quiescence_nodes,
            s.quiescence_pruned_moves == self.quiescence_pruned_moves,
            s.evaluation_calls == self.evaluation_calls,
            s.legal_move_generations == self.legal_move_generations,
            s.total_time == self.total_time,
            s.quiescence_time == self.quiescence_time,
            s.depth_timings@ == self.depth_timings@,
            s.completed_depth == self.completed_depth,
            s.timed_out == self.timed_out,
            s.root_legal_moves == self.root_legal_moves,
            s.completed_root_moves_total == self.completed_root_moves_total,
            s.completed_root_moves_current_depth == self.completed_root_moves_current_depth,
    {
        let mut depth_timings: Vec<DepthTiming> = Vec::new();
        let mut i: usize = 0;
        while i < self.depth_timings.len()
            invariant
                i <= self.depth_timings.len(),
                depth_timings@ == self.depth_timings@.take(i as int),
            decreases self.depth_timings.len() - i,
        {
            depth_timings.push(self.depth_timings[i]);
            proof {
                assert(self.depth_timings@.take(i + 1) =~= self.depth_timings@.take(i as int).push(self.depth_timings@[i as int]));
            }
            i += 1;
        }
        proof {
            assert(self.depth_timings@.take(self.depth_timings.len() as int) =~= self.depth_timings@);
        }
        SearchStats {
            nodes: self.nodes,
            quiescence_nodes: self.quiescence_nodes,
            quiescence_pruned_moves: self.quiescence_pruned_moves,
            evaluation_calls: self.evaluation_calls,
            legal_move_generations: self.legal_move_generations,
            total_time: self.total_time,
            quiescence_time: self.quiescence_time,
            depth_timings,
            completed_depth: self.completed_depth,
            timed_out: self.timed_out,
            root_legal_moves: self.root_legal_moves,
            completed_root_moves_total: self.completed_root_moves_total,
            completed_root_moves_current_depth: self.completed_root_moves_current_depth,
        }
    }
}

impl Default for SearchStats {
    fn default() -> (s: SearchStats)
        ensures
            s.nodes == 0,
            s.quiescence_nodes == 0,
            s.quiescence_pruned_moves == 0,
            s.evaluation_calls == 0,
            s.legal_move_generations == 0,
            s.depth_timings@.len() == 0,
            s.completed_depth == 0,
            !s.timed_out,
            s.root_legal_moves == 0,
            s.completed_root_moves_total == 0,
            s.completed_root_moves_current_depth == 0,
    {
        SearchStats {
            nodes: 0,
            quiescence_nodes: 0,
            quiescence_pruned_moves: 0,
            evaluation_calls: 0,
            legal_move_generations: 0,
            total_time: crate::clock::duration_zero(),
            quiescence_time: crate::clock::duration_zero(),
            depth_timings: Vec::new(),
            completed_depth: 0,
            timed_out: false,
            root_legal_moves: 0,
            completed_root_moves_total: 0,
            completed_root_moves_current_depth: 0,
        }
    }
}

/// Search result together with diagnostics.
#[derive(Clone, Debug, PartialEq, Eq)]
pub struct AnalysisResult {
    /// Best search result, if at least one legal move exists.
    pub best: Option<SearchResult>,
    /// Collected diagnostics for the search run.
    pub stats: SearchStats,
}

/// Number of legal moves of the side to move.
pub open(crate) spec fn legal_move_count(p: Position) -> nat {
    legal_slots(p, p.side()).len()
}

/// Whether `m` is a legal move of the side to move that lands on an enemy piece.
pub open(crate) spec fn is_capture(p: Position, m: Move) -> bool {
    p.is_legal(m) && p.holds(p.side().other(), m.to.idx())
}

/// Move-ordering score: the table move first, then captures, then long moves,
/// then moves toward the center.
pub open(crate) spec fn ordering_score(p: Position, m: Move, tt_move: Option<Move>) -> int {
    let f = m.from.idx();
    let t = m.to.idx();
    (if tt_move == Some(m) {
        1_000_000int
    } else {
        0int
    }) + (if p.occupant(t) is Some {
        100_000int
    } else {
        0int
    }) + (abs_int(file_of(t) - file_of(f)) + abs_int(rank_of(t) - rank_of(f))) * 100 + (centrality(
        t,
    ) - centrality(f)) * 10
}

/// Optimistic gain of a quiescence move, used for delta pruning.
pub open(crate) spec fn capture_delta(p: Position, m: Move) -> int {
    (if p.occupant(m.to.idx()) is Some {
        120int
    } else {
        0int
    }) + (centrality(m.to.idx()) - centrality(m.from.idx())) * 3 + QUIESCENCE_DELTA_MARGIN
}

/// Whether the scores of `ms` never increase along the sequence.
pub open(crate) spec fn sorted_by_score(p: Position, ms: Seq<Move>, tt_move: Option<Move>) -> bool {
    forall|a: int, b: int|
        0 <= a < b < ms.len() ==> ordering_score(p, #[trigger] ms[a], tt_move) >= ordering_score(
            p,
            #[trigger] ms[b],
            tt_move,
        )
}

/// The statistics with one more move generation counted, all else kept.
pub open spec fn one_more_generation(s: SearchStats, t: SearchStats) -> bool {
    &&& t.legal_move_generations == s.legal_move_generations.wrapping_add(1)
    &&& t.nodes == s.nodes
    &&& t.quiescence_nodes == s.quiescence_nodes
    &&& t.quiescence_pruned_moves == s.quiescence_pruned_moves
    &&& t.evaluation_calls == s.evaluation_calls
    &&& t.total_time == s.total_time
    &&& t.quiescence_time == s.quiescence_time
    &&& t.depth_timings == s.depth_timings
    &&& t.completed_depth == s.completed_depth
    &&& t.timed_out == s.timed_out
    &&& t.root_legal_moves == s.root_legal_moves
    &&& t.completed_root_moves_total == s.completed_root_moves_total
    &&& t.completed_root_moves_current_depth == s.completed_root_moves_current_depth
}

/// Scores a move for move ordering.
pub fn move_ordering_score(position: &Position, mv: Move, tt_move: Option<Move>) -> (r: i32)
    ensures
        r == ordering_score(*position, mv, tt_move),
{
    let mut score: i32 = 0;
    match tt_move {
        Some(t) => {
            if t == mv {
                score += 1_000_000;
            }
        },
        None => {},
    }
    if position.piece_at(mv.to).is_some() {
        score += 100_000;
    }
    let from_file = mv.from.file() as i32;
    let from_rank = mv.from.rank() as i32;
    let to_file = mv.to.file() as i32;
    let to_rank = mv.to.rank() as i32;
    let df = to_file - from_file;
    let dr = to_rank - from_rank;
    let distance = (if df < 0 { -df } else { df }) + (if dr < 0 { -dr } else { dr });
    score += distance * 100;
    let center_bias = square_centrality(mv.to) - square_centrality(mv.from);
    score += center_bias * 10;
    score
}

/// Optimistic score gain of a capture, for delta pruning in quiescence search.
pub fn quiescence_capture_delta(position: &Position, mv: Move) -> (r: i32)
    ensures
        r == capture_delta(*position, mv),
        38 <= r <= 242,
{
    let center_gain = square_centrality(mv.to) - square_centrality(mv.from);
    let capture_bonus: i32 = if position.piece_at(mv.to).is_some() {
        120
    } else {
        0
    };
    capture_bonus + center_gain * 3 + QUIESCENCE_DELTA_MARGIN
}

/// The legal moves of the side to move, counting one move generation.
pub fn legal_moves_counted(position: &Position, stats: &mut SearchStats) -> (r: Vec<Move>)
    ensures
        one_more_generation(*old(stats), *final(stats)),
        r@.no_duplicates(),
        forall|m: Move| #[trigger] r@.contains(m) <==> position.is_legal(m),
        r.len() == legal_move_count(*position),
        r.len() <= 4096,
        position.in_generation_order(position.side(), false, r@),
{
    stats.legal_move_generations = stats.legal_move_generations.wrapping_add(1);
    let moves = position.legal_moves();
    proof {
        crate::eval::lemma_legal_vec_slots(*position, *position, moves@);
        crate::counting::lemma_seq_set_card(crate::eval::move_slots(moves@));
    }
    moves
}

/// The capturing moves of the side to move, counting one move generation.
pub fn direct_capture_moves_counted(position: &Position, stats: &mut SearchStats) -> (r: Vec<Move>)
    ensures
        one_more_generation(*old(stats), *final(stats)),
        r@.no_duplicates(),
        forall|m: Move| #[trigger] r@.contains(m) <==> is_capture(*position, m),
        r.len() <= 4096,
        position.in_generation_order(position.side(), true, r@),
{
    stats.legal_move_generations = stats.legal_move_generations.wrapping_add(1);
    let moves = position.generate_moves(true);
    proof {
        let c = position.side();
        assert forall|m: Move| #[trigger] moves@.contains(m) <==> is_capture(*position, m) by {
            if is_capture(*position, m) {
                assert(position.gen_ok(c, true, m.from.idx(), m.to.idx()));
                let k = choose|k: int|
                    0 <= k < moves.len() && moves[k].from.idx() == m.from.idx() && moves[k].to.idx()
                        == m.to.idx();
                assert(moves@[k] == m);
            }
            if moves@.contains(m) {
                let k = choose|k: int| 0 <= k < moves.len() && moves@[k] == m;
                assert(position.gen_ok(c, true, moves[k].from.idx(), moves[k].to.idx()));
            }
        }
        assert(moves@.no_duplicates()) by {
            assert forall|a: int, b: int| 0 <= a < moves.len() && 0 <= b < moves.len() && a != b implies moves@[a] != moves@[b] by {
                assert(moves[a] != moves[b]);
            }
        }
    }
    moves
}

/// Whether the scores `sc` of `s` never increase along the sequence.
pub open spec fn descending(s: Seq<Move>, sc: spec_fn(Move) -> int) -> bool {
    forall|a: int, b: int| 0 <= a < b < s.len() ==> #[trigger] sc(s[a]) >= #[trigger] sc(s[b])
}

/// Inserting `mv` at `j` adds exactly `mv` to the elements of `s`.
proof fn lemma_insert_contains(s: Seq<Move>, j: int, mv: Move)
    requires
        0 <= j <= s.len(),
    ensures
        forall|m: Move| #[trigger] s.insert(j, mv).contains(m) <==> (s.contains(m) || m == mv),
{
    let t = s.insert(j, mv);
    s.insert_ensures(j, mv);
    assert forall|m: Move| #[trigger] t.contains(m) <==> (s.contains(m) || m == mv) by {
        if t.contains(m) {
            let i = choose|i: int| 0 <= i < t.len() && t[i] == m;
            if i < j {
                assert(s[i] == m);
            } else if i > j {
                assert(s[i - 1] == m);
            }
        }
        if s.contains(m) {
            let i = choose|i: int| 0 <= i < s.len() && s[i] == m;
            if i < j {
                assert(t[i] == m);
            } else {
                assert(t[i + 1] == m);
            }
        }
        if m == mv {
            assert(t[j] == m);
        }
    }
}

/// Inserting a new element keeps a sequence free of duplicates.
proof fn lemma_insert_distinct(s: Seq<Move>, j: int, mv: Move)
    requires
        s.no_duplicates(),
        !s.contains(mv),
        0 <= j <= s.len(),
    ensures
        s.insert(j, mv).no_duplicates(),
{
    let t = s.insert(j, mv);
    s.insert_ensures(j, mv);
    assert forall|a: int, b: int| 0 <= a < t.len() && 0 <= b < t.len() && a != b implies t[a] != t[b] by {
        if a != j && b != j {
            let a0 = if a < j { a } else { a - 1 };
            let b0 = if b < j { b } else { b - 1 };
            assert(t[a] == s[a0]);
            assert(t[b] == s[b0]);
        } else if a == j {
            let b0 = if b < j { b } else { b - 1 };
            assert(t[b] == s[b0]);
            assert(s.contains(s[b0]));
        } else {
            let a0 = if a < j { a } else { a - 1 };
            assert(t[a] == s[a0]);
            assert(s.contains(s[a0]));
        }
    }
}

/// Inserting `mv` after every element scored above it and before the rest
/// keeps the sequence in descending order of score.
proof fn lemma_insert_descending(s: Seq<Move>, j: int, mv: Move, sc: spec_fn(Move) -> int)
    requires
        descending(s, sc),
        0 <= j <= s.len(),
        forall|i: int| 0 <= i < j ==> #[trigger] sc(s[i]) > sc(mv),
        j < s.len() ==> sc(s[j]) <= sc(mv),
    ensures
        descending(s.insert(j, mv), sc),
{
    let t = s.insert(j, mv);
    s.insert_ensures(j, mv);
    assert forall|a: int, b: int| 0 <= a < b < t.len() implies #[trigger] sc(t[a]) >= #[trigger] sc(t[b]) by {
        if a < j && b < j {
            assert(t[a] == s[a] && t[b] == s[b]);
        } else if a < j && b == j {
            assert(t[a] == s[a]);
        } else if a < j {
            assert(t[a] == s[a] && t[b] == s[b - 1]);
        } else if a == j {
            assert(t[b] == s[b - 1]);
            if b - 1 > j {
                assert(sc(s[j]) >= sc(s[b - 1]));
            }
        } else {
            assert(t[a] == s[a - 1] && t[b] == s[b - 1]);
        }
    }
}

/// Whether, among elements of `s` with equal scores `sc`, those with a larger
/// `idx` come first.
pub open spec fn ties_reversed(s: Seq<Move>, sc: spec_fn(Move) -> int, idx: spec_fn(Move) -> int) -> bool {
    forall|a: int, b: int|
        0 <= a < b < s.len() && #[trigger] sc(s[a]) == #[trigger] sc(s[b]) ==> idx(s[a]) > idx(s[b])
}

/// Inserting `mv`, with a larger `idx` than every element, after the elements
/// scored above it keeps elements of equal score in descending `idx` order.
proof fn lemma_insert_ties(s: Seq<Move>, j: int, mv: Move, sc: spec_fn(Move) -> int, idx: spec_fn(Move) -> int)
    requires
        ties_reversed(s, sc, idx),
        0 <= j <= s.len(),
        forall|i: int| 0 <= i < j ==> #[trigger] sc(s[i]) > sc(mv),
        forall|i: int| 0 <= i < s.len() ==> idx(#[trigger] s[i]) < idx(mv),
    ensures
        ties_reversed(s.insert(j, mv), sc, idx),
{
    let t = s.insert(j, mv);
    s.insert_ensures(j, mv);
    assert forall|a: int, b: int| 0 <= a < b < t.len() && #[trigger] sc(t[a]) == #[trigger] sc(t[b]) implies idx(t[a]) > idx(t[b]) by {
        if a < j && b < j {
            assert(t[a] == s[a] && t[b] == s[b]);
        } else if a < j && b == j {
            assert(t[a] == s[a]);
        } else if a < j {
            assert(t[a] == s[a] && t[b] == s[b - 1]);
        } else if a == j {
            assert(t[b] == s[b - 1]);
        } else {
            assert(t[a] == s[a - 1] && t[b] == s[b - 1]);
        }
    }
}

/// In a sequence without duplicates, the index of the element at `i` is `i`.
proof fn lemma_index_of_distinct(s: Seq<Move>, i: int)
    requires
        s.no_duplicates(),
        0 <= i < s.len(),
    ensures
        s.index_of(s[i]) == i,
{
    let j = s.index_of(s[i]);
    assert(0 <= j < s.len() && s[j] == s[i]);
}

/// Sorts moves by descending ordering score; among equal scores a move listed
/// later in `moves` comes first.
#[verifier::spinoff_prover]
#[verifier::rlimit(40)]
fn sort_by_ordering_score(position: &Position, moves: &Vec<Move>, tt_move: Option<Move>) -> (r: Vec<Move>)
    requires
        moves@.no_duplicates(),
        moves.len() <= 4096,
    ensures
        r.len() == moves.len(),
        r@.no_duplicates(),
        forall|m: Move| #[trigger] r@.contains(m) <==> moves@.contains(m),
        sorted_by_score(*position, r@, tt_move),
        ties_reversed(r@, |m: Move| ordering_score(*position, m, tt_move), |m: Move| moves@.index_of(m)),
{
    let mut out: Vec<Move> = Vec::new();
    let mut keys: Vec<i32> = Vec::new();
    let ghost score = |m: Move| ordering_score(*position, m, tt_move);
    let ghost place = |m: Move| moves@.index_of(m);
    let mut k: usize = 0;
    while k < moves.len()
        invariant
            k <= moves.len(),
            moves@.no_duplicates(),
            out.len() == k,
            out@.no_duplicates(),
            score == (|m: Move| ordering_score(*position, m, tt_move)),
            keys@ == out@.map_values(|m: Move| score(m) as i32),
            forall|m: Move| #[trigger] out@.contains(m) <==> moves@.take(k as int).contains(m),
            descending(out@, score),
            place == (|m: Move| moves@.index_of(m)),
            ties_reversed(out@, score, place),
            forall|a: int| 0 <= a < out.len() ==> 0 <= place(#[trigger] out@[a]) < k && moves@[place(out@[a])] == out@[a],
        decreases moves.len() - k,
    {
        let mv = moves[k];
        let key = move_ordering_score(position, mv, tt_move);
        let mut j: usize = 0;
        while j < keys.len() && keys[j] > key
            invariant
                j <= keys.len(),
                keys.len() == out.len(),
                keys@ == out@.map_values(|m: Move| score(m) as i32),
                score == (|m: Move| ordering_score(*position, m, tt_move)),
                key == score(mv),
                forall|i: int| 0 <= i < j ==> score(#[trigger] out@[i]) > key,
            decreases keys.len() - j,
        {
            proof {
                assert(keys@[j as int] == score(out@[j as int]) as i32);
            }
            j += 1;
        }
        proof {
            assert(!moves@.take(k as int).contains(mv)) by {
                if moves@.take(k as int).contains(mv) {
                    let i = choose|i: int| 0 <= i < k && moves@.take(k as int)[i] == mv;
                    assert(moves@[i] == moves@[k as int]);
                }
            }
            assert(moves@.take(k + 1) =~= moves@.take(k as int).push(mv));
            if j < keys.len() {
                assert(keys@[j as int] == score(out@[j as int]) as i32);
            }
            lemma_insert_contains(out@, j as int, mv);
            lemma_insert_distinct(out@, j as int, mv);
            lemma_insert_descending(out@, j as int, mv, score);
            lemma_index_of_distinct(moves@, k as int);
            assert forall|a: int| 0 <= a < out.len() implies place(#[trigger] out@[a]) < place(mv) by {
                assert(place(out@[a]) < k);
            }
            lemma_insert_ties(out@, j as int, mv, score, place);
            out@.insert_ensures(j as int, mv);
            keys@.insert_ensures(j as int, key);
        }
        let ghost old_out = out@;
        let ghost old_keys = keys@;
        out.insert(j, mv);
        keys.insert(j, key);
        proof {
            assert(keys@ =~= out@.map_values(|m: Move| score(m) as i32)) by {
                assert forall|i: int| 0 <= i < keys@.len() implies keys@[i] == score(out@[i]) as i32 by {
                    if i < j {
                        assert(keys@[i] == old_keys[i]);
                        assert(out@[i] == old_out[i]);
                    } else if i > j {
                        assert(keys@[i] == old_keys[i - 1]);
                        assert(out@[i] == old_out[i - 1]);
                    }
                }
            }
            assert forall|m: Move| #[trigger] out@.contains(m) <==> moves@.take(k + 1).contains(m) by {
                let pre = moves@.take(k as int);
                let pre1 = moves@.take(k + 1);
                assert(pre1 =~= pre.push(mv));
                assert(pre1.contains(m) <==> (pre.contains(m) || m == mv)) by {
                    if pre1.contains(m) && m != mv {
                        let i = choose|i: int| 0 <= i < pre1.len() && pre1[i] == m;
                        assert(pre[i] == m);
                    }
                    if pre.contains(m) {
                        let i = choose|i: int| 0 <= i < pre.len() && pre[i] == m;
                        assert(pre1[i] == m);
                    }
                    if m == mv {
                        assert(pre1[k as int] == m);
                    }
                }
            }
        }
        proof {
            assert forall|a: int| 0 <= a < out.len() implies 0 <= place(#[trigger] out@[a]) < k + 1 && moves@[place(
                out@[a],
            )] == out@[a] by {
                if a < j {
                    assert(out@[a] == old_out[a]);
                } else if a > j {
                    assert(out@[a] == old_out[a - 1]);
                } else {
                    assert(out@[a] == mv);
                }
            }
        }
        k += 1;
    }
    proof {
        assert(moves@.take(moves.len() as int) =~= moves@);
        assert forall|a: int, b: int| 0 <= a < b < out@.len() implies ordering_score(*position, #[trigger] out@[a], tt_move)
            >= ordering_score(*position, #[trigger] out@[b], tt_move) by {
            assert(score(out@[a]) >= score(out@[b]));
        }
    }
    out
}

/// Whether the generator meets move `m1` before move `m2` (each at its first
/// producing triple).
pub open(crate) spec fn generated_before(p: Position, captures_only: bool, m1: Move, m2: Move) -> bool {
    forall|a1: int, b1: int, k1: int, a2: int, b2: int, k2: int|
        #![trigger p.first_gen(p.side(), captures_only, m1.from.idx(), m1.to.idx(), a1, b1, k1), p.first_gen(p.side(), captures_only, m2.from.idx(), m2.to.idx(), a2, b2, k2)]
        p.first_gen(p.side(), captures_only, m1.from.idx(), m1.to.idx(), a1, b1, k1) && p.first_gen(
            p.side(),
            captures_only,
            m2.from.idx(),
            m2.to.idx(),
            a2,
            b2,
            k2,
        ) ==> crate::position::triple_lt(a1, b1, k1, a2, b2, k2)
}

/// When moves listed in generation order are sorted with ties in reverse
/// input order, moves of equal score come in reverse generation order.
proof fn lemma_ties_follow_generation(
    p: Position,
    captures_only: bool,
    moves: Seq<Move>,
    r: Seq<Move>,
    sc: spec_fn(Move) -> int,
)
    requires
        p.in_generation_order(p.side(), captures_only, moves),
        moves.no_duplicates(),
        forall|m: Move| #[trigger] r.contains(m) ==> moves.contains(m),
        ties_reversed(r, sc, |m: Move| moves.index_of(m)),
    ensures
        forall|a: int, b: int|
            0 <= a < b < r.len() && #[trigger] sc(r[a]) == #[trigger] sc(r[b]) ==> generated_before(
                p,
                captures_only,
                r[b],
                r[a],
            ),
{
    let firsts = choose|firsts: Seq<(int, int, int)>| #[trigger] p.ordered_by_firsts(p.side(), captures_only, moves, firsts);
    assert forall|a: int, b: int| 0 <= a < b < r.len() && #[trigger] sc(r[a]) == #[trigger] sc(r[b]) implies generated_before(
        p,
        captures_only,
        r[b],
        r[a],
    ) by {
        assert(r.contains(r[a]) && r.contains(r[b]));
        let ia = moves.index_of(r[a]);
        let ib = moves.index_of(r[b]);
        assert(moves[ia] == r[a] && moves[ib] == r[b]);
        assert(ia > ib);
        assert forall|a1: int, b1: int, k1: int, a2: int, b2: int, k2: int|
            p.first_gen(p.side(), captures_only, r[b].from.idx(), r[b].to.idx(), a1, b1, k1) && p.first_gen(
                p.side(),
                captures_only,
                r[a].from.idx(),
                r[a].to.idx(),
                a2,
                b2,
                k2,
            ) implies crate::position::triple_lt(a1, b1, k1, a2, b2, k2) by {
            let fa = firsts[ia];
            let fb = firsts[ib];
            assert(p.first_gen(p.side(), captures_only, moves[ia].from.idx(), moves[ia].to.idx(), fa.0, fa.1, fa.2));
            assert(p.first_gen(p.side(), captures_only, moves[ib].from.idx(), moves[ib].to.idx(), fb.0, fb.1, fb.2));
            p.lemma_first_gen_unique(p.side(), captures_only, r[a].from.idx(), r[a].to.idx(), a2, b2, k2, fa.0, fa.1, fa.2);
            p.lemma_first_gen_unique(p.side(), captures_only, r[b].from.idx(), r[b].to.idx(), a1, b1, k1, fb.0, fb.1, fb.2);
            assert(crate::position::triple_lt(fb.0, fb.1, fb.2, fa.0, fa.1, fa.2));
        }
    }
}

/// Move `m1` is ranked before `m2`: a higher ordering score, or the same
/// score and met later by the generator.
pub open(crate) spec fn ranks_before(p: Position, co: bool, tt: Option<Move>, m1: Move, m2: Move) -> bool {
    ordering_score(p, m1, tt) > ordering_score(p, m2, tt) || (ordering_score(p, m1, tt) == ordering_score(
        p,
        m2,
        tt,
    ) && generated_before(p, co, m2, m1))
}

/// Whether a move is one that the list ranks: a legal capture when
/// `co`, a legal move otherwise.
pub open(crate) spec fn ranked_member(p: Position, co: bool, m: Move) -> bool {
    if co {
        is_capture(p, m)
    } else {
        p.is_legal(m)
    }
}

/// `s` lists each ranked move once, every one ranked before those after it.
pub open(crate) spec fn is_ranking(p: Position, co: bool, tt: Option<Move>, s: Seq<Move>) -> bool {
    &&& s.no_duplicates()
    &&& forall|m: Move| #[trigger] s.contains(m) <==> ranked_member(p, co, m)
    &&& forall|i: int, j: int| 0 <= i < j < s.len() ==> ranks_before(p, co, tt, #[trigger] s[i], #[trigger] s[j])
}

/// The moves of the side to move (only captures when `co`) in ranking order.
pub open(crate) spec fn ranking(p: Position, co: bool, tt: Option<Move>) -> Seq<Move> {
    choose|s: Seq<Move>| is_ranking(p, co, tt, s)
}

/// The moves that a quiescence node searches: the first four captures in
/// ranking order.
pub open(crate) spec fn spec_captures(p: Position, tt: Option<Move>) -> Seq<Move> {
    let s = ranking(p, true, tt);
    if s.len() > 4 {
        s.subrange(0, 4)
    } else {
        s
    }
}

/// Two moves listed in generation order are not each met before the other.
proof fn lemma_before_asymmetric(p: Position, co: bool, gen: Seq<Move>, m1: Move, m2: Move)
    requires
        p.in_generation_order(p.side(), co, gen),
        gen.contains(m1),
        gen.contains(m2),
    ensures
        !(generated_before(p, co, m1, m2) && generated_before(p, co, m2, m1)),
{
    let firsts = choose|firsts: Seq<(int, int, int)>| #[trigger] p.ordered_by_firsts(p.side(), co, gen, firsts);
    let i1 = choose|i: int| 0 <= i < gen.len() && gen[i] == m1;
    let i2 = choose|i: int| 0 <= i < gen.len() && gen[i] == m2;
    let t1 = firsts[i1];
    let t2 = firsts[i2];
    assert(p.first_gen(p.side(), co, gen[i1].from.idx(), gen[i1].to.idx(), t1.0, t1.1, t1.2));
    assert(p.first_gen(p.side(), co, gen[i2].from.idx(), gen[i2].to.idx(), t2.0, t2.1, t2.2));
}

/// There is one ranking: two lists that rank the same moves, whose members
/// all appear in a list in generation order, are equal.
proof fn lemma_ranking_unique(p: Position, co: bool, tt: Option<Move>, gen: Seq<Move>, s1: Seq<Move>, s2: Seq<Move>)
    requires
        p.in_generation_order(p.side(), co, gen),
        forall|m: Move| #[trigger] ranked_member(p, co, m) ==> gen.contains(m),
        s1.no_duplicates(),
        s2.no_duplicates(),
        forall|m: Move| #[trigger] s1.contains(m) <==> s2.contains(m),
        forall|m: Move| #[trigger] s1.contains(m) ==> ranked_member(p, co, m),
        forall|i: int, j: int| 0 <= i < j < s1.len() ==> ranks_before(p, co, tt, #[trigger] s1[i], #[trigger] s1[j]),
        forall|i: int, j: int| 0 <= i < j < s2.len() ==> ranks_before(p, co, tt, #[trigger] s2[i], #[trigger] s2[j]),
    ensures
        s1 == s2,
    decreases s1.len(),
{
    if s1.len() == 0 {
        if s2.len() > 0 {
            assert(s2.contains(s2[0]));
            assert(s1.contains(s2[0]));
            let i = choose|i: int| 0 <= i < s1.len() && s1[i] == s2[0];
            assert(false);
        }
        assert(s1 =~= s2);
    } else {
        assert(s1.contains(s1[0]));
        assert(s2.len() > 0);
        assert(s2.contains(s2[0]));
        if s1[0] != s2[0] {
            assert(s1.contains(s2[0]));
            assert(s2.contains(s1[0]));
            let i = choose|i: int| 0 <= i < s1.len() && s1[i] == s2[0];
            let j = choose|j: int| 0 <= j < s2.len() && s2[j] == s1[0];
            assert(i > 0 && j > 0);
            assert(ranks_before(p, co, tt, s1[0], s1[i]));
            assert(ranks_before(p, co, tt, s2[0], s2[j]));
            lemma_before_asymmetric(p, co, gen, s1[0], s2[0]);
        }
        let r1 = s1.drop_first();
        let r2 = s2.drop_first();
        assert forall|m: Move| #[trigger] r1.contains(m) <==> r2.contains(m) by {
            if r1.contains(m) {
                let i = choose|i: int| 0 <= i < r1.len() && r1[i] == m;
                assert(s1[i + 1] == m);
                assert(m != s1[0]);
                assert(s1.contains(m));
                assert(s2.contains(m));
                let j = choose|j: int| 0 <= j < s2.len() && s2[j] == m;
                assert(j != 0);
                assert(r2[j - 1] == m);
            }
            if r2.contains(m) {
                let i = choose|i: int| 0 <= i < r2.len() && r2[i] == m;
                assert(s2[i + 1] == m);
                assert(m != s2[0]);
                assert(s2.contains(m));
                assert(s1.contains(m));
                let j = choose|j: int| 0 <= j < s1.len() && s1[j] == m;
                assert(j != 0);
                assert(r1[j - 1] == m);
            }
        }
        assert forall|m: Move| #[trigger] r1.contains(m) implies ranked_member(p, co, m) by {
            let i = choose|i: int| 0 <= i < r1.len() && r1[i] == m;
            assert(s1[i + 1] == m);
            assert(s1.contains(m));
        }
        assert forall|i: int, j: int| 0 <= i < j < r1.len() implies ranks_before(p, co, tt, #[trigger] r1[i], #[trigger] r1[j]) by {
            assert(r1[i] == s1[i + 1] && r1[j] == s1[j + 1]);
        }
        assert forall|i: int, j: int| 0 <= i < j < r2.len() implies ranks_before(p, co, tt, #[trigger] r2[i], #[trigger] r2[j]) by {
            assert(r2[i] == s2[i + 1] && r2[j] == s2[j + 1]);
        }
        lemma_ranking_unique(p, co, tt, gen, r1, r2);
        assert(s1 =~= seq![s1[0]] + r1);
        assert(s2 =~= seq![s2[0]] + r2);
    }
}

/// A list that ranks the moves and whose members all appear in a list in
/// generation order is the ranking.
proof fn lemma_is_the_ranking(p: Position, co: bool, tt: Option<Move>, gen: Seq<Move>, s: Seq<Move>)
    requires
        p.in_generation_order(p.side(), co, gen),
        forall|m: Move| #[trigger] ranked_member(p, co, m) ==> gen.contains(m),
        is_ranking(p, co, tt, s),
    ensures
        s == ranking(p, co, tt),
{
    let r = ranking(p, co, tt);
    assert(is_ranking(p, co, tt, r));
    assert forall|m: Move| #[trigger] s.contains(m) <==> r.contains(m) by {
        assert(s.contains(m) <==> ranked_member(p, co, m));
        assert(r.contains(m) <==> ranked_member(p, co, m));
    }
    lemma_ranking_unique(p, co, tt, gen, s, r);
}

/// The legal moves of the side to move, best-scored first.
pub fn ordered_moves(position: &Position, tt_move: Option<Move>, stats: &mut SearchStats) -> (r: Vec<Move>)
    ensures
        one_more_generation(*old(stats), *final(stats)),
        r@.no_duplicates(),
        forall|m: Move| #[trigger] r@.contains(m) <==> position.is_legal(m),
        r.len() == legal_move_count(*position),
        r.len() <= 4096,
        sorted_by_score(*position, r@, tt_move),
        tt_move is Some && position.is_legal(tt_move->0) ==> r@[0] == tt_move->0,
        tt_move is None && (exists|m: Move| #[trigger] is_capture(*position, m)) ==> is_capture(*position, r@[0]),
        forall|a: int, b: int|
            0 <= a < b < r.len() && ordering_score(*position, #[trigger] r@[a], tt_move) == ordering_score(
                *position,
                #[trigger] r@[b],
                tt_move,
            ) ==> generated_before(*position, false, r@[b], r@[a]),
        r@ == ranking(*position, false, tt_move),
{
    let moves = legal_moves_counted(position, stats);
    let r = sort_by_ordering_score(position, &moves, tt_move);
    proof {
        let sc = |m: Move| ordering_score(*position, m, tt_move);
        lemma_ties_follow_generation(*position, false, moves@, r@, sc);
        assert forall|a: int, b: int|
            0 <= a < b < r.len() && ordering_score(*position, #[trigger] r@[a], tt_move) == ordering_score(
                *position,
                #[trigger] r@[b],
                tt_move,
            ) implies generated_before(*position, false, r@[b], r@[a]) by {
            assert(sc(r@[a]) == sc(r@[b]));
        }
        if tt_move is Some && position.is_legal(tt_move->0) {
            lemma_table_move_first(*position, r@, tt_move);
        }
        if tt_move is None && (exists|m: Move| #[trigger] is_capture(*position, m)) {
            lemma_capture_first(*position, r@);
        }
        assert forall|i: int, j: int| 0 <= i < j < r.len() implies ranks_before(
            *position,
            false,
            tt_move,
            #[trigger] r@[i],
            #[trigger] r@[j],
        ) by {
            assert(ordering_score(*position, r@[i], tt_move) >= ordering_score(*position, r@[j], tt_move));
        }
        assert forall|m: Move| #[trigger] r@.contains(m) <==> ranked_member(*position, false, m) by {
        }
        assert forall|m: Move| #[trigger] ranked_member(*position, false, m) implies moves@.contains(m) by {
        }
        lemma_is_the_ranking(*position, false, tt_move, moves@, r@);
    }
    r
}

/// In a list of the legal moves sorted by ordering score, a legal table move
/// comes first.
proof fn lemma_table_move_first(p: Position, r: Seq<Move>, tt_move: Option<Move>)
    requires
        sorted_by_score(p, r, tt_move),
        forall|m: Move| #[trigger] r.contains(m) <==> p.is_legal(m),
        tt_move is Some,
        p.is_legal(tt_move->0),
    ensures
        r[0] == tt_move->0,
{
    let m = tt_move->0;
    assert(r.contains(m));
    let i = choose|i: int| 0 <= i < r.len() && r[i] == m;
    assert(r.contains(r[0]));
    lemma_ordering_bounds(p, m, tt_move);
    lemma_ordering_bounds(p, r[0], tt_move);
    if i > 0 {
        assert(ordering_score(p, r[0], tt_move) >= ordering_score(p, r[i], tt_move));
    }
}

/// In a list of the legal moves sorted by ordering score without a table
/// move, a capture comes first when there is one.
proof fn lemma_capture_first(p: Position, r: Seq<Move>)
    requires
        sorted_by_score(p, r, None),
        forall|m: Move| #[trigger] r.contains(m) <==> p.is_legal(m),
        exists|m: Move| #[trigger] is_capture(p, m),
    ensures
        is_capture(p, r[0]),
{
    let m = choose|m: Move| #[trigger] is_capture(p, m);
    assert(r.contains(m));
    let i = choose|i: int| 0 <= i < r.len() && r[i] == m;
    assert(r.contains(r[0]));
    lemma_ordering_bounds(p, m, None);
    lemma_ordering_bounds(p, r[0], None);
    if i > 0 {
        assert(ordering_score(p, r[0], None) >= ordering_score(p, r[i], None));
    }
}

/// The parts of the ordering score: the table move earns far more than any
/// other move can, and a move onto an occupied square more than any move onto
/// an empty one.
proof fn lemma_ordering_bounds(p: Position, m: Move, tt_move: Option<Move>)
    requires
        p.is_legal(m),
    ensures
        tt_move == Some(m) ==> ordering_score(p, m, tt_move) >= 999_000,
        tt_move != Some(m) ==> ordering_score(p, m, tt_move) <= 102_000,
        tt_move != Some(m) && p.occupant(m.to.idx()) is Some ==> ordering_score(p, m, tt_move) >= 99_000,
        tt_move != Some(m) && p.occupant(m.to.idx()) is None ==> ordering_score(p, m, tt_move) <= 2_000,
{
    let f = m.from.idx();
    let t = m.to.idx();
    assert(0 <= f < 64 && 0 <= t < 64) by {
        assert(crate::position::bit(p.occ(p.side()), f));
    }
    assert(-14 <= centrality(f) <= 0 && -14 <= centrality(t) <= 0);
    assert(0 <= abs_int(file_of(t) - file_of(f)) <= 7);
    assert(0 <= abs_int(rank_of(t) - rank_of(f)) <= 7);
}

/// Ordering scores with the given table move, as a function of the move.
pub open(crate) spec fn score_fn(p: Position, tt_move: Option<Move>) -> spec_fn(Move) -> int {
    |m: Move| ordering_score(p, m, tt_move)
}

/// Whether a move is a legal capture, as a function of the move.
pub open(crate) spec fn capture_fn(p: Position) -> spec_fn(Move) -> bool {
    |m: Move| is_capture(p, m)
}

/// Whether the generator meets one move before another, as a function of the moves.
pub open(crate) spec fn before_fn(p: Position, captures_only: bool) -> spec_fn(Move, Move) -> bool {
    |m1: Move, m2: Move| generated_before(p, captures_only, m1, m2)
}

/// `kept` holds the (at most four) best-scored members, best first: it has no
/// duplicates and only members; it holds every member when it holds fewer than
/// four; no member left out scores higher than its last move, and one that
/// scores the same was met by the generator before it; and moves of equal
/// score in it come in reverse generation order.
pub open(crate) spec fn top_four(
    kept: Seq<Move>,
    sc: spec_fn(Move) -> int,
    member: spec_fn(Move) -> bool,
    before: spec_fn(Move, Move) -> bool,
) -> bool {
    &&& kept.len() <= 4
    &&& kept.no_duplicates()
    &&& forall|m: Move| #[trigger] kept.contains(m) ==> member(m)
    &&& descending(kept, sc)
    &&& kept.len() < 4 ==> forall|m: Move| #[trigger] member(m) ==> kept.contains(m)
    &&& forall|m: Move| #[trigger] member(m) && !kept.contains(m) ==> kept.len() > 0 && sc(m) <= sc(kept[kept.len() - 1])
    &&& forall|x: int, y: int| 0 <= x < y < kept.len() && #[trigger] sc(kept[x]) == #[trigger] sc(kept[y]) ==> before(kept[y], kept[x])
    &&& forall|m: Move|
        #[trigger] member(m) && !kept.contains(m) && sc(m) == sc(kept[kept.len() - 1]) ==> before(m, kept[kept.len() - 1])
}

/// Up to `MAX_QUIESCENCE_MOVES` capturing moves of the side to move, those
/// with the best ordering scores, best first.
pub fn capture_moves(position: &Position, tt_move: Option<Move>, stats: &mut SearchStats) -> (r: Vec<Move>)
    ensures
        one_more_generation(*old(stats), *final(stats)),
        r.len() <= MAX_QUIESCENCE_MOVES,
        top_four(r@, score_fn(*position, tt_move), capture_fn(*position), before_fn(*position, true)),
        r@ == spec_captures(*position, tt_move),
{
    let moves = direct_capture_moves_counted(position, stats);
    let mut sorted = sort_by_ordering_score(position, &moves, tt_move);
    let ghost all = sorted@;
    proof {
        let sc = score_fn(*position, tt_move);
        lemma_ties_follow_generation(*position, true, moves@, sorted@, sc);
        assert forall|x: int, y: int| 0 <= x < y < all.len() && #[trigger] sc(all[x]) == #[trigger] sc(all[y]) implies before_fn(
            *position,
            true,
        )(all[y], all[x]) by {
        }
        assert(descending(all, sc)) by {
            assert forall|x: int, y: int| 0 <= x < y < all.len() implies #[trigger] sc(all[x]) >= #[trigger] sc(all[y]) by {
                assert(ordering_score(*position, all[x], tt_move) >= ordering_score(*position, all[y], tt_move));
            }
        }
        assert forall|m: Move| #[trigger] all.contains(m) <==> capture_fn(*position)(m) by {
        }
        assert forall|i: int, j: int| 0 <= i < j < all.len() implies ranks_before(
            *position,
            true,
            tt_move,
            #[trigger] all[i],
            #[trigger] all[j],
        ) by {
            assert(sc(all[i]) >= sc(all[j]));
            if sc(all[i]) == sc(all[j]) {
                assert(before_fn(*position, true)(all[j], all[i]));
            }
        }
        assert forall|m: Move| #[trigger] all.contains(m) <==> ranked_member(*position, true, m) by {
            assert(all.contains(m) <==> capture_fn(*position)(m));
        }
        assert forall|m: Move| #[trigger] ranked_member(*position, true, m) implies moves@.contains(m) by {
        }
        lemma_is_the_ranking(*position, true, tt_move, moves@, all);
    }
    if sorted.len() > MAX_QUIESCENCE_MOVES {
        sorted.truncate(MAX_QUIESCENCE_MOVES);
    }
    proof {
        lemma_top_four(all, sorted@, score_fn(*position, tt_move), capture_fn(*position), before_fn(*position, true));
    }
    sorted
}

/// The first four of a duplicate-free list sorted by descending score are
/// the best-scored of its members, keep the order and tie facts of the list,
/// and are followed in the list only by members scored no higher.
proof fn lemma_top_four(
    all: Seq<Move>,
    kept: Seq<Move>,
    sc: spec_fn(Move) -> int,
    member: spec_fn(Move) -> bool,
    before: spec_fn(Move, Move) -> bool,
)
    requires
        all.no_duplicates(),
        forall|m: Move| #[trigger] all.contains(m) <==> member(m),
        descending(all, sc),
        forall|x: int, y: int| 0 <= x < y < all.len() && #[trigger] sc(all[x]) == #[trigger] sc(all[y]) ==> before(all[y], all[x]),
        all.len() > 4 ==> kept == all.subrange(0, 4),
        all.len() <= 4 ==> kept == all,
    ensures
        top_four(kept, sc, member, before),
{
    assert forall|m: Move| #[trigger] kept.contains(m) implies member(m) by {
        let i = choose|i: int| 0 <= i < kept.len() && kept[i] == m;
        assert(all[i] == m);
        assert(all.contains(m));
    }
    assert forall|a: int, b: int| 0 <= a < kept.len() && 0 <= b < kept.len() && a != b implies kept[a] != kept[b] by {
        assert(all[a] != all[b]);
    }
    assert forall|a: int, b: int| 0 <= a < b < kept.len() implies #[trigger] sc(kept[a]) >= #[trigger] sc(kept[b]) by {
        assert(kept[a] == all[a] && kept[b] == all[b]);
    }
    assert forall|a: int, b: int| 0 <= a < b < kept.len() && #[trigger] sc(kept[a]) == #[trigger] sc(kept[b]) implies before(kept[b], kept[a]) by {
        assert(kept[a] == all[a] && kept[b] == all[b]);
    }
    assert forall|m: Move| #[trigger] member(m) && !kept.contains(m) implies kept.len() > 0 && sc(m) <= sc(kept[kept.len() - 1])
        && (sc(m) == sc(kept[kept.len() - 1]) ==> before(m, kept[kept.len() - 1])) by {
        assert(all.contains(m));
        let i = choose|i: int| 0 <= i < all.len() && all[i] == m;
        if i < kept.len() {
            assert(kept[i] == m);
        }
        assert(all[3] == kept[3]);
        assert(sc(all[3]) >= sc(all[i]));
    }
    if all.len() <= 4 {
        assert forall|m: Move| #[trigger] member(m) implies kept.contains(m) by {
            assert(all.contains(m));
        }
    }
}

/// The counters of one static evaluation: one evaluation, and the two move
/// generations it makes unless the side to move has already lost.
pub open(crate) spec fn counted_evaluation(s: SearchStats, t: SearchStats, p: Position) -> bool {
    &&& t.evaluation_calls == s.evaluation_calls.wrapping_add(1)
    &&& t.legal_move_generations == s.legal_move_generations.wrapping_add(
        if p.can_move() {
            2u64
        } else {
            0u64
        },
    )
    &&& t.nodes == s.nodes
    &&& t.quiescence_nodes == s.quiescence_nodes
    &&& t.quiescence_pruned_moves == s.quiescence_pruned_moves
    &&& t.total_time == s.total_time
    &&& t.quiescence_time == s.quiescence_time
    &&& same_root_fields(s, t)
}

/// The fields that only the root of the search writes are unchanged.
pub open spec fn same_root_fields(s: SearchStats, t: SearchStats) -> bool {
    &&& t.depth_timings == s.depth_timings
    &&& t.completed_depth == s.completed_depth
    &&& t.timed_out == s.timed_out
    &&& t.root_legal_moves == s.root_legal_moves
    &&& t.completed_root_moves_total == s.completed_root_moves_total
    &&& t.completed_root_moves_current_depth == s.completed_root_moves_current_depth
}

/// Static evaluation that counts its work in `stats`.
pub fn evaluate_with_stats(position: &Position, stats: &mut SearchStats) -> (r: i32)
    ensures
        r == crate::eval::spec_evaluate(*position),
        -WIN_SCORE <= r <= WIN_SCORE,
        counted_evaluation(*old(stats), *final(stats), *position),
{
    let (score, generations) = crate::eval::evaluate_parts(position);
    stats.evaluation_calls = stats.evaluation_calls.wrapping_add(1);
    stats.legal_move_generations = stats.legal_move_generations.wrapping_add(generations);
    score
}

/// Whether each move of `line` is legal in the position the moves before it
/// lead to, starting from `p`.
pub open(crate) spec fn legal_line(p: Position, line: Seq<Move>) -> bool
    decreases line.len(),
{
    if line.len() == 0 {
        true
    } else {
        p.is_legal(line[0]) && legal_line(p.applied(line[0]), line.drop_first())
    }
}

/// The principal variation stored in the slots `v`: from `p`, follow the best
/// moves the table records for as long as they are legal, at most `n` of them.
pub open(crate) spec fn spec_pv(p: Position, n: nat, v: Seq<Option<TableEntry>>) -> Seq<Move>
    decreases n,
{
    if n == 0 {
        Seq::empty()
    } else {
        match slot_lookup(v, p.key()) {
            Some(e) => match e.best_move {
                Some(m) => if p.is_legal(m) {
                    seq![m] + spec_pv(p.applied(m), (n - 1) as nat, v)
                } else {
                    Seq::empty()
                },
                None => Seq::empty(),
            },
            None => Seq::empty(),
        }
    }
}

/// The position reached from `p` by playing the moves of `line` in order.
pub open(crate) spec fn play_line(p: Position, line: Seq<Move>) -> Position
    decreases line.len(),
{
    if line.len() == 0 {
        p
    } else {
        play_line(p.applied(line[0]), line.drop_first())
    }
}

/// The move the slots `v` record for `p`, if any.
pub open(crate) spec fn recorded_move(v: Seq<Option<TableEntry>>, p: Position) -> Option<Move> {
    entry_move(slot_lookup(v, p.key()))
}

/// Whether the slots record a move for `p` that is legal there.
pub open(crate) spec fn records_legal_move(v: Seq<Option<TableEntry>>, p: Position) -> bool {
    recorded_move(v, p) matches Some(m) && p.is_legal(m)
}

/// A principal variation follows the table for as long as it can, up to the
/// asked length: each of its moves is the move the table records for the
/// position reached before it (and legal there), and it is shorter than `n`
/// only when the table records no legal move for the position it leads to.
pub proof fn lemma_pv_follows_table(p: Position, n: nat, v: Seq<Option<TableEntry>>)
    ensures
        spec_pv(p, n, v).len() <= n,
        forall|k: int|
            0 <= k < spec_pv(p, n, v).len() ==> recorded_move(v, play_line(p, #[trigger] spec_pv(p, n, v).take(k)))
                == Some(spec_pv(p, n, v)[k]) && play_line(p, spec_pv(p, n, v).take(k)).is_legal(spec_pv(p, n, v)[k]),
        spec_pv(p, n, v).len() < n ==> !records_legal_move(v, play_line(p, spec_pv(p, n, v))),
    decreases n,
{
    let l = spec_pv(p, n, v);
    if n == 0 {
        assert(l.len() == 0);
    } else if records_legal_move(v, p) {
        let m = recorded_move(v, p)->0;
        let q = p.applied(m);
        let rest = spec_pv(q, (n - 1) as nat, v);
        lemma_pv_follows_table(q, (n - 1) as nat, v);
        assert(l == seq![m] + rest);
        assert(l.drop_first() =~= rest);
        assert forall|k: int| 0 <= k < l.len() implies recorded_move(v, play_line(p, #[trigger] l.take(k))) == Some(l[k])
            && play_line(p, l.take(k)).is_legal(l[k]) by {
            if k == 0 {
                assert(l.take(0).len() == 0);
                assert(play_line(p, l.take(0)) == p);
            } else {
                assert(l.take(k)[0] == m);
                assert(l.take(k).drop_first() =~= rest.take(k - 1));
                assert(play_line(p, l.take(k)) == play_line(q, rest.take(k - 1)));
                assert(l[k] == rest[k - 1]);
            }
        }
        if l.len() < n {
            assert(rest.len() < n - 1);
            assert(play_line(p, l) == play_line(q, rest));
        }
    } else {
        assert(l.len() == 0);
        assert(play_line(p, l) == p);
    }
}

/// A stored principal variation is a legal line no longer than asked for.
pub proof fn lemma_pv_is_legal_line(p: Position, n: nat, t: Seq<Option<TableEntry>>)
    ensures
        legal_line(p, spec_pv(p, n, t)),
        spec_pv(p, n, t).len() <= n,
    decreases n,
{
    if n > 0 {
        lemma_pv_is_legal_line(p, (n - 1) as nat, t);
        match slot_lookup(t, p.key()) {
            Some(e) => match e.best_move {
                Some(m) => if p.is_legal(m) {
                    let rest = spec_pv(p.applied(m), (n - 1) as nat, t);
                    lemma_pv_is_legal_line(p.applied(m), (n - 1) as nat, t);
                    assert((seq![m] + rest).drop_first() =~= rest);
                    assert((seq![m] + rest)[0] == m);
                },
                None => {},
            },
            None => {},
        }
    }
}

/// A legal move passes the legality check.
proof fn lemma_legal_checks(p: Position, m: Move)
    requires
        p.is_legal(m),
    ensures
        p.check_move(m) is Ok,
{
}

/// Follows the best moves stored in the table from `position`, at most
/// `max_depth` of them, while they are legal.
pub fn build_principal_variation(position: &Position, max_depth: u8, table: &TranspositionTable) -> (r: Vec<Move>)
    requires
        table.valid(),
    ensures
        r@ == spec_pv(*position, max_depth as nat, table.view_slots()),
{
    let mut pv: Vec<Move> = Vec::new();
    let mut current = position.clone();
    let mut i: u8 = 0;
    while i < max_depth
        invariant
            table.valid(),
            i <= max_depth,
            pv@ + spec_pv(current, (max_depth - i) as nat, table.view_slots()) == spec_pv(*position, max_depth as nat, table.view_slots()),
        ensures
            pv@ == spec_pv(*position, max_depth as nat, table.view_slots()),
        decreases max_depth - i,
    {
        let ghost n = (max_depth - i) as nat;
        let entry = match table.get(&current) {
            Some(e) => e,
            None => {
                proof {
                    assert(spec_pv(current, n, table.view_slots()) =~= Seq::<Move>::empty());
                    assert(pv@ + Seq::<Move>::empty() =~= pv@);
                }
                break;
            },
        };
        let mv = match entry.best_move {
            Some(m) => m,
            None => {
                proof {
                    assert(spec_pv(current, n, table.view_slots()) =~= Seq::<Move>::empty());
                    assert(pv@ + Seq::<Move>::empty() =~= pv@);
                }
                break;
            },
        };
        let ghost before = current;
        let _ = mv.to.index();
        match current.apply_move(mv) {
            Err(_) => {
                proof {
                    if before.is_legal(mv) {
                        lemma_legal_checks(before, mv);
                    }
                    assert(spec_pv(current, n, table.view_slots()) =~= Seq::<Move>::empty());
                    assert(pv@ + Seq::<Move>::empty() =~= pv@);
                }
                break;
            },
            Ok(_) => {},
        }
        proof {
            assert(before.is_legal(mv));
            let rest = spec_pv(current, (n - 1) as nat, table.view_slots());
            assert(spec_pv(before, n, table.view_slots()) == seq![mv] + rest);
            assert(pv@.push(mv) + rest =~= pv@ + (seq![mv] + rest));
        }
        pv.push(mv);
        i += 1;
    }
    pv
}

/// The table entry recorded for a finished root search.
pub open(crate) spec fn root_entry(depth: u8, score: i32, mv: Move) -> TableEntry {
    TableEntry { key: 0, depth, score, bound: Bound::Exact, best_move: Some(mv) }
}

/// The entry stored for a root result of `p`.
pub open(crate) spec fn stored_root(p: Position, depth: u8, score: i32, mv: Move) -> TableEntry {
    TableEntry { key: p.key(), depth, score, bound: Bound::Exact, best_move: Some(mv) }
}

/// The principal variation reported with `mv`: the stored one, or `mv` alone
/// when none is stored.
pub open(crate) spec fn pv_or_move(pv: Seq<Move>, mv: Move) -> Seq<Move> {
    if pv.len() == 0 {
        seq![mv]
    } else {
        pv
    }
}

/// Records the root result in the table and attaches its principal variation.
pub fn finalize_root_result(
    position: &Position,
    depth: u8,
    table: &mut TranspositionTable,
    best: Option<SearchResult>,
) -> (r: Option<SearchResult>)
    requires
        old(table).valid(),
    ensures
        final(table).valid(),
        final(table).buckets() == old(table).buckets(),
        best is None ==> r is None && final(table).view_slots() == old(table).view_slots(),
        best matches Some(b) ==> {
            &&& final(table).view_slots() == spec_store(
                old(table).view_slots(),
                old(table).base_of(position.key()),
                position.key(),
                root_entry(depth, b.score, b.best_move),
            )
            &&& r matches Some(x)
            &&& x.best_move == b.best_move
            &&& x.score == b.score
            &&& x.depth == b.depth
            &&& x.principal_variation@ == pv_or_move(
                spec_pv(*position, depth as nat, final(table).view_slots()),
                b.best_move,
            )
        },
{
    let mut result = match best {
        Some(b) => b,
        None => {
            return None;
        },
    };
    table.insert(
        position,
        TableEntry {
            key: 0,
            depth,
            score: result.score,
            bound: Bound::Exact,
            best_move: Some(result.best_move),
        },
    );
    result.principal_variation = build_principal_variation(position, depth, table);
    if result.principal_variation.len() == 0 {
        result.principal_variation.push(result.best_move);
        proof {
            assert(result.principal_variation@ =~= seq![result.best_move]);
        }
    }
    Some(result)
}

/// Every bound `entries_bounded(_, d, SCORE_BOUND)` with `d >= depth` that
/// held of `v` holds of `w`: no entry deeper than `depth` was added.
pub open(crate) spec fn keeps_depth_bound(v: Seq<Option<TableEntry>>, w: Seq<Option<TableEntry>>, depth: int) -> bool {
    forall|d: int|
        depth <= d && #[trigger] entries_bounded(v, d, SCORE_BOUND as int) ==> entries_bounded(
            w,
            d,
            SCORE_BOUND as int,
        )
}

/// The table is usable by the search: whole buckets, and every entry no
/// deeper than the deepest search and scored within `SCORE_BOUND`.
pub open(crate) spec fn search_table(t: TranspositionTable) -> bool {
    t.valid() && entries_bounded(t.view_slots(), 255, SCORE_BOUND as int)
}

/// A table adds nothing to itself.
proof fn lemma_keeps_refl(v: Seq<Option<TableEntry>>, d: int)
    ensures
        keeps_depth_bound(v, v, d),
{
}

/// Adding nothing deeper in two steps adds nothing deeper overall.
proof fn lemma_keeps_trans(
    u: Seq<Option<TableEntry>>,
    v: Seq<Option<TableEntry>>,
    w: Seq<Option<TableEntry>>,
    d1: int,
    d2: int,
    d: int,
)
    requires
        keeps_depth_bound(u, v, d1),
        keeps_depth_bound(v, w, d2),
        d1 <= d,
        d2 <= d,
    ensures
        keeps_depth_bound(u, w, d),
{
    assert forall|dd: int| d <= dd && #[trigger] entries_bounded(u, dd, SCORE_BOUND as int) implies entries_bounded(
        w,
        dd,
        SCORE_BOUND as int,
    ) by {
        assert(entries_bounded(v, dd, SCORE_BOUND as int));
    }
}

/// Storing an entry of depth `e.depth` with a bounded score keeps the table
/// usable and adds nothing deeper than `e.depth`.
proof fn lemma_record(t: TranspositionTable, key: u64, e: TableEntry)
    requires
        search_table(t),
        -SCORE_BOUND <= e.score <= SCORE_BOUND,
    ensures
        entries_bounded(
            spec_store(t.view_slots(), t.base_of(key), key, e),
            255,
            SCORE_BOUND as int,
        ),
        keeps_depth_bound(
            t.view_slots(),
            spec_store(t.view_slots(), t.base_of(key), key, e),
            e.depth as int,
        ),
{
    crate::table::lemma_base_in_range(t, key);
    let v = t.view_slots();
    let base = t.base_of(key);
    crate::table::lemma_store_bounded(v, base, key, e, 255, SCORE_BOUND as int);
    assert forall|d: int| e.depth <= d && #[trigger] entries_bounded(v, d, SCORE_BOUND as int) implies entries_bounded(
        spec_store(v, base, key, e),
        d,
        SCORE_BOUND as int,
    ) by {
        crate::table::lemma_store_bounded(v, base, key, e, d, SCORE_BOUND as int);
    }
}

/// An entry found in a usable table has a bounded score and depth.
proof fn lemma_found_bounded(t: TranspositionTable, key: u64)
    requires
        search_table(t),
    ensures
        t.lookup(key) matches Some(e) ==> -SCORE_BOUND <= e.score <= SCORE_BOUND && e.depth <= 255,
{
    crate::table::lemma_base_in_range(t, key);
    crate::table::lemma_lookup_bounded(t.view_slots(), t.base_of(key), key, 255, SCORE_BOUND as int);
}

/// Every entry of the table scores within the win score, as every score the
/// search stores does when it starts from such a table.
pub open(crate) spec fn win_bounded(t: TranspositionTable) -> bool {
    entries_bounded(t.view_slots(), 255, WIN_SCORE as int)
}

/// The window `alpha`..`beta` is not empty and reaches at most one past the
/// win score on either side.
pub open(crate) spec fn win_window(alpha: int, beta: int) -> bool {
    -WIN_SCORE - 1 <= alpha < beta <= WIN_SCORE + 1
}

/// Storing an entry scored within the win score keeps every entry so.
proof fn lemma_record_win(t: TranspositionTable, key: u64, e: TableEntry)
    requires
        t.valid(),
        win_bounded(t),
        -WIN_SCORE <= e.score <= WIN_SCORE,
    ensures
        entries_bounded(spec_store(t.view_slots(), t.base_of(key), key, e), 255, WIN_SCORE as int),
{
    crate::table::lemma_base_in_range(t, key);
    crate::table::lemma_store_bounded(t.view_slots(), t.base_of(key), key, e, 255, WIN_SCORE as int);
}

/// An entry found in a table whose entries score within the win score does so too.
proof fn lemma_found_win(t: TranspositionTable, key: u64)
    requires
        t.valid(),
        win_bounded(t),
    ensures
        t.lookup(key) matches Some(e) ==> -WIN_SCORE <= e.score <= WIN_SCORE,
{
    crate::table::lemma_base_in_range(t, key);
    crate::table::lemma_lookup_bounded(t.view_slots(), t.base_of(key), key, 255, WIN_SCORE as int);
}

/// How far a wrapping counter moved from `a` to `b`.
pub open spec fn advanced(a: u64, b: u64) -> int {
    if b >= a {
        b - a
    } else {
        b + 0x1_0000_0000_0000_0000 - a
    }
}

/// Most quiescence nodes a search from quiescence ply `depth` visits: the
/// node itself and, above the last ply, at most four searched captures.
pub open spec fn quiescence_node_bound(depth: int) -> nat
    decreases MAX_QUIESCENCE_DEPTH - depth,
{
    if depth >= MAX_QUIESCENCE_DEPTH {
        1
    } else {
        1 + 4 * quiescence_node_bound(depth + 1)
    }
}

/// The quiescence node bound is small: 341 nodes from the first ply.
pub proof fn lemma_node_bound_small(depth: int)
    requires
        0 <= depth,
    ensures
        quiescence_node_bound(depth) <= 341,
{
    reveal_with_fuel(quiescence_node_bound, 6);
    if depth >= 4 {
        assert(quiescence_node_bound(depth) == 1);
    } else if depth == 3 {
        assert(quiescence_node_bound(4) == 1);
    } else if depth == 2 {
        assert(quiescence_node_bound(3) == 5);
    } else if depth == 1 {
        assert(quiescence_node_bound(2) == 21);
    } else {
        assert(quiescence_node_bound(1) == 85);
    }
}

/// Moves of a wrapping counter add up while they stay below a full turn.
proof fn lemma_advance_compose(a: u64, b: u64, c: u64)
    requires
        advanced(a, b) + advanced(b, c) < 0x1_0000_0000_0000_0000,
    ensures
        advanced(a, c) == advanced(a, b) + advanced(b, c),
{
}

/// Whether the table holds an exact score for `p` from a search of exactly
/// `depth` plies (any depth of at least `depth` when `depth` is positive).
pub open(crate) spec fn exact_hit(t: TranspositionTable, p: Position, depth: u8) -> bool {
    &&& t.lookup(p.key()) is Some
    &&& t.lookup(p.key())->0.bound == Bound::Exact
    &&& if depth == 0 {
        t.lookup(p.key())->0.depth == 0
    } else {
        t.lookup(p.key())->0.depth >= depth
    }
}

/// First slot of the bucket of `key` in the slots `v`.
pub open(crate) spec fn slot_base(v: Seq<Option<TableEntry>>, key: u64) -> int {
    4 * (((key as usize) as int) % ((v.len() / 4) as int))
}

/// The entry stored for `key` in the slots `v`.
pub open(crate) spec fn slot_lookup(v: Seq<Option<TableEntry>>, key: u64) -> Option<TableEntry> {
    spec_lookup(v, slot_base(v, key), key)
}

/// The slots `v` after storing `e` for `key`.
pub open(crate) spec fn slot_store(v: Seq<Option<TableEntry>>, key: u64, e: TableEntry) -> Seq<Option<TableEntry>> {
    spec_store(v, slot_base(v, key), key, e)
}

/// The move recorded in a table entry, if any.
pub open(crate) spec fn entry_move(e: Option<TableEntry>) -> Option<Move> {
    match e {
        Some(x) => x.best_move,
        None => None,
    }
}

/// The entry the search stores: depth, score, bound and best move.
pub open(crate) spec fn search_entry(depth: u8, score: int, bound: Bound, mv: Option<Move>) -> TableEntry {
    TableEntry { key: 0, depth, score: score as i32, bound, best_move: mv }
}

/// How a score found in the window `alpha`..`beta` bounds the true score.
pub open(crate) spec fn window_bound(score: int, alpha: int, beta: int) -> Bound {
    if score <= alpha {
        Bound::Upper
    } else if score >= beta {
        Bound::Lower
    } else {
        Bound::Exact
    }
}

/// The score and the slots after a quiescence search of `p` at quiescence ply
/// `depth` in the window `alpha`..`beta` from the slots `v`, with no deadline.
/// A stored score of depth zero answers or narrows the window; then the
/// static evaluation stands at the last ply or when it reaches `beta`; else
/// the first four captures in ranking order are searched.
pub open(crate) spec fn spec_quiescence(p: Position, alpha: int, beta: int, depth: int, v: Seq<Option<TableEntry>>) -> (
    int,
    Seq<Option<TableEntry>>,
)
    decreases MAX_QUIESCENCE_DEPTH - depth, 1int, 0int,
{
    let key = p.key();
    let entry = slot_lookup(v, key);
    let hit = entry is Some && entry->0.depth == 0;
    if hit && entry->0.bound == Bound::Exact {
        (entry->0.score as int, v)
    } else {
        let a = if hit && entry->0.bound == Bound::Lower && entry->0.score > alpha {
            entry->0.score as int
        } else {
            alpha
        };
        let b = if hit && entry->0.bound == Bound::Upper && entry->0.score < beta {
            entry->0.score as int
        } else {
            beta
        };
        if hit && a >= b {
            (entry->0.score as int, v)
        } else {
            let sp = spec_evaluate(p);
            if depth >= MAX_QUIESCENCE_DEPTH {
                (sp, slot_store(v, key, search_entry(0, sp, Bound::Exact, None)))
            } else if sp >= b {
                (b, slot_store(v, key, search_entry(0, b, Bound::Lower, None)))
            } else {
                spec_quiescence_loop(
                    p,
                    spec_captures(p, entry_move(entry)),
                    0,
                    sp,
                    if sp > a { sp } else { a },
                    b,
                    alpha,
                    beta,
                    None,
                    depth,
                    v,
                )
            }
        }
    }
}

/// The rest of a quiescence search from the `k`-th capture of `moves`, with
/// static evaluation `sp`, window `alpha`..`beta`, best capture so far `best`
/// and slots `v`; `oa`..`ob` is the window the search was asked for.
pub open(crate) spec fn spec_quiescence_loop(
    p: Position,
    moves: Seq<Move>,
    k: int,
    sp: int,
    alpha: int,
    beta: int,
    oa: int,
    ob: int,
    best: Option<Move>,
    depth: int,
    v: Seq<Option<TableEntry>>,
) -> (int, Seq<Option<TableEntry>>)
    decreases MAX_QUIESCENCE_DEPTH - depth, 0int, moves.len() - k,
{
    if k < 0 || k >= moves.len() || depth >= MAX_QUIESCENCE_DEPTH {
        (alpha, slot_store(v, p.key(), search_entry(0, alpha, window_bound(alpha, oa, ob), best)))
    } else {
        let mv = moves[k];
        if sp + capture_delta(p, mv) <= alpha || p.check_move(mv) is Err {
            spec_quiescence_loop(p, moves, k + 1, sp, alpha, beta, oa, ob, best, depth, v)
        } else {
            let child = spec_quiescence(p.applied(mv), -beta, -alpha, depth + 1, v);
            let score = -child.0;
            if score >= beta {
                (beta, slot_store(child.1, p.key(), search_entry(0, beta, Bound::Lower, Some(mv))))
            } else if score > alpha {
                spec_quiescence_loop(p, moves, k + 1, sp, score, beta, oa, ob, Some(mv), depth, child.1)
            } else {
                spec_quiescence_loop(p, moves, k + 1, sp, alpha, beta, oa, ob, best, depth, child.1)
            }
        }
    }
}

/// Quiescence search: the static evaluation, improved by a few capture
/// sequences, within the window `alpha`..`beta`. `None` when the deadline
/// passed first; a score, with the table it leaves, is always the one
/// `spec_quiescence` gives. From a table whose entries score within the win
/// score, in a window that reaches at most one past it, the score stays within
/// the win score.
#[verifier::loop_isolation(false)]
#[verifier::spinoff_prover]
#[verifier::rlimit(100)]
pub fn quiescence(
    position: &Position,
    alpha: i32,
    beta: i32,
    depth: u8,
    table: &mut TranspositionTable,
    deadline: Option<Instant>,
    stats: &mut SearchStats,
) -> (r: Option<i32>)
    requires
        search_table(*old(table)),
        -SCORE_BOUND <= alpha <= SCORE_BOUND,
        -SCORE_BOUND <= beta <= SCORE_BOUND,
    ensures
        search_table(*final(table)),
        final(table).buckets() == old(table).buckets(),
        keeps_depth_bound(old(table).view_slots(), final(table).view_slots(), 0),
        r matches Some(v) ==> -SCORE_BOUND <= v <= SCORE_BOUND,
        deadline is None ==> r is Some,
        exact_hit(*old(table), *position, 0) && r is Some ==> r == Some(old(table).lookup(position.key())->0.score),
        advanced(old(stats).quiescence_nodes, final(stats).quiescence_nodes) <= quiescence_node_bound(depth as int),
        advanced(old(stats).quiescence_nodes, final(stats).quiescence_nodes) >= 1,
        same_root_fields(*old(stats), *final(stats)),
        win_bounded(*old(table)) && win_window(alpha as int, beta as int) ==> win_bounded(*final(table)) && (
        r matches Some(v) ==> -WIN_SCORE <= v <= WIN_SCORE),
        r is Some ==> (r matches Some(v) && v == spec_quiescence(
            *position,
            alpha as int,
            beta as int,
            depth as int,
            old(table).view_slots(),
        ).0) && final(table).view_slots() == spec_quiescence(
            *position,
            alpha as int,
            beta as int,
            depth as int,
            old(table).view_slots(),
        ).1,
    decreases MAX_QUIESCENCE_DEPTH - depth,
{
    let ghost t0 = table.view_slots();
    let started = crate::clock::now();
    stats.quiescence_nodes = stats.quiescence_nodes.wrapping_add(1);
    if crate::clock::search_expired(deadline) {
        stats.quiescence_time = crate::clock::duration_saturating_add(
            stats.quiescence_time,
            crate::clock::elapsed_since(&started),
        );
        return None;
    }
    let mut alpha = alpha;
    let mut beta = beta;
    let original_alpha = alpha;
    let original_beta = beta;
    let ghost tight = win_bounded(*table) && win_window(alpha as int, beta as int);
    let ghost goal = spec_quiescence(*position, alpha as int, beta as int, depth as int, t0);
    proof {
        lemma_found_bounded(*table, position.key());
        lemma_keeps_refl(t0, 0);
        if tight {
            lemma_found_win(*table, position.key());
        }
    }
    match table.get(position) {
        Some(entry) => {
            if entry.depth == 0 {
                match entry.bound {
                    Bound::Exact => {
                        stats.quiescence_time = crate::clock::duration_saturating_add(
                            stats.quiescence_time,
                            crate::clock::elapsed_since(&started),
                        );
                        return Some(entry.score);
                    },
                    Bound::Lower => {
                        if entry.score > alpha {
                            alpha = entry.score;
                        }
                    },
                    Bound::Upper => {
                        if entry.score < beta {
                            beta = entry.score;
                        }
                    },
                }
                if alpha >= beta {
                    stats.quiescence_time = crate::clock::duration_saturating_add(
                        stats.quiescence_time,
                        crate::clock::elapsed_since(&started),
                    );
                    return Some(entry.score);
                }
            }
        },
        None => {},
    }
    let stand_pat = evaluate_with_stats(position, stats);
    if depth >= MAX_QUIESCENCE_DEPTH {
        let e = TableEntry { key: 0, depth: 0, score: stand_pat, bound: Bound::Exact, best_move: None };
        proof {
            lemma_record(*table, position.key(), e);
            if tight {
                lemma_record_win(*table, position.key(), e);
            }
        }
        table.insert(position, e);
        stats.quiescence_time = crate::clock::duration_saturating_add(
            stats.quiescence_time,
            crate::clock::elapsed_since(&started),
        );
        return Some(stand_pat);
    }
    if stand_pat >= beta {
        let e = TableEntry { key: 0, depth: 0, score: beta, bound: Bound::Lower, best_move: None };
        proof {
            lemma_record(*table, position.key(), e);
            if tight {
                lemma_record_win(*table, position.key(), e);
            }
        }
        table.insert(position, e);
        stats.quiescence_time = crate::clock::duration_saturating_add(
            stats.quiescence_time,
            crate::clock::elapsed_since(&started),
        );
        return Some(beta);
    }
    if stand_pat > alpha {
        alpha = stand_pat;
    }
    let tt_move = match table.get(position) {
        Some(e) => e.best_move,
        None => None,
    };
    let moves = capture_moves(position, tt_move, stats);
    let ghost s0 = *old(stats);
    let mut best_move: Option<Move> = None;
    let mut k: usize = 0;
    while k < moves.len()
        invariant
            k <= moves.len(),
            depth < MAX_QUIESCENCE_DEPTH,
            search_table(*table),
            table.buckets() == old(table).buckets(),
            t0 == old(table).view_slots(),
            keeps_depth_bound(t0, table.view_slots(), 0),
            -SCORE_BOUND <= alpha <= SCORE_BOUND,
            -SCORE_BOUND <= beta <= SCORE_BOUND,
            -WIN_SCORE <= stand_pat <= WIN_SCORE,
            same_root_fields(s0, *stats),
            s0 == *old(stats),
            !exact_hit(*old(table), *position, 0),
            moves.len() <= 4,
            advanced(s0.quiescence_nodes, stats.quiescence_nodes) <= 1 + k * quiescence_node_bound(depth + 1),
            advanced(s0.quiescence_nodes, stats.quiescence_nodes) >= 1,
            tight ==> win_bounded(*table) && -WIN_SCORE <= alpha && alpha < beta && beta <= WIN_SCORE + 1,
            spec_quiescence_loop(
                *position,
                moves@,
                k as int,
                stand_pat as int,
                alpha as int,
                beta as int,
                original_alpha as int,
                original_beta as int,
                best_move,
                depth as int,
                table.view_slots(),
            ) == goal,
        decreases moves.len() - k,
    {
        proof {
            let b = quiescence_node_bound(depth + 1);
            assert((k + 1) * b == k * b + b && k * b <= 4 * b && (k + 1) * b <= 4 * b) by (nonlinear_arith)
                requires
                    k < 4,
                    b >= 0,
            ;
            assert(quiescence_node_bound(depth as int) == 1 + 4 * b);
        }
        let mv = moves[k];
        if crate::clock::search_expired(deadline) {
            stats.quiescence_time = crate::clock::duration_saturating_add(
                stats.quiescence_time,
                crate::clock::elapsed_since(&started),
            );
            return None;
        }
        let delta = quiescence_capture_delta(position, mv);
        if stand_pat + delta <= alpha {
            stats.quiescence_pruned_moves = stats.quiescence_pruned_moves.wrapping_add(1);
            k += 1;
            continue;
        }
        let mut next = position.clone();
        match next.apply_move(mv) {
            Err(_) => {
                k += 1;
                continue;
            },
            Ok(_) => {},
        }
        let ghost tb = table.view_slots();
        let ghost before_child = stats.quiescence_nodes;
        let child = quiescence(&next, -beta, -alpha, depth + 1, table, deadline, stats);
        proof {
            lemma_keeps_trans(t0, tb, table.view_slots(), 0, 0, 0);
            lemma_node_bound_small(depth + 1);
            lemma_advance_compose(s0.quiescence_nodes, before_child, stats.quiescence_nodes);
        }
        let score = match child {
            None => {
                stats.quiescence_time = crate::clock::duration_saturating_add(
                    stats.quiescence_time,
                    crate::clock::elapsed_since(&started),
                );
                return None;
            },
            Some(v) => -v,
        };
        if score >= beta {
            let e = TableEntry { key: 0, depth: 0, score: beta, bound: Bound::Lower, best_move: Some(mv) };
            let ghost tc = table.view_slots();
            proof {
                lemma_record(*table, position.key(), e);
                if tight {
                    lemma_record_win(*table, position.key(), e);
                }
            }
            table.insert(position, e);
            proof {
                lemma_keeps_trans(t0, tc, table.view_slots(), 0, 0, 0);
            }
            stats.quiescence_time = crate::clock::duration_saturating_add(
                stats.quiescence_time,
                crate::clock::elapsed_since(&started),
            );
            return Some(beta);
        }
        if score > alpha {
            alpha = score;
            best_move = Some(mv);
        }
        k += 1;
    }
    let bound = if alpha <= original_alpha {
        Bound::Upper
    } else if alpha >= original_beta {
        Bound::Lower
    } else {
        Bound::Exact
    };
    let e = TableEntry { key: 0, depth: 0, score: alpha, bound, best_move };
    let ghost tc = table.view_slots();
    proof {
        lemma_record(*table, position.key(), e);
        if tight {
            lemma_record_win(*table, position.key(), e);
        }
        let b = quiescence_node_bound(depth + 1);
        assert(k * b <= 4 * b) by (nonlinear_arith)
            requires
                k <= 4,
                b >= 0,
        ;
        assert(quiescence_node_bound(depth as int) == 1 + 4 * b);
    }
    table.insert(position, e);
    proof {
        lemma_keeps_trans(t0, tc, table.view_slots(), 0, 0, 0);
    }
    stats.quiescence_time = crate::clock::duration_saturating_add(
        stats.quiescence_time,
        crate::clock::elapsed_since(&started),
    );
    Some(alpha)
}

/// The score and the slots after the alpha-beta search of `p` has tried its
/// moves: the best score is stored with the asked depth, how it bounds the
/// true score in the window `oa`..`ob`, and the best move.
pub open(crate) spec fn spec_negamax_finish(
    p: Position,
    depth: int,
    bs: int,
    bm: Option<Move>,
    oa: int,
    ob: int,
    v: Seq<Option<TableEntry>>,
) -> (int, Seq<Option<TableEntry>>) {
    (bs, slot_store(v, p.key(), search_entry(depth as u8, bs, window_bound(bs, oa, ob), bm)))
}

/// The score and the slots after an alpha-beta search of `p` to `depth` plies
/// in the window `alpha`..`beta` from the slots `v`, with no deadline: the
/// static evaluation when the side to move has lost, quiescence search at
/// depth zero, an answer or a narrower window from a stored score at least as
/// deep, else the legal moves searched in ranking order.
pub open(crate) spec fn spec_negamax(p: Position, depth: int, alpha: int, beta: int, v: Seq<Option<TableEntry>>) -> (
    int,
    Seq<Option<TableEntry>>,
)
    decreases depth, 1int, 0int,
{
    if !p.can_move() {
        (spec_evaluate(p), v)
    } else if depth <= 0 {
        spec_quiescence(p, alpha, beta, 0, v)
    } else {
        let entry = slot_lookup(v, p.key());
        let hit = entry is Some && entry->0.depth >= depth;
        if hit && entry->0.bound == Bound::Exact {
            (entry->0.score as int, v)
        } else {
            let a = if hit && entry->0.bound == Bound::Lower && entry->0.score > alpha {
                entry->0.score as int
            } else {
                alpha
            };
            let b = if hit && entry->0.bound == Bound::Upper && entry->0.score < beta {
                entry->0.score as int
            } else {
                beta
            };
            if hit && a >= b {
                (entry->0.score as int, v)
            } else {
                spec_negamax_loop(
                    p,
                    depth,
                    ranking(p, false, entry_move(entry)),
                    0,
                    a,
                    b,
                    alpha,
                    beta,
                    -WIN_SCORE - 1,
                    None,
                    v,
                )
            }
        }
    }
}

/// The rest of an alpha-beta search from the `k`-th move of `moves`, with
/// window `alpha`..`beta`, best score `bs` and best move `bm` so far and slots
/// `v`; `oa`..`ob` is the window the search was asked for. The search stops
/// early when a move's score reaches `beta`.
pub open(crate) spec fn spec_negamax_loop(
    p: Position,
    depth: int,
    moves: Seq<Move>,
    k: int,
    alpha: int,
    beta: int,
    oa: int,
    ob: int,
    bs: int,
    bm: Option<Move>,
    v: Seq<Option<TableEntry>>,
) -> (int, Seq<Option<TableEntry>>)
    decreases depth, 0int, moves.len() - k,
{
    if k < 0 || k >= moves.len() || depth <= 0 {
        spec_negamax_finish(p, depth, bs, bm, oa, ob, v)
    } else {
        let mv = moves[k];
        if p.check_move(mv) is Err {
            spec_negamax_loop(p, depth, moves, k + 1, alpha, beta, oa, ob, bs, bm, v)
        } else {
            let child = spec_negamax(p.applied(mv), depth - 1, -beta, -alpha, v);
            let score = -child.0;
            let bs2 = if score > bs { score } else { bs };
            let bm2 = if score > bs { Some(mv) } else { bm };
            let a2 = if score > alpha { score } else { alpha };
            if a2 >= beta {
                spec_negamax_finish(p, depth, bs2, bm2, oa, ob, child.1)
            } else {
                spec_negamax_loop(p, depth, moves, k + 1, a2, beta, oa, ob, bs2, bm2, child.1)
            }
        }
    }
}

/// Alpha-beta search to `depth` plies in the window `alpha`..`beta`, from the
/// point of view of the side to move, with quiescence search at the leaves.
/// `None` when the deadline passed before the search finished; a score, with
/// the table it leaves, is always the one `spec_negamax` gives. From a table
/// whose entries score within the win score, in a window that reaches at most
/// one past it, the score stays within the win score.
#[verifier::loop_isolation(false)]
#[verifier::spinoff_prover]
#[verifier::rlimit(100)]
pub fn negamax(
    position: &Position,
    depth: u8,
    alpha: i32,
    beta: i32,
    table: &mut TranspositionTable,
    deadline: Option<Instant>,
    stats: &mut SearchStats,
) -> (r: Option<i32>)
    requires
        search_table(*old(table)),
        -SCORE_BOUND <= alpha <= SCORE_BOUND,
        -SCORE_BOUND <= beta <= SCORE_BOUND,
    ensures
        search_table(*final(table)),
        final(table).buckets() == old(table).buckets(),
        keeps_depth_bound(old(table).view_slots(), final(table).view_slots(), depth as int),
        r matches Some(v) ==> -SCORE_BOUND <= v <= SCORE_BOUND,
        deadline is None ==> r is Some,
        !position.can_move() ==> r is None || r == Some((-WIN_SCORE) as i32),
        exact_hit(*old(table), *position, depth) && depth > 0 && position.can_move() && r is Some ==> r == Some(
            old(table).lookup(position.key())->0.score,
        ),
        same_root_fields(*old(stats), *final(stats)),
        win_bounded(*old(table)) && win_window(alpha as int, beta as int) ==> win_bounded(*final(table)) && (
        r matches Some(v) ==> -WIN_SCORE <= v <= WIN_SCORE),
        r is Some ==> (r matches Some(v) && v == spec_negamax(
            *position,
            depth as int,
            alpha as int,
            beta as int,
            old(table).view_slots(),
        ).0) && final(table).view_slots() == spec_negamax(
            *position,
            depth as int,
            alpha as int,
            beta as int,
            old(table).view_slots(),
        ).1,
    decreases depth,
{
    let ghost t0 = table.view_slots();
    let ghost s0 = *stats;
    stats.nodes = stats.nodes.wrapping_add(1);
    if crate::clock::search_expired(deadline) {
        return None;
    }
    if position.outcome().is_some() {
        return Some(evaluate_with_stats(position, stats));
    }
    if depth == 0 {
        return quiescence(position, alpha, beta, 0, table, deadline, stats);
    }
    let mut alpha = alpha;
    let mut beta = beta;
    let original_alpha = alpha;
    let original_beta = beta;
    let ghost tight = win_bounded(*table) && win_window(alpha as int, beta as int);
    let ghost goal = spec_negamax(*position, depth as int, alpha as int, beta as int, t0);
    proof {
        lemma_found_bounded(*table, position.key());
        lemma_keeps_refl(t0, depth as int);
        if tight {
            lemma_found_win(*table, position.key());
        }
    }
    match table.get(position) {
        Some(entry) => {
            if entry.depth >= depth {
                match entry.bound {
                    Bound::Exact => {
                        return Some(entry.score);
                    },
                    Bound::Lower => {
                        if entry.score > alpha {
                            alpha = entry.score;
                        }
                    },
                    Bound::Upper => {
                        if entry.score < beta {
                            beta = entry.score;
                        }
                    },
                }
                if alpha >= beta {
                    return Some(entry.score);
                }
            }
        },
        None => {},
    }
    let tt_move = match table.get(position) {
        Some(e) => e.best_move,
        None => None,
    };
    let moves = ordered_moves(position, tt_move, stats);
    let mut best_score: i32 = -WIN_SCORE - 1;
    let mut best_move: Option<Move> = None;
    let ghost mut searched = false;
    let ghost mut finished = false;
    let mut k: usize = 0;
    while k < moves.len()
        invariant
            k <= moves.len(),
            depth >= 1,
            search_table(*table),
            table.buckets() == old(table).buckets(),
            t0 == old(table).view_slots(),
            keeps_depth_bound(t0, table.view_slots(), depth as int),
            -SCORE_BOUND <= alpha <= SCORE_BOUND,
            -SCORE_BOUND <= beta <= SCORE_BOUND,
            -SCORE_BOUND <= best_score <= SCORE_BOUND,
            same_root_fields(s0, *stats),
            s0 == *old(stats),
            tight ==> win_bounded(*table) && -WIN_SCORE - 1 <= alpha && alpha < beta && beta <= WIN_SCORE + 1,
            k > 0 ==> searched,
            tight && searched ==> -WIN_SCORE <= best_score <= WIN_SCORE,
            !searched ==> best_score == -WIN_SCORE - 1,
            spec_negamax_loop(
                *position,
                depth as int,
                moves@,
                k as int,
                alpha as int,
                beta as int,
                original_alpha as int,
                original_beta as int,
                best_score as int,
                best_move,
                table.view_slots(),
            ) == goal,
        decreases moves.len() - k,
    {
        let mv = moves[k];
        if crate::clock::search_expired(deadline) {
            return None;
        }
        let mut next = position.clone();
        proof {
            assert(moves@.contains(moves@[k as int]));
            lemma_legal_checks(*position, mv);
        }
        match next.apply_move(mv) {
            Err(_) => {
                k += 1;
                continue;
            },
            Ok(_) => {},
        }
        let ghost tb = table.view_slots();
        let child = negamax(&next, depth - 1, -beta, -alpha, table, deadline, stats);
        proof {
            lemma_keeps_trans(t0, tb, table.view_slots(), depth as int, depth - 1, depth as int);
        }
        let score = match child {
            None => {
                return None;
            },
            Some(v) => -v,
        };
        proof {
            searched = true;
        }
        if score > best_score {
            best_score = score;
            best_move = Some(mv);
        }
        if score > alpha {
            alpha = score;
        }
        if alpha >= beta {
            proof {
                finished = true;
            }
            break;
        }
        k += 1;
    }
    proof {
        if !finished {
            assert(k >= moves.len());
        }
        assert(spec_negamax_finish(
            *position,
            depth as int,
            best_score as int,
            best_move,
            original_alpha as int,
            original_beta as int,
            table.view_slots(),
        ) == goal);
    }
    let bound = if best_score <= original_alpha {
        Bound::Upper
    } else if best_score >= original_beta {
        Bound::Lower
    } else {
        Bound::Exact
    };
    let e = TableEntry { key: 0, depth, score: best_score, bound, best_move };
    let ghost tc = table.view_slots();
    proof {
        lemma_moves_nonempty(*position, moves@);
        lemma_record(*table, position.key(), e);
        if tight {
            lemma_record_win(*table, position.key(), e);
        }
    }
    table.insert(position, e);
    proof {
        lemma_keeps_trans(t0, tc, table.view_slots(), depth as int, depth as int, depth as int);
    }
    Some(best_score)
}

/// The principal variation reported with a root result is a legal line that
/// starts with the result's move when the table held nothing deeper than the
/// root search before the result was stored.
proof fn lemma_root_pv(position: Position, depth: u8, before: TranspositionTable, after: TranspositionTable, mv: Move, score: i32)
    requires
        before.valid(),
        after.valid(),
        after.buckets() == before.buckets(),
        after.view_slots() == spec_store(
            before.view_slots(),
            before.base_of(position.key()),
            position.key(),
            root_entry(depth, score, mv),
        ),
        position.is_legal(mv),
    ensures
        legal_line(position, pv_or_move(spec_pv(position, depth as nat, after.view_slots()), mv)),
        pv_or_move(spec_pv(position, depth as nat, after.view_slots()), mv).len() >= 1,
        pv_or_move(spec_pv(position, depth as nat, after.view_slots()), mv).len() <= if depth > 0 {
            depth as int
        } else {
            1int
        },
        entries_bounded(before.view_slots(), depth as int, SCORE_BOUND as int) ==> pv_or_move(
            spec_pv(position, depth as nat, after.view_slots()),
            mv,
        )[0] == mv,
        entries_bounded(before.view_slots(), depth as int, SCORE_BOUND as int) ==> after.lookup(position.key())
            == Some(crate::table::keyed(root_entry(depth, score, mv), position.key())),
{
    let pv = spec_pv(position, depth as nat, after.view_slots());
    lemma_pv_is_legal_line(position, depth as nat, after.view_slots());
    if pv.len() == 0 {
        assert(seq![mv].drop_first() =~= Seq::<Move>::empty());
        assert(legal_line(position.applied(mv), Seq::<Move>::empty()));
        assert(legal_line(position, seq![mv]));
    }
    if entries_bounded(before.view_slots(), depth as int, SCORE_BOUND as int) {
        crate::table::lemma_base_in_range(before, position.key());
        crate::table::lemma_store_shallow_then_lookup(
            before.view_slots(),
            before.base_of(position.key()),
            position.key(),
            root_entry(depth, score, mv),
            SCORE_BOUND as int,
        );
        assert(after.lookup(position.key()) == Some(crate::table::keyed(root_entry(depth, score, mv), position.key())));
        if depth > 0 {
            let rest = spec_pv(position.applied(mv), (depth - 1) as nat, after.view_slots());
            assert(pv == seq![mv] + rest);
            assert(pv[0] == mv);
        }
    }
}

/// The depth the root moves are searched to: one less than the root's.
pub open(crate) spec fn child_depth(depth: int) -> int {
    if depth > 0 {
        depth - 1
    } else {
        0
    }
}

/// The best root move and its score found so far, from a root result.
pub open(crate) spec fn best_pair(best: Option<SearchResult>) -> Option<(Move, int)> {
    match best {
        Some(b) => Some((b.best_move, b.score as int)),
        None => None,
    }
}

/// The best root move of `p` and its score from a search to `depth` plies
/// from the slots `v` with no deadline (none when `p` has no legal move), and
/// the slots before the result is stored: the legal moves are searched in
/// ranking order and the first of those with the highest score is kept.
pub open(crate) spec fn spec_root(p: Position, depth: int, v: Seq<Option<TableEntry>>) -> (
    Option<(Move, int)>,
    Seq<Option<TableEntry>>,
) {
    spec_root_partial(p, depth, v, root_moves(p, v).len() as int)
}

/// The root moves of `p` in the order they are searched from the slots `v`.
pub open(crate) spec fn root_moves(p: Position, v: Seq<Option<TableEntry>>) -> Seq<Move> {
    ranking(p, false, entry_move(slot_lookup(v, p.key())))
}

/// The best score, the best move with its score, and the slots after the
/// first `k` of the root moves `moves` of `p` have been searched from the
/// slots `v`: each move is searched to one ply less in the window from the
/// opponent's win down to the best score so far, and becomes the best move
/// when it scores strictly more than every move before it.
pub open(crate) spec fn spec_root_prefix(p: Position, depth: int, moves: Seq<Move>, k: int, v: Seq<Option<TableEntry>>) -> (
    int,
    Option<(Move, int)>,
    Seq<Option<TableEntry>>,
)
    decreases k,
{
    if k <= 0 {
        (-WIN_SCORE - 1, None, v)
    } else {
        let prev = spec_root_prefix(p, depth, moves, k - 1, v);
        let mv = moves[k - 1];
        let child = spec_negamax(p.applied(mv), child_depth(depth), -(WIN_SCORE + 1), -prev.0, prev.2);
        let score = -child.0;
        if score > prev.0 {
            (score, Some((mv, score)), child.1)
        } else {
            (prev.0, prev.1, child.1)
        }
    }
}

/// The best root move of `p` with its score, and the slots, once the first
/// `k` root moves of a search to `depth` plies from the slots `v` finished.
pub open(crate) spec fn spec_root_partial(p: Position, depth: int, v: Seq<Option<TableEntry>>, k: int) -> (
    Option<(Move, int)>,
    Seq<Option<TableEntry>>,
) {
    let s = spec_root_prefix(p, depth, root_moves(p, v), k, v);
    (s.1, s.2)
}

/// The slots after a root search of `p` to `depth` plies from the slots `v`
/// in which the first `k` root moves finished: the best of them, if any, is
/// stored as an exact score.
pub open(crate) spec fn spec_root_stored(p: Position, depth: int, v: Seq<Option<TableEntry>>, k: int) -> Seq<
    Option<TableEntry>,
> {
    let s = spec_root_partial(p, depth, v, k);
    match s.0 {
        Some((m, score)) => slot_store(s.1, p.key(), root_entry(depth as u8, score as i32, m)),
        None => s.1,
    }
}

/// Searches every root move to `depth` plies, best-ordered first, and stores
/// the best result in the table. When the deadline passes, the best result
/// among the root moves finished so far is kept: a result is always the move
/// and score that `spec_root_partial` gives for the number of finished root
/// moves recorded in the statistics, and when every root move was searched,
/// the table is left as `spec_root_stored` gives. With no
/// deadline, from a table whose entries score within the win score, a side
/// that can move always gets a result, scored within the win score.
#[verifier::spinoff_prover]
#[verifier::rlimit(100)]
pub fn best_move_with_table(
    position: &Position,
    depth: u8,
    table: &mut TranspositionTable,
    deadline: Option<Instant>,
    stats: &mut SearchStats,
) -> (r: Option<SearchResult>)
    requires
        search_table(*old(table)),
        old(stats).completed_root_moves_total <= usize::MAX - 4096,
    ensures
        search_table(*final(table)),
        final(table).buckets() == old(table).buckets(),
        keeps_depth_bound(old(table).view_slots(), final(table).view_slots(), depth as int),
        final(stats).completed_root_moves_total >= old(stats).completed_root_moves_total,
        final(stats).completed_root_moves_total - old(stats).completed_root_moves_total <= legal_move_count(*position),
        final(stats).completed_root_moves_current_depth == final(stats).completed_root_moves_total
            - old(stats).completed_root_moves_total || (final(stats).completed_root_moves_current_depth == old(
            stats,
        ).completed_root_moves_current_depth && final(stats).completed_root_moves_total == old(
            stats,
        ).completed_root_moves_total),
        deadline is None ==> final(stats).timed_out == old(stats).timed_out,
        r is Some ==> final(stats).completed_root_moves_current_depth == final(stats).completed_root_moves_total
            - old(stats).completed_root_moves_total,
        deadline is None && r is Some ==> final(stats).completed_root_moves_current_depth == legal_move_count(
            *position,
        ),
        final(stats).depth_timings == old(stats).depth_timings,
        final(stats).completed_depth == old(stats).completed_depth,
        final(stats).root_legal_moves == old(stats).root_legal_moves,
        !position.can_move() ==> r is None,
        deadline is None && position.can_move() && win_bounded(*old(table)) ==> r is Some,
        win_bounded(*old(table)) ==> win_bounded(*final(table)),
        deadline is None ==> best_pair(r) == spec_root(*position, depth as int, old(table).view_slots()).0,
        r is Some && final(stats).completed_root_moves_current_depth == legal_move_count(*position) ==> best_pair(r)
            == spec_root(*position, depth as int, old(table).view_slots()).0,
        r is Some ==> best_pair(r) == spec_root_partial(
            *position,
            depth as int,
            old(table).view_slots(),
            final(stats).completed_root_moves_current_depth as int,
        ).0,
        r is Some && final(stats).completed_root_moves_current_depth == legal_move_count(*position) ==> final(table).view_slots()
            == spec_root_stored(
            *position,
            depth as int,
            old(table).view_slots(),
            legal_move_count(*position) as int,
        ),
        win_bounded(*old(table)) && final(stats).completed_root_moves_total > old(stats).completed_root_moves_total
            ==> r is Some,
        r matches Some(b) ==> {
            &&& position.is_legal(b.best_move)
            &&& b.depth == depth
            &&& -SCORE_BOUND <= b.score <= SCORE_BOUND
            &&& legal_line(*position, b.principal_variation@)
            &&& b.principal_variation@.len() >= 1
            &&& b.principal_variation@.len() <= if depth > 0 {
                depth as int
            } else {
                1int
            }
            &&& entries_bounded(old(table).view_slots(), depth as int, SCORE_BOUND as int)
                ==> b.principal_variation@[0] == b.best_move
            &&& entries_bounded(old(table).view_slots(), depth as int, SCORE_BOUND as int)
                ==> final(table).lookup(position.key()) == Some(stored_root(*position, depth, b.score, b.best_move))
            &&& win_bounded(*old(table)) ==> -WIN_SCORE <= b.score <= WIN_SCORE
            &&& b.principal_variation@ == pv_or_move(
                spec_pv(*position, depth as nat, final(table).view_slots()),
                b.best_move,
            )
        },
{
    if crate::clock::search_expired(deadline) {
        return None;
    }
    let tt_move = match table.get(position) {
        Some(e) => e.best_move,
        None => None,
    };
    let moves = ordered_moves(position, tt_move, stats);
    proof {
        if position.can_move() {
            let (f, t) = choose|f: int, t: int| #[trigger] position.legal_for(position.side(), f, t);
            let m = Move { from: crate::board::Square(f as u8), to: crate::board::Square(t as u8) };
            assert(position.is_legal(m));
            assert(moves@.contains(m));
        }
    }
    if moves.len() == 0 {
        return None;
    }
    let ghost t0 = *table;
    let ghost s0 = *stats;
    let mut best: Option<SearchResult> = None;
    let mut alpha: i32 = -WIN_SCORE - 1;
    let beta: i32 = WIN_SCORE + 1;
    let root_moves_start = stats.completed_root_moves_total;
    proof {
        lemma_keeps_refl(t0.view_slots(), depth as int);
    }
    let mut k: usize = 0;
    while k < moves.len()
        invariant
            k <= moves.len(),
            moves.len() == legal_move_count(*position),
            moves.len() <= 4096,
            forall|m: Move| #[trigger] moves@.contains(m) <==> position.is_legal(m),
            search_table(*table),
            search_table(t0),
            table.buckets() == t0.buckets(),
            t0 == *old(table),
            keeps_depth_bound(t0.view_slots(), table.view_slots(), depth as int),
            -SCORE_BOUND <= alpha <= SCORE_BOUND,
            beta == WIN_SCORE + 1,
            best matches Some(b) ==> position.is_legal(b.best_move) && b.depth == depth && b.score == alpha
                && -SCORE_BOUND <= b.score <= SCORE_BOUND,
            root_moves_start == old(stats).completed_root_moves_total,
            root_moves_start <= usize::MAX - 4096,
            stats.completed_root_moves_total == root_moves_start + k,
            stats.completed_root_moves_current_depth == old(stats).completed_root_moves_current_depth,
            deadline is None ==> stats.completed_root_moves_total == root_moves_start + k,
            deadline is None ==> stats.timed_out == old(stats).timed_out,
            stats.depth_timings == old(stats).depth_timings,
            stats.completed_depth == old(stats).completed_depth,
            stats.root_legal_moves == old(stats).root_legal_moves,
            win_bounded(t0) ==> win_bounded(*table) && -WIN_SCORE - 1 <= alpha <= WIN_SCORE,
            win_bounded(t0) && best is Some ==> -WIN_SCORE <= alpha,
            best is None ==> alpha == -WIN_SCORE - 1,
            win_bounded(t0) && k > 0 ==> best is Some,
            moves@ == root_moves(*position, t0.view_slots()),
            spec_root_prefix(*position, depth as int, moves@, k as int, t0.view_slots()) == (
                alpha as int,
                best_pair(best),
                table.view_slots(),
            ),
        decreases moves.len() - k,
    {
        let mv = moves[k];
        proof {
            assert(moves@.contains(moves@[k as int]));
        }
        if crate::clock::search_expired(deadline) {
            stats.timed_out = true;
            stats.completed_root_moves_current_depth = stats.completed_root_moves_total - root_moves_start;
            let ghost tb = *table;
            let r = finalize_root_result(position, depth, table, best);
            proof {
                root_result_facts(*position, depth, t0, tb, *table, best, r);
            }
            return r;
        }
        let mut next = position.clone();
        proof {
            lemma_legal_checks(*position, mv);
        }
        match next.apply_move(mv) {
            Err(_) => {
                return None;
            },
            Ok(_) => {},
        }
        let ghost tb = table.view_slots();
        let child = negamax(&next, if depth > 0 { depth - 1 } else { 0 }, -beta, -alpha, table, deadline, stats);
        proof {
            lemma_keeps_trans(t0.view_slots(), tb, table.view_slots(), depth as int, if depth > 0 { depth - 1 } else { 0 }, depth as int);
        }
        let score = match child {
            None => {
                stats.timed_out = true;
                stats.completed_root_moves_current_depth = stats.completed_root_moves_total - root_moves_start;
                let ghost tb = *table;
                let r = finalize_root_result(position, depth, table, best);
                proof {
                    root_result_facts(*position, depth, t0, tb, *table, best, r);
                }
                return r;
            },
            Some(v) => -v,
        };
        stats.completed_root_moves_total = stats.completed_root_moves_total + 1;
        if score > alpha {
            alpha = score;
            best = Some(SearchResult { best_move: mv, score, depth, principal_variation: Vec::new() });
        }
        k += 1;
    }
    if best.is_some() {
        stats.completed_root_moves_current_depth = stats.completed_root_moves_total - root_moves_start;
        let ghost tb = *table;
        let r = finalize_root_result(position, depth, table, best);
        proof {
            root_result_facts(*position, depth, t0, tb, *table, best, r);
        }
        r
    } else {
        stats.completed_root_moves_total = root_moves_start;
        stats.completed_root_moves_current_depth = 0;
        None
    }
}

/// What `best_move_with_table` promises of a result that
/// `finalize_root_result` produced from the table `mid`.
proof fn root_result_facts(
    position: Position,
    depth: u8,
    t0: TranspositionTable,
    mid: TranspositionTable,
    after: TranspositionTable,
    best: Option<SearchResult>,
    r: Option<SearchResult>,
)
    requires
        search_table(t0),
        search_table(mid),
        mid.buckets() == t0.buckets(),
        keeps_depth_bound(t0.view_slots(), mid.view_slots(), depth as int),
        after.valid(),
        after.buckets() == mid.buckets(),
        best is None ==> r is None && after.view_slots() == mid.view_slots(),
        best matches Some(b) ==> {
            &&& after.view_slots() == spec_store(
                mid.view_slots(),
                mid.base_of(position.key()),
                position.key(),
                root_entry(depth, b.score, b.best_move),
            )
            &&& r matches Some(x)
            &&& x.best_move == b.best_move
            &&& x.score == b.score
            &&& x.depth == b.depth
            &&& x.principal_variation@ == pv_or_move(spec_pv(position, depth as nat, after.view_slots()), b.best_move)
        },
        best matches Some(b) ==> position.is_legal(b.best_move) && b.depth == depth && -SCORE_BOUND
            <= b.score <= SCORE_BOUND,
    ensures
        best is None ==> r is None && after.view_slots() == mid.view_slots(),
        best matches Some(b) ==> after.view_slots() == slot_store(
            mid.view_slots(),
            position.key(),
            root_entry(depth, b.score, b.best_move),
        ),
        best_pair(r) == best_pair(best),
        r matches Some(x) ==> x.principal_variation@ == pv_or_move(
            spec_pv(position, depth as nat, after.view_slots()),
            x.best_move,
        ),
        search_table(after),
        win_bounded(mid) && (best matches Some(b) ==> -WIN_SCORE <= b.score <= WIN_SCORE) ==> win_bounded(after)
            && (r matches Some(x) ==> -WIN_SCORE <= x.score <= WIN_SCORE),
        keeps_depth_bound(t0.view_slots(), after.view_slots(), depth as int),
        r matches Some(b) ==> {
            &&& position.is_legal(b.best_move)
            &&& b.depth == depth
            &&& -SCORE_BOUND <= b.score <= SCORE_BOUND
            &&& legal_line(position, b.principal_variation@)
            &&& b.principal_variation@.len() >= 1
            &&& b.principal_variation@.len() <= if depth > 0 {
                depth as int
            } else {
                1int
            }
            &&& entries_bounded(t0.view_slots(), depth as int, SCORE_BOUND as int)
                ==> b.principal_variation@[0] == b.best_move
            &&& entries_bounded(t0.view_slots(), depth as int, SCORE_BOUND as int) ==> after.lookup(
                position.key(),
            ) == Some(stored_root(position, depth, b.score, b.best_move))
        },
{
    match best {
        None => {
            lemma_keeps_refl(after.view_slots(), depth as int);
        },
        Some(b) => {
            let e = root_entry(depth, b.score, b.best_move);
            lemma_record(mid, position.key(), e);
            if win_bounded(mid) && -WIN_SCORE <= b.score <= WIN_SCORE {
                lemma_record_win(mid, position.key(), e);
            }
            lemma_keeps_trans(t0.view_slots(), mid.view_slots(), after.view_slots(), depth as int, depth as int, depth as int);
            lemma_root_pv(position, depth, mid, after, b.best_move, b.score);
        },
    }
}

/// The move the table records for `p`, if any.
pub open(crate) spec fn table_move(t: TranspositionTable, p: Position) -> Option<Move> {
    match t.lookup(p.key()) {
        Some(e) => e.best_move,
        None => None,
    }
}

/// A single legal move is a legal line.
proof fn lemma_single_move_line(p: Position, m: Move)
    requires
        p.is_legal(m),
    ensures
        legal_line(p, seq![m]),
{
    assert(seq![m].drop_first() =~= Seq::<Move>::empty());
    assert(legal_line(p.applied(m), Seq::<Move>::empty()));
}

/// The best-ordered legal move with the static evaluation, used when no search
/// result is available.
pub fn cheap_fallback(position: &Position, table: &TranspositionTable) -> (r: Option<SearchResult>)
    requires
        table.valid(),
    ensures
        r is Some <==> position.can_move(),
        r matches Some(b) ==> {
            &&& position.is_legal(b.best_move)
            &&& b.score == crate::eval::spec_evaluate(*position)
            &&& -WIN_SCORE <= b.score <= WIN_SCORE
            &&& b.depth == 0
            &&& b.principal_variation@ == seq![b.best_move]
            &&& forall|m: Move|
                #[trigger] position.is_legal(m) ==> ordering_score(*position, m, table_move(*table, *position))
                    <= ordering_score(*position, b.best_move, table_move(*table, *position))
            &&& forall|m: Move|
                #[trigger] position.is_legal(m) && m != b.best_move && ordering_score(
                    *position,
                    m,
                    table_move(*table, *position),
                ) == ordering_score(*position, b.best_move, table_move(*table, *position))
                    ==> generated_before(*position, false, m, b.best_move)
        },
{
    let tt_move = match table.get(position) {
        Some(e) => e.best_move,
        None => None,
    };
    let mut stats = SearchStats::default();
    let moves = ordered_moves(position, tt_move, &mut stats);
    proof {
        if position.can_move() {
            let (f, t) = choose|f: int, t: int| #[trigger] position.legal_for(position.side(), f, t);
            let m = Move { from: crate::board::Square(f as u8), to: crate::board::Square(t as u8) };
            assert(position.is_legal(m));
            assert(moves@.contains(m));
        }
    }
    if moves.len() == 0 {
        proof {
            if position.can_move() {
                let (f, t) = choose|f: int, t: int| #[trigger] position.legal_for(position.side(), f, t);
                let m = Move { from: crate::board::Square(f as u8), to: crate::board::Square(t as u8) };
                assert(moves@.contains(m));
            }
        }
        return None;
    }
    let mv = moves[0];
    proof {
        assert(moves@.contains(mv));
        assert(position.legal_for(position.side(), mv.from.idx(), mv.to.idx()));
        assert forall|m: Move| #[trigger] position.is_legal(m) implies ordering_score(*position, m, tt_move)
            <= ordering_score(*position, mv, tt_move) by {
            assert(moves@.contains(m));
            let i = choose|i: int| 0 <= i < moves.len() && moves@[i] == m;
            if i > 0 {
                assert(ordering_score(*position, moves@[0], tt_move) >= ordering_score(*position, moves@[i], tt_move));
            }
        }
        assert forall|m: Move|
            #[trigger] position.is_legal(m) && m != mv && ordering_score(*position, m, tt_move) == ordering_score(
                *position,
                mv,
                tt_move,
            ) implies generated_before(*position, false, m, mv) by {
            assert(moves@.contains(m));
            let i = choose|i: int| 0 <= i < moves.len() && moves@[i] == m;
            assert(i != 0);
            assert(ordering_score(*position, moves@[0], tt_move) == ordering_score(*position, moves@[i], tt_move));
        }
    }
    let mut pv: Vec<Move> = Vec::new();
    pv.push(mv);
    proof {
        assert(pv@ =~= seq![mv]);
    }
    Some(SearchResult { best_move: mv, score: crate::eval::evaluate(position), depth: 0, principal_variation: pv })
}

/// What every reported search result satisfies: a legal best move, a score
/// within bounds, a depth no deeper than asked for, and a principal variation
/// that is a legal line starting with the best move.
pub open(crate) spec fn reported(p: Position, max_depth: u8, b: SearchResult) -> bool {
    &&& p.is_legal(b.best_move)
    &&& -SCORE_BOUND <= b.score <= SCORE_BOUND
    &&& b.depth <= max_depth
    &&& legal_line(p, b.principal_variation@)
    &&& b.principal_variation@.len() >= 1
    &&& b.principal_variation@.len() <= if b.depth > 0 {
        b.depth as int
    } else {
        1int
    }
    &&& b.principal_variation@[0] == b.best_move
}

/// What an analysis of `p` to `max_depth` reports: a result exactly when the
/// side to move has a legal move, the root move count, consistent root
/// progress counters, and one timing per attempted depth.
pub open(crate) spec fn analysis_facts(p: Position, max_depth: u8, timed: bool, a: AnalysisResult) -> bool {
    &&& a.best is Some <==> p.can_move()
    &&& a.best matches Some(b) ==> reported(p, max_depth, b)
    &&& a.stats.root_legal_moves == legal_move_count(p)
    &&& a.stats.completed_root_moves_current_depth <= a.stats.root_legal_moves
    &&& a.stats.completed_root_moves_current_depth <= a.stats.completed_root_moves_total
    &&& a.stats.completed_depth <= max_depth
    &&& timed ==> a.stats.completed_depth <= a.stats.depth_timings@.len()
    &&& timed ==> a.stats.depth_timings@.len() <= max_depth
    &&& timed ==> a.stats.completed_root_moves_total >= a.stats.completed_depth * a.stats.root_legal_moves
    &&& timed ==> forall|i: int|
        0 <= i < a.stats.depth_timings@.len() ==> #[trigger] a.stats.depth_timings@[i].depth == i + 1
    &&& !timed ==> a.stats.depth_timings@.len() == 1 && a.stats.depth_timings@[0].depth == max_depth
    &&& !timed ==> !a.stats.timed_out
    &&& !timed ==> a.stats.completed_root_moves_current_depth == a.stats.completed_root_moves_total
    &&& !timed && a.stats.completed_depth > 0 ==> a.stats.completed_root_moves_current_depth
        == a.stats.root_legal_moves
    &&& !timed ==> (a.best matches Some(b) ==> b.depth == max_depth || b.depth == 0)
}

/// The slots after the first `j` iterations of iterative deepening of `p`
/// from the slots `v`, each of which searched every root move.
pub open(crate) spec fn spec_deepened(p: Position, j: int, v: Seq<Option<TableEntry>>) -> Seq<Option<TableEntry>>
    decreases j,
{
    if j <= 0 {
        v
    } else {
        spec_root_stored(p, j, spec_deepened(p, j - 1, v), legal_move_count(p) as int)
    }
}

/// The result `b` is the one that iteration `b.depth` of iterative deepening
/// of `p` from the slots `v` gave, after finishing the number of root moves
/// recorded in that iteration's timing.
pub open(crate) spec fn deepening_result(
    p: Position,
    v: Seq<Option<TableEntry>>,
    timings: Seq<DepthTiming>,
    b: SearchResult,
) -> bool {
    &&& 1 <= b.depth <= timings.len()
    &&& Some((b.best_move, b.score as int)) == spec_root_partial(
        p,
        b.depth as int,
        spec_deepened(p, b.depth - 1, v),
        timings[b.depth - 1].completed_root_moves as int,
    ).0
}

/// Iterative deepening: searches one ply deeper at a time, from one ply up to
/// `max_depth`, until a depth yields no result or the deadline passes, and
/// returns the result of the deepest depth that gave one. The completed depth
/// is that of the deepest iteration that searched every root move; an
/// iteration the deadline cut short still gives its result and ends the
/// search. With no deadline, from a
/// table whose entries score within the win score, a side that can move
/// finishes every depth.
fn deepen(
    position: &Position,
    max_depth: u8,
    deadline: Option<Instant>,
    search_started: &Instant,
    table: &mut TranspositionTable,
    stats: &mut SearchStats,
) -> (best: Option<SearchResult>)
    requires
        search_table(*old(table)),
        entries_bounded(old(table).view_slots(), 0, SCORE_BOUND as int),
        old(stats).completed_root_moves_total == 0,
        old(stats).completed_root_moves_current_depth == 0,
        old(stats).depth_timings@.len() == 0,
        old(stats).completed_depth == 0,
        old(stats).root_legal_moves == legal_move_count(*position),
        legal_move_count(*position) <= 4096,
    ensures
        search_table(*final(table)),
        final(stats).root_legal_moves == legal_move_count(*position),
        final(stats).completed_root_moves_current_depth <= final(stats).root_legal_moves,
        final(stats).completed_root_moves_current_depth <= final(stats).completed_root_moves_total,
        final(stats).depth_timings@.len() <= max_depth,
        forall|i: int| 0 <= i < final(stats).depth_timings@.len() ==> #[trigger] final(stats).depth_timings@[i].depth == i + 1,
        final(stats).completed_depth <= final(stats).depth_timings@.len(),
        best matches Some(b) ==> reported(*position, max_depth, b),
        final(stats).completed_depth > 0 ==> best is Some,
        best matches Some(b) ==> b.depth == final(stats).completed_depth || b.depth == final(stats).completed_depth
            + 1,
        final(stats).completed_root_moves_total >= final(stats).completed_depth * legal_move_count(*position),
        max_depth > 0 ==> final(stats).depth_timings@.len() >= 1,
        win_bounded(*old(table)) ==> win_bounded(*final(table)),
        best matches Some(b) ==> deepening_result(*position, old(table).view_slots(), final(stats).depth_timings@, b),
        win_bounded(*old(table)) && final(stats).completed_root_moves_total > 0 ==> best is Some,
        deadline is None && position.can_move() && win_bounded(*old(table)) ==> final(stats).completed_depth
            == max_depth && final(stats).depth_timings@.len() == max_depth,
{
    let mut best: Option<SearchResult> = None;
    let mut d: u16 = 1;
    while d <= max_depth as u16
        invariant_except_break
            entries_bounded(table.view_slots(), d - 1, SCORE_BOUND as int),
            stats.completed_root_moves_total == (d - 1) * legal_move_count(*position),
            stats.depth_timings@.len() == d - 1,
            stats.completed_depth == d - 1,
            d - 1 <= max_depth,
            table.view_slots() == spec_deepened(*position, d - 1, old(table).view_slots()),
        invariant
            1 <= d <= 256,
            search_table(*table),
            stats.root_legal_moves == legal_move_count(*position),
            legal_move_count(*position) <= 4096,
            stats.completed_root_moves_current_depth <= stats.root_legal_moves,
            stats.completed_root_moves_current_depth <= stats.completed_root_moves_total,
            forall|i: int| 0 <= i < stats.depth_timings@.len() ==> #[trigger] stats.depth_timings@[i].depth == i + 1,
            best matches Some(b) ==> reported(*position, max_depth, b),
            stats.completed_depth > 0 ==> best is Some,
            best matches Some(b) ==> b.depth == stats.completed_depth || b.depth == stats.completed_depth + 1,
            stats.completed_root_moves_total >= stats.completed_depth * legal_move_count(*position),
            d > 1 ==> stats.depth_timings@.len() >= 1,
            win_bounded(*old(table)) ==> win_bounded(*table),
            best matches Some(b) ==> deepening_result(*position, old(table).view_slots(), stats.depth_timings@, b),
            win_bounded(*old(table)) && stats.completed_root_moves_total > 0 ==> best is Some,
        ensures
            stats.depth_timings@.len() <= max_depth,
            stats.completed_depth <= stats.depth_timings@.len(),
            max_depth > 0 ==> stats.depth_timings@.len() >= 1,
            deadline is None && position.can_move() && win_bounded(*old(table)) ==> stats.completed_depth
                == max_depth && stats.depth_timings@.len() == max_depth,
        decreases 256 - d,
    {
        let depth = d as u8;
        let depth_started = crate::clock::now();
        proof {
            crate::table::lemma_bounded_weaken(table.view_slots(), d - 1, d as int, SCORE_BOUND as int);
        }
        proof {
            let n = legal_move_count(*position) as int;
            assert((d - 1) * n <= 255 * 4096) by (nonlinear_arith)
                requires
                    1 <= d <= 256,
                    0 <= n <= 4096,
                    d - 1 <= 255,
            ;
        }
        let result = best_move_with_table(position, depth, table, deadline, stats);
        let completed = stats.completed_root_moves_current_depth;
        stats.depth_timings.push(
            DepthTiming { depth, elapsed: crate::clock::elapsed_since(&depth_started), completed_root_moves: completed },
        );
        match result {
            None => {
                stats.timed_out = crate::clock::search_expired(deadline);
                stats.total_time = crate::clock::elapsed_since(search_started);
                break;
            },
            Some(found) => {
                best = Some(found);
                if stats.completed_root_moves_current_depth < stats.root_legal_moves {
                    stats.timed_out = true;
                    stats.total_time = crate::clock::elapsed_since(search_started);
                    break;
                }
                proof {
                    let n = legal_move_count(*position) as int;
                    assert((d - 1) * n + n == d * n) by (nonlinear_arith);
                }
                stats.completed_depth = depth;
                if crate::clock::search_expired(deadline) {
                    stats.timed_out = true;
                    stats.total_time = crate::clock::elapsed_since(search_started);
                    break;
                }
            },
        }
        d += 1;
    }
    best
}

/// A side with a legal move can move.
proof fn lemma_legal_can_move(p: Position, m: Move)
    requires
        p.is_legal(m),
    ensures
        p.can_move(),
{
    assert(p.legal_for(p.side(), m.from.idx(), m.to.idx()));
}

/// A list holding exactly the legal moves is empty exactly when the side to
/// move cannot move.
proof fn lemma_moves_nonempty(p: Position, ms: Seq<Move>)
    requires
        forall|m: Move| #[trigger] ms.contains(m) <==> p.is_legal(m),
    ensures
        ms.len() > 0 <==> p.can_move(),
{
    if p.can_move() {
        let (f, t) = choose|f: int, t: int| #[trigger] p.legal_for(p.side(), f, t);
        let m = Move { from: crate::board::Square(f as u8), to: crate::board::Square(t as u8) };
        assert(p.is_legal(m));
        assert(ms.contains(m));
    }
    if ms.len() > 0 {
        assert(ms.contains(ms[0]));
        lemma_legal_can_move(p, ms[0]);
    }
}

/// The slots of a new table: `TT_BUCKETS` buckets of empty slots.
pub open(crate) spec fn empty_slots() -> Seq<Option<TableEntry>> {
    Seq::new((4 * crate::table::TT_BUCKETS) as nat, |i: int| None::<TableEntry>)
}

/// The principal variation reported with the move `m` found by a search of
/// `p` to `depth` plies from a new table with no deadline: the line that the
/// table holds once the result is stored, or `m` alone.
pub open(crate) spec fn fixed_depth_line(p: Position, depth: u8, m: Move) -> Seq<Move> {
    pv_or_move(
        spec_pv(p, depth as nat, spec_root_stored(p, depth as int, empty_slots(), legal_move_count(p) as int)),
        m,
    )
}

/// The result of a search of `p` to `depth` plies from a new table with no
/// deadline: the best move and its score, none when `p` has no legal move.
pub open(crate) spec fn fixed_depth_result(p: Position, depth: u8) -> Option<(Move, int)> {
    spec_root(p, depth as int, empty_slots()).0
}

/// One search of all root moves to `depth` plies, with no deadline.
fn search_fixed(position: &Position, depth: u8, table: &mut TranspositionTable, stats: &mut SearchStats) -> (best: Option<SearchResult>)
    requires
        search_table(*old(table)),
        entries_bounded(old(table).view_slots(), 0, SCORE_BOUND as int),
        old(stats).completed_root_moves_total == 0,
        old(stats).completed_root_moves_current_depth == 0,
        old(stats).depth_timings@.len() == 0,
        old(stats).completed_depth == 0,
        old(stats).root_legal_moves == legal_move_count(*position),
    ensures
        search_table(*final(table)),
        final(stats).root_legal_moves == legal_move_count(*position),
        final(stats).completed_root_moves_current_depth <= final(stats).root_legal_moves,
        final(stats).completed_root_moves_current_depth <= final(stats).completed_root_moves_total,
        final(stats).depth_timings@.len() == 1,
        final(stats).depth_timings@[0].depth == depth,
        final(stats).completed_depth == (if best is Some {
            depth
        } else {
            0
        }),
        final(stats).timed_out == old(stats).timed_out,
        final(stats).completed_root_moves_current_depth == final(stats).completed_root_moves_total,
        best is Some ==> final(stats).completed_root_moves_current_depth == legal_move_count(*position),
        best matches Some(b) ==> reported(*position, depth, b) && b.depth == depth,
        best_pair(best) == spec_root(*position, depth as int, old(table).view_slots()).0,
        win_bounded(*old(table)) && position.can_move() ==> (best matches Some(b) && -WIN_SCORE <= b.score
            <= WIN_SCORE),
        win_bounded(*old(table)) && best is None ==> final(stats).completed_root_moves_total == 0,
        best matches Some(b) ==> b.principal_variation@ == pv_or_move(
            spec_pv(
                *position,
                depth as nat,
                spec_root_stored(*position, depth as int, old(table).view_slots(), legal_move_count(*position) as int),
            ),
            b.best_move,
        ),
{
    let depth_started = crate::clock::now();
    proof {
        crate::table::lemma_bounded_weaken(table.view_slots(), 0, depth as int, SCORE_BOUND as int);
    }
    let best = best_move_with_table(position, depth, table, None, stats);
    let completed = stats.completed_root_moves_current_depth;
    stats.depth_timings.push(
        DepthTiming { depth, elapsed: crate::clock::elapsed_since(&depth_started), completed_root_moves: completed },
    );
    if best.is_some() {
        stats.completed_depth = depth;
    }
    best
}

/// Searches `position`: to `max_depth` plies, or by iterative deepening from
/// one ply up to `max_depth` while the time budget lasts. When no depth
/// finished, the best-ordered legal move is reported with the static
/// evaluation.
#[verifier::spinoff_prover]
#[verifier::rlimit(50)]
pub fn analyze(position: &Position, max_depth: u8, time_budget: Option<Duration>) -> (r: AnalysisResult)
    ensures
        analysis_facts(*position, max_depth, time_budget is Some, r),
        time_budget is None && position.can_move() ==> (r.best matches Some(b) && b.depth == max_depth
            && -WIN_SCORE <= b.score <= WIN_SCORE),
        time_budget is None ==> best_pair(r.best) == fixed_depth_result(*position, max_depth),
        time_budget is None ==> r.stats.completed_depth == if position.can_move() {
            max_depth
        } else {
            0
        },
        time_budget is None ==> r.stats.completed_root_moves_total == r.stats.root_legal_moves,
        time_budget is None ==> (r.best matches Some(b) ==> b.principal_variation@ == fixed_depth_line(
            *position,
            max_depth,
            b.best_move,
        )),
        time_budget is Some ==> (r.best matches Some(b) ==> (b.depth > 0 ==> deepening_result(
            *position,
            empty_slots(),
            r.stats.depth_timings@,
            b,
        ))),
        time_budget is Some && r.stats.completed_root_moves_total > 0 ==> (r.best matches Some(b) && b.depth >= 1),
        time_budget is Some ==> (r.best matches Some(b) ==> (b.depth == 0 ==> b.score == spec_evaluate(*position)
            && b.principal_variation@ == seq![b.best_move] && r.stats.completed_root_moves_total == 0)),
{
    let search_started = crate::clock::now();
    let deadline = match time_budget {
        Some(budget) => crate::clock::instant_checked_add(crate::clock::now(), budget),
        None => None,
    };
    let mut table = TranspositionTable::default();
    let mut best: Option<SearchResult> = None;
    let mut stats = SearchStats::default();
    let root_moves = legal_moves_counted(position, &mut stats);
    let legal_moves_exist = root_moves.len() > 0;
    stats.root_legal_moves = root_moves.len();
    proof {
        assert(table.view_slots() =~= empty_slots());
        assert(entries_bounded(table.view_slots(), 0, SCORE_BOUND as int));
        assert(win_bounded(table));
        crate::table::lemma_bounded_weaken(table.view_slots(), 0, 255, SCORE_BOUND as int);
        lemma_moves_nonempty(*position, root_moves@);
    }
    if time_budget.is_some() {
        best = deepen(position, max_depth, deadline, &search_started, &mut table, &mut stats);
    } else {
        best = search_fixed(position, max_depth, &mut table, &mut stats);
    }
    if best.is_none() && legal_moves_exist {
        let fallback = cheap_fallback(position, &table);
        proof {
            if fallback is Some {
                lemma_single_move_line(*position, fallback->0.best_move);
            }
        }
        stats.total_time = crate::clock::elapsed_since(&search_started);
        return AnalysisResult { best: fallback, stats };
    }
    proof {
        if best is Some {
            lemma_legal_can_move(*position, best->0.best_move);
        }
    }
    stats.total_time = crate::clock::elapsed_since(&search_started);
    AnalysisResult { best, stats }
}

/// Searches to a fixed depth and returns the best move, if any exists.
pub fn best_move(position: &Position, depth: u8) -> (r: Option<SearchResult>)
    ensures
        r is Some <==> position.can_move(),
        r matches Some(b) ==> reported(*position, depth, b) && b.depth == depth && -WIN_SCORE <= b.score
            <= WIN_SCORE,
        best_pair(r) == fixed_depth_result(*position, depth),
        r matches Some(b) ==> b.principal_variation@ == fixed_depth_line(*position, depth, b.best_move),
{
    analyze(position, depth, None).best
}

/// Searches with iterative deepening up to `max_depth` and stops when the
/// given time budget expires.
pub fn best_move_iterative(position: &Position, max_depth: u8, time_budget: Duration) -> (r: Option<SearchResult>)
    ensures
        r is Some <==> position.can_move(),
        r matches Some(b) ==> reported(*position, max_depth, b),
        r matches Some(b) ==> (b.depth > 0 ==> exists|timings: Seq<DepthTiming>|
            #[trigger] deepening_result(*position, empty_slots(), timings, b)),
        r matches Some(b) ==> (b.depth == 0 ==> b.score == spec_evaluate(*position) && b.principal_variation@
            == seq![b.best_move]),
{
    let a = analyze(position, max_depth, Some(time_budget));
    proof {
        if a.best is Some && a.best->0.depth > 0 {
            assert(deepening_result(*position, empty_slots(), a.stats.depth_timings@, a.best->0));
        }
    }
    a.best
}

/// Returns a fixed-depth analysis together with search statistics.
pub fn analyze_fixed_depth(position: &Position, depth: u8) -> (r: AnalysisResult)
    ensures
        analysis_facts(*position, depth, false, r),
        r.best matches Some(b) ==> b.depth == depth && -WIN_SCORE <= b.score <= WIN_SCORE,
        best_pair(r.best) == fixed_depth_result(*position, depth),
        r.stats.completed_depth == if position.can_move() {
            depth
        } else {
            0
        },
        r.stats.completed_root_moves_total == r.stats.root_legal_moves,
        r.best matches Some(b) ==> b.principal_variation@ == fixed_depth_line(*position, depth, b.best_move),
{
    analyze(position, depth, None)
}

/// Returns an iterative-deepening analysis together with search statistics.
pub fn analyze_iterative(position: &Position, max_depth: u8, time_budget: Duration) -> (r: AnalysisResult)
    ensures
        analysis_facts(*position, max_depth, true, r),
        r.best matches Some(b) ==> (b.depth > 0 ==> deepening_result(
            *position,
            empty_slots(),
            r.stats.depth_timings@,
            b,
        )),
        r.stats.completed_root_moves_total > 0 ==> (r.best matches Some(b) && b.depth >= 1),
        r.best matches Some(b) ==> (b.depth == 0 ==> b.score == spec_evaluate(*position) && b.principal_variation@
            == seq![b.best_move] && r.stats.completed_root_moves_total == 0),
{
    analyze(position, max_depth, Some(time_budget))
}

} // verus!
