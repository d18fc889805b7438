//! PGN-like movetext: a move list written as `1. h1-d3 h8-d6 2. a1-d4`.
use vstd::prelude::*;
use vstd::string::*;

use crate::board::{spec_move_text, spec_parse_move, Move, ParseMoveError};
use crate::text::{decimal, digit_char, push_char, push_decimal};

verus! {

/// The characters that separate the words of movetext.
pub open spec fn is_space(c: char) -> bool {
    c == ' ' || c == '\t' || c == '\n' || c == '\r'
}

/// Length of the word at the start of `s`: the characters before the first
/// separator.
pub open spec fn word_len(s: Seq<char>) -> nat
    decreases s.len(),
{
    if s.len() == 0 || is_space(s[0]) {
        0
    } else {
        1 + word_len(s.drop_first())
    }
}

/// The words of `s`, in order: the maximal runs of characters that are not
/// separators.
pub open spec fn words(s: Seq<char>) -> Seq<Seq<char>>
    decreases s.len(),
{
    if s.len() == 0 {
        Seq::empty()
    } else if is_space(s[0]) {
        words(s.drop_first())
    } else {
        let n = word_len(s) as int;
        proof {
            lemma_word_len(s);
        }
        seq![s.take(n)] + words(s.skip(n))
    }
}

/// A word is no longer than the text, and not empty when the text starts
/// with a character that is not a separator.
pub proof fn lemma_word_len(s: Seq<char>)
    ensures
        word_len(s) <= s.len(),
        s.len() > 0 && !is_space(s[0]) ==> word_len(s) >= 1,
        forall|i: int| 0 <= i < word_len(s) ==> !is_space(#[trigger] s[i]),
        word_len(s) < s.len() ==> is_space(s[word_len(s) as int]),
    decreases s.len(),
{
    if s.len() > 0 && !is_space(s[0]) {
        lemma_word_len(s.drop_first());
        assert forall|i: int| 0 <= i < word_len(s) implies !is_space(#[trigger] s[i]) by {
            if i > 0 {
                assert(s[i] == s.drop_first()[i - 1]);
            }
        }
    }
}

/// Whether a word is a move number such as `12.`.
pub open spec fn is_move_number(w: Seq<char>) -> bool {
    &&& w.len() >= 2
    &&& w.last() == '.'
    &&& forall|i: int| 0 <= i < w.len() - 1 ==> '0' <= #[trigger] w[i] <= '9'
}

/// The square pairs of the move words among `ws`, skipping move numbers, or
/// the error of the first word that is neither.
pub open spec fn parse_words(ws: Seq<Seq<char>>) -> Result<Seq<(int, int)>, ParseMoveError>
    decreases ws.len(),
{
    if ws.len() == 0 {
        Ok(Seq::empty())
    } else if is_move_number(ws[0]) {
        parse_words(ws.drop_first())
    } else {
        match spec_parse_move(ws[0]) {
            Err(e) => Err(e),
            Ok(pair) => match parse_words(ws.drop_first()) {
                Err(e) => Err(e),
                Ok(rest) => Ok(seq![pair] + rest),
            },
        }
    }
}

/// The moves written in movetext `s`, as square pairs, or the first error.
pub open spec fn spec_parse_movetext(s: Seq<char>) -> Result<Seq<(int, int)>, ParseMoveError> {
    parse_words(words(s))
}

/// The move number that precedes the move with index `k` (a White move).
pub open spec fn number_text(k: int) -> Seq<char> {
    decimal((k / 2 + 1) as nat) + seq!['.', ' ']
}

/// Movetext of a move list: moves separated by spaces, each White move
/// preceded by its number, as in `1. h1-d3 h8-d6 2. a1-d4`.
pub open(crate) spec fn spec_movetext(ms: Seq<Move>) -> Seq<char>
    decreases ms.len(),
{
    if ms.len() == 0 {
        Seq::empty()
    } else {
        let k = ms.len() - 1;
        let m = ms[k];
        spec_movetext(ms.drop_last()) + (if k == 0 {
            Seq::empty()
        } else {
            seq![' ']
        }) + (if k % 2 == 0 {
            number_text(k)
        } else {
            Seq::empty()
        }) + spec_move_text(m.from.idx(), m.to.idx())
    }
}

/// The square pairs of a move list.
pub open(crate) spec fn move_pairs(ms: Seq<Move>) -> Seq<(int, int)> {
    ms.map_values(|m: Move| (m.from.idx(), m.to.idx()))
}

/// Formats a move list as movetext, such as `1. h1-d3 h8-d6 2. a1-d4`.
pub fn format_movetext(moves: &[Move]) -> (s: String)
    ensures
        s@ == spec_movetext(moves@),
{
    let mut out = String::new();
    let mut k: usize = 0;
    while k < moves.len()
        invariant
            k <= moves.len(),
            out@ == spec_movetext(moves@.take(k as int)),
        decreases moves.len() - k,
    {
        let ghost before = out@;
        if k > 0 {
            push_char(&mut out, ' ');
        }
        if k % 2 == 0 {
            push_decimal(&mut out, (k / 2 + 1) as u64);
            push_char(&mut out, '.');
            push_char(&mut out, ' ');
        }
        moves[k].push_text(&mut out);
        proof {
            assert(moves@.take(k + 1).drop_last() =~= moves@.take(k as int));
            assert(out@ =~= spec_movetext(moves@.take(k + 1)));
        }
        k += 1;
    }
    proof {
        assert(moves@.take(moves.len() as int) =~= moves@);
    }
    out
}

/// Index of the first separator in `value` at or after `start`, or its length.
fn word_end(value: &str, start: usize, n: usize) -> (r: usize)
    requires
        n == value@.len(),
        start <= n,
    ensures
        start <= r <= n,
        r - start == word_len(value@.skip(start as int)),
    decreases n - start,
{
    proof {
        let t = value@.skip(start as int);
        if start < n {
            assert(t[0] == value@[start as int]);
            assert(t.drop_first() =~= value@.skip(start + 1));
        }
    }
    if start >= n {
        start
    } else {
        let c = value.get_char(start);
        if c == ' ' || c == '\t' || c == '\n' || c == '\r' {
            start
        } else {
            word_end(value, start + 1, n)
        }
    }
}

/// Whether the characters `start..end` of `value` form a move number.
fn is_number_word(value: &str, start: usize, end: usize) -> (b: bool)
    requires
        start <= end <= value@.len(),
    ensures
        b == is_move_number(value@.subrange(start as int, end as int)),
{
    let ghost w = value@.subrange(start as int, end as int);
    if end - start < 2 {
        return false;
    }
    if value.get_char(end - 1) != '.' {
        return false;
    }
    let mut i = start;
    while i < end - 1
        invariant
            start <= i <= end - 1,
            end <= value@.len(),
            w == value@.subrange(start as int, end as int),
            forall|j: int| 0 <= j < i - start ==> '0' <= #[trigger] w[j] <= '9',
        decreases end - i,
    {
        let c = value.get_char(i);
        if !('0' <= c && c <= '9') {
            proof {
                assert(w[i - start] == c);
            }
            return false;
        }
        proof {
            assert(w[i - start] == c);
        }
        i += 1;
    }
    true
}

/// `r` with the pairs `acc` put in front of its pairs.
pub open spec fn after_pairs(acc: Seq<(int, int)>, r: Result<Seq<(int, int)>, ParseMoveError>) -> Result<
    Seq<(int, int)>,
    ParseMoveError,
> {
    match r {
        Ok(rest) => Ok(acc + rest),
        Err(e) => Err(e),
    }
}

/// The words of a text that starts with a word of length `n`: that word, then
/// the words of the rest.
proof fn lemma_words_step(s: Seq<char>)
    requires
        s.len() > 0,
    ensures
        is_space(s[0]) ==> words(s) == words(s.drop_first()),
        !is_space(s[0]) ==> words(s) == seq![s.take(word_len(s) as int)] + words(s.skip(word_len(s) as int)),
{
}

/// Parses movetext such as `1. h1-d3 h8-d6 2. a1-d4`: move numbers are
/// skipped, every other word must be a move.
pub fn parse_movetext(value: &str) -> (r: Result<Vec<Move>, ParseMoveError>)
    ensures
        match spec_parse_movetext(value@) {
            Ok(pairs) => r matches Ok(v) && move_pairs(v@) == pairs,
            Err(e) => r == Err::<Vec<Move>, ParseMoveError>(e),
        },
{
    let n = value.unicode_len();
    let mut moves: Vec<Move> = Vec::new();
    let mut i: usize = 0;
    proof {
        assert(value@.skip(0) =~= value@);
        assert(move_pairs(moves@) =~= Seq::<(int, int)>::empty());
    }
    while i < n
        invariant
            i <= n,
            n == value@.len(),
            spec_parse_movetext(value@) == after_pairs(move_pairs(moves@), parse_words(words(value@.skip(i as int)))),
        decreases n - i,
    {
        let ghost t = value@.skip(i as int);
        let c = value.get_char(i);
        proof {
            assert(t[0] == c);
            lemma_words_step(t);
        }
        if c == ' ' || c == '\t' || c == '\n' || c == '\r' {
            proof {
                assert(t.drop_first() =~= value@.skip(i + 1));
            }
            i += 1;
            continue;
        }
        let end = word_end(value, i, n);
        proof {
            lemma_word_len(t);
            assert(t.take(word_len(t) as int) =~= value@.subrange(i as int, end as int));
            assert(t.skip(word_len(t) as int) =~= value@.skip(end as int));
        }
        let ghost w = value@.subrange(i as int, end as int);
        let ghost rest = words(value@.skip(end as int));
        proof {
            assert((seq![w] + rest)[0] == w);
            assert((seq![w] + rest).drop_first() =~= rest);
        }
        if is_number_word(value, i, end) {
            i = end;
            continue;
        }
        let word = value.substring_char(i, end);
        match Move::parse(word) {
            Err(e) => {
                return Err(e);
            },
            Ok(m) => {
                let ghost before = moves@;
                moves.push(m);
                proof {
                    assert(move_pairs(moves@) =~= move_pairs(before).push((m.from.idx(), m.to.idx())));
                    let pr = parse_words(rest);
                    match pr {
                        Ok(rs) => {
                            assert(move_pairs(before) + (seq![(m.from.idx(), m.to.idx())] + rs) =~= move_pairs(
                                moves@,
                            ) + rs);
                        },
                        Err(_) => {},
                    }
                }
            },
        }
        i = end;
    }
    proof {
        assert(value@.skip(n as int) =~= Seq::<char>::empty());
        assert(move_pairs(moves@) + Seq::<(int, int)>::empty() =~= move_pairs(moves@));
    }
    Ok(moves)
}

/// A word is not lengthened by what follows a separator after it.
proof fn lemma_word_len_before_space(a: Seq<char>, b: Seq<char>)
    ensures
        word_len(a + seq![' '] + b) == word_len(a),
    decreases a.len(),
{
    let t = a + seq![' '] + b;
    if a.len() == 0 {
        assert(t[0] == ' ');
    } else {
        assert(t[0] == a[0]);
        if !is_space(a[0]) {
            assert(t.drop_first() =~= a.drop_first() + seq![' '] + b);
            lemma_word_len_before_space(a.drop_first(), b);
        }
    }
}

/// The words of two texts joined by a separator are the words of the first,
/// then the words of the second.
proof fn lemma_words_join(a: Seq<char>, b: Seq<char>)
    ensures
        words(a + seq![' '] + b) == words(a) + words(b),
    decreases a.len(),
{
    let t = a + seq![' '] + b;
    if a.len() == 0 {
        assert(t[0] == ' ');
        assert(t.drop_first() =~= b);
        assert(words(a) =~= Seq::<Seq<char>>::empty());
        assert(words(a) + words(b) =~= words(b));
    } else if is_space(a[0]) {
        assert(t[0] == a[0]);
        assert(t.drop_first() =~= a.drop_first() + seq![' '] + b);
        lemma_words_join(a.drop_first(), b);
    } else {
        assert(t[0] == a[0]);
        lemma_word_len_before_space(a, b);
        lemma_word_len(a);
        let n = word_len(a) as int;
        assert(t.take(n) =~= a.take(n));
        assert(t.skip(n) =~= a.skip(n) + seq![' '] + b);
        lemma_words_join(a.skip(n), b);
        assert(seq![a.take(n)] + (words(a.skip(n)) + words(b)) =~= (seq![a.take(n)] + words(a.skip(n)))
            + words(b));
    }
}

/// A text of one word, without separators, has just that word.
proof fn lemma_single_word(w: Seq<char>)
    requires
        w.len() > 0,
        forall|i: int| 0 <= i < w.len() ==> !is_space(#[trigger] w[i]),
    ensures
        words(w) == seq![w],
{
    lemma_word_len(w);
    if word_len(w) < w.len() {
        assert(!is_space(w[word_len(w) as int]));
    }
    assert(!is_space(w[0]));
    assert(word_len(w) == w.len());
    assert(w.take(w.len() as int) =~= w);
    assert(w.skip(w.len() as int) =~= Seq::<char>::empty());
    assert(words(Seq::<char>::empty()) =~= Seq::<Seq<char>>::empty());
    assert(seq![w] + Seq::<Seq<char>>::empty() =~= seq![w]);
}

/// Decimal notation is a non-empty run of digits.
proof fn lemma_decimal_digits(n: nat)
    ensures
        decimal(n).len() > 0,
        forall|i: int| 0 <= i < decimal(n).len() ==> '0' <= #[trigger] decimal(n)[i] <= '9',
    decreases n,
{
    if n >= 10 {
        lemma_decimal_digits(n / 10);
        assert forall|i: int| 0 <= i < decimal(n).len() implies '0' <= #[trigger] decimal(n)[i] <= '9' by {
            if i < decimal(n / 10).len() {
                assert(decimal(n)[i] == decimal(n / 10)[i]);
            }
        }
    }
}

/// The move-number word that precedes the move with index `k`.
pub open spec fn number_word(k: int) -> Seq<char> {
    decimal((k / 2 + 1) as nat).push('.')
}

/// The words of the movetext of `ms`: each White move's number word, then
/// each move's notation.
pub open(crate) spec fn movetext_words(ms: Seq<Move>) -> Seq<Seq<char>>
    decreases ms.len(),
{
    if ms.len() == 0 {
        Seq::empty()
    } else {
        let k = ms.len() - 1;
        let m = ms[k];
        movetext_words(ms.drop_last()) + (if k % 2 == 0 {
            seq![number_word(k)]
        } else {
            Seq::empty()
        }) + seq![spec_move_text(m.from.idx(), m.to.idx())]
    }
}

/// The notation of a move has no separators.
proof fn lemma_move_text_word(f: int, t: int)
    requires
        0 <= f < 64,
        0 <= t < 64,
    ensures
        spec_move_text(f, t).len() == 5,
        forall|i: int| 0 <= i < 5 ==> !is_space(#[trigger] spec_move_text(f, t)[i]),
        spec_move_text(f, t)[4] != '.',
{
}

/// The words of the movetext of `ms` are its move numbers and moves.
proof fn lemma_movetext_words(ms: Seq<Move>)
    requires
        forall|i: int| 0 <= i < ms.len() ==> #[trigger] ms[i].from.idx() < 64 && ms[i].to.idx() < 64,
    ensures
        words(spec_movetext(ms)) == movetext_words(ms),
    decreases ms.len(),
{
    if ms.len() > 0 {
        let k = ms.len() - 1;
        let m = ms[k];
        let mt = spec_move_text(m.from.idx(), m.to.idx());
        let prev = ms.drop_last();
        lemma_move_text_word(m.from.idx(), m.to.idx());
        lemma_single_word(mt);
        lemma_decimal_digits((k / 2 + 1) as nat);
        let nw = number_word(k);
        if k % 2 == 0 {
            assert forall|i: int| 0 <= i < nw.len() implies !is_space(#[trigger] nw[i]) by {
                if i < nw.len() - 1 {
                    assert(nw[i] == decimal((k / 2 + 1) as nat)[i]);
                }
            }
            lemma_single_word(nw);
            lemma_words_join(nw, mt);
            assert(number_text(k) + mt =~= nw + seq![' '] + mt);
        }
        if k == 0 {
            assert(spec_movetext(ms) =~= nw + seq![' '] + mt);
            assert(movetext_words(ms) =~= seq![nw] + seq![mt]);
        } else {
            lemma_movetext_words(prev);
            let rest = (if k % 2 == 0 {
                number_text(k)
            } else {
                Seq::empty()
            }) + mt;
            assert(spec_movetext(ms) =~= spec_movetext(prev) + seq![' '] + rest);
            lemma_words_join(spec_movetext(prev), rest);
            if k % 2 == 0 {
                assert(words(rest) =~= seq![nw] + seq![mt]);
            } else {
                assert(rest =~= mt);
            }
            assert(movetext_words(ms) =~= movetext_words(prev) + words(rest));
        }
    }
}

/// Parsing the words `t1` and then `t2` gives the pairs of both in order, or
/// the first error.
proof fn lemma_parse_words_join(t1: Seq<Seq<char>>, t2: Seq<Seq<char>>)
    requires
        parse_words(t1) is Ok,
    ensures
        parse_words(t1 + t2) == after_pairs(parse_words(t1)->Ok_0, parse_words(t2)),
    decreases t1.len(),
{
    if t1.len() == 0 {
        assert(t1 + t2 =~= t2);
        match parse_words(t2) {
            Ok(r) => {
                assert(Seq::<(int, int)>::empty() + r =~= r);
            },
            Err(_) => {},
        }
    } else {
        assert((t1 + t2)[0] == t1[0]);
        assert((t1 + t2).drop_first() =~= t1.drop_first() + t2);
        lemma_parse_words_join(t1.drop_first(), t2);
        if !is_move_number(t1[0]) {
            let pair = spec_parse_move(t1[0])->Ok_0;
            let r1 = parse_words(t1.drop_first())->Ok_0;
            match parse_words(t2) {
                Ok(r2) => {
                    assert(seq![pair] + (r1 + r2) =~= (seq![pair] + r1) + r2);
                },
                Err(_) => {},
            }
        }
    }
}

/// Parsing the words of a movetext gives the moves back.
proof fn lemma_parse_movetext_words(ms: Seq<Move>)
    requires
        forall|i: int| 0 <= i < ms.len() ==> #[trigger] ms[i].from.idx() < 64 && ms[i].to.idx() < 64,
    ensures
        parse_words(movetext_words(ms)) == Ok::<Seq<(int, int)>, ParseMoveError>(move_pairs(ms)),
    decreases ms.len(),
{
    if ms.len() == 0 {
        assert(move_pairs(ms) =~= Seq::<(int, int)>::empty());
    } else {
        let k = ms.len() - 1;
        let m = ms[k];
        let prev = ms.drop_last();
        let mt = spec_move_text(m.from.idx(), m.to.idx());
        assert forall|i: int| 0 <= i < prev.len() implies #[trigger] prev[i].from.idx() < 64 && prev[i].to.idx() < 64 by {
            assert(prev[i] == ms[i]);
        }
        lemma_parse_movetext_words(prev);
        lemma_move_text_word(m.from.idx(), m.to.idx());
        crate::board::lemma_move_text_roundtrip(m.from.idx(), m.to.idx());
        let tail = (if k % 2 == 0 {
            seq![number_word(k)]
        } else {
            Seq::empty()
        }) + seq![mt];
        assert(!is_move_number(mt));
        assert(parse_words(seq![mt]) == Ok::<Seq<(int, int)>, ParseMoveError>(seq![(m.from.idx(), m.to.idx())])) by {
            assert(seq![mt][0] == mt);
            assert(seq![mt].drop_first() =~= Seq::<Seq<char>>::empty());
            assert(parse_words(Seq::<Seq<char>>::empty()) == Ok::<Seq<(int, int)>, ParseMoveError>(Seq::empty()));
            assert(seq![(m.from.idx(), m.to.idx())] + Seq::<(int, int)>::empty() =~= seq![(m.from.idx(), m.to.idx())]);
        }
        if k % 2 == 0 {
            lemma_decimal_digits((k / 2 + 1) as nat);
            let nw = number_word(k);
            assert(is_move_number(nw)) by {
                assert forall|i: int| 0 <= i < nw.len() - 1 implies '0' <= #[trigger] nw[i] <= '9' by {
                    assert(nw[i] == decimal((k / 2 + 1) as nat)[i]);
                }
            }
            assert(tail[0] == nw);
            assert(tail.drop_first() =~= seq![mt]);
        } else {
            assert(tail =~= seq![mt]);
        }
        assert(movetext_words(ms) =~= movetext_words(prev) + tail);
        lemma_parse_words_join(movetext_words(prev), tail);
        assert(move_pairs(prev) + seq![(m.from.idx(), m.to.idx())] =~= move_pairs(ms));
    }
}

/// Movetext written by `format_movetext` parses back to the same moves.
pub proof fn lemma_movetext_roundtrip(ms: Seq<Move>)
    requires
        forall|i: int| 0 <= i < ms.len() ==> #[trigger] ms[i].from.idx() < 64 && ms[i].to.idx() < 64,
    ensures
        spec_parse_movetext(spec_movetext(ms)) == Ok::<Seq<(int, int)>, ParseMoveError>(move_pairs(ms)),
{
    lemma_movetext_words(ms);
    lemma_parse_movetext_words(ms);
}

} // verus!
