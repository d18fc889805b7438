//! The logic behind the command-line and scripting front ends: replaying
//! move lists and reading the names of sides and piece styles.
use vstd::prelude::*;
use vstd::string::*;

use crate::board::{spec_parse_move, Color, Move, Square};
use crate::position::Position;
use crate::render::TextPieceStyle;

verus! {

/// Message for move text that does not parse.
pub open spec fn invalid_move_message(text: Seq<char>, error: Seq<char>) -> Seq<char> {
    "invalid move '"@ + text + "': "@ + error
}

/// Message for a move that parses but is not legal.
pub open spec fn illegal_move_message(text: Seq<char>, error: Seq<char>) -> Seq<char> {
    "illegal move '"@ + text + "': "@ + error
}

/// The position reached by playing the move texts `ms` in order from `p`, or
/// the message for the first text that does not parse or is not legal.
pub open(crate) spec fn spec_replay(p: Position, ms: Seq<Seq<char>>) -> Result<Position, Seq<char>>
    decreases ms.len(),
{
    if ms.len() == 0 {
        Ok(p)
    } else {
        let text = ms[0];
        match spec_parse_move(text) {
            Err(e) => Err(invalid_move_message(text, e.message())),
            Ok((f, t)) => {
                let m = Move { from: Square(f as u8), to: Square(t as u8) };
                match p.check_move(m) {
                    Err(e) => Err(illegal_move_message(text, e.message())),
                    Ok(_) => spec_replay(p.applied(m), ms.drop_first()),
                }
            },
        }
    }
}

/// The texts held by a list of strings.
pub open spec fn texts(v: Seq<String>) -> Seq<Seq<char>> {
    v.map_values(|s: String| s@)
}

/// Plays the given moves in order from the initial position.
pub fn position_from_moves(moves: Vec<String>) -> (r: Result<Position, String>)
    ensures
        match spec_replay(Position::spec_initial(), texts(moves@)) {
            Ok(p) => r matches Ok(q) && q == p,
            Err(msg) => r matches Err(s) && s@ == msg,
        },
{
    let mut position = Position::initial();
    let ghost all = texts(moves@);
    proof {
        assert(all.subrange(0, all.len() as int) =~= all);
    }
    let mut k: usize = 0;
    while k < moves.len()
        invariant
            k <= moves.len(),
            all == texts(moves@),
            spec_replay(Position::spec_initial(), all) == spec_replay(position, all.subrange(k as int, all.len() as int)),
        decreases moves.len() - k,
    {
        let text = moves[k].as_str();
        let ghost rest = all.subrange(k as int, all.len() as int);
        proof {
            assert(rest[0] == text@);
            assert(rest.drop_first() =~= all.subrange(k + 1, all.len() as int));
        }
        let parsed = match Move::parse(text) {
            Ok(m) => m,
            Err(e) => {
                let mut msg = String::from_str("invalid move '");
                msg.append(text);
                msg.append("': ");
                let detail = e.to_string();
                msg.append(detail.as_str());
                return Err(msg);
            },
        };
        let ghost before = position;
        match position.apply_move(parsed) {
            Ok(_) => {},
            Err(e) => {
                let mut msg = String::from_str("illegal move '");
                msg.append(text);
                msg.append("': ");
                let detail = e.to_string();
                msg.append(detail.as_str());
                return Err(msg);
            },
        }
        k += 1;
    }
    proof {
        assert(all.subrange(moves.len() as int, all.len() as int) =~= Seq::<Seq<char>>::empty());
    }
    Ok(position)
}

/// ASCII upper-case letters made lower case, other characters kept.
pub open spec fn ascii_lower(c: char) -> char {
    if 'A' <= c && c <= 'Z' {
        ((c as int) + 32) as char
    } else {
        c
    }
}

/// The side named by `s` (case-insensitively `white`, `w`, `black` or `b`).
pub open spec fn spec_parse_side(s: Seq<char>) -> Option<Color> {
    let l = s.map_values(|c: char| ascii_lower(c));
    if l == "white"@ || l == "w"@ {
        Some(Color::White)
    } else if l == "black"@ || l == "b"@ {
        Some(Color::Black)
    } else {
        None
    }
}

/// The lower-case form of one character.
fn lower_char(c: char) -> (r: char)
    ensures
        r == ascii_lower(c),
{
    if 'A' <= c && c <= 'Z' {
        ((c as u32) + 32) as u8 as char
    } else {
        c
    }
}

/// Whether `value`, made lower case, is the ASCII word `word`.
fn lower_equals(value: &str, word: &str) -> (b: bool)
    ensures
        b == (value@.map_values(|c: char| ascii_lower(c)) == word@),
{
    let n = value.unicode_len();
    let ghost l = value@.map_values(|c: char| ascii_lower(c));
    if n != word.unicode_len() {
        proof {
            assert(l.len() != word@.len());
        }
        return false;
    }
    let mut i: usize = 0;
    while i < n
        invariant
            i <= n,
            n == value@.len(),
            n == word@.len(),
            l == value@.map_values(|c: char| ascii_lower(c)),
            forall|j: int| 0 <= j < i ==> l[j] == word@[j],
        decreases n - i,
    {
        if lower_char(value.get_char(i)) != word.get_char(i) {
            proof {
                assert(l[i as int] != word@[i as int]);
            }
            return false;
        }
        i += 1;
    }
    proof {
        assert(l =~= word@);
    }
    true
}

/// Parses the engine side for interactive play.
pub fn parse_side(value: &str) -> (r: Result<Color, String>)
    ensures
        match spec_parse_side(value@) {
            Some(c) => r == Ok::<Color, String>(c),
            None => r matches Err(s) && s@ == "side must be 'white' or 'black'"@,
        },
{
    if lower_equals(value, "white") || lower_equals(value, "w") {
        Ok(Color::White)
    } else if lower_equals(value, "black") || lower_equals(value, "b") {
        Ok(Color::Black)
    } else {
        Err(String::from_str("side must be 'white' or 'black'"))
    }
}

/// The full name of a color: `white` or `black`.
pub open spec fn color_word(c: Color) -> Seq<char> {
    if c == Color::White {
        "white"@
    } else {
        "black"@
    }
}

/// Every color is named by its full name and by that name's first letter, in
/// any mix of upper and lower case, and a name of one color never names the
/// other: the side or color read from a name is the color that has it.
pub proof fn lemma_color_names_are_read(c: Color, s: Seq<char>)
    ensures
        s.map_values(|ch: char| ascii_lower(ch)) == color_word(c) ==> spec_parse_side(s) == Some(c),
        s.map_values(|ch: char| ascii_lower(ch)) == seq![color_word(c)[0]] ==> spec_parse_side(s) == Some(c),
        spec_parse_side(s) == Some(c) ==> s.map_values(|ch: char| ascii_lower(ch)) == color_word(c) || s.map_values(
            |ch: char| ascii_lower(ch),
        ) == seq![color_word(c)[0]],
        spec_parse_side(color_word(c)) == Some(c),
{
    reveal_strlit("white");
    reveal_strlit("black");
    reveal_strlit("w");
    reveal_strlit("b");
    let l = s.map_values(|ch: char| ascii_lower(ch));
    assert("w"@ =~= seq!['w']);
    assert("b"@ =~= seq!['b']);
    assert(color_word(Color::White)[0] == 'w');
    assert(color_word(Color::Black)[0] == 'b');
    assert(seq![color_word(c)[0]] == if c == Color::White { "w"@ } else { "b"@ });
    assert("white"@ != "black"@) by {
        assert("white"@[0] != "black"@[0]);
    }
    assert("white"@ != "b"@ && "w"@ != "black"@ && "w"@ != "b"@) by {
        assert("white"@.len() != "b"@.len());
        assert("w"@.len() != "black"@.len());
        assert("w"@[0] != "b"@[0]);
    }
    let w = color_word(c);
    let lw = w.map_values(|ch: char| ascii_lower(ch));
    assert(lw =~= w) by {
        assert forall|k: int| 0 <= k < w.len() implies lw[k] == w[k] by {
            assert(!('A' <= w[k] && w[k] <= 'Z'));
        }
    }
}

/// Name of a color in messages.
pub fn color_name(color: Color) -> (s: &'static str)
    ensures
        s@ == color_word(color),
{
    match color {
        Color::White => "white",
        Color::Black => "black",
    }
}

/// Parses a color name (case-insensitively `white`, `w`, `black` or `b`).
pub fn parse_color(value: &str) -> (r: Result<Color, String>)
    ensures
        match spec_parse_side(value@) {
            Some(c) => r == Ok::<Color, String>(c),
            None => r matches Err(s) && s@ == "color must be 'white' or 'black'"@,
        },
{
    if lower_equals(value, "white") || lower_equals(value, "w") {
        Ok(Color::White)
    } else if lower_equals(value, "black") || lower_equals(value, "b") {
        Ok(Color::Black)
    } else {
        Err(String::from_str("color must be 'white' or 'black'"))
    }
}

/// The piece style named by `s`, case-insensitively.
pub open spec fn spec_piece_style(s: Seq<char>) -> Option<TextPieceStyle> {
    let l = s.map_values(|c: char| ascii_lower(c));
    if l == "discs"@ || l == "disc"@ || l == "circles"@ || l == "circle"@ || l == "unicode"@ {
        Some(TextPieceStyle::Discs)
    } else if l == "letters"@ || l == "ascii"@ {
        Some(TextPieceStyle::Letters)
    } else {
        None
    }
}

/// Parses a piece style name; no name means discs.
pub fn parse_piece_style(value: Option<&str>) -> (r: Result<TextPieceStyle, String>)
    ensures
        match value {
            None => r == Ok::<TextPieceStyle, String>(TextPieceStyle::Discs),
            Some(v) => match spec_piece_style(v@) {
                Some(st) => r == Ok::<TextPieceStyle, String>(st),
                None => r matches Err(s) && s@ == "style must be 'discs' or 'letters'"@,
            },
        },
{
    let name = match value {
        None => {
            return Ok(TextPieceStyle::Discs);
        },
        Some(v) => v,
    };
    if lower_equals(name, "discs") || lower_equals(name, "disc") || lower_equals(name, "circles")
        || lower_equals(name, "circle") || lower_equals(name, "unicode") {
        Ok(TextPieceStyle::Discs)
    } else if lower_equals(name, "letters") || lower_equals(name, "ascii") {
        Ok(TextPieceStyle::Letters)
    } else {
        Err(String::from_str("style must be 'discs' or 'letters'"))
    }
}

} // verus!
