//! The notation of moves: a column letter `a` to `i`, a row digit `1` to `9`
//! and, for a wall, `h` or `v`.

use crate::geometry::{on_board, Move, Orientation, Position};
use vstd::prelude::*;
use vstd::string::StringExecFns;

verus! {

/// Whether `char::is_whitespace` holds of a character.
pub uninterp spec fn char_is_whitespace(c: char) -> bool;

/// `char::is_whitespace`: whether the character has the Unicode property
/// White_Space.
#[verifier::external_body]
pub(crate) fn is_whitespace(c: char) -> (r: bool)
    ensures
        r == char_is_whitespace(c),
{
    c.is_whitespace()
}

/// The column that a letter stands for.
pub open spec fn column_of(c: char) -> Option<i64> {
    if c == 'a' {
        Some(1i64)
    } else if c == 'b' {
        Some(2i64)
    } else if c == 'c' {
        Some(3i64)
    } else if c == 'd' {
        Some(4i64)
    } else if c == 'e' {
        Some(5i64)
    } else if c == 'f' {
        Some(6i64)
    } else if c == 'g' {
        Some(7i64)
    } else if c == 'h' {
        Some(8i64)
    } else if c == 'i' {
        Some(9i64)
    } else {
        None
    }
}

/// The row that a digit stands for.
pub open spec fn row_of(c: char) -> Option<i64> {
    if c == '1' {
        Some(1i64)
    } else if c == '2' {
        Some(2i64)
    } else if c == '3' {
        Some(3i64)
    } else if c == '4' {
        Some(4i64)
    } else if c == '5' {
        Some(5i64)
    } else if c == '6' {
        Some(6i64)
    } else if c == '7' {
        Some(7i64)
    } else if c == '8' {
        Some(8i64)
    } else if c == '9' {
        Some(9i64)
    } else {
        None
    }
}

/// The orientation that a letter stands for.
pub open spec fn orientation_of(c: char) -> Option<Orientation> {
    if c == 'h' {
        Some(Orientation::Horizontal)
    } else if c == 'v' {
        Some(Orientation::Vertical)
    } else {
        None
    }
}

/// The move that a text without whitespace denotes: two characters denote a
/// pawn move, three a wall.
pub open spec fn parse_token(t: Seq<char>) -> Result<Move, ()> {
    if t.len() == 2 && column_of(t[0]) is Some && row_of(t[1]) is Some {
        Ok(Move::PawnTo(Position { x: column_of(t[0])->0, y: row_of(t[1])->0 }))
    } else if t.len() == 3 && column_of(t[0]) is Some && row_of(t[1]) is Some && orientation_of(
        t[2],
    ) is Some {
        Ok(
            Move::WallAt(
                orientation_of(t[2])->0,
                Position { x: column_of(t[0])->0, y: row_of(t[1])->0 },
            ),
        )
    } else {
        Err(())
    }
}

/// The character is one of those that the notation is written with.
pub open spec fn is_notation(c: char) -> bool {
    column_of(c) is Some || row_of(c) is Some || orientation_of(c) is Some
}

/// The character counts: it is one of the notation, or else it is no
/// whitespace.
pub open spec fn is_significant(c: char) -> bool {
    is_notation(c) || !char_is_whitespace(c)
}

/// The characters of a text that count: all but the whitespace.
pub open spec fn significant(s: Seq<char>) -> Seq<char> {
    s.filter(|c: char| is_significant(c))
}

/// The letter of a column.
pub open spec fn column_letter(x: int) -> char {
    if x == 1 {
        'a'
    } else if x == 2 {
        'b'
    } else if x == 3 {
        'c'
    } else if x == 4 {
        'd'
    } else if x == 5 {
        'e'
    } else if x == 6 {
        'f'
    } else if x == 7 {
        'g'
    } else if x == 8 {
        'h'
    } else {
        'i'
    }
}

/// The digit of a row.
pub open spec fn row_digit(y: int) -> char {
    if y == 1 {
        '1'
    } else if y == 2 {
        '2'
    } else if y == 3 {
        '3'
    } else if y == 4 {
        '4'
    } else if y == 5 {
        '5'
    } else if y == 6 {
        '6'
    } else if y == 7 {
        '7'
    } else if y == 8 {
        '8'
    } else {
        '9'
    }
}

/// The text that denotes a move.
pub open spec fn printed(mv: Move) -> Seq<char> {
    match mv {
        Move::PawnTo(pos) => seq![column_letter(pos.x as int), row_digit(pos.y as int)],
        Move::WallAt(ori, pos) => seq![
            column_letter(pos.x as int),
            row_digit(pos.y as int),
            if ori == Orientation::Horizontal {
                'h'
            } else {
                'v'
            },
        ],
    }
}

/// The position that a move names.
pub open spec fn named_cell(mv: Move) -> Position {
    match mv {
        Move::PawnTo(pos) => pos,
        Move::WallAt(_, pos) => pos,
    }
}

fn column(c: char) -> (r: Option<i64>)
    ensures
        r == column_of(c),
{
    match c {
        'a' => Some(1),
        'b' => Some(2),
        'c' => Some(3),
        'd' => Some(4),
        'e' => Some(5),
        'f' => Some(6),
        'g' => Some(7),
        'h' => Some(8),
        'i' => Some(9),
        _ => None,
    }
}

fn row(c: char) -> (r: Option<i64>)
    ensures
        r == row_of(c),
{
    match c {
        '1' => Some(1),
        '2' => Some(2),
        '3' => Some(3),
        '4' => Some(4),
        '5' => Some(5),
        '6' => Some(6),
        '7' => Some(7),
        '8' => Some(8),
        '9' => Some(9),
        _ => None,
    }
}

fn orientation(c: char) -> (r: Option<Orientation>)
    ensures
        r == orientation_of(c),
{
    match c {
        'h' => Some(Orientation::Horizontal),
        'v' => Some(Orientation::Vertical),
        _ => None,
    }
}

/// Reads a move from its notation without whitespace.
pub fn parse_trimmed(chars: &Vec<char>) -> (r: Result<Move, ()>)
    ensures
        r == parse_token(chars@),
{
    if chars.len() < 2 || chars.len() > 3 {
        return Err(());
    }
    let x: i64 = match column(chars[0]) {
        Some(x) => x,
        None => {
            return Err(());
        },
    };
    let y: i64 = match row(chars[1]) {
        Some(y) => y,
        None => {
            return Err(());
        },
    };
    if chars.len() == 2 {
        return Ok(Move::PawnTo(Position { x, y }));
    }
    match orientation(chars[2]) {
        Some(o) => Ok(Move::WallAt(o, Position { x, y })),
        None => Err(()),
    }
}

proof fn lemma_significant_push(s: Seq<char>, c: char)
    ensures
        significant(s.push(c)) == if is_significant(c) {
            significant(s).push(c)
        } else {
            significant(s)
        },
{
    reveal(Seq::filter);
    assert(s.push(c).drop_last() =~= s);
}

/// Reads a move from its notation. Whitespace is skipped wherever it stands.
pub fn parse(s: &str) -> (r: Result<Move, ()>)
    ensures
        r == parse_token(significant(s@)),
{
    broadcast use vstd::string::axiom_spec_iter;

    let mut token: Vec<char> = Vec::new();
    proof {
        reveal(Seq::filter);
        assert(s@.take(0) =~= Seq::<char>::empty());
    }
    for c in it: s.chars()
        invariant
            it.seq() == s@,
            token@ == significant(s@.take(it.index())),
    {
        proof {
            lemma_significant_push(s@.take(it.index()), c);
            assert(s@.take(it.index() + 1) =~= s@.take(it.index()).push(c));
        }
        if column(c).is_some() || row(c).is_some() || orientation(c).is_some() || !is_whitespace(
            c,
        ) {
            token.push(c);
        }
    }
    assert(s@.take(s@.len() as int) =~= s@);
    parse_trimmed(&token)
}

fn column_text(x: i64) -> (r: &'static str)
    requires
        1 <= x <= 9,
    ensures
        r@ == seq![column_letter(x as int)],
{
    proof {
        reveal_strlit("a");
        reveal_strlit("b");
        reveal_strlit("c");
        reveal_strlit("d");
        reveal_strlit("e");
        reveal_strlit("f");
        reveal_strlit("g");
        reveal_strlit("h");
        reveal_strlit("i");
    }
    let r = if x == 1 {
        "a"
    } else if x == 2 {
        "b"
    } else if x == 3 {
        "c"
    } else if x == 4 {
        "d"
    } else if x == 5 {
        "e"
    } else if x == 6 {
        "f"
    } else if x == 7 {
        "g"
    } else if x == 8 {
        "h"
    } else {
        "i"
    };
    assert(r@ =~= seq![column_letter(x as int)]);
    r
}

fn row_text(y: i64) -> (r: &'static str)
    requires
        1 <= y <= 9,
    ensures
        r@ == seq![row_digit(y as int)],
{
    proof {
        reveal_strlit("1");
        reveal_strlit("2");
        reveal_strlit("3");
        reveal_strlit("4");
        reveal_strlit("5");
        reveal_strlit("6");
        reveal_strlit("7");
        reveal_strlit("8");
        reveal_strlit("9");
    }
    let r = if y == 1 {
        "1"
    } else if y == 2 {
        "2"
    } else if y == 3 {
        "3"
    } else if y == 4 {
        "4"
    } else if y == 5 {
        "5"
    } else if y == 6 {
        "6"
    } else if y == 7 {
        "7"
    } else if y == 8 {
        "8"
    } else {
        "9"
    };
    assert(r@ =~= seq![row_digit(y as int)]);
    r
}

/// Writes a move in its notation.
pub fn printer(mv: &Move) -> (r: String)
    requires
        on_board(named_cell(*mv)),
    ensures
        r@ == printed(*mv),
        parse_token(significant(r@)) == Ok::<Move, ()>(*mv),
{
    proof {
        lemma_parse_inverts_print(*mv);
    }
    let mut out = String::new();
    match mv {
        Move::PawnTo(pos) => {
            out.append(column_text(pos.x));
            out.append(row_text(pos.y));
        },
        Move::WallAt(ori, pos) => {
            out.append(column_text(pos.x));
            out.append(row_text(pos.y));
            proof {
                reveal_strlit("h");
                reveal_strlit("v");
            }
            match ori {
                Orientation::Horizontal => out.append("h"),
                Orientation::Vertical => out.append("v"),
            }
        },
    }
    assert(out@ =~= printed(*mv));
    out
}

/// In a text of the notation's own characters every character counts.
pub proof fn lemma_notation_is_significant(s: Seq<char>)
    requires
        forall|i: int| 0 <= i < s.len() ==> is_notation(#[trigger] s[i]),
    ensures
        significant(s) == s,
    decreases s.len(),
{
    reveal(Seq::filter);
    if s.len() > 0 {
        lemma_notation_is_significant(s.drop_last());
        assert(s.drop_last().push(s.last()) =~= s);
        lemma_significant_push(s.drop_last(), s.last());
    } else {
        assert(significant(s) =~= s);
    }
}

/// Reading what was written gives the move back.
pub proof fn lemma_parse_inverts_print(mv: Move)
    requires
        on_board(named_cell(mv)),
    ensures
        parse_token(printed(mv)) == Ok::<Move, ()>(mv),
        significant(printed(mv)) == printed(mv),
        parse_token(significant(printed(mv))) == Ok::<Move, ()>(mv),
{
    lemma_notation_is_significant(printed(mv));
}

} // verus!
