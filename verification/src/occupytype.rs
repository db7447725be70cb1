//! Cell ownership: the tri-state marker for a board cell.
//!
//! `Black` and `White` are the two players; `Empty` marks an unowned cell.
//! Each owner has a stable one-character symbol used by serialization and
//! rendering: `#` for black, `O` for white, a space for empty.

use vstd::prelude::*;

verus! {

/// The owner of a board cell, or `Empty` for an unowned cell.
#[derive(Debug, PartialEq, Eq, Structural, Copy, Clone)]
pub enum OccupyType {
    Black,
    White,
    Empty,
}

/// The other player's color; `Empty` has no opposite and maps to itself
/// only so the function is total (executable code never asks for it).
pub open spec fn opposite(t: OccupyType) -> OccupyType {
    match t {
        OccupyType::Black => OccupyType::White,
        OccupyType::White => OccupyType::Black,
        OccupyType::Empty => OccupyType::Empty,
    }
}

/// The serialization symbol of a cell state.
pub open spec fn sym_char(t: OccupyType) -> char {
    match t {
        OccupyType::Black => '#',
        OccupyType::White => 'O',
        OccupyType::Empty => ' ',
    }
}

/// The cell state a single character denotes: `#` is black, `O` is white,
/// every other character is an empty cell.
pub open spec fn char_cell(c: char) -> OccupyType {
    if c == '#' { OccupyType::Black }
    else if c == 'O' { OccupyType::White }
    else { OccupyType::Empty }
}

/// A one-character string slice holding the symbol of a cell state.
pub fn sym_str(t: OccupyType) -> (r: &'static str)
    ensures
        r@ =~= seq![sym_char(t)],
{
    proof {
        reveal_strlit("#");
        reveal_strlit("O");
        reveal_strlit(" ");
    }
    match t {
        OccupyType::Black => "#",
        OccupyType::White => "O",
        OccupyType::Empty => " ",
    }
}

impl OccupyType {
    /// The opposing player's color. Asking for the opposite of `Empty` is a
    /// logic error and is ruled out up front.
    pub fn get_opposite_type(t: OccupyType) -> (r: OccupyType)
        requires
            t != OccupyType::Empty,
        ensures
            r == opposite(t),
    {
        match t {
            OccupyType::Black => OccupyType::White,
            _ => OccupyType::Black,
        }
    }

    /// Parses a one-character symbol back into a cell state; any string that
    /// is not exactly `#` or `O` denotes an empty cell.
    pub fn from_string(s: &String) -> (r: OccupyType)
        ensures
            r == (if s@.len() == 1 { char_cell(s@[0]) } else { OccupyType::Empty }),
    {
        if s.as_str().unicode_len() == 1 {
            let c = s.as_str().get_char(0);
            if c == '#' {
                OccupyType::Black
            } else if c == 'O' {
                OccupyType::White
            } else {
                OccupyType::Empty
            }
        } else {
            OccupyType::Empty
        }
    }

    /// The one-character symbol of this cell state.
    pub fn to_string(&self) -> (r: String)
        ensures
            r@ =~= seq![sym_char(*self)],
    {
        proof {
            reveal_strlit("#");
            reveal_strlit("O");
            reveal_strlit(" ");
        }
        match self {
            OccupyType::Black => String::from_str("#"),
            OccupyType::White => String::from_str("O"),
            OccupyType::Empty => String::from_str(" "),
        }
    }
}

} // verus!
