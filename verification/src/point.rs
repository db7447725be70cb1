//! Validated board coordinates.
//!
//! A `Point` is a pair `(x, y)` with both components in `[1, BOARD_SIZE]`.
//! Out-of-range pairs are rejected by `check_point`; `new` demands a valid
//! pair up front.

use vstd::prelude::*;

verus! {

/// The board is `BOARD_SIZE` x `BOARD_SIZE` cells.
pub const BOARD_SIZE: u8 = 8;

/// A position on the board, `1 <= x <= BOARD_SIZE`, `1 <= y <= BOARD_SIZE`.
#[derive(Debug, Hash, Copy, Clone, PartialEq, Eq, Structural)]
pub struct Point {
    pub x: u8,
    pub y: u8,
}

/// The coordinate pair `(x, y)` lies on the board.
pub open spec fn coord_in_bounds(x: int, y: int) -> bool {
    1 <= x <= BOARD_SIZE && 1 <= y <= BOARD_SIZE
}

/// The coordinate pair `(x, y)` is one of the four board corners.
pub open spec fn coord_is_corner(x: int, y: int) -> bool {
    (x == 1 || x == BOARD_SIZE) && (y == 1 || y == BOARD_SIZE)
}

/// The digit character for a rank or file label (only `1..=8` occur).
pub open spec fn digit_char(d: int) -> char {
    if d == 1 { '1' }
    else if d == 2 { '2' }
    else if d == 3 { '3' }
    else if d == 4 { '4' }
    else if d == 5 { '5' }
    else if d == 6 { '6' }
    else if d == 7 { '7' }
    else { '8' }
}

/// A one-character string slice for a board label digit.
pub fn digit_str(d: u8) -> (r: &'static str)
    requires
        1 <= d <= BOARD_SIZE,
    ensures
        r@ =~= seq![digit_char(d as int)],
{
    proof {
        reveal_strlit("1");
        reveal_strlit("2");
        reveal_strlit("3");
        reveal_strlit("4");
        reveal_strlit("5");
        reveal_strlit("6");
        reveal_strlit("7");
        reveal_strlit("8");
    }
    match d {
        1 => "1",
        2 => "2",
        3 => "3",
        4 => "4",
        5 => "5",
        6 => "6",
        7 => "7",
        _ => "8",
    }
}

impl Point {
    /// Both coordinates lie on the board.
    pub open spec fn wf(self) -> bool {
        coord_in_bounds(self.x as int, self.y as int)
    }

    /// True iff `(x, y)` would be a valid board position.
    pub fn check_point(x: i8, y: i8) -> (r: bool)
        ensures
            r == coord_in_bounds(x as int, y as int),
    {
        x >= 1 && x <= (BOARD_SIZE as i8) && y >= 1 && y <= (BOARD_SIZE as i8)
    }

    /// Renders the point as `(x,y)`.
    pub fn to_string(&self) -> (r: String)
        requires
            self.wf(),
        ensures
            r@ =~= seq!['(', digit_char(self.x as int), ',', digit_char(self.y as int), ')'],
    {
        proof {
            reveal_strlit("(");
            reveal_strlit(",");
            reveal_strlit(")");
        }
        let mut r = String::new();
        r.append("(");
        r.append(digit_str(self.x));
        r.append(",");
        r.append(digit_str(self.y));
        r.append(")");
        r
    }

    /// Constructs a point from a coordinate pair already known to be on the
    /// board; callers gate arbitrary input through `check_point` first.
    pub fn new(x: u8, y: u8) -> (r: Point)
        requires
            coord_in_bounds(x as int, y as int),
        ensures
            r.x == x,
            r.y == y,
            r.wf(),
    {
        Point { x, y }
    }

    pub fn x(&self) -> (r: u8)
        ensures
            r == self.x,
    {
        self.x
    }

    pub fn y(&self) -> (r: u8)
        ensures
            r == self.y,
    {
        self.y
    }

    /// True iff the point is one of the four corners; exactly the pairs
    /// `(1,1)`, `(1,BOARD_SIZE)`, `(BOARD_SIZE,1)` and
    /// `(BOARD_SIZE,BOARD_SIZE)` qualify.
    pub fn is_corner(self) -> (r: bool)
        ensures
            r == coord_is_corner(self.x as int, self.y as int),
    {
        (self.x == 1 || self.x == BOARD_SIZE) && (self.y == 1 || self.y == BOARD_SIZE)
    }
}

} // verus!
