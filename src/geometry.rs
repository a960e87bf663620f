use vstd::prelude::*;

verus! {

/// The number of playable cells on the board.
pub const CELLS: usize = 361;

/// The history entry recorded for a pass; it lies outside the cell range.
pub const PASS: usize = 361;

/// Cell value of an empty vertex.
pub const EMPTY: u8 = 0;

/// Cell value of a black stone.
pub const BLACK: u8 = 1;

/// Cell value of a white stone.
pub const WHITE: u8 = 2;

/// The color of a player, or of the stones that a player places.
#[derive(Clone, Copy, Debug, PartialEq, Eq, Structural)]
pub enum Color {
    Black,
    White,
}

impl Color {
    /// The cell value of a stone of this color.
    pub open spec fn stone(self) -> u8 {
        match self {
            Color::Black => BLACK,
            Color::White => WHITE,
        }
    }

    pub open spec fn other(self) -> Color {
        match self {
            Color::Black => Color::White,
            Color::White => Color::Black,
        }
    }

    /// Returns the cell value of a stone of this color.
    pub fn as_u8(self) -> (r: u8)
        ensures
            r == self.stone(),
    {
        match self {
            Color::Black => BLACK,
            Color::White => WHITE,
        }
    }

    /// Returns the color of the other player.
    pub fn opposite(self) -> (r: Color)
        ensures
            r == self.other(),
            r.stone() != self.stone(),
    {
        match self {
            Color::Black => Color::White,
            Color::White => Color::Black,
        }
    }
}

/// Whether `i` and `j` are orthogonal neighbors on the board.
pub open spec fn adjacent(i: int, j: int) -> bool {
    &&& 0 <= i < CELLS
    &&& 0 <= j < CELLS
    &&& (j == i + 19 || i == j + 19 || (j == i + 1 && j % 19 != 0) || (i == j + 1 && i % 19 != 0))
}

/// Returns the orthogonal neighbors of `i` that lie on the board.
pub fn adjacent_to(i: usize) -> (r: Vec<usize>)
    requires
        i < CELLS,
    ensures
        r@.len() <= 4,
        forall|k: int| 0 <= k < r@.len() ==> (#[trigger] r@[k]) < CELLS && adjacent(i as int, r@[k] as int),
        forall|j: int| adjacent(i as int, j) ==> r@.contains(j as usize),
{
    let mut r: Vec<usize> = Vec::new();
    if i >= 19 {
        r.push(i - 19);
    }
    if i + 19 < CELLS {
        r.push(i + 19);
    }
    if i % 19 != 0 {
        r.push(i - 1);
    }
    if i % 19 != 18 {
        r.push(i + 1);
    }
    proof {
        assert forall|j: int| adjacent(i as int, j) implies r@.contains(j as usize) by {
            if j == i + 19 {
                assert(r@[if i >= 19 { 1int } else { 0int }] == j);
            } else if i == j + 19 {
                assert(r@[0] == j);
            } else if j == i + 1 {
                assert(r@[r@.len() - 1] == j);
            } else {
                let k: int = if i >= 19 { 1 } else { 0 };
                let k2: int = if i + 19 < CELLS { k + 1 } else { k };
                assert(r@[k2] == j);
            }
        }
    }
    r
}

} // verus!
