use vstd::prelude::*;

verus! {

/// A cell position on the board, `x` the column and `y` the row, both 0-based.
#[derive(Debug, Clone, Copy, PartialEq, Eq, Hash, Structural)]
pub struct Coordinate {
    pub x: u16,
    pub y: u16,
}

/// Marker for a cell that holds a mine.
#[derive(Debug, Clone, Copy, PartialEq, Eq, Hash, Structural)]
pub struct Bomb;

/// Marker for a cell next to at least one mine, with the number of mines around it.
#[derive(Debug, Clone, Copy, PartialEq, Eq, Hash, Structural)]
pub struct BombNeighbor {
    pub count: u8,
}

/// The eight directions around a cell, in the fixed order in which neighbours are listed.
pub open spec fn direction(k: int) -> (int, int) {
    if k == 0 {
        (-1, -1)
    } else if k == 1 {
        (0, -1)
    } else if k == 2 {
        (1, -1)
    } else if k == 3 {
        (-1, 0)
    } else if k == 4 {
        (1, 0)
    } else if k == 5 {
        (-1, 1)
    } else if k == 6 {
        (0, 1)
    } else {
        (1, 1)
    }
}

/// Whether a position lies inside a grid of the given size.
pub open spec fn in_grid(w: int, h: int, x: int, y: int) -> bool {
    0 <= x < w && 0 <= y < h
}

/// Whether two coordinates are distinct and touch orthogonally or diagonally.
pub open spec fn adjacent(a: Coordinate, b: Coordinate) -> bool {
    a != b && -1 <= a.x - b.x <= 1 && -1 <= a.y - b.y <= 1
}

impl Coordinate {
    /// The coordinate moved by `(dx, dy)`, when the result lies in a `w` x `h` grid.
    pub fn offset(self, dx: i8, dy: i8, w: u16, h: u16) -> (r: Option<Coordinate>)
        ensures
            r == (if in_grid(w as int, h as int, self.x + dx, self.y + dy) {
                Some(Coordinate { x: (self.x + dx) as u16, y: (self.y + dy) as u16 })
            } else {
                None
            }),
    {
        let nx: i32 = self.x as i32 + dx as i32;
        let ny: i32 = self.y as i32 + dy as i32;
        if 0 <= nx && nx < w as i32 && 0 <= ny && ny < h as i32 {
            Some(Coordinate { x: nx as u16, y: ny as u16 })
        } else {
            None
        }
    }
}

} // verus!
