//! The focus position: a cell of the grid, or a column header.
use vstd::prelude::*;

verus! {

/// A direction to move the cursor in.
#[derive(Debug, Clone, Copy, PartialEq, Eq, Structural)]
pub enum CursorDir {
    U,
    D,
    L,
    R,
}

/// Either a cell `(column, row)` of the grid, or the header of a column.
#[derive(Debug, Clone, Copy, PartialEq, Eq, Structural)]
pub enum Cursor {
    Cell(usize, usize),
    Column(usize),
}

/// `a + b`, stopping at `usize::MAX`.
pub open spec fn sat_add(a: usize, b: usize) -> usize {
    if a + b > usize::MAX {
        usize::MAX
    } else {
        (a + b) as usize
    }
}

/// `a - b`, stopping at 0.
pub open spec fn sat_sub(a: usize, b: usize) -> usize {
    if a < b {
        0
    } else {
        (a - b) as usize
    }
}

/// `i` brought into `[0, bound - 1]`, or 0 when `bound` is 0.
pub open spec fn clamp_index(i: usize, bound: usize) -> usize {
    if i < sat_sub(bound, 1) {
        i
    } else {
        sat_sub(bound, 1)
    }
}

/// `c` brought within `bound_x` columns and `bound_y` rows.
pub open spec fn clamped(c: Cursor, bound_x: usize, bound_y: usize) -> Cursor {
    match c {
        Cursor::Cell(x, y) => Cursor::Cell(clamp_index(x, bound_x), clamp_index(y, bound_y)),
        Cursor::Column(x) => Cursor::Column(clamp_index(x, bound_x)),
    }
}

/// `c` moved `n` steps in `dir`, before clamping. Moving up past the first
/// row leaves the grid for the column header; moving down from a header
/// enters the grid `n - 1` rows below the top (the top row when `n` is 0).
pub open spec fn shifted(c: Cursor, dir: CursorDir, n: usize) -> Cursor {
    match (dir, c) {
        (CursorDir::U, Cursor::Cell(x, y)) => if n <= y {
            Cursor::Cell(x, (y - n) as usize)
        } else {
            Cursor::Column(x)
        },
        (CursorDir::U, Cursor::Column(x)) => Cursor::Column(x),
        (CursorDir::D, Cursor::Cell(x, y)) => Cursor::Cell(x, sat_add(y, n)),
        (CursorDir::D, Cursor::Column(x)) => Cursor::Cell(x, sat_sub(n, 1)),
        (CursorDir::L, Cursor::Cell(x, y)) => Cursor::Cell(sat_sub(x, n), y),
        (CursorDir::L, Cursor::Column(x)) => Cursor::Column(sat_sub(x, n)),
        (CursorDir::R, Cursor::Cell(x, y)) => Cursor::Cell(sat_add(x, n), y),
        (CursorDir::R, Cursor::Column(x)) => Cursor::Column(sat_add(x, n)),
    }
}

/// Each coordinate of `c` is a valid index for its bound, or 0 when that
/// bound is 0.
pub open spec fn within(c: Cursor, bound_x: usize, bound_y: usize) -> bool {
    match c {
        Cursor::Cell(x, y) => x <= sat_sub(bound_x, 1) && y <= sat_sub(bound_y, 1),
        Cursor::Column(x) => x <= sat_sub(bound_x, 1),
    }
}

impl Cursor {
    /// The column, and the row when the cursor is on a cell.
    pub fn to_xy(&self) -> (r: (usize, Option<usize>))
        ensures
            r == (match *self {
                Cursor::Cell(x, y) => (x, Some(y)),
                Cursor::Column(x) => (x, None::<usize>),
            }),
    {
        match self {
            Self::Cell(x, y) => (*x, Some(*y)),
            Self::Column(x) => (*x, None),
        }
    }

    /// The column when the cursor is on a column header.
    pub fn column_index(&self) -> (r: Option<usize>)
        ensures
            r == (match *self {
                Cursor::Cell(..) => None::<usize>,
                Cursor::Column(x) => Some(x),
            }),
    {
        match self {
            Self::Cell(..) => None,
            Self::Column(x) => Some(*x),
        }
    }

    /// Brings the cursor within `bound_x` columns and `bound_y` rows.
    pub fn clamp(&mut self, bound_x: usize, bound_y: usize)
        ensures
            *final(self) == clamped(*old(self), bound_x, bound_y),
            within(*final(self), bound_x, bound_y),
    {
        let max_idx_x = bound_x.saturating_sub(1);
        let max_idx_y = bound_y.saturating_sub(1);

        match *self {
            Self::Cell(x, y) => {
                *self = Self::Cell(
                    if x < max_idx_x { x } else { max_idx_x },
                    if y < max_idx_y { y } else { max_idx_y },
                );
            },
            Self::Column(x) => {
                *self = Self::Column(if x < max_idx_x { x } else { max_idx_x });
            },
        }
    }

    /// Moves the cursor `n` steps in `dir`, then clamps it to the bounds
    /// (also when `n` is 0, so that a resize is absorbed; a header cursor
    /// moved down by 0 enters the top row).
    pub fn shift(&mut self, dir: CursorDir, n: usize, bound_x: usize, bound_y: usize)
        ensures
            *final(self) == clamped(shifted(*old(self), dir, n), bound_x, bound_y),
            within(*final(self), bound_x, bound_y),
    {
        match dir {
            CursorDir::U => {
                match *self {
                    Self::Cell(x, y) => {
                        match y.checked_sub(n) {
                            Some(yp) => {
                                *self = Self::Cell(x, yp);
                            },
                            None => {
                                *self = Self::Column(x);
                            },
                        }
                    },
                    Self::Column(..) => {},
                }
            },
            CursorDir::D => {
                match *self {
                    Self::Cell(x, y) => {
                        *self = Self::Cell(x, y.saturating_add(n));
                    },
                    Self::Column(x) => {
                        *self = Self::Cell(x, n.saturating_sub(1));
                    },
                }
            },
            CursorDir::L => {
                match *self {
                    Self::Cell(x, y) => {
                        *self = Self::Cell(x.saturating_sub(n), y);
                    },
                    Self::Column(x) => {
                        *self = Self::Column(x.saturating_sub(n));
                    },
                }
            },
            CursorDir::R => {
                match *self {
                    Self::Cell(x, y) => {
                        *self = Self::Cell(x.saturating_add(n), y);
                    },
                    Self::Column(x) => {
                        *self = Self::Column(x.saturating_add(n));
                    },
                }
            },
        }
        self.clamp(bound_x, bound_y);
    }

    pub fn is_in_column_mode(&self) -> (r: bool)
        ensures
            r == (*self is Column),
    {
        matches!(self, Self::Column(..))
    }

    pub fn is_in_cell_mode(&self) -> (r: bool)
        ensures
            r == (*self is Cell),
    {
        matches!(self, Self::Cell(..))
    }
}

} // verus!
