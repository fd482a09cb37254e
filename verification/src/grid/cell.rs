use vstd::prelude::*;

verus! {

/// A (column, row) pair that identifies one cell of a rectangular grid.
/// Two coordinates are equal exactly when both fields match.
#[derive(Debug, Clone, Copy, Hash, Eq, PartialEq, Structural)]
pub struct GridCoords {
    pub col_index: usize,
    pub row_index: usize,
}

/// The coordinate one step north of `c` (row + 1), if the row index does
/// not overflow. Grid bounds are not consulted here.
pub open spec fn north_of(c: GridCoords) -> Option<GridCoords> {
    if c.row_index == usize::MAX {
        None
    } else {
        Some(GridCoords { col_index: c.col_index, row_index: (c.row_index + 1) as usize })
    }
}

/// The coordinate one step east of `c` (column + 1), if the column index
/// does not overflow.
pub open spec fn east_of(c: GridCoords) -> Option<GridCoords> {
    if c.col_index == usize::MAX {
        None
    } else {
        Some(GridCoords { col_index: (c.col_index + 1) as usize, row_index: c.row_index })
    }
}

/// The coordinate one step south of `c` (row - 1). Row 0 has no south
/// neighbor: the position is absent, never wrapped around.
pub open spec fn south_of(c: GridCoords) -> Option<GridCoords> {
    if c.row_index == 0 {
        None
    } else {
        Some(GridCoords { col_index: c.col_index, row_index: (c.row_index - 1) as usize })
    }
}

/// The coordinate one step west of `c` (column - 1). Column 0 has no west
/// neighbor.
pub open spec fn west_of(c: GridCoords) -> Option<GridCoords> {
    if c.col_index == 0 {
        None
    } else {
        Some(GridCoords { col_index: (c.col_index - 1) as usize, row_index: c.row_index })
    }
}

/// A cell of the grid. A cell carries no payload beyond its identity,
/// which is its coordinate.
#[derive(Debug, Clone, Copy, Eq, PartialEq, Structural)]
pub struct Cell {
    pub coords: GridCoords,
}

impl Cell {
    pub fn new(coords: &GridCoords) -> (c: Cell)
        ensures
            c.coords == *coords,
    {
        Cell { coords: *coords }
    }

    pub fn coords(&self) -> (c: GridCoords)
        ensures
            c == self.coords,
    {
        self.coords
    }

    /// The coordinate north of this cell, absent on row overflow.
    pub fn north_coords(&self) -> (r: Option<GridCoords>)
        ensures
            r == north_of(self.coords),
    {
        if self.coords.row_index == usize::MAX {
            return None;
        }
        Some(GridCoords { col_index: self.coords.col_index, row_index: self.coords.row_index + 1 })
    }

    /// The coordinate east of this cell, absent on column overflow.
    pub fn east_coords(&self) -> (r: Option<GridCoords>)
        ensures
            r == east_of(self.coords),
    {
        if self.coords.col_index == usize::MAX {
            return None;
        }
        Some(GridCoords { col_index: self.coords.col_index + 1, row_index: self.coords.row_index })
    }

    /// The coordinate south of this cell; row 0 has none.
    pub fn south_coords(&self) -> (r: Option<GridCoords>)
        ensures
            r == south_of(self.coords),
    {
        if self.coords.row_index == 0 {
            return None;
        }
        Some(GridCoords { col_index: self.coords.col_index, row_index: self.coords.row_index - 1 })
    }

    /// The coordinate west of this cell; column 0 has none.
    pub fn west_coords(&self) -> (r: Option<GridCoords>)
        ensures
            r == west_of(self.coords),
    {
        if self.coords.col_index == 0 {
            return None;
        }
        Some(GridCoords { col_index: self.coords.col_index - 1, row_index: self.coords.row_index })
    }
}

} // verus!
