use vstd::prelude::*;

pub mod cell;
pub mod reach;

verus! {

use vstd::arithmetic::div_mod::lemma_fundamental_div_mod_converse;
use crate::grid::cell::{Cell, GridCoords, north_of, east_of, south_of, west_of};

/// The ways a grid or pathfinder operation can fail.
#[derive(Debug, Clone, Copy, PartialEq, Eq, Structural)]
pub enum GridError {
    /// A link was requested for a coordinate outside the grid.
    OutOfBounds,
    /// The destination has no recorded distance from the origin.
    Unreachable,
    /// A path reconstruction found no strictly closer linked neighbor
    /// before reaching the origin (stale or corrupted distance field).
    InconsistentState,
}

/// The four neighbors of a cell, each absent at the corresponding grid edge.
#[derive(Debug, Clone, Copy)]
pub struct Neighbors {
    pub north: Option<Cell>,
    pub east: Option<Cell>,
    pub south: Option<Cell>,
    pub west: Option<Cell>,
}

/// Wraps an optional coordinate as an optional cell.
pub open spec fn as_cell(o: Option<GridCoords>) -> Option<Cell> {
    match o {
        Some(c) => Some((Cell { coords: c })),
        None => None,
    }
}

/// A rectangular grid of cells together with a directed adjacency
/// relation (the "links") between in-bounds coordinates. Cell `(c, r)`
/// exists exactly when `c < width` and `r < height`; its links are kept
/// in insertion order.
#[derive(Debug)]
pub struct Grid {
    height: usize,
    width: usize,
    adj: Vec<Vec<GridCoords>>,
}

/// Total number of directed links stored across all adjacency lists.
spec fn sum_lens(s: Seq<Vec<GridCoords>>) -> int
    decreases s.len(),
{
    if s.len() == 0 {
        0
    } else {
        sum_lens(s.drop_last()) + s.last()@.len()
    }
}

proof fn lemma_sum_lens_empty(s: Seq<Vec<GridCoords>>)
    requires
        forall|i: int| 0 <= i < s.len() ==> (#[trigger] s[i])@.len() == 0,
    ensures
        sum_lens(s) == 0,
    decreases s.len(),
{
    if s.len() > 0 {
        lemma_sum_lens_empty(s.drop_last());
    }
}

proof fn lemma_sum_lens_update(s: Seq<Vec<GridCoords>>, i: int, v: Vec<GridCoords>)
    requires
        0 <= i < s.len(),
    ensures
        sum_lens(s.update(i, v)) == sum_lens(s) - s[i]@.len() + v@.len(),
    decreases s.len(),
{
    let t = s.update(i, v);
    if i == s.len() - 1 {
        assert(t.drop_last() =~= s.drop_last());
    } else {
        assert(t.drop_last() =~= s.drop_last().update(i, v));
        lemma_sum_lens_update(s.drop_last(), i, v);
    }
}

impl Grid {
    pub closed spec fn spec_height(&self) -> usize {
        self.height
    }

    pub closed spec fn spec_width(&self) -> usize {
        self.width
    }

    /// Number of cells of the grid.
    pub open spec fn cell_count(self) -> int {
        self.spec_height() * self.spec_width()
    }

    /// Whether `c` addresses a cell of this grid.
    pub open spec fn in_bounds(self, c: GridCoords) -> bool {
        c.col_index < self.spec_width() && c.row_index < self.spec_height()
    }

    spec fn cell_index(self, c: GridCoords) -> int {
        c.row_index * self.spec_width() + c.col_index
    }

    /// The directed link targets of `c`, in insertion order; empty for a
    /// coordinate outside the grid.
    pub closed spec fn links_seq(self, c: GridCoords) -> Seq<GridCoords> {
        if self.in_bounds(c) {
            self.adj@[self.cell_index(c)]@
        } else {
            Seq::empty()
        }
    }

    /// Whether the grid holds a directed link from `a` to `b`.
    pub open spec fn linked(self, a: GridCoords, b: GridCoords) -> bool {
        self.links_seq(a).contains(b)
    }

    /// Whether every directed link has its reverse link as well.
    pub open spec fn symmetric(self) -> bool {
        forall|a: GridCoords, b: GridCoords| #[trigger] self.linked(a, b) ==> self.linked(b, a)
    }

    /// The grid has no links at all.
    pub open spec fn no_links(self) -> bool {
        forall|c: GridCoords| (#[trigger] self.links_seq(c)).len() == 0
    }

    /// Total number of directed links of the grid.
    pub closed spec fn total_links(self) -> int {
        sum_lens(self.adj@)
    }

    /// `self` has the same dimensions as `other` and keeps every link of
    /// `other`, in order, possibly with more appended.
    pub open spec fn extends(self, other: Grid) -> bool {
        &&& self.spec_height() == other.spec_height()
        &&& self.spec_width() == other.spec_width()
        &&& forall|c: GridCoords| (#[trigger] other.links_seq(c)).is_prefix_of(self.links_seq(c))
    }

    /// Both directed links between `a` and `b` are present.
    pub open spec fn linked_bidi(self, a: GridCoords, b: GridCoords) -> bool {
        self.linked(a, b) && self.linked(b, a)
    }

    /// Position of an in-bounds coordinate in `coords_seq`.
    pub open spec fn coord_pos(self, c: GridCoords) -> int {
        c.col_index * self.spec_height() + c.row_index
    }

    /// Well-formedness: one adjacency list per cell, no link dangles
    /// outside the grid, and no list holds the same target twice.
    pub closed spec fn wf(self) -> bool {
        &&& self.adj@.len() == self.cell_count()
        &&& forall|i: int, j: int|
            0 <= i < self.adj@.len() && 0 <= j < (#[trigger] self.adj@[i])@.len()
                ==> self.in_bounds(#[trigger] self.adj@[i]@[j])
        &&& forall|i: int|
            0 <= i < self.adj@.len() ==> (#[trigger] self.adj@[i])@.no_duplicates()
    }

    proof fn lemma_cell_index_bounds(self, c: GridCoords)
        requires
            self.in_bounds(c),
        ensures
            0 <= self.cell_index(c) < self.cell_count(),
    {
        assert(c.row_index * self.spec_width() + c.col_index
            < self.spec_height() * self.spec_width()) by (nonlinear_arith)
            requires
                c.col_index < self.spec_width(),
                c.row_index < self.spec_height(),
        ;
    }

    proof fn lemma_cell_index_injective(self, a: GridCoords, b: GridCoords)
        requires
            self.in_bounds(a),
            self.in_bounds(b),
            a != b,
        ensures
            self.cell_index(a) != self.cell_index(b),
    {
        assert(a.row_index * self.spec_width() + a.col_index
            != b.row_index * self.spec_width() + b.col_index) by (nonlinear_arith)
            requires
                a.col_index < self.spec_width(),
                b.col_index < self.spec_width(),
                a.row_index != b.row_index || a.col_index != b.col_index,
        ;
    }

    /// Links never mention out-of-bounds coordinates.
    pub proof fn lemma_linked_in_bounds(self, a: GridCoords, b: GridCoords)
        requires
            self.wf(),
            self.linked(a, b),
        ensures
            self.in_bounds(a),
            self.in_bounds(b),
    {
        assert(self.in_bounds(a));
        self.lemma_cell_index_bounds(a);
        let j = choose|j: int| 0 <= j < self.links_seq(a).len() && self.links_seq(a)[j] == b;
        assert(self.in_bounds(self.adj@[self.cell_index(a)]@[j]));
    }

    /// No adjacency list repeats a target: linking is idempotent, so a
    /// link is stored at most once.
    pub proof fn lemma_links_no_dup(self, c: GridCoords)
        requires
            self.wf(),
        ensures
            self.links_seq(c).no_duplicates(),
    {
        if self.in_bounds(c) {
            self.lemma_cell_index_bounds(c);
        }
    }

    #[verifier::when_used_as_spec(spec_height)]
    pub fn height(&self) -> (h: usize)
        ensures
            h == self.spec_height(),
    {
        self.height
    }

    #[verifier::when_used_as_spec(spec_width)]
    pub fn width(&self) -> (w: usize)
        ensures
            w == self.spec_width(),
    {
        self.width
    }

    /// Creates a grid with `height * width` cells and no links. Zero
    /// height or width yields a valid, empty grid.
    pub fn new(height: usize, width: usize) -> (g: Grid)
        ensures
            g.wf(),
            g.spec_height() == height,
            g.spec_width() == width,
            g.no_links(),
            g.total_links() == 0,
    {
        let mut adj: Vec<Vec<GridCoords>> = Vec::new();
        let mut r: usize = 0;
        while r < height
            invariant
                r <= height,
                adj@.len() == r * width,
                forall|i: int| 0 <= i < adj@.len() ==> (#[trigger] adj@[i])@.len() == 0,
            decreases height - r,
        {
            let mut c: usize = 0;
            while c < width
                invariant
                    c <= width,
                    r < height,
                    adj@.len() == r * width + c,
                    forall|i: int| 0 <= i < adj@.len() ==> (#[trigger] adj@[i])@.len() == 0,
                decreases width - c,
            {
                adj.push(Vec::new());
                c = c + 1;
            }
            proof {
                assert((r + 1) * width == r * width + width) by (nonlinear_arith);
            }
            r = r + 1;
        }
        let g = Grid { height, width, adj };
        proof {
            assert forall|c: GridCoords| (#[trigger] g.links_seq(c)).len() == 0 by {
                if g.in_bounds(c) {
                    g.lemma_cell_index_bounds(c);
                }
            }
            lemma_sum_lens_empty(g.adj@);
        }
        g
    }

    /// Position of cell `c` in the adjacency table.
    fn index_of(&self, c: &GridCoords) -> (i: usize)
        requires
            self.wf(),
            self.in_bounds(*c),
        ensures
            i == self.cell_index(*c),
            i < self.adj@.len(),
    {
        let _table = self.adj.len();
        proof {
            self.lemma_cell_index_bounds(*c);
        }
        c.row_index * self.width + c.col_index
    }

    /// All coordinates of the grid, column by column.
    pub open spec fn coords_seq(self) -> Seq<GridCoords> {
        Seq::new(
            (self.spec_height() * self.spec_width()) as nat,
            |i: int|
                GridCoords {
                    col_index: (i / (self.spec_height() as int)) as usize,
                    row_index: (i % (self.spec_height() as int)) as usize,
                },
        )
    }

    /// The coordinates of one row, column ascending.
    pub open spec fn row_seq(self, row: int) -> Seq<GridCoords> {
        Seq::new(
            self.spec_width() as nat,
            |j: int| GridCoords { col_index: j as usize, row_index: row as usize },
        )
    }

    /// A grid without links stores no directed link at all.
    pub proof fn lemma_no_links_total(self)
        requires
            self.wf(),
            self.no_links(),
        ensures
            self.total_links() == 0,
    {
        let h = self.spec_height() as int;
        let w = self.spec_width() as int;
        assert forall|i: int| 0 <= i < self.adj@.len() implies (#[trigger] self.adj@[i])@.len()
            == 0 by {
            assert(h > 0 && w > 0) by (nonlinear_arith)
                requires
                    h >= 0,
                    w >= 0,
                    0 <= i < h * w,
            ;
            vstd::arithmetic::div_mod::lemma_fundamental_div_mod(i, w);
            vstd::arithmetic::div_mod::lemma_mod_bound(i, w);
            let q = i / w;
            let r = i % w;
            assert(0 <= q < h) by (nonlinear_arith)
                requires
                    i == w * q + r,
                    0 <= r < w,
                    0 <= i < h * w,
                    w > 0,
            ;
            let c = GridCoords { col_index: r as usize, row_index: q as usize };
            assert(self.in_bounds(c));
            assert(q * w + r == i) by (nonlinear_arith)
                requires
                    i == w * q + r,
            ;
            assert(self.cell_index(c) == i);
            assert(self.links_seq(c).len() == 0);
        }
        lemma_sum_lens_empty(self.adj@);
    }

    /// Each in-bounds coordinate occurs in `coords_seq`, at `coord_pos`.
    pub proof fn lemma_coord_pos(self, c: GridCoords)
        requires
            self.in_bounds(c),
        ensures
            0 <= self.coord_pos(c) < self.cell_count(),
            self.coords_seq()[self.coord_pos(c)] == c,
    {
        let h = self.spec_height() as int;
        let w = self.spec_width() as int;
        let pos = self.coord_pos(c);
        assert(0 <= pos < h * w && self.cell_count() == h * w) by (nonlinear_arith)
            requires
                pos == c.col_index * h + c.row_index,
                c.col_index < w,
                c.row_index < h,
                self.cell_count() == h * w,
        ;
        lemma_fundamental_div_mod_converse(pos, h, c.col_index as int, c.row_index as int);
    }

    /// Each entry of `coords_seq` is an in-bounds coordinate, placed at
    /// its own `coord_pos`.
    pub proof fn lemma_coords_seq_at(self, k: int)
        requires
            0 <= k < self.cell_count(),
        ensures
            self.in_bounds(self.coords_seq()[k]),
            self.coord_pos(self.coords_seq()[k]) == k,
    {
        let h = self.spec_height() as int;
        let w = self.spec_width() as int;
        assert(h > 0 && w > 0) by (nonlinear_arith)
            requires
                0 <= k < h * w,
                h >= 0,
                w >= 0,
        ;
        vstd::arithmetic::div_mod::lemma_fundamental_div_mod(k, h);
        vstd::arithmetic::div_mod::lemma_mod_bound(k, h);
        let q = k / h;
        let r = k % h;
        assert(0 <= q < w) by (nonlinear_arith)
            requires
                k == q * h + r,
                0 <= r < h,
                0 <= k < h * w,
                h > 0,
        ;
    }

    /// Every coordinate of the grid, exactly once.
    pub fn coords(&self) -> (r: Vec<GridCoords>)
        ensures
            r@ == self.coords_seq(),
    {
        let mut v: Vec<GridCoords> = Vec::new();
        let mut col: usize = 0;
        while col < self.width
            invariant
                col <= self.spec_width(),
                v@.len() == col * self.spec_height(),
                v@.len() <= self.coords_seq().len(),
                forall|k: int| 0 <= k < v@.len() ==> v@[k] == self.coords_seq()[k],
            decreases self.spec_width() - col,
        {
            let mut row: usize = 0;
            while row < self.height
                invariant
                    row <= self.spec_height(),
                    col < self.spec_width(),
                    v@.len() == col * self.spec_height() + row,
                    v@.len() <= self.coords_seq().len(),
                    forall|k: int| 0 <= k < v@.len() ==> v@[k] == self.coords_seq()[k],
                decreases self.spec_height() - row,
            {
                proof {
                    assert(col * self.spec_height() + row < self.spec_height() * self.spec_width())
                        by (nonlinear_arith)
                        requires
                            col < self.spec_width(),
                            row < self.spec_height(),
                    ;
                    lemma_fundamental_div_mod_converse(
                        col * self.spec_height() + row,
                        self.spec_height() as int,
                        col as int,
                        row as int,
                    );
                }
                v.push(GridCoords { col_index: col, row_index: row });
                row = row + 1;
            }
            proof {
                assert((col + 1) * self.spec_height() == col * self.spec_height()
                    + self.spec_height()) by (nonlinear_arith);
            }
            col = col + 1;
        }
        proof {
            assert(self.spec_width() * self.spec_height() == self.spec_height()
                * self.spec_width()) by (nonlinear_arith);
            assert(v@ =~= self.coords_seq());
        }
        v
    }

    /// One cell per coordinate of the grid, in the order of `coords`.
    pub fn cells(&self) -> (r: Vec<Cell>)
        ensures
            r@.len() == self.cell_count(),
            forall|k: int| 0 <= k < r@.len() ==> (#[trigger] r@[k]).coords == self.coords_seq()[k],
    {
        let cs = self.coords();
        let mut v: Vec<Cell> = Vec::new();
        let mut k: usize = 0;
        while k < cs.len()
            invariant
                k <= cs@.len(),
                cs@ == self.coords_seq(),
                v@.len() == k,
                forall|j: int| 0 <= j < v@.len() ==> (#[trigger] v@[j]).coords == self.coords_seq()[j],
            decreases cs@.len() - k,
        {
            v.push(Cell::new(&cs[k]));
            k = k + 1;
        }
        v
    }

    /// The cell at `coords`, present exactly when `coords` is in bounds.
    pub fn cell_at(&self, coords: &GridCoords) -> (r: Option<Cell>)
        ensures
            r == if self.in_bounds(*coords) {
                Some((Cell { coords: *coords }))
            } else {
                None::<Cell>
            },
    {
        if coords.col_index < self.width && coords.row_index < self.height {
            Some(Cell::new(coords))
        } else {
            None
        }
    }

    fn rows_with_order(&self, reverse: bool) -> (r: Vec<Vec<GridCoords>>)
        ensures
            r@.len() == self.spec_height(),
            forall|i: int|
                0 <= i < r@.len() ==> (#[trigger] r@[i])@ == self.row_seq(
                    if reverse {
                        self.spec_height() - 1 - i
                    } else {
                        i
                    },
                ),
    {
        let mut rows: Vec<Vec<GridCoords>> = Vec::new();
        let mut idx: usize = 0;
        while idx < self.height
            invariant
                idx <= self.spec_height(),
                rows@.len() == idx,
                forall|i: int|
                    0 <= i < rows@.len() ==> (#[trigger] rows@[i])@ == self.row_seq(
                        if reverse {
                            self.spec_height() - 1 - i
                        } else {
                            i
                        },
                    ),
            decreases self.spec_height() - idx,
        {
            let row_index = if reverse {
                self.height - 1 - idx
            } else {
                idx
            };
            let mut row: Vec<GridCoords> = Vec::new();
            let mut col: usize = 0;
            while col < self.width
                invariant
                    col <= self.spec_width(),
                    row@.len() == col,
                    forall|j: int|
                        0 <= j < row@.len() ==> row@[j] == (GridCoords {
                            col_index: j as usize,
                            row_index: row_index,
                        }),
                decreases self.spec_width() - col,
            {
                row.push(GridCoords { col_index: col, row_index });
                col = col + 1;
            }
            proof {
                assert(row@ =~= self.row_seq(row_index as int));
            }
            rows.push(row);
            idx = idx + 1;
        }
        rows
    }

    /// The rows of the grid, row 0 first; within a row, column ascending.
    pub fn rows(&self) -> (r: Vec<Vec<GridCoords>>)
        ensures
            r@.len() == self.spec_height(),
            forall|i: int| 0 <= i < r@.len() ==> (#[trigger] r@[i])@ == self.row_seq(i),
    {
        self.rows_with_order(false)
    }

    /// The rows of the grid, highest row first.
    pub fn rows_reverse(&self) -> (r: Vec<Vec<GridCoords>>)
        ensures
            r@.len() == self.spec_height(),
            forall|i: int|
                0 <= i < r@.len() ==> (#[trigger] r@[i])@ == self.row_seq(
                    self.spec_height() - 1 - i,
                ),
    {
        self.rows_with_order(true)
    }

    /// The in-bounds coordinate north of `c`, if any.
    pub open spec fn north_neighbor(self, c: GridCoords) -> Option<GridCoords> {
        match north_of(c) {
            Some(n) => if self.in_bounds(n) {
                Some(n)
            } else {
                None
            },
            None => None,
        }
    }

    /// The in-bounds coordinate east of `c`, if any.
    pub open spec fn east_neighbor(self, c: GridCoords) -> Option<GridCoords> {
        match east_of(c) {
            Some(n) => if self.in_bounds(n) {
                Some(n)
            } else {
                None
            },
            None => None,
        }
    }

    /// The in-bounds coordinate south of `c`, if any.
    pub open spec fn south_neighbor(self, c: GridCoords) -> Option<GridCoords> {
        match south_of(c) {
            Some(n) => if self.in_bounds(n) {
                Some(n)
            } else {
                None
            },
            None => None,
        }
    }

    /// The in-bounds coordinate west of `c`, if any.
    pub open spec fn west_neighbor(self, c: GridCoords) -> Option<GridCoords> {
        match west_of(c) {
            Some(n) => if self.in_bounds(n) {
                Some(n)
            } else {
                None
            },
            None => None,
        }
    }

    /// The cell north of `cell`: absent exactly when the position above
    /// it falls outside the grid.
    pub fn north(&self, cell: &Cell) -> (r: Option<Cell>)
        ensures
            r == as_cell(self.north_neighbor(cell.coords)),
    {
        match cell.north_coords() {
            Some(coords) => {
                if coords.row_index >= self.height {
                    return None;
                }
                self.cell_at(&coords)
            },
            None => None,
        }
    }

    /// The cell east of `cell`: absent exactly when the position beside
    /// it falls outside the grid.
    pub fn east(&self, cell: &Cell) -> (r: Option<Cell>)
        ensures
            r == as_cell(self.east_neighbor(cell.coords)),
    {
        match cell.east_coords() {
            Some(coords) => {
                if coords.col_index >= self.width {
                    return None;
                }
                self.cell_at(&coords)
            },
            None => None,
        }
    }

    /// The cell south of `cell`: absent exactly at row 0.
    pub fn south(&self, cell: &Cell) -> (r: Option<Cell>)
        ensures
            r == as_cell(self.south_neighbor(cell.coords)),
    {
        match cell.south_coords() {
            Some(coords) => self.cell_at(&coords),
            None => None,
        }
    }

    /// The cell west of `cell`: absent exactly at column 0.
    pub fn west(&self, cell: &Cell) -> (r: Option<Cell>)
        ensures
            r == as_cell(self.west_neighbor(cell.coords)),
    {
        match cell.west_coords() {
            Some(coords) => self.cell_at(&coords),
            None => None,
        }
    }

    /// All four neighbors of `cell`, each absent at its grid edge.
    pub fn neighbors(&self, cell: &Cell) -> (r: Neighbors)
        ensures
            r.north == as_cell(self.north_neighbor(cell.coords)),
            r.east == as_cell(self.east_neighbor(cell.coords)),
            r.south == as_cell(self.south_neighbor(cell.coords)),
            r.west == as_cell(self.west_neighbor(cell.coords)),
    {
        Neighbors {
            north: self.north(cell),
            east: self.east(cell),
            south: self.south(cell),
            west: self.west(cell),
        }
    }

    /// The cells one hop from `cell` along directed links, in insertion
    /// order; empty for an unlinked or out-of-bounds coordinate.
    pub fn links(&self, cell: &Cell) -> (r: Vec<Cell>)
        requires
            self.wf(),
        ensures
            r@.len() == self.links_seq(cell.coords).len(),
            forall|i: int|
                0 <= i < r@.len() ==> (#[trigger] r@[i]).coords == self.links_seq(cell.coords)[i],
    {
        let mut out: Vec<Cell> = Vec::new();
        if cell.coords.col_index < self.width && cell.coords.row_index < self.height {
            let idx = self.index_of(&cell.coords);
            let mut j: usize = 0;
            while j < self.adj[idx].len()
                invariant
                    self.wf(),
                    self.in_bounds(cell.coords),
                    idx == self.cell_index(cell.coords),
                    idx < self.adj@.len(),
                    j <= self.links_seq(cell.coords).len(),
                    out@.len() == j,
                    forall|i: int|
                        0 <= i < out@.len() ==> (#[trigger] out@[i]).coords == self.links_seq(
                            cell.coords,
                        )[i],
                decreases self.links_seq(cell.coords).len() - j,
            {
                out.push(Cell::new(&self.adj[idx][j]));
                j = j + 1;
            }
        }
        out
    }


    /// One uniformly chosen cell of the grid, drawn from `rng`. The grid
    /// must have at least one cell.
    pub fn rand_cell(&self, rng: &mut rand::rngs::StdRng) -> (c: Cell)
        requires
            self.spec_height() > 0,
            self.spec_width() > 0,
        ensures
            self.in_bounds(c.coords),
    {
        let col_index = crate::rng::random_below(rng, self.width);
        let row_index = crate::rng::random_below(rng, self.height);
        Cell::new(&GridCoords { col_index, row_index })
    }

    /// Adds the directed link `source -> destination`; linking is
    /// idempotent: a link already present leaves the grid unchanged.
    /// Fails with `OutOfBounds`, leaving the grid unchanged, if either
    /// coordinate lies outside the grid.
    pub fn link(&mut self, source: &GridCoords, destination: &GridCoords)
        -> (r: Result<(), GridError>)
        requires
            old(self).wf(),
        ensures
            final(self).wf(),
            final(self).spec_height() == old(self).spec_height(),
            final(self).spec_width() == old(self).spec_width(),
            match r {
                Ok(()) => {
                    &&& old(self).in_bounds(*source)
                    &&& old(self).in_bounds(*destination)
                    &&& final(self).linked(*source, *destination)
                    &&& old(self).linked(*source, *destination) ==> *final(self) == *old(self)
                    &&& !old(self).linked(*source, *destination) ==> {
                        &&& final(self).links_seq(*source)
                            == old(self).links_seq(*source).push(*destination)
                        &&& final(self).total_links() == old(self).total_links() + 1
                    }
                    &&& forall|c: GridCoords|
                        c != *source
                            ==> #[trigger] final(self).links_seq(c) == old(self).links_seq(c)
                },
                Err(e) => {
                    &&& e == GridError::OutOfBounds
                    &&& !(old(self).in_bounds(*source) && old(self).in_bounds(*destination))
                    &&& *final(self) == *old(self)
                },
            },
    {
        if !(source.col_index < self.width && source.row_index < self.height
            && destination.col_index < self.width && destination.row_index < self.height) {
            return Err(GridError::OutOfBounds);
        }
        if self.is_linked(source, destination) {
            return Ok(());
        }
        let i = self.index_of(source);
        self.adj[i].push(*destination);
        proof {
            lemma_sum_lens_update(old(self).adj@, i as int, self.adj@[i as int]);
            assert forall|c: GridCoords| c != *source implies #[trigger] self.links_seq(c)
                == old(self).links_seq(c) by {
                if self.in_bounds(c) {
                    self.lemma_cell_index_bounds(c);
                    self.lemma_cell_index_injective(c, *source);
                }
            }
            let fwd = self.links_seq(*source);
            assert(fwd.contains(*destination)) by {
                assert(fwd[fwd.len() - 1] == *destination);
            }
            assert forall|ii: int|
                0 <= ii < self.adj@.len() implies (#[trigger] self.adj@[ii])@.no_duplicates() by {
                if ii == i as int {
                    lemma_push_no_dup(old(self).adj@[ii]@, *destination);
                }
            }
        }
        Ok(())
    }

    /// Adds both directed links between `source` and `destination`,
    /// skipping any already present, or fails with `OutOfBounds`,
    /// leaving the grid unchanged, if either coordinate lies outside the
    /// grid. On success each of the two coordinates appears in the
    /// other's links, stored once however often the pair is linked.
    pub fn link_bidi(&mut self, source: &GridCoords, destination: &GridCoords)
        -> (r: Result<(), GridError>)
        requires
            old(self).wf(),
        ensures
            final(self).wf(),
            final(self).spec_height() == old(self).spec_height(),
            final(self).spec_width() == old(self).spec_width(),
            match r {
                Ok(()) => {
                    &&& old(self).in_bounds(*source)
                    &&& old(self).in_bounds(*destination)
                    &&& final(self).linked(*source, *destination)
                    &&& final(self).linked(*destination, *source)
                    &&& final(self).links_seq(*source) == (if old(self).linked(
                        *source,
                        *destination,
                    ) {
                        old(self).links_seq(*source)
                    } else {
                        old(self).links_seq(*source).push(*destination)
                    })
                    &&& *source != *destination ==> final(self).links_seq(*destination) == (
                    if old(self).linked(*destination, *source) {
                        old(self).links_seq(*destination)
                    } else {
                        old(self).links_seq(*destination).push(*source)
                    })
                    &&& final(self).total_links() == old(self).total_links() + (if old(
                        self,
                    ).linked(*source, *destination) {
                        0int
                    } else {
                        1int
                    }) + (if *source != *destination && !old(self).linked(
                        *destination,
                        *source,
                    ) {
                        1int
                    } else {
                        0int
                    })
                    &&& forall|c: GridCoords|
                        c != *source && c != *destination
                            ==> #[trigger] final(self).links_seq(c) == old(self).links_seq(c)
                },
                Err(e) => {
                    &&& e == GridError::OutOfBounds
                    &&& !(old(self).in_bounds(*source) && old(self).in_bounds(*destination))
                    &&& *final(self) == *old(self)
                },
            },
    {
        if !(source.col_index < self.width && source.row_index < self.height
            && destination.col_index < self.width && destination.row_index < self.height) {
            return Err(GridError::OutOfBounds);
        }
        let ghost g0 = *self;
        let _r1 = self.link(source, destination);
        let ghost g1 = *self;
        let _r2 = self.link(destination, source);
        proof {
            if *source == *destination {
                assert(g1.linked(*destination, *source));
                assert(*self == g1);
            } else {
                assert(g1.links_seq(*destination) == g0.links_seq(*destination));
                assert(g1.linked(*destination, *source) == g0.linked(*destination, *source));
                assert(self.links_seq(*source) == g1.links_seq(*source));
            }
        }
        Ok(())
    }
}

impl Grid {
    /// A wall stands west of `c` unless `c` links to its west neighbor.
    pub open spec fn wall_west(self, c: GridCoords) -> bool {
        match self.west_neighbor(c) {
            Some(wn) => !self.linked(c, wn),
            None => true,
        }
    }

    /// A wall stands south of `c` unless `c` links to its south neighbor.
    pub open spec fn wall_south(self, c: GridCoords) -> bool {
        match self.south_neighbor(c) {
            Some(sn) => !self.linked(c, sn),
            None => true,
        }
    }

    /// The top border after the corner glyph: one `---+` segment per
    /// column.
    pub open spec fn border_text(self, n: int) -> Seq<char>
        decreases n,
    {
        if n <= 0 {
            Seq::empty()
        } else {
            self.border_text(n - 1) + "---+"@
        }
    }

    /// The interior glyphs of one cell: its west wall or an opening,
    /// then three blanks.
    pub open spec fn cell_top_text(self, col: int, row: int) -> Seq<char> {
        (if self.wall_west(GridCoords { col_index: col as usize, row_index: row as usize }) {
            "|"@
        } else {
            " "@
        }) + "   "@
    }

    /// The south edge of one cell: a corner, then a wall or an opening.
    pub open spec fn cell_bottom_text(self, col: int, row: int) -> Seq<char> {
        "+"@ + (if self.wall_south(GridCoords { col_index: col as usize, row_index: row as usize
        }) {
            "---"@
        } else {
            "   "@
        })
    }

    /// The first `n` cells of a row's interior line.
    pub open spec fn row_top_text(self, row: int, n: int) -> Seq<char>
        decreases n,
    {
        if n <= 0 {
            Seq::empty()
        } else {
            self.row_top_text(row, n - 1) + self.cell_top_text(n - 1, row)
        }
    }

    /// The first `n` cells of a row's south-wall line.
    pub open spec fn row_bottom_text(self, row: int, n: int) -> Seq<char>
        decreases n,
    {
        if n <= 0 {
            Seq::empty()
        } else {
            self.row_bottom_text(row, n - 1) + self.cell_bottom_text(n - 1, row)
        }
    }

    /// The two lines of one row: interior with a closing wall, then
    /// south walls with a closing corner.
    pub open spec fn row_block_text(self, row: int) -> Seq<char> {
        self.row_top_text(row, self.spec_width() as int) + "|"@ + "\n"@ + self.row_bottom_text(
            row,
            self.spec_width() as int,
        ) + "+"@ + "\n"@
    }

    /// The blocks of rows `hi - 1` down to `lo`.
    pub open spec fn rows_down_text(self, hi: int, lo: int) -> Seq<char>
        decreases hi - lo,
    {
        if hi <= lo {
            Seq::empty()
        } else {
            self.row_block_text(hi - 1) + self.rows_down_text(hi - 1, lo)
        }
    }

    /// The whole picture: the top border, then every row from the
    /// highest down to row 0.
    pub open spec fn spec_text(self) -> Seq<char> {
        "+"@ + self.border_text(self.spec_width() as int) + "\n"@ + self.rows_down_text(
            self.spec_height() as int,
            0,
        )
    }

    proof fn lemma_rows_down_snoc(self, hi: int, lo: int)
        requires
            lo < hi,
        ensures
            self.rows_down_text(hi, lo) == self.rows_down_text(hi, lo + 1) + self.row_block_text(
                lo,
            ),
        decreases hi - lo,
    {
        if hi - 1 == lo {
            assert(self.rows_down_text(hi - 1, lo).len() == 0);
            assert(self.rows_down_text(hi, lo + 1).len() == 0);
            assert(self.rows_down_text(hi, lo) =~= self.rows_down_text(hi, lo + 1)
                + self.row_block_text(lo));
        } else {
            self.lemma_rows_down_snoc(hi - 1, lo);
            assert(self.rows_down_text(hi, lo) =~= self.rows_down_text(hi, lo + 1)
                + self.row_block_text(lo));
        }
    }

    /// Whether the grid holds the directed link `from -> to`.
    pub fn is_linked(&self, from: &GridCoords, to: &GridCoords) -> (r: bool)
        requires
            self.wf(),
        ensures
            r == self.linked(*from, *to),
    {
        if !(from.col_index < self.width && from.row_index < self.height) {
            return false;
        }
        let i = self.index_of(from);
        let n = self.adj[i].len();
        let mut j: usize = 0;
        while j < n
            invariant
                self.wf(),
                self.in_bounds(*from),
                i == self.cell_index(*from),
                i < self.adj@.len(),
                n == self.links_seq(*from).len(),
                j <= n,
                forall|k: int| 0 <= k < j ==> self.links_seq(*from)[k] != *to,
            decreases n - j,
        {
            if self.adj[i][j] == *to {
                proof {
                    assert(self.links_seq(*from)[j as int] == *to);
                }
                return true;
            }
            j = j + 1;
        }
        proof {
            if self.linked(*from, *to) {
                let k = choose|k: int|
                    0 <= k < self.links_seq(*from).len() && self.links_seq(*from)[k] == *to;
            }
        }
        false
    }

    /// Draws the grid as text: a corner glyph and one `---+` segment
    /// per column on the first line; then, for each row from the
    /// highest down to row 0, a line of cell interiors whose west sides
    /// are walls or openings, and a line of south walls or openings,
    /// each wall drawn exactly where no link crosses it.
    #[verifier::rlimit(100)]
    pub fn to_text(&self) -> (s: String)
        requires
            self.wf(),
        ensures
            s@ == self.spec_text(),
    {
        let mut out = String::new();
        out.append("+");
        let mut c: usize = 0;
        while c < self.width
            invariant
                self.wf(),
                c <= self.spec_width(),
                out@ == "+"@ + self.border_text(c as int),
            decreases self.spec_width() - c,
        {
            out.append("---+");
            proof {
                assert(out@ =~= "+"@ + self.border_text(c + 1));
            }
            c = c + 1;
        }
        out.append("\n");
        let ghost head_text = "+"@ + self.border_text(self.spec_width() as int) + "\n"@;
        proof {
            assert(out@ =~= head_text + self.rows_down_text(
                self.spec_height() as int,
                self.spec_height() as int,
            ));
        }
        let mut r: usize = self.height;
        while r > 0
            invariant
                self.wf(),
                r <= self.spec_height(),
                head_text == "+"@ + self.border_text(self.spec_width() as int) + "\n"@,
                out@ == head_text + self.rows_down_text(self.spec_height() as int, r as int),
            decreases r,
        {
            let row = r - 1;
            let mut top = String::new();
            let mut bottom = String::new();
            let mut col: usize = 0;
            while col < self.width
                invariant
                    self.wf(),
                    row < self.spec_height(),
                    col <= self.spec_width(),
                    top@ == self.row_top_text(row as int, col as int),
                    bottom@ == self.row_bottom_text(row as int, col as int),
                decreases self.spec_width() - col,
            {
                let cc = GridCoords { col_index: col, row_index: row };
                let west_open = if col > 0 {
                    self.is_linked(&cc, &GridCoords { col_index: col - 1, row_index: row })
                } else {
                    false
                };
                if west_open {
                    top.append(" ");
                } else {
                    top.append("|");
                }
                top.append("   ");
                bottom.append("+");
                let south_open = if row > 0 {
                    self.is_linked(&cc, &GridCoords { col_index: col, row_index: row - 1 })
                } else {
                    false
                };
                if south_open {
                    bottom.append("   ");
                } else {
                    bottom.append("---");
                }
                proof {
                    assert(top@ =~= self.row_top_text(row as int, col + 1));
                    assert(bottom@ =~= self.row_bottom_text(row as int, col + 1));
                }
                col = col + 1;
            }
            out.append(top.as_str());
            out.append("|");
            out.append("\n");
            out.append(bottom.as_str());
            out.append("+");
            out.append("\n");
            proof {
                self.lemma_rows_down_snoc(self.spec_height() as int, row as int);
                assert(out@ =~= head_text + self.rows_down_text(
                    self.spec_height() as int,
                    row as int,
                ));
            }
            r = r - 1;
        }
        out
    }
}

pub(crate) proof fn lemma_self_prefix<A>(s: Seq<A>)
    ensures
        s.is_prefix_of(s),
{
    assert(s =~= s.subrange(0, s.len() as int));
}

impl Grid {
    pub proof fn lemma_extends_refl(self)
        ensures
            self.extends(self),
    {
        assert forall|c: GridCoords| (#[trigger] self.links_seq(c)).is_prefix_of(
            self.links_seq(c),
        ) by {
            lemma_self_prefix(self.links_seq(c));
        }
    }

    pub proof fn lemma_extends_trans(self, mid: Grid, base: Grid)
        requires
            self.extends(mid),
            mid.extends(base),
        ensures
            self.extends(base),
    {
        assert forall|c: GridCoords| (#[trigger] base.links_seq(c)).is_prefix_of(
            self.links_seq(c),
        ) by {
            let s1 = base.links_seq(c);
            let s2 = mid.links_seq(c);
            let s3 = self.links_seq(c);
            assert(s1.is_prefix_of(s2) && s2.is_prefix_of(s3));
            assert(s1 =~= s3.subrange(0, s1.len() as int));
        }
    }
}

/// After one bidirectional, idempotent link between distinct `a` and
/// `b`, the grid extends its previous state, old links persist, and any
/// link is an old one or one of the two possibly added.
pub(crate) proof fn lemma_bidi_added(gm: Grid, gn: Grid, a: GridCoords, b: GridCoords)
    requires
        a != b,
        gn.spec_height() == gm.spec_height(),
        gn.spec_width() == gm.spec_width(),
        gn.linked(a, b),
        gn.linked(b, a),
        gn.links_seq(a) == (if gm.linked(a, b) {
            gm.links_seq(a)
        } else {
            gm.links_seq(a).push(b)
        }),
        gn.links_seq(b) == (if gm.linked(b, a) {
            gm.links_seq(b)
        } else {
            gm.links_seq(b).push(a)
        }),
        forall|d: GridCoords|
            d != a && d != b ==> #[trigger] gn.links_seq(d) == gm.links_seq(d),
    ensures
        gn.extends(gm),
        gn.linked(a, b),
        gn.linked(b, a),
        forall|d: GridCoords, x: GridCoords|
            #[trigger] gm.linked(d, x) ==> gn.linked(d, x),
        forall|d: GridCoords, x: GridCoords|
            #[trigger] gn.linked(d, x) ==> gm.linked(d, x) || (d == a && x == b) || (d == b && x
                == a),
{
    assert forall|d: GridCoords| (#[trigger] gm.links_seq(d)).is_prefix_of(gn.links_seq(d)) by {
        lemma_self_prefix(gm.links_seq(d));
        if d == a && !gm.linked(a, b) {
            lemma_prefix_push(gm.links_seq(a), gm.links_seq(a), b);
        } else if d == b && !gm.linked(b, a) {
            lemma_prefix_push(gm.links_seq(b), gm.links_seq(b), a);
        }
    }
    assert forall|d: GridCoords, x: GridCoords| #[trigger] gm.linked(d, x) implies gn.linked(
        d,
        x,
    ) by {
        if d == a && !gm.linked(a, b) {
            lemma_contains_push(gm.links_seq(a), b, x);
        } else if d == b && !gm.linked(b, a) {
            lemma_contains_push(gm.links_seq(b), a, x);
        }
    }
    assert forall|d: GridCoords, x: GridCoords| #[trigger] gn.linked(d, x) implies gm.linked(d, x)
        || (d == a && x == b) || (d == b && x == a) by {
        if d == a && !gm.linked(a, b) && x != b {
            lemma_push_contains_inv(gm.links_seq(a), b, x);
        } else if d == b && !gm.linked(b, a) && x != a {
            lemma_push_contains_inv(gm.links_seq(b), a, x);
        }
    }
}

/// As `lemma_bidi_added`, when the new link is fresh on a symmetric,
/// duplicate-free grid: symmetry and freedom from duplicates persist.
pub(crate) proof fn lemma_bidi_fresh(gm: Grid, gn: Grid, a: GridCoords, b: GridCoords)
    requires
        a != b,
        gn.spec_height() == gm.spec_height(),
        gn.spec_width() == gm.spec_width(),
        gn.linked(a, b),
        gn.linked(b, a),
        gn.links_seq(a) == (if gm.linked(a, b) {
            gm.links_seq(a)
        } else {
            gm.links_seq(a).push(b)
        }),
        gn.links_seq(b) == (if gm.linked(b, a) {
            gm.links_seq(b)
        } else {
            gm.links_seq(b).push(a)
        }),
        forall|d: GridCoords|
            d != a && d != b ==> #[trigger] gn.links_seq(d) == gm.links_seq(d),
        gm.symmetric(),
        forall|c: GridCoords| (#[trigger] gm.links_seq(c)).no_duplicates(),
        !gm.linked(a, b),
    ensures
        gn.symmetric(),
        forall|c: GridCoords| (#[trigger] gn.links_seq(c)).no_duplicates(),
{
    lemma_bidi_added(gm, gn, a, b);
    assert(!gm.linked(b, a)) by {
        if gm.linked(b, a) {
            assert(gm.linked(a, b));
        }
    }
    assert(gn.links_seq(a) == gm.links_seq(a).push(b));
    assert(gn.links_seq(b) == gm.links_seq(b).push(a));
    assert forall|d: GridCoords, x: GridCoords| #[trigger] gn.linked(d, x) implies gn.linked(
        x,
        d,
    ) by {
        if d == a && x == b {
        } else if d == b && x == a {
        } else {
            assert(gm.linked(d, x));
            assert(gm.linked(x, d));
        }
    }
    assert forall|c: GridCoords| (#[trigger] gn.links_seq(c)).no_duplicates() by {
        if c == a {
            lemma_push_no_dup(gm.links_seq(a), b);
        } else if c == b {
            lemma_push_no_dup(gm.links_seq(b), a);
        }
    }
}

pub(crate) proof fn lemma_contains_push<A>(s: Seq<A>, x: A, y: A)
    requires
        s.contains(y),
    ensures
        s.push(x).contains(y),
{
    let j = choose|j: int| 0 <= j < s.len() && s[j] == y;
    assert(s.push(x)[j] == y);
}

pub(crate) proof fn lemma_push_contains_inv<A>(s: Seq<A>, x: A, y: A)
    requires
        s.push(x).contains(y),
        y != x,
    ensures
        s.contains(y),
{
    let j = choose|j: int| 0 <= j < s.push(x).len() && s.push(x)[j] == y;
    assert(s[j] == y);
}

pub(crate) proof fn lemma_push_no_dup<A>(s: Seq<A>, x: A)
    requires
        s.no_duplicates(),
        !s.contains(x),
    ensures
        s.push(x).no_duplicates(),
{
    let t = s.push(x);
    assert forall|i: int, j: int| 0 <= i < j < t.len() implies t[i] != t[j] by {
        if j == s.len() {
            assert(t[i] == s[i]);
            if s[i] == x {
                assert(s.contains(x));
            }
        }
    }
}

pub(crate) proof fn lemma_prefix_push<A>(s1: Seq<A>, s2: Seq<A>, x: A)
    requires
        s1.is_prefix_of(s2),
    ensures
        s1.is_prefix_of(s2.push(x)),
{
    assert(s1 =~= s2.push(x).subrange(0, s1.len() as int));
}

} // verus!
