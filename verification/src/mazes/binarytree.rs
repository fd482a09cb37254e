use vstd::prelude::*;

verus! {

use crate::grid::{Grid, lemma_bidi_added, lemma_bidi_fresh, lemma_push_contains_inv};
use crate::grid::cell::{Cell, GridCoords};
use crate::grid::reach::{reach, lemma_reach_refl, lemma_reach_step, lemma_reach_trans};
use crate::mazes::CoinFlip;

/// The single cell with neither a north nor an east neighbor.
pub open spec fn is_top_east_corner(g: Grid, c: GridCoords) -> bool {
    c.row_index + 1 == g.spec_height() && c.col_index + 1 == g.spec_width()
}

/// The topmost-easternmost coordinate of a nonempty grid.
pub open spec fn corner_of(g: Grid) -> GridCoords {
    GridCoords {
        col_index: (g.spec_width() - 1) as usize,
        row_index: (g.spec_height() - 1) as usize,
    }
}

/// The cell is joined, in both directions, to its north or its east
/// neighbor.
pub open spec fn up_linked_bidi(g: Grid, c: GridCoords) -> bool {
    ||| match g.north_neighbor(c) {
        Some(n) => g.linked_bidi(c, n),
        None => false,
    }
    ||| match g.east_neighbor(c) {
        Some(e) => g.linked_bidi(c, e),
        None => false,
    }
}

/// Number of directed links after `k` cells have been processed on a
/// grid that started with none.
pub open spec fn links_after(g0: Grid, k: int) -> int {
    if k < g0.cell_count() {
        2 * k
    } else if g0.cell_count() > 0 {
        2 * (g0.cell_count() - 1)
    } else {
        0
    }
}

/// On a grid that started without links: links are symmetric, no
/// adjacency list repeats a target, and a cell not yet processed (its
/// position in column-major order is at least `k`) only carries links
/// put there by its south or west neighbor.
pub open spec fn fresh_inv(g: Grid, k: int) -> bool {
    &&& g.symmetric()
    &&& forall|c: GridCoords| (#[trigger] g.links_seq(c)).no_duplicates()
    &&& forall|c: GridCoords, x: GridCoords|
        g.in_bounds(c) && g.coord_pos(c) >= k && #[trigger] g.linked(c, x)
            ==> g.south_neighbor(c) == Some(x) || g.west_neighbor(c) == Some(x)
}

/// Joins cell `c`, both ways, to its north or east neighbor `t`, and
/// carries every generator invariant across the mutation.
fn link_up(g: &mut Grid, c: GridCoords, t: GridCoords, Ghost(g0): Ghost<Grid>, Ghost(k): Ghost<int>)
    requires
        old(g).wf(),
        old(g).extends(g0),
        old(g).in_bounds(c),
        old(g).in_bounds(t),
        old(g).north_neighbor(c) == Some(t) || old(g).east_neighbor(c) == Some(t),
        old(g).coord_pos(c) == k,
        g0.no_links() ==> fresh_inv(*old(g), k),
    ensures
        final(g).wf(),
        final(g).extends(g0),
        final(g).spec_height() == old(g).spec_height(),
        final(g).spec_width() == old(g).spec_width(),
        forall|a: GridCoords, b: GridCoords|
            #[trigger] old(g).linked(a, b) ==> final(g).linked(a, b),
        up_linked_bidi(*final(g), c),
        g0.no_links() ==> fresh_inv(*final(g), k + 1),
        g0.no_links() ==> final(g).total_links() == old(g).total_links() + 2,
    {
    proof {
        // t lies strictly north or east of c, so it differs from c and
        // from c's south and west neighbors.
        assert(t != c);
    }
    let r = g.link_bidi(&c, &t);
    proof {
        assert(r is Ok);
        let go = *old(g);
        let gn = *g;
        lemma_bidi_added(go, gn, c, t);
        gn.lemma_extends_trans(go, g0);
        assert(up_linked_bidi(gn, c));
        if g0.no_links() {
            // the new links are fresh on both sides, so both are added
            assert(!go.linked(c, t)) by {
                if go.linked(c, t) {
                    assert(go.south_neighbor(c) == Some(t) || go.west_neighbor(c) == Some(t));
                }
            }
            assert(!go.linked(t, c)) by {
                if go.linked(t, c) {
                    assert(go.linked(c, t));
                }
            }
            assert(gn.links_seq(c) == go.links_seq(c).push(t));
            assert(gn.links_seq(t) == go.links_seq(t).push(c));
            lemma_bidi_fresh(go, gn, c, t);
            assert forall|d: GridCoords, x: GridCoords|
                gn.in_bounds(d) && gn.coord_pos(d) >= k + 1 && #[trigger] gn.linked(d, x) implies
                gn.south_neighbor(d) == Some(x) || gn.west_neighbor(d) == Some(x) by {
                if d == c {
                    assert(gn.coord_pos(c) == k);
                } else if d == t {
                    if x == c {
                        if go.north_neighbor(c) == Some(t) {
                            assert(gn.south_neighbor(t) == Some(c));
                        } else {
                            assert(gn.west_neighbor(t) == Some(c));
                        }
                    } else {
                        lemma_push_contains_inv(go.links_seq(t), c, x);
                        assert(go.linked(t, x));
                        assert(go.coord_pos(t) >= k) by {
                            if go.north_neighbor(c) == Some(t) {
                                assert(go.coord_pos(t) == k + 1);
                            } else {
                                assert(t.col_index == c.col_index + 1 && t.row_index
                                    == c.row_index);
                                assert((c.col_index + 1) * go.spec_height() == c.col_index
                                    * go.spec_height() + go.spec_height()) by (nonlinear_arith);
                            }
                        }
                    }
                } else {
                    assert(go.linked(d, x));
                }
            }
        }
    }
}

/// Generates a binary-tree maze over `grid`: for every cell a fair coin
/// chooses whether to try linking north before east or east before
/// north; whichever neighbor exists first is joined in both directions.
/// The topmost-easternmost cell has neither and receives no link.
///
/// Whatever the coin outcomes, the result links every cell except that
/// corner upward, so all cells are mutually reachable. Started from a
/// grid without links, the links stay symmetric, no list repeats a
/// target, and exactly `2 * (cells - 1)` directed links exist: the
/// `cells - 1` corridors of a spanning tree.
pub fn apply_to(grid: Grid, rng: &mut rand::rngs::StdRng) -> (result: Grid)
    requires
        grid.wf(),
    ensures
        result.wf(),
        result.extends(grid),
        result.spec_height() == grid.spec_height(),
        result.spec_width() == grid.spec_width(),
        forall|c: GridCoords|
            result.in_bounds(c) && !is_top_east_corner(result, c) ==> #[trigger] up_linked_bidi(
                result,
                c,
            ),
        forall|a: GridCoords, b: GridCoords|
            result.in_bounds(a) && result.in_bounds(b) ==> #[trigger] reach(result, a, b),
        grid.no_links() ==> result.symmetric(),
        grid.no_links() ==> forall|c: GridCoords|
            (#[trigger] result.links_seq(c)).no_duplicates(),
        grid.no_links() ==> result.total_links() == links_after(grid, grid.cell_count()),
{
    let ghost g0 = grid;
    let mut g = grid;
    proof {
        if g0.no_links() {
            g0.lemma_no_links_total();
        }
    }
    let coords = g.coords();
    let mut k: usize = 0;
    while k < coords.len()
        invariant
            g.wf(),
            g.extends(g0),
            coords@ == g0.coords_seq(),
            coords@.len() == g0.cell_count(),
            k <= coords@.len(),
            forall|j: int|
                0 <= j < k && !is_top_east_corner(g, #[trigger] g0.coords_seq()[j])
                    ==> up_linked_bidi(g, g0.coords_seq()[j]),
            g0.no_links() ==> fresh_inv(g, k as int),
            g0.no_links() ==> g.total_links() == links_after(g0, k as int),
        decreases coords@.len() - k,
    {
        let c = coords[k];
        proof {
            g0.lemma_coords_seq_at(k as int);
        }
        let cell = Cell::new(&c);
        let north = g.north(&cell);
        let east = g.east(&cell);
        let ghost g_before = g;
        let mut linked_up = false;
        match crate::mazes::flip(rng) {
            CoinFlip::Heads => {
                if let Some(n) = north {
                    link_up(&mut g, c, n.coords, Ghost(g0), Ghost(k as int));
                    linked_up = true;
                } else if let Some(e) = east {
                    link_up(&mut g, c, e.coords, Ghost(g0), Ghost(k as int));
                    linked_up = true;
                }
            },
            CoinFlip::Tails => {
                if let Some(e) = east {
                    link_up(&mut g, c, e.coords, Ghost(g0), Ghost(k as int));
                    linked_up = true;
                } else if let Some(n) = north {
                    link_up(&mut g, c, n.coords, Ghost(g0), Ghost(k as int));
                    linked_up = true;
                }
            },
        }
        proof {
            if linked_up {
                // every previously processed cell keeps its upward pair
                assert forall|j: int|
                    0 <= j < k + 1 && !is_top_east_corner(g, #[trigger] g0.coords_seq()[j])
                        implies up_linked_bidi(g, g0.coords_seq()[j]) by {
                    if j < k {
                        assert(up_linked_bidi(g_before, g0.coords_seq()[j]));
                    }
                }
                if g0.no_links() {
                    // a cell that still links upward is not the corner,
                    // and the corner sits last in column-major order
                    assert(c != corner_of(g0));
                    if g0.coord_pos(c) == g0.cell_count() - 1 {
                        let corner = corner_of(g0);
                        assert(g0.in_bounds(corner));
                        assert((g0.spec_width() - 1) * g0.spec_height() + (g0.spec_height() - 1)
                            == g0.spec_height() * g0.spec_width() - 1) by (nonlinear_arith);
                        assert(g0.coord_pos(corner) == g0.cell_count() - 1);
                        g0.lemma_coord_pos(corner);
                        assert(g0.coords_seq()[k as int] == c);
                        assert(c == corner);
                        assert(false);
                    }
                }
            } else {
                // no north and no east neighbor: c is the corner cell
                assert(is_top_east_corner(g, c));
                assert(c.col_index * g0.spec_height() + c.row_index == g0.spec_height()
                    * g0.spec_width() - 1) by (nonlinear_arith)
                    requires
                        c.row_index + 1 == g0.spec_height(),
                        c.col_index + 1 == g0.spec_width(),
                ;
            }
        }
        k = k + 1;
    }
    proof {
        assert forall|c: GridCoords|
            g.in_bounds(c) && !is_top_east_corner(g, c) implies #[trigger] up_linked_bidi(g, c) by {
            g0.lemma_coord_pos(c);
            assert(g0.coords_seq()[g0.coord_pos(c)] == c);
        }
        lemma_up_links_connect(g);
    }
    g
}

/// Every cell of a grid whose non-corner cells all link upward in both
/// directions can reach the corner, and be reached from it.
proof fn lemma_reach_corner(g: Grid, c: GridCoords)
    requires
        g.in_bounds(c),
        forall|d: GridCoords|
            g.in_bounds(d) && !is_top_east_corner(g, d) ==> #[trigger] up_linked_bidi(g, d),
    ensures
        reach(g, c, corner_of(g)),
        reach(g, corner_of(g), c),
    decreases (g.spec_height() - c.row_index) + (g.spec_width() - c.col_index),
{
    let corner = corner_of(g);
    if c == corner {
        lemma_reach_refl(g, c);
    } else {
        assert(!is_top_east_corner(g, c));
        assert(up_linked_bidi(g, c));
        let north_case = match g.north_neighbor(c) {
            Some(n) => g.linked_bidi(c, n),
            None => false,
        };
        if north_case {
            let n = g.north_neighbor(c)->Some_0;
            lemma_reach_corner(g, n);
            lemma_reach_step(g, c, n);
            lemma_reach_trans(g, c, n, corner);
            lemma_reach_step(g, n, c);
            lemma_reach_trans(g, corner, n, c);
        } else {
            let e = g.east_neighbor(c)->Some_0;
            lemma_reach_corner(g, e);
            lemma_reach_step(g, c, e);
            lemma_reach_trans(g, c, e, corner);
            lemma_reach_step(g, e, c);
            lemma_reach_trans(g, corner, e, c);
        }
    }
}

/// A grid whose non-corner cells all link upward in both directions is
/// connected: every cell reaches every other.
pub proof fn lemma_up_links_connect(g: Grid)
    requires
        forall|d: GridCoords|
            g.in_bounds(d) && !is_top_east_corner(g, d) ==> #[trigger] up_linked_bidi(g, d),
    ensures
        forall|a: GridCoords, b: GridCoords|
            g.in_bounds(a) && g.in_bounds(b) ==> #[trigger] reach(g, a, b),
{
    assert forall|a: GridCoords, b: GridCoords|
        g.in_bounds(a) && g.in_bounds(b) implies #[trigger] reach(g, a, b) by {
        lemma_reach_corner(g, a);
        lemma_reach_corner(g, b);
        lemma_reach_trans(g, a, corner_of(g), b);
    }
}

} // verus!
