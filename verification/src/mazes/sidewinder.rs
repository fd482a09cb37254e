use vstd::prelude::*;

verus! {

use crate::grid::{Grid, lemma_bidi_added, lemma_bidi_fresh};
use crate::grid::cell::{Cell, GridCoords};
use crate::grid::reach::{reach, lemma_reach_refl, lemma_reach_step, lemma_reach_trans,
    lemma_reach_mono, lemma_linked_mono};
use crate::mazes::CoinFlip;

/// The cell is joined, in both directions, to its east neighbor.
pub open spec fn east_bidi(g: Grid, c: GridCoords) -> bool {
    match g.east_neighbor(c) {
        Some(e) => g.linked_bidi(c, e),
        None => false,
    }
}

/// The cell is joined, in both directions, to its north neighbor.
pub open spec fn north_exit(g: Grid, c: GridCoords) -> bool {
    match g.north_neighbor(c) {
        Some(n) => g.linked_bidi(c, n),
        None => false,
    }
}

/// Somewhere in its own row, reachable from `c` in both directions,
/// stands a cell joined to the row above.
pub open spec fn row_exit(g: Grid, c: GridCoords) -> bool {
    exists|t: GridCoords|
        t.row_index == c.row_index && g.in_bounds(t) && #[trigger] north_exit(g, t) && reach(
            g,
            c,
            t,
        ) && reach(g, t, c)
}

/// The topmost row is one continuous corridor.
pub open spec fn top_row_chained(g: Grid) -> bool {
    forall|c: GridCoords|
        g.in_bounds(c) && c.row_index + 1 == g.spec_height() && c.col_index + 1
            < g.spec_width() ==> #[trigger] east_bidi(g, c)
}

/// A link that closing the given run may add: between two run cells, or
/// between a run cell and its north neighbor, in either direction.
pub open spec fn run_link(g: Grid, run: Seq<GridCoords>, d: GridCoords, x: GridCoords) -> bool {
    ||| run.contains(d) && run.contains(x)
    ||| run.contains(d) && g.north_neighbor(d) == Some(x)
    ||| run.contains(x) && g.south_neighbor(d) == Some(x)
}

/// On a grid that started without links, every link held by a run cell
/// so far: its south neighbor's upward link, or the horizontal links of
/// the first `i` closed pairs.
pub open spec fn run_entries_ok(g: Grid, run: Seq<GridCoords>, i: int) -> bool {
    forall|j: int, x: GridCoords|
        0 <= j < run.len() && #[trigger] g.linked(run[j], x) ==> {
            ||| g.south_neighbor(run[j]) == Some(x)
            ||| 1 <= j < i && x == run[j - 1]
            ||| 0 <= j && j + 1 < i && x == run[j + 1]
        }
}

/// The cells of a run sit side by side in one row, west to east.
proof fn lemma_run_shape(g: Grid, run: Seq<GridCoords>, j: int)
    requires
        forall|i: int| 0 <= i < run.len() ==> g.in_bounds(#[trigger] run[i]),
        forall|i: int|
            0 < i < run.len() ==> g.east_neighbor(run[i - 1]) == Some(#[trigger] run[i]),
        0 <= j < run.len(),
    ensures
        run[j].row_index == run[0].row_index,
        run[j].col_index == run[0].col_index + j,
    decreases j,
{
    if j > 0 {
        lemma_run_shape(g, run, j - 1);
    }
}

/// Closes a run: joins its cells side to side, then joins one cell,
/// chosen uniformly, to its north neighbor if that exists, and clears
/// the run.
fn close_run(
    g: &mut Grid,
    run: &mut Vec<GridCoords>,
    rng: &mut rand::rngs::StdRng,
    Ghost(g0): Ghost<Grid>,
)
    requires
        old(g).wf(),
        old(g).extends(g0),
        forall|i: int| 0 <= i < old(run)@.len() ==> old(g).in_bounds(#[trigger] old(run)@[i]),
        forall|i: int|
            0 < i < old(run)@.len() ==> old(g).east_neighbor(old(run)@[i - 1]) == Some(
                #[trigger] old(run)@[i],
            ),
        g0.no_links() ==> old(g).symmetric(),
        g0.no_links() ==> forall|c: GridCoords| (#[trigger] old(g).links_seq(c)).no_duplicates(),
        g0.no_links() ==> run_entries_ok(*old(g), old(run)@, 0),
    ensures
        final(g).wf(),
        final(g).extends(g0),
        final(g).extends(*old(g)),
        final(g).spec_height() == old(g).spec_height(),
        final(g).spec_width() == old(g).spec_width(),
        final(run)@.len() == 0,
        forall|d: GridCoords, x: GridCoords|
            #[trigger] final(g).linked(d, x) ==> old(g).linked(d, x) || run_link(
                *old(g),
                old(run)@,
                d,
                x,
            ),
        forall|i: int|
            0 < i < old(run)@.len() ==> final(g).linked_bidi(
                old(run)@[i - 1],
                #[trigger] old(run)@[i],
            ),
        forall|a: int, b: int|
            0 <= a < old(run)@.len() && 0 <= b < old(run)@.len() ==> #[trigger] reach(
                *final(g),
                old(run)@[a],
                old(run)@[b],
            ),
        old(run)@.len() > 0 && old(g).north_neighbor(old(run)@[0]) is Some ==> exists|j: int|
            0 <= j < old(run)@.len() && north_exit(*final(g), #[trigger] old(run)@[j]),
        g0.no_links() ==> final(g).symmetric(),
        g0.no_links() ==> forall|c: GridCoords| (#[trigger] final(g).links_seq(c)).no_duplicates(),
        g0.no_links() ==> final(g).total_links() == old(g).total_links() + (if old(run)@.len()
            == 0 {
            0int
        } else {
            2 * ((old(run)@.len() - 1) + (if old(g).north_neighbor(old(run)@[0]) is Some {
                1int
            } else {
                0int
            }))
        }),
{
    let ghost run0 = old(run)@;
    let ghost g_entry = *old(g);
    if run.len() > 0 {
        proof {
            assert forall|a: int, b: int|
                0 <= a < run0.len() && 0 <= b < run0.len() && a != b implies run0[a] != run0[b] by {
                lemma_run_shape(g_entry, run0, a);
                lemma_run_shape(g_entry, run0, b);
            }
            lemma_reach_refl(*g, run0[0]);
        }
        let mut i: usize = 1;
        while i < run.len()
            invariant
                g.wf(),
                g.extends(g0),
                g.extends(g_entry),
                g.spec_height() == g_entry.spec_height(),
                g.spec_width() == g_entry.spec_width(),
                run@ == run0,
                1 <= i <= run0.len(),
                forall|p: int| 0 <= p < run0.len() ==> g_entry.in_bounds(#[trigger] run0[p]),
                forall|p: int|
                    0 < p < run0.len() ==> g_entry.east_neighbor(run0[p - 1]) == Some(
                        #[trigger] run0[p],
                    ),
                forall|a: int, b: int|
                    0 <= a < run0.len() && 0 <= b < run0.len() && a != b ==> run0[a] != run0[b],
                forall|d: GridCoords, x: GridCoords|
                    #[trigger] g.linked(d, x) ==> g_entry.linked(d, x) || (run0.contains(d)
                        && run0.contains(x)),
                forall|p: int|
                    0 < p < i ==> g.linked_bidi(run0[p - 1], #[trigger] run0[p]),
                forall|a: int, b: int|
                    0 <= a < i && 0 <= b < i ==> #[trigger] reach(*g, run0[a], run0[b]),
                g0.no_links() ==> g.symmetric(),
                g0.no_links() ==> forall|c: GridCoords|
                    (#[trigger] g.links_seq(c)).no_duplicates(),
                g0.no_links() ==> run_entries_ok(*g, run0, i as int),
                g0.no_links() ==> g.total_links() == g_entry.total_links() + 2 * (i - 1),
            decreases run0.len() - i,
        {
            let a = run[i - 1];
            let b = run[i];
            let ghost gm = *g;
            proof {
                lemma_run_shape(g_entry, run0, i - 1 as int);
                lemma_run_shape(g_entry, run0, i as int);
                assert(a != b);
            }
            let r = g.link_bidi(&a, &b);
            proof {
                assert(r is Ok);
                lemma_bidi_added(gm, *g, a, b);
                if g0.no_links() {
                    assert(!gm.linked(a, b)) by {
                        if gm.linked(a, b) {
                            let i2 = i - 2;
                            assert(gm.south_neighbor(a) == Some(b) || (1 <= i - 1 < i && b
                                == run0[i2]) || (i < i && b == run0[i as int]));
                        }
                    }
                    assert(!gm.linked(b, a)) by {
                        if gm.linked(b, a) {
                            assert(gm.linked(a, b));
                        }
                    }
                    lemma_bidi_fresh(gm, *g, a, b);
                    assert forall|j: int, x: GridCoords|
                        0 <= j < run0.len() && #[trigger] g.linked(run0[j], x) implies {
                        ||| g.south_neighbor(run0[j]) == Some(x)
                        ||| 1 <= j < i + 1 && x == run0[j - 1]
                        ||| 0 <= j && j + 1 < i + 1 && x == run0[j + 1]
                    } by {
                        if gm.linked(run0[j], x) {
                            assert(gm.south_neighbor(run0[j]) == Some(x) || (1 <= j < i && x
                                == run0[j - 1]) || (0 <= j && j + 1 < i && x == run0[j + 1]));
                        } else if run0[j] == a && x == b {
                            assert(j == i - 1);
                        } else {
                            assert(run0[j] == b && x == a);
                            assert(j == i);
                        }
                    }
                }
                // reachability among the first i + 1 run cells
                lemma_reach_step(*g, a, b);
                lemma_reach_step(*g, b, a);
                assert forall|p: int, q: int|
                    0 <= p < i + 1 && 0 <= q < i + 1 implies #[trigger] reach(
                    *g,
                    run0[p],
                    run0[q],
                ) by {
                    if p < i && q < i {
                        lemma_reach_mono(gm, *g, run0[p], run0[q]);
                    } else if p == i && q == i {
                        lemma_reach_refl(*g, run0[i as int]);
                    } else if p == i {
                        lemma_reach_mono(gm, *g, run0[i - 1 as int], run0[q]);
                        lemma_reach_trans(*g, run0[i as int], run0[i - 1 as int], run0[q]);
                    } else {
                        lemma_reach_mono(gm, *g, run0[p], run0[i - 1 as int]);
                        lemma_reach_trans(*g, run0[p], run0[i - 1 as int], run0[i as int]);
                    }
                }
                assert forall|p: int| 0 < p < i + 1 implies g.linked_bidi(
                    run0[p - 1],
                    #[trigger] run0[p],
                ) by {
                    if p < i {
                        lemma_linked_mono(gm, *g, run0[p - 1], run0[p]);
                        lemma_linked_mono(gm, *g, run0[p], run0[p - 1]);
                    }
                }
                g.lemma_extends_trans(gm, g_entry);
                g.lemma_extends_trans(gm, g0);
            }
            i = i + 1;
        }
        let idx = crate::rng::random_below(rng, run.len());
        let rcc = run[idx];
        let cell = Cell::new(&rcc);
        let north = g.north(&cell);
        let ghost g_mid = *g;
        proof {
            lemma_run_shape(g_entry, run0, idx as int);
            lemma_run_shape(g_entry, run0, 0);
        }
        if let Some(ncell) = north {
            let n = ncell.coords;
            let r2 = g.link_bidi(&rcc, &n);
            proof {
                assert(r2 is Ok);
                assert(rcc != n);
                lemma_bidi_added(g_mid, *g, rcc, n);
                if g0.no_links() {
                    assert(!g_mid.linked(rcc, n)) by {
                        if g_mid.linked(rcc, n) {
                            assert(g_mid.south_neighbor(run0[idx as int]) == Some(n) || (1 <= idx
                                < run0.len() && n == run0[idx - 1]) || (idx + 1 < run0.len() && n
                                == run0[idx + 1]));
                        }
                    }
                    assert(!g_mid.linked(n, rcc)) by {
                        if g_mid.linked(n, rcc) {
                            assert(g_mid.linked(rcc, n));
                        }
                    }
                    lemma_bidi_fresh(g_mid, *g, rcc, n);
                }
                g.lemma_extends_trans(g_mid, g_entry);
                g.lemma_extends_trans(g_mid, g0);
                assert(north_exit(*g, rcc));
                assert forall|a: int, b: int|
                    0 <= a < run0.len() && 0 <= b < run0.len() implies #[trigger] reach(
                    *g,
                    run0[a],
                    run0[b],
                ) by {
                    lemma_reach_mono(g_mid, *g, run0[a], run0[b]);
                }
                assert forall|p: int| 0 < p < run0.len() implies g.linked_bidi(
                    run0[p - 1],
                    #[trigger] run0[p],
                ) by {
                    lemma_linked_mono(g_mid, *g, run0[p - 1], run0[p]);
                    lemma_linked_mono(g_mid, *g, run0[p], run0[p - 1]);
                }
                assert(exists|j: int|
                    0 <= j < run0.len() && north_exit(*g, #[trigger] run0[j])) by {
                    assert(north_exit(*g, run0[idx as int]));
                }
            }
        } else {
            proof {
                assert(g_mid.north_neighbor(run0[0]) is None);
            }
        }
        proof {
            // every link is an old one or one the run contributed
            assert forall|d: GridCoords, x: GridCoords| #[trigger] g.linked(d, x) implies
                g_entry.linked(d, x) || run_link(g_entry, run0, d, x) by {
                if !g_entry.linked(d, x) {
                    if g_mid.linked(d, x) {
                        assert(run0.contains(d) && run0.contains(x));
                    }
                }
            }
        }
        run.clear();
    } else {
        proof {
            g.lemma_extends_refl();
        }
    }
}

/// The westmost cell of the topmost row.
pub open spec fn top_west(g: Grid) -> GridCoords {
    GridCoords { col_index: 0, row_index: (g.spec_height() - 1) as usize }
}

/// Along a chained top row, every cell reaches the row's west end and
/// back.
proof fn lemma_top_chain(g: Grid, c: GridCoords)
    requires
        g.in_bounds(c),
        c.row_index + 1 == g.spec_height(),
        top_row_chained(g),
    ensures
        reach(g, c, top_west(g)),
        reach(g, top_west(g), c),
    decreases c.col_index,
{
    if c.col_index == 0 {
        assert(c == top_west(g));
        lemma_reach_refl(g, c);
    } else {
        let w = GridCoords { col_index: (c.col_index - 1) as usize, row_index: c.row_index };
        assert(east_bidi(g, w));
        assert(g.east_neighbor(w) == Some(c));
        lemma_top_chain(g, w);
        lemma_reach_step(g, c, w);
        lemma_reach_step(g, w, c);
        lemma_reach_trans(g, c, w, top_west(g));
        lemma_reach_trans(g, top_west(g), w, c);
    }
}

/// When every cell below the top row has a row exit and the top row is
/// chained, every cell reaches the top row's west end and back.
proof fn lemma_reach_top(g: Grid, c: GridCoords)
    requires
        g.in_bounds(c),
        forall|d: GridCoords|
            g.in_bounds(d) && d.row_index + 1 < g.spec_height() ==> #[trigger] row_exit(g, d),
        top_row_chained(g),
    ensures
        reach(g, c, top_west(g)),
        reach(g, top_west(g), c),
    decreases g.spec_height() - c.row_index,
{
    if c.row_index + 1 == g.spec_height() {
        lemma_top_chain(g, c);
    } else {
        assert(row_exit(g, c));
        let t = choose|t: GridCoords|
            t.row_index == c.row_index && g.in_bounds(t) && #[trigger] north_exit(g, t) && reach(
                g,
                c,
                t,
            ) && reach(g, t, c);
        let n = g.north_neighbor(t)->Some_0;
        assert(g.north_neighbor(t) is Some && g.linked_bidi(t, n));
        assert(g.in_bounds(n) && n.row_index == c.row_index + 1);
        lemma_reach_step(g, t, n);
        lemma_reach_step(g, n, t);
        lemma_reach_top(g, n);
        lemma_reach_trans(g, c, t, n);
        lemma_reach_trans(g, c, n, top_west(g));
        lemma_reach_trans(g, top_west(g), n, t);
        lemma_reach_trans(g, top_west(g), t, c);
    }
}

/// A grid whose lower rows all have row exits and whose top row is one
/// corridor is connected: every cell reaches every other.
pub proof fn lemma_rows_connect(g: Grid)
    requires
        forall|d: GridCoords|
            g.in_bounds(d) && d.row_index + 1 < g.spec_height() ==> #[trigger] row_exit(g, d),
        top_row_chained(g),
    ensures
        forall|a: GridCoords, b: GridCoords|
            g.in_bounds(a) && g.in_bounds(b) ==> #[trigger] reach(g, a, b),
{
    assert forall|a: GridCoords, b: GridCoords|
        g.in_bounds(a) && g.in_bounds(b) implies #[trigger] reach(g, a, b) by {
        lemma_reach_top(g, a);
        lemma_reach_top(g, b);
        lemma_reach_trans(g, a, top_west(g), b);
    }
}

/// A row exit keeps its meaning when links are only added.
proof fn lemma_row_exit_mono(g1: Grid, g2: Grid, c: GridCoords)
    requires
        g2.extends(g1),
        row_exit(g1, c),
    ensures
        row_exit(g2, c),
{
    let t = choose|t: GridCoords|
        t.row_index == c.row_index && g1.in_bounds(t) && #[trigger] north_exit(g1, t) && reach(
            g1,
            c,
            t,
        ) && reach(g1, t, c);
    lemma_reach_mono(g1, g2, c, t);
    lemma_reach_mono(g1, g2, t, c);
    let n = g1.north_neighbor(t)->Some_0;
    assert(g1.north_neighbor(t) is Some);
    lemma_linked_mono(g1, g2, t, n);
    lemma_linked_mono(g1, g2, n, t);
    assert(north_exit(g2, t));
}


/// After closing a run whose cells fill columns `boundary - len` up to
/// `boundary - 1` of row `row_idx`, every cell west of `boundary` in
/// that row, and every cell of a lower row that already had one, has a
/// row exit.
proof fn lemma_close_row_exits(
    gb: Grid,
    gn: Grid,
    run_b: Seq<GridCoords>,
    row_idx: int,
    boundary: int,
)
    requires
        gn.extends(gb),
        1 <= run_b.len() <= boundary,
        forall|j: int|
            0 <= j < run_b.len() ==> #[trigger] run_b[j] == (GridCoords {
                col_index: (boundary - run_b.len() + j) as usize,
                row_index: row_idx as usize,
            }),
        0 <= row_idx && row_idx + 1 < gb.spec_height(),
        boundary <= gb.spec_width(),
        forall|c: GridCoords|
            gb.in_bounds(c) && c.row_index + 1 < gb.spec_height() && ((c.row_index as int)
                < row_idx || ((c.row_index as int) == row_idx && (c.col_index as int) < boundary
                - run_b.len())) ==> #[trigger] row_exit(gb, c),
        forall|a: int, b: int|
            0 <= a < run_b.len() && 0 <= b < run_b.len() ==> #[trigger] reach(
                gn,
                run_b[a],
                run_b[b],
            ),
        exists|j: int| 0 <= j < run_b.len() && north_exit(gn, #[trigger] run_b[j]),
    ensures
        forall|c: GridCoords|
            gn.in_bounds(c) && c.row_index + 1 < gn.spec_height() && ((c.row_index as int)
                < row_idx || ((c.row_index as int) == row_idx && (c.col_index as int)
                < boundary)) ==> #[trigger] row_exit(gn, c),
{
    assert forall|cc: GridCoords|
        gn.in_bounds(cc) && cc.row_index + 1 < gn.spec_height() && ((cc.row_index as int)
            < row_idx || ((cc.row_index as int) == row_idx && (cc.col_index as int)
            < boundary)) implies #[trigger] row_exit(gn, cc) by {
        if (cc.row_index as int) < row_idx || (cc.col_index as int) < boundary - run_b.len() {
            assert(row_exit(gb, cc));
            lemma_row_exit_mono(gb, gn, cc);
        } else {
            let p = cc.col_index - (boundary - run_b.len());
            assert(run_b[p as int] == cc);
            let j = choose|j: int| 0 <= j < run_b.len() && north_exit(gn, #[trigger] run_b[j]);
            assert(run_b[j].row_index == row_idx && gn.in_bounds(run_b[j]));
            assert(reach(gn, cc, run_b[j]) && reach(gn, run_b[j], cc));
            assert(row_exit(gn, cc));
        }
    }
}

/// After closing such a run, every link of a cell east of `boundary` in
/// row `row_idx`, or of any higher row, still points at the cell's
/// south neighbor.
proof fn lemma_close_south_only(
    gb: Grid,
    gn: Grid,
    run_b: Seq<GridCoords>,
    row_idx: int,
    boundary: int,
)
    requires
        gn.spec_height() == gb.spec_height(),
        gn.spec_width() == gb.spec_width(),
        1 <= run_b.len() <= boundary,
        forall|j: int|
            0 <= j < run_b.len() ==> #[trigger] run_b[j] == (GridCoords {
                col_index: (boundary - run_b.len() + j) as usize,
                row_index: row_idx as usize,
            }),
        0 <= row_idx < gb.spec_height(),
        forall|c: GridCoords, x: GridCoords|
            gb.in_bounds(c) && ((c.row_index as int) > row_idx || ((c.row_index as int) == row_idx
                && (c.col_index as int) >= boundary - run_b.len())) && #[trigger] gb.linked(c, x)
                ==> gb.south_neighbor(c) == Some(x),
        forall|d: GridCoords, x: GridCoords|
            #[trigger] gn.linked(d, x) ==> gb.linked(d, x) || run_link(gb, run_b, d, x),
    ensures
        forall|c: GridCoords, x: GridCoords|
            gn.in_bounds(c) && ((c.row_index as int) > row_idx || ((c.row_index as int) == row_idx
                && (c.col_index as int) >= boundary)) && #[trigger] gn.linked(c, x)
                ==> gn.south_neighbor(c) == Some(x),
{
    assert forall|cc: GridCoords, x: GridCoords|
        gn.in_bounds(cc) && ((cc.row_index as int) > row_idx || ((cc.row_index as int) == row_idx
            && (cc.col_index as int) >= boundary)) && #[trigger] gn.linked(cc, x) implies
        gn.south_neighbor(cc) == Some(x) by {
        if gb.linked(cc, x) {
        } else {
            if run_b.contains(cc) {
                let p = choose|p: int| 0 <= p < run_b.len() && run_b[p] == cc;
                assert(run_b[p].row_index == row_idx && (run_b[p].col_index as int) < boundary);
                assert(false);
            } else {
                assert(run_b.contains(x) && gb.south_neighbor(cc) == Some(x));
            }
        }
    }
}

/// A run block occupying columns `boundary - len` to `boundary - 1` of
/// one row consists of in-bounds, east-consecutive cells.
proof fn lemma_run_block_shape(gb: Grid, run_b: Seq<GridCoords>, row_idx: int, boundary: int)
    requires
        1 <= run_b.len() <= boundary,
        boundary <= gb.spec_width(),
        0 <= row_idx < gb.spec_height(),
        forall|j: int|
            0 <= j < run_b.len() ==> #[trigger] run_b[j] == (GridCoords {
                col_index: (boundary - run_b.len() + j) as usize,
                row_index: row_idx as usize,
            }),
    ensures
        forall|j: int| 0 <= j < run_b.len() ==> gb.in_bounds(#[trigger] run_b[j]),
        forall|j: int|
            0 < j < run_b.len() ==> gb.east_neighbor(run_b[j - 1]) == Some(#[trigger] run_b[j]),
{
    assert forall|j: int| 0 <= j < run_b.len() implies gb.in_bounds(#[trigger] run_b[j]) by {
        assert(run_b[j].col_index == boundary - run_b.len() + j);
    }
    assert forall|j: int|
        0 < j < run_b.len() implies gb.east_neighbor(run_b[j - 1]) == Some(
        #[trigger] run_b[j],
    ) by {
        assert(run_b[j - 1].col_index == boundary - run_b.len() + j - 1);
        assert(run_b[j].col_index == boundary - run_b.len() + j);
    }
}

/// When every cell at or east of the run block carries only its south
/// neighbor's link, the run block's own entries are all such links.
proof fn lemma_run_entries_from_south_only(
    gb: Grid,
    run_b: Seq<GridCoords>,
    row_idx: int,
    boundary: int,
)
    requires
        1 <= run_b.len() <= boundary,
        boundary <= gb.spec_width(),
        0 <= row_idx < gb.spec_height(),
        forall|j: int|
            0 <= j < run_b.len() ==> #[trigger] run_b[j] == (GridCoords {
                col_index: (boundary - run_b.len() + j) as usize,
                row_index: row_idx as usize,
            }),
        forall|c: GridCoords, x: GridCoords|
            gb.in_bounds(c) && ((c.row_index as int) > row_idx || ((c.row_index as int) == row_idx
                && (c.col_index as int) >= boundary - run_b.len())) && #[trigger] gb.linked(c, x)
                ==> gb.south_neighbor(c) == Some(x),
    ensures
        run_entries_ok(gb, run_b, 0),
{
    assert forall|j: int, x: GridCoords|
        0 <= j < run_b.len() && #[trigger] gb.linked(run_b[j], x) implies gb.south_neighbor(
        run_b[j],
    ) == Some(x) by {
        assert((run_b[j].col_index as int) >= boundary - run_b.len());
    }
}

/// Closes the run that ends at column `i` of a row below the top, and
/// re-establishes the row-processing facts with the closed region grown
/// to column `i` inclusive.
#[verifier::rlimit(100)]
fn close_mid(
    g: &mut Grid,
    run: &mut Vec<GridCoords>,
    rng: &mut rand::rngs::StdRng,
    row_idx: usize,
    i: usize,
    Ghost(g0): Ghost<Grid>,
)
    requires
        old(g).wf(),
        old(g).extends(g0),
        old(g).spec_height() == g0.spec_height(),
        old(g).spec_width() == g0.spec_width(),
        (row_idx as int) + 1 < g0.spec_height(),
        (i as int) < g0.spec_width(),
        1 <= old(run)@.len() <= i + 1,
        forall|j: int|
            0 <= j < old(run)@.len() ==> #[trigger] old(run)@[j] == (GridCoords {
                col_index: (i + 1 - old(run)@.len() + j) as usize,
                row_index: row_idx,
            }),
        forall|c: GridCoords|
            old(g).in_bounds(c) && c.row_index + 1 < g0.spec_height() && ((c.row_index as int)
                < row_idx as int || ((c.row_index as int) == row_idx as int && (
            c.col_index as int) < i + 1 - old(run)@.len())) ==> #[trigger] row_exit(*old(g), c),
        g0.no_links() ==> old(g).symmetric(),
        g0.no_links() ==> forall|c: GridCoords| (#[trigger] old(g).links_seq(c)).no_duplicates(),
        g0.no_links() ==> forall|c: GridCoords, x: GridCoords|
            old(g).in_bounds(c) && ((c.row_index as int) > row_idx as int || ((
            c.row_index as int) == row_idx as int && (c.col_index as int) >= i + 1 - old(
                run,
            )@.len())) && #[trigger] old(g).linked(c, x) ==> old(g).south_neighbor(c) == Some(x),
        g0.no_links() ==> old(g).total_links() == (if g0.cell_count() == 0 {
            0int
        } else {
            2 * ((row_idx as int) * g0.spec_width() + (i + 1 - old(run)@.len()))
        }),
    ensures
        final(g).wf(),
        final(g).extends(g0),
        final(g).spec_height() == g0.spec_height(),
        final(g).spec_width() == g0.spec_width(),
        final(run)@.len() == 0,
        forall|c: GridCoords|
            final(g).in_bounds(c) && c.row_index + 1 < g0.spec_height() && ((c.row_index as int)
                < row_idx as int || ((c.row_index as int) == row_idx as int && (
            c.col_index as int) < i + 1)) ==> #[trigger] row_exit(*final(g), c),
        g0.no_links() ==> final(g).symmetric(),
        g0.no_links() ==> forall|c: GridCoords| (#[trigger] final(g).links_seq(c)).no_duplicates(),
        g0.no_links() ==> forall|c: GridCoords, x: GridCoords|
            final(g).in_bounds(c) && ((c.row_index as int) > row_idx as int || ((
            c.row_index as int) == row_idx as int && (c.col_index as int) >= i + 1)) && #[trigger]
            final(g).linked(c, x) ==> final(g).south_neighbor(c) == Some(x),
        g0.no_links() ==> final(g).total_links() == (if g0.cell_count() == 0 {
            0int
        } else {
            2 * ((row_idx as int) * g0.spec_width() + (i + 1))
        }),
{
    let ghost gb = *old(g);
    let ghost run_b = old(run)@;
    proof {
        lemma_run_block_shape(gb, run_b, row_idx as int, i + 1);
        if g0.no_links() {
            lemma_run_entries_from_south_only(gb, run_b, row_idx as int, i + 1);
        }
    }
    close_run(g, run, rng, Ghost(g0));
    proof {
        assert(gb.north_neighbor(run_b[0]) is Some) by {
            assert(run_b[0].row_index == row_idx);
        }
        lemma_close_row_exits(gb, *g, run_b, row_idx as int, i + 1);
        if g0.no_links() {
            lemma_close_south_only(gb, *g, run_b, row_idx as int, i + 1);
            assert(g0.cell_count() > 0) by (nonlinear_arith)
                requires
                    g0.cell_count() == g0.spec_height() * g0.spec_width(),
                    g0.spec_height() >= 1,
                    g0.spec_width() >= 1,
            ;
            let base = (row_idx as int) * g0.spec_width();
            let lenb = run_b.len() as int;
            assert(gb.total_links() == 2 * (base + (i + 1 - lenb)));
            assert(g.total_links() == gb.total_links() + 2 * ((lenb - 1) + 1));
            assert(g.total_links() == 2 * (base + (i + 1)));
        }
    }
}


/// Closes whatever run remains at the end of row `row_idx`, and
/// re-establishes the row facts for the next row. On the topmost row
/// the run is the whole row, and closing it chains the row together.
#[verifier::rlimit(100)]
fn close_row_end(
    g: &mut Grid,
    run: &mut Vec<GridCoords>,
    rng: &mut rand::rngs::StdRng,
    row_idx: usize,
    Ghost(g0): Ghost<Grid>,
)
    requires
        old(g).wf(),
        old(g).extends(g0),
        old(g).spec_height() == g0.spec_height(),
        old(g).spec_width() == g0.spec_width(),
        (row_idx as int) < g0.spec_height(),
        old(run)@.len() <= g0.spec_width(),
        forall|j: int|
            0 <= j < old(run)@.len() ==> #[trigger] old(run)@[j] == (GridCoords {
                col_index: (g0.spec_width() - old(run)@.len() + j) as usize,
                row_index: row_idx,
            }),
        (row_idx as int) + 1 == g0.spec_height() ==> old(run)@.len() == g0.spec_width(),
        forall|c: GridCoords|
            old(g).in_bounds(c) && c.row_index + 1 < g0.spec_height() && ((c.row_index as int)
                < row_idx as int || ((c.row_index as int) == row_idx as int && (
            c.col_index as int) < g0.spec_width() - old(run)@.len())) ==> #[trigger] row_exit(
                *old(g),
                c,
            ),
        g0.no_links() ==> old(g).symmetric(),
        g0.no_links() ==> forall|c: GridCoords| (#[trigger] old(g).links_seq(c)).no_duplicates(),
        g0.no_links() ==> forall|c: GridCoords, x: GridCoords|
            old(g).in_bounds(c) && ((c.row_index as int) > row_idx as int || ((
            c.row_index as int) == row_idx as int && (c.col_index as int) >= g0.spec_width() - old(
                run,
            )@.len())) && #[trigger] old(g).linked(c, x) ==> old(g).south_neighbor(c) == Some(x),
        g0.no_links() ==> old(g).total_links() == (if g0.cell_count() == 0 {
            0int
        } else {
            2 * ((row_idx as int) * g0.spec_width() + (if (row_idx as int) + 1
                < g0.spec_height() {
                g0.spec_width() - old(run)@.len()
            } else {
                0int
            }))
        }),
    ensures
        final(g).wf(),
        final(g).extends(g0),
        final(g).spec_height() == g0.spec_height(),
        final(g).spec_width() == g0.spec_width(),
        final(run)@.len() == 0,
        forall|c: GridCoords|
            final(g).in_bounds(c) && c.row_index + 1 < g0.spec_height() && (c.row_index as int)
                < row_idx as int + 1 ==> #[trigger] row_exit(*final(g), c),
        (row_idx as int) + 1 == g0.spec_height() ==> top_row_chained(*final(g)),
        g0.no_links() ==> final(g).symmetric(),
        g0.no_links() ==> forall|c: GridCoords| (#[trigger] final(g).links_seq(c)).no_duplicates(),
        g0.no_links() ==> forall|c: GridCoords, x: GridCoords|
            final(g).in_bounds(c) && (c.row_index as int) >= row_idx as int + 1 && #[trigger]
            final(g).linked(c, x) ==> final(g).south_neighbor(c) == Some(x),
        g0.no_links() ==> final(g).total_links() == (if g0.cell_count() == 0 {
            0int
        } else if (row_idx as int) + 1 < g0.spec_height() {
            2 * (((row_idx as int) + 1) * g0.spec_width())
        } else {
            2 * (g0.cell_count() - 1)
        }),
{
    let ghost gb = *old(g);
    let ghost run_b = old(run)@;
    let ghost w = g0.spec_width() as int;
    proof {
        if run_b.len() > 0 {
            lemma_run_block_shape(gb, run_b, row_idx as int, w);
            if g0.no_links() {
                lemma_run_entries_from_south_only(gb, run_b, row_idx as int, w);
            }
        }
    }
    close_run(g, run, rng, Ghost(g0));
    proof {
        if (row_idx as int) + 1 < g0.spec_height() {
            if run_b.len() > 0 {
                assert(gb.north_neighbor(run_b[0]) is Some) by {
                    assert(run_b[0].row_index == row_idx);
                }
                lemma_close_row_exits(gb, *g, run_b, row_idx as int, w);
            } else {
                assert forall|cc: GridCoords|
                    g.in_bounds(cc) && cc.row_index + 1 < g0.spec_height() && (
                cc.row_index as int) < row_idx as int + 1 implies #[trigger] row_exit(*g, cc) by {
                    assert(row_exit(gb, cc));
                    lemma_row_exit_mono(gb, *g, cc);
                }
            }
        } else {
            assert forall|cc: GridCoords|
                g.in_bounds(cc) && cc.row_index + 1 < g0.spec_height() && (cc.row_index as int)
                    < row_idx as int + 1 implies #[trigger] row_exit(*g, cc) by {
                assert(row_exit(gb, cc));
                lemma_row_exit_mono(gb, *g, cc);
            }
            assert(run_b.len() == g0.spec_width());
            assert forall|cc: GridCoords|
                g.in_bounds(cc) && cc.row_index + 1 == g0.spec_height() && cc.col_index + 1
                    < g0.spec_width() implies #[trigger] east_bidi(*g, cc) by {
                assert(run_b[cc.col_index as int] == cc);
                assert(run_b[cc.col_index + 1] == (GridCoords {
                    col_index: (cc.col_index + 1) as usize,
                    row_index: row_idx,
                }));
                assert(g.linked_bidi(run_b[cc.col_index as int], run_b[cc.col_index + 1]));
                assert(g.east_neighbor(cc) == Some(run_b[cc.col_index + 1]));
            }
            assert(top_row_chained(*g));
        }
        if g0.no_links() {
            if run_b.len() > 0 {
                lemma_close_south_only(gb, *g, run_b, row_idx as int, w);
            } else {
                assert forall|cc: GridCoords, x: GridCoords|
                    g.in_bounds(cc) && (cc.row_index as int) >= row_idx as int + 1 && #[trigger]
                    g.linked(cc, x) implies g.south_neighbor(cc) == Some(x) by {
                    assert(gb.linked(cc, x));
                }
            }
            let base = (row_idx as int) * w;
            if (row_idx as int) + 1 < g0.spec_height() {
                if g0.spec_width() == 0 {
                    assert(g0.cell_count() == 0) by (nonlinear_arith)
                        requires
                            g0.cell_count() == g0.spec_height() * g0.spec_width(),
                            g0.spec_width() == 0,
                    ;
                } else {
                    assert(g0.cell_count() > 0) by (nonlinear_arith)
                        requires
                            g0.cell_count() == g0.spec_height() * g0.spec_width(),
                            g0.spec_height() >= 1,
                            g0.spec_width() >= 1,
                    ;
                    if run_b.len() > 0 {
                        assert(gb.north_neighbor(run_b[0]) is Some) by {
                            assert(run_b[0].row_index == row_idx);
                        }
                    }
                    assert(g.total_links() == 2 * (base + w));
                    assert(2 * (base + w) == 2 * (((row_idx as int) + 1) * w))
                        by (nonlinear_arith)
                        requires
                            base == (row_idx as int) * w,
                    ;
                }
            } else {
                if g0.spec_width() == 0 {
                    assert(g0.cell_count() == 0) by (nonlinear_arith)
                        requires
                            g0.cell_count() == g0.spec_height() * g0.spec_width(),
                            g0.spec_width() == 0,
                    ;
                } else {
                    assert(g0.cell_count() > 0) by (nonlinear_arith)
                        requires
                            g0.cell_count() == g0.spec_height() * g0.spec_width(),
                            g0.spec_height() >= 1,
                            g0.spec_width() >= 1,
                    ;
                    assert(gb.north_neighbor(run_b[0]) is None) by {
                        assert(run_b[0].row_index == row_idx);
                    }
                    assert(g.total_links() == 2 * (base + (w - 1)));
                    assert(base + (w - 1) == g0.cell_count() - 1) by (nonlinear_arith)
                        requires
                            base == (row_idx as int) * w,
                            (row_idx as int) + 1 == g0.spec_height(),
                            g0.cell_count() == g0.spec_height() * w,
                    ;
                }
            }
        }
    }
}


/// Processes one row: accumulates cells into a run; away from the top
/// row, reaching the east edge closes the run and otherwise a fair coin
/// decides; any remaining run is closed at the end of the row.
#[verifier::rlimit(100)]
fn apply_row(
    g: &mut Grid,
    rng: &mut rand::rngs::StdRng,
    row_idx: usize,
    row: &Vec<GridCoords>,
    top_row_idx: usize,
    Ghost(g0): Ghost<Grid>,
)
    requires
        old(g).wf(),
        old(g).extends(g0),
        old(g).spec_height() == g0.spec_height(),
        old(g).spec_width() == g0.spec_width(),
        (row_idx as int) < g0.spec_height(),
        row@ == g0.row_seq(row_idx as int),
        top_row_idx as int == g0.spec_height() - 1,
        forall|c: GridCoords|
            old(g).in_bounds(c) && c.row_index + 1 < g0.spec_height() && (c.row_index as int)
                < row_idx as int ==> #[trigger] row_exit(*old(g), c),
        g0.no_links() ==> old(g).symmetric(),
        g0.no_links() ==> forall|c: GridCoords| (#[trigger] old(g).links_seq(c)).no_duplicates(),
        g0.no_links() ==> forall|c: GridCoords, x: GridCoords|
            old(g).in_bounds(c) && (c.row_index as int) >= row_idx as int && #[trigger] old(
                g,
            ).linked(c, x) ==> old(g).south_neighbor(c) == Some(x),
        g0.no_links() ==> old(g).total_links() == (if g0.cell_count() == 0 {
            0int
        } else {
            2 * ((row_idx as int) * g0.spec_width())
        }),
    ensures
        final(g).wf(),
        final(g).extends(g0),
        final(g).spec_height() == g0.spec_height(),
        final(g).spec_width() == g0.spec_width(),
        forall|c: GridCoords|
            final(g).in_bounds(c) && c.row_index + 1 < g0.spec_height() && (c.row_index as int)
                < row_idx as int + 1 ==> #[trigger] row_exit(*final(g), c),
        (row_idx as int) + 1 == g0.spec_height() ==> top_row_chained(*final(g)),
        g0.no_links() ==> final(g).symmetric(),
        g0.no_links() ==> forall|c: GridCoords| (#[trigger] final(g).links_seq(c)).no_duplicates(),
        g0.no_links() ==> forall|c: GridCoords, x: GridCoords|
            final(g).in_bounds(c) && (c.row_index as int) >= row_idx as int + 1 && #[trigger]
            final(g).linked(c, x) ==> final(g).south_neighbor(c) == Some(x),
        g0.no_links() ==> final(g).total_links() == (if g0.cell_count() == 0 {
            0int
        } else if (row_idx as int) + 1 < g0.spec_height() {
            2 * (((row_idx as int) + 1) * g0.spec_width())
        } else {
            2 * (g0.cell_count() - 1)
        }),
{
    let row_len = row.len();
    let mut run: Vec<GridCoords> = Vec::new();
    let mut i: usize = 0;
    while i < row_len
        invariant
            g.wf(),
            g.extends(g0),
            g.spec_height() == g0.spec_height(),
            g.spec_width() == g0.spec_width(),
            (row_idx as int) < g0.spec_height(),
            row@ == g0.row_seq(row_idx as int),
            row_len == g0.spec_width(),
            top_row_idx as int == g0.spec_height() - 1,
            i <= row_len,
            run@.len() <= i,
            forall|j: int|
                0 <= j < run@.len() ==> #[trigger] run@[j] == (GridCoords {
                    col_index: (i - run@.len() + j) as usize,
                    row_index: row_idx,
                }),
            row_idx == top_row_idx ==> run@.len() == i,
            forall|c: GridCoords|
                g.in_bounds(c) && c.row_index + 1 < g0.spec_height() && ((c.row_index as int)
                    < row_idx as int || ((c.row_index as int) == row_idx as int && (
                c.col_index as int) < i - run@.len())) ==> #[trigger] row_exit(*g, c),
            g0.no_links() ==> g.symmetric(),
            g0.no_links() ==> forall|c: GridCoords| (#[trigger] g.links_seq(c)).no_duplicates(),
            g0.no_links() ==> forall|c: GridCoords, x: GridCoords|
                g.in_bounds(c) && ((c.row_index as int) > row_idx as int || ((
                c.row_index as int) == row_idx as int && (c.col_index as int) >= i
                    - run@.len())) && #[trigger] g.linked(c, x) ==> g.south_neighbor(c) == Some(
                    x,
                ),
            g0.no_links() ==> g.total_links() == (if g0.cell_count() == 0 {
                0int
            } else {
                2 * ((row_idx as int) * g0.spec_width() + (if (row_idx as int) + 1
                    < g0.spec_height() {
                    i - run@.len()
                } else {
                    0int
                }))
            }),
        decreases row_len - i,
    {
        let c = row[i];
        proof {
            assert(c == g0.row_seq(row_idx as int)[i as int]);
        }
        run.push(c);
        if row_idx != top_row_idx {
            let cell = Cell::new(&c);
            let east = g.east(&cell);
            let mut do_close = false;
            match east {
                None => {
                    do_close = true;
                },
                Some(_) => {
                    if let CoinFlip::Heads = crate::mazes::flip(rng) {
                        do_close = true;
                    }
                },
            }
            if do_close {
                close_mid(g, &mut run, rng, row_idx, i, Ghost(g0));
            }
        }
        i = i + 1;
    }
    close_row_end(g, &mut run, rng, row_idx, Ghost(g0));
}

/// Generates a sidewinder maze over `grid`: rows are processed from row
/// 0 upward; within a row, cells accumulate into a run. Away from the
/// topmost row, reaching the east edge closes the run, and otherwise a
/// fair coin decides between closing and continuing. Closing a run
/// joins its cells side to side, joins one uniformly chosen cell to its
/// north neighbor when that exists, and empties the run. The topmost
/// row never closes early and so becomes one continuous corridor.
///
/// Whatever the coin outcomes, every cell below the top row can reach a
/// north-joined cell of its own row, so all cells are mutually
/// reachable. Started from a grid without links, the links stay
/// symmetric, no list repeats a target, and exactly `2 * (cells - 1)`
/// directed links exist: the `cells - 1` corridors of a spanning tree.
pub fn apply_to(grid: Grid, rng: &mut rand::rngs::StdRng) -> (result: Grid)
    requires
        grid.wf(),
    ensures
        result.wf(),
        result.extends(grid),
        result.spec_height() == grid.spec_height(),
        result.spec_width() == grid.spec_width(),
        forall|a: GridCoords, b: GridCoords|
            result.in_bounds(a) && result.in_bounds(b) ==> #[trigger] reach(result, a, b),
        top_row_chained(result),
        grid.no_links() ==> result.symmetric(),
        grid.no_links() ==> forall|c: GridCoords| (#[trigger] result.links_seq(c)).no_duplicates(),
        grid.no_links() ==> result.total_links() == (if grid.cell_count() == 0 {
            0int
        } else {
            2 * (grid.cell_count() - 1)
        }),
{
    let ghost g0 = grid;
    let mut g = grid;
    proof {
        if g0.no_links() {
            g0.lemma_no_links_total();
        }
        g.lemma_extends_refl();
    }
    let top_row_idx = if g.height() > 0 {
        g.height() - 1
    } else {
        g.height()
    };
    let rows = g.rows();
    let mut row_idx: usize = 0;
    while row_idx < rows.len()
        invariant
            g.wf(),
            g.extends(g0),
            g.spec_height() == g0.spec_height(),
            g.spec_width() == g0.spec_width(),
            rows@.len() == g0.spec_height(),
            forall|ri: int| 0 <= ri < rows@.len() ==> (#[trigger] rows@[ri])@ == g0.row_seq(ri),
            row_idx <= rows@.len(),
            g0.spec_height() > 0 ==> top_row_idx as int == g0.spec_height() - 1,
            forall|c: GridCoords|
                g.in_bounds(c) && c.row_index + 1 < g0.spec_height() && (c.row_index as int)
                    < row_idx as int ==> #[trigger] row_exit(g, c),
            row_idx as int == g0.spec_height() ==> top_row_chained(g),
            g0.no_links() ==> g.symmetric(),
            g0.no_links() ==> forall|c: GridCoords| (#[trigger] g.links_seq(c)).no_duplicates(),
            g0.no_links() ==> forall|c: GridCoords, x: GridCoords|
                g.in_bounds(c) && (c.row_index as int) >= row_idx as int && #[trigger] g.linked(
                    c,
                    x,
                ) ==> g.south_neighbor(c) == Some(x),
            g0.no_links() ==> g.total_links() == (if g0.cell_count() == 0 {
                0int
            } else if (row_idx as int) < g0.spec_height() {
                2 * ((row_idx as int) * g0.spec_width())
            } else {
                2 * (g0.cell_count() - 1)
            }),
        decreases rows@.len() - row_idx,
    {
        apply_row(&mut g, rng, row_idx, &rows[row_idx], top_row_idx, Ghost(g0));
        row_idx = row_idx + 1;
    }
    proof {
        lemma_rows_connect(g);
    }
    g
}

} // verus!
