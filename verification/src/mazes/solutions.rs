use vstd::prelude::*;

verus! {

use crate::grid::{Grid, GridError, lemma_contains_push, lemma_push_no_dup};
use crate::grid::cell::{Cell, GridCoords};
use crate::grid::reach::{is_path, reach};

/// Number of filled entries of a distance table.
spec fn count_some(s: Seq<Option<usize>>) -> int
    decreases s.len(),
{
    if s.len() == 0 {
        0
    } else {
        count_some(s.drop_last()) + (if s.last() is Some {
            1int
        } else {
            0int
        })
    }
}

proof fn lemma_count_some_le_len(s: Seq<Option<usize>>)
    ensures
        0 <= count_some(s) <= s.len(),
    decreases s.len(),
{
    if s.len() > 0 {
        lemma_count_some_le_len(s.drop_last());
    }
}

proof fn lemma_count_some_none(s: Seq<Option<usize>>)
    requires
        forall|i: int| 0 <= i < s.len() ==> (#[trigger] s[i]) is None,
    ensures
        count_some(s) == 0,
    decreases s.len(),
{
    if s.len() > 0 {
        lemma_count_some_none(s.drop_last());
    }
}

proof fn lemma_count_some_update(s: Seq<Option<usize>>, i: int, v: Option<usize>)
    requires
        0 <= i < s.len(),
        s[i] is None,
        v is Some,
    ensures
        count_some(s.update(i, v)) == count_some(s) + 1,
    decreases s.len(),
{
    let t = s.update(i, v);
    if i == s.len() - 1 {
        assert(t.drop_last() =~= s.drop_last());
    } else {
        assert(t.drop_last() =~= s.drop_last().update(i, v));
        lemma_count_some_update(s.drop_last(), i, v);
    }
}

proof fn lemma_pos_bounds(c: GridCoords, h: int, w: int)
    requires
        (c.col_index as int) < w,
        (c.row_index as int) < h,
    ensures
        0 <= c.row_index * w + c.col_index < h * w,
{
    assert(c.row_index * w + c.col_index < h * w) by (nonlinear_arith)
        requires
            (c.col_index as int) < w,
            (c.row_index as int) < h,
    ;
}

proof fn lemma_pos_inj(a: GridCoords, b: GridCoords, h: int, w: int)
    requires
        (a.col_index as int) < w,
        (a.row_index as int) < h,
        (b.col_index as int) < w,
        (b.row_index as int) < h,
        a != b,
    ensures
        a.row_index * w + a.col_index != b.row_index * w + b.col_index,
{
    assert(a.row_index * w + a.col_index != b.row_index * w + b.col_index) by (nonlinear_arith)
        requires
            (a.col_index as int) < w,
            (b.col_index as int) < w,
            a.row_index != b.row_index || a.col_index != b.col_index,
    ;
}

/// The coordinate whose table position is `i`.
proof fn lemma_coord_of_pos(h: int, w: int, i: int) -> (c: GridCoords)
    requires
        0 <= i < h * w,
        0 <= h <= usize::MAX,
        0 <= w <= usize::MAX,
    ensures
        (c.col_index as int) < w,
        (c.row_index as int) < h,
        c.row_index * w + c.col_index == i,
{
    assert(h > 0 && w > 0) by (nonlinear_arith)
        requires
            h >= 0,
            w >= 0,
            0 <= i < h * w,
    ;
    vstd::arithmetic::div_mod::lemma_fundamental_div_mod(i, w);
    vstd::arithmetic::div_mod::lemma_mod_bound(i, w);
    let q = i / w;
    let r = i % w;
    assert(0 <= q < h) by (nonlinear_arith)
        requires
            i == w * q + r,
            0 <= r < w,
            0 <= i < h * w,
            w > 0,
    ;
    assert(q * w + r == i) by (nonlinear_arith)
        requires
            i == w * q + r,
    ;
    GridCoords { col_index: r as usize, row_index: q as usize }
}

/// A breadth-first distance field over the links of one grid snapshot:
/// for each reachable coordinate, the least number of hops from a fixed
/// origin.
#[derive(Debug)]
pub struct Dijkstra {
    distances: Vec<Option<usize>>,
    origin: GridCoords,
    height: usize,
    width: usize,
    max_distance: usize,
}

impl Dijkstra {
    pub closed spec fn spec_origin(&self) -> GridCoords {
        self.origin
    }

    pub closed spec fn spec_height(&self) -> usize {
        self.height
    }

    pub closed spec fn spec_width(&self) -> usize {
        self.width
    }

    pub closed spec fn spec_max_distance(&self) -> usize {
        self.max_distance
    }

    spec fn pos(self, c: GridCoords) -> int {
        c.row_index * self.spec_width() + c.col_index
    }

    /// The field records a distance for `c`.
    pub closed spec fn has_dist(self, c: GridCoords) -> bool {
        &&& (c.col_index as int) < self.spec_width()
        &&& (c.row_index as int) < self.spec_height()
        &&& self.distances@[self.pos(c)] is Some
    }

    /// The recorded distance of `c`.
    pub closed spec fn dist(self, c: GridCoords) -> int {
        self.distances@[self.pos(c)]->Some_0 as int
    }

    /// Well-formedness: one table entry per cell; the origin lies in the
    /// field at distance zero; `max_distance` is the largest recorded
    /// distance.
    pub closed spec fn table_ok(self) -> bool {
        self.distances@.len() == self.spec_height() * self.spec_width()
    }

    pub open spec fn wf_d(self) -> bool {
        &&& self.table_ok()
        &&& (self.spec_origin().col_index as int) < self.spec_width()
        &&& (self.spec_origin().row_index as int) < self.spec_height()
        &&& self.has_dist(self.spec_origin())
        &&& self.dist(self.spec_origin()) == 0
        &&& exists|c: GridCoords| #[trigger] self.has_dist(c) && self.dist(c)
            == self.spec_max_distance()
        &&& forall|c: GridCoords| #[trigger] self.has_dist(c) ==> self.dist(c)
            <= self.spec_max_distance()
    }

    /// The field matches the links of `g`: its dimensions are those of
    /// `g`; every recorded coordinate except the origin has a linked
    /// neighbor recorded one step closer; and following any link from a
    /// recorded coordinate stays in the field, growing the distance by
    /// at most one. Together these pin each recorded distance to the
    /// least hop count: one more than the least distance among linked
    /// neighbors.
    pub open spec fn consistent_with(self, g: Grid) -> bool {
        &&& self.spec_height() == g.spec_height()
        &&& self.spec_width() == g.spec_width()
        &&& forall|c: GridCoords|
            #[trigger] self.has_dist(c) && c != self.spec_origin() ==> exists|p: GridCoords|
                self.has_dist(p) && #[trigger] g.linked(p, c) && self.dist(p) + 1 == self.dist(c)
        &&& forall|c: GridCoords, y: GridCoords|
            self.has_dist(c) && #[trigger] g.linked(c, y) ==> self.has_dist(y) && self.dist(y)
                <= self.dist(c) + 1
    }

    /// The recorded distance of `coords`, absent when the coordinate is
    /// unreachable from the origin.
    pub fn distance(&self, coords: &GridCoords) -> (r: Option<usize>)
        requires
            self.wf_d(),
        ensures
            r is Some <==> self.has_dist(*coords),
            r is Some ==> r->Some_0 as int == self.dist(*coords),
    {
        if coords.col_index < self.width && coords.row_index < self.height {
            let _table = self.distances.len();
            proof {
                lemma_pos_bounds(*coords, self.spec_height() as int, self.spec_width() as int);
            }
            self.distances[coords.row_index * self.width + coords.col_index]
        } else {
            None
        }
    }

    /// The largest distance recorded in the field.
    pub fn max_distance(&self) -> (r: usize)
        ensures
            r == self.spec_max_distance(),
    {
        self.max_distance
    }
}


/// The table built by the search records a distance for `c`.
spec fn has_d(dv: Seq<Option<usize>>, h: int, w: int, c: GridCoords) -> bool {
    &&& (c.col_index as int) < w
    &&& (c.row_index as int) < h
    &&& dv[c.row_index * w + c.col_index] is Some
}

/// The distance the table records for `c`.
spec fn d_of(dv: Seq<Option<usize>>, w: int, c: GridCoords) -> int {
    dv[c.row_index * w + c.col_index]->Some_0 as int
}

/// Hands `t`, a linked neighbor of the coordinate `cur` just taken off
/// the frontier, a distance one beyond `cur`'s and a place at the back
/// of the frontier, unless it already has one; every invariant of the
/// search is carried across.
#[verifier::rlimit(100)]
fn visit(
    grid: &Grid,
    dv: &mut Vec<Option<usize>>,
    frontier: &mut Vec<GridCoords>,
    head: usize,
    cur: GridCoords,
    dcur: usize,
    t: GridCoords,
    origin: GridCoords,
    Ghost(assigned): Ghost<int>,
) -> (na: Ghost<int>)
    requires
        grid.wf(),
        old(dv)@.len() == grid.spec_height() * grid.spec_width(),
        1 <= head <= old(frontier)@.len(),
        old(frontier)@[head - 1] == cur,
        grid.linked(cur, t),
        has_d(old(dv)@, grid.spec_height() as int, grid.spec_width() as int, cur),
        d_of(old(dv)@, grid.spec_width() as int, cur) == dcur,
        (dcur as int) + 1 <= old(dv)@.len(),
        forall|k: int|
            0 <= k < old(frontier)@.len() ==> grid.in_bounds(#[trigger] old(frontier)@[k])
                && has_d(
                old(dv)@,
                grid.spec_height() as int,
                grid.spec_width() as int,
                old(frontier)@[k],
            ),
        forall|k1: int, k2: int|
            0 <= k1 <= k2 < old(frontier)@.len() ==> d_of(
                old(dv)@,
                grid.spec_width() as int,
                #[trigger] old(frontier)@[k1],
            ) <= d_of(old(dv)@, grid.spec_width() as int, #[trigger] old(frontier)@[k2]),
        forall|k: int|
            0 <= k < old(frontier)@.len() ==> d_of(
                old(dv)@,
                grid.spec_width() as int,
                #[trigger] old(frontier)@[k],
            ) <= dcur + 1,
        forall|k: int|
            head - 1 <= k < old(frontier)@.len() ==> d_of(
                old(dv)@,
                grid.spec_width() as int,
                #[trigger] old(frontier)@[k],
            ) >= dcur,
        forall|c: GridCoords|
            #[trigger] has_d(old(dv)@, grid.spec_height() as int, grid.spec_width() as int, c)
                ==> old(frontier)@.contains(c),
        old(frontier)@.no_duplicates(),
        forall|c: GridCoords|
            #[trigger] has_d(old(dv)@, grid.spec_height() as int, grid.spec_width() as int, c)
                && c != origin ==> exists|p: GridCoords|
                has_d(old(dv)@, grid.spec_height() as int, grid.spec_width() as int, p)
                    && #[trigger] grid.linked(p, c) && d_of(old(dv)@, grid.spec_width() as int, p)
                    + 1 == d_of(old(dv)@, grid.spec_width() as int, c),
        has_d(old(dv)@, grid.spec_height() as int, grid.spec_width() as int, origin),
        d_of(old(dv)@, grid.spec_width() as int, origin) == 0,
        forall|c: GridCoords|
            #[trigger] has_d(old(dv)@, grid.spec_height() as int, grid.spec_width() as int, c)
                ==> d_of(old(dv)@, grid.spec_width() as int, c) < assigned,
        assigned == count_some(old(dv)@),
    ensures
        final(dv)@.len() == old(dv)@.len(),
        final(frontier)@.len() >= old(frontier)@.len(),
        forall|k: int|
            0 <= k < old(frontier)@.len() ==> #[trigger] final(frontier)@[k] == old(frontier)@[k],
        forall|c: GridCoords|
            #[trigger] has_d(old(dv)@, grid.spec_height() as int, grid.spec_width() as int, c)
                ==> has_d(final(dv)@, grid.spec_height() as int, grid.spec_width() as int, c)
                && d_of(final(dv)@, grid.spec_width() as int, c) == d_of(
                old(dv)@,
                grid.spec_width() as int,
                c,
            ),
        has_d(final(dv)@, grid.spec_height() as int, grid.spec_width() as int, t),
        d_of(final(dv)@, grid.spec_width() as int, t) <= dcur + 1,
        forall|k: int|
            0 <= k < final(frontier)@.len() ==> grid.in_bounds(#[trigger] final(frontier)@[k])
                && has_d(
                final(dv)@,
                grid.spec_height() as int,
                grid.spec_width() as int,
                final(frontier)@[k],
            ),
        forall|k1: int, k2: int|
            0 <= k1 <= k2 < final(frontier)@.len() ==> d_of(
                final(dv)@,
                grid.spec_width() as int,
                #[trigger] final(frontier)@[k1],
            ) <= d_of(final(dv)@, grid.spec_width() as int, #[trigger] final(frontier)@[k2]),
        forall|k: int|
            0 <= k < final(frontier)@.len() ==> d_of(
                final(dv)@,
                grid.spec_width() as int,
                #[trigger] final(frontier)@[k],
            ) <= dcur + 1,
        forall|k: int|
            head - 1 <= k < final(frontier)@.len() ==> d_of(
                final(dv)@,
                grid.spec_width() as int,
                #[trigger] final(frontier)@[k],
            ) >= dcur,
        forall|c: GridCoords|
            #[trigger] has_d(final(dv)@, grid.spec_height() as int, grid.spec_width() as int, c)
                ==> final(frontier)@.contains(c),
        final(frontier)@.no_duplicates(),
        forall|c: GridCoords|
            #[trigger] has_d(final(dv)@, grid.spec_height() as int, grid.spec_width() as int, c)
                && c != origin ==> exists|p: GridCoords|
                has_d(final(dv)@, grid.spec_height() as int, grid.spec_width() as int, p)
                    && #[trigger] grid.linked(p, c) && d_of(
                    final(dv)@,
                    grid.spec_width() as int,
                    p,
                ) + 1 == d_of(final(dv)@, grid.spec_width() as int, c),
        has_d(final(dv)@, grid.spec_height() as int, grid.spec_width() as int, origin),
        d_of(final(dv)@, grid.spec_width() as int, origin) == 0,
        forall|c: GridCoords|
            #[trigger] has_d(final(dv)@, grid.spec_height() as int, grid.spec_width() as int, c)
                ==> d_of(final(dv)@, grid.spec_width() as int, c) < na@,
        na@ == count_some(final(dv)@),
        na@ >= assigned,
        final(frontier)@.len() > old(frontier)@.len() ==> na@ > assigned,
        final(frontier)@.len() == old(frontier)@.len() ==> na@ == assigned && final(dv)@ == old(
            dv,
        )@ && final(frontier)@ == old(frontier)@,
{
    let ghost h = grid.spec_height() as int;
    let ghost w = grid.spec_width() as int;
    proof {
        grid.lemma_linked_in_bounds(cur, t);
        lemma_pos_bounds(t, h, w);
    }
    let _table = dv.len();
    let tpos = t.row_index * grid.width() + t.col_index;
    if distances_entry_is_none(dv, tpos) {
        let ghost dv0 = dv@;
        let ghost fr0 = frontier@;
        dv[tpos] = Some(dcur + 1);
        frontier.push(t);
        proof {
            lemma_count_some_update(dv0, tpos as int, Some((dcur + 1) as usize));
            // the freshly filled slot belongs to t and to no other coordinate
            assert(has_d(dv@, h, w, t) && d_of(dv@, w, t) == dcur + 1);
            assert forall|c: GridCoords| #[trigger] has_d(dv0, h, w, c) implies has_d(dv@, h, w, c)
                && d_of(dv@, w, c) == d_of(dv0, w, c) by {
                if c != t {
                    lemma_pos_bounds(c, h, w);
                    lemma_pos_inj(c, t, h, w);
                }
            }
            assert forall|c: GridCoords| #[trigger] has_d(dv@, h, w, c) implies c == t || has_d(
                dv0,
                h,
                w,
                c,
            ) by {
                if c != t {
                    lemma_pos_bounds(c, h, w);
                    lemma_pos_inj(c, t, h, w);
                }
            }
            // t was not on the frontier
            assert(!fr0.contains(t)) by {
                if fr0.contains(t) {
                    let k = choose|k: int| 0 <= k < fr0.len() && fr0[k] == t;
                    assert(has_d(dv0, h, w, fr0[k]));
                }
            }
            lemma_push_no_dup(fr0, t);
            assert forall|c: GridCoords| #[trigger] has_d(dv@, h, w, c) implies
                frontier@.contains(c) by {
                if c == t {
                    assert(frontier@[fr0.len() as int] == t);
                } else {
                    lemma_contains_push(fr0, t, c);
                }
            }
            // the parent fact for t, and the carried ones
            assert forall|c: GridCoords| #[trigger] has_d(dv@, h, w, c) && c != origin implies
                exists|p: GridCoords|
                    has_d(dv@, h, w, p) && #[trigger] grid.linked(p, c) && d_of(dv@, w, p) + 1
                        == d_of(dv@, w, c) by {
                if c == t {
                    assert(has_d(dv@, h, w, cur) && grid.linked(cur, t) && d_of(dv@, w, cur) + 1
                        == d_of(dv@, w, t));
                } else {
                    let p = choose|p: GridCoords|
                        has_d(dv0, h, w, p) && #[trigger] grid.linked(p, c) && d_of(dv0, w, p) + 1
                            == d_of(dv0, w, c);
                    assert(has_d(dv@, h, w, p) && grid.linked(p, c) && d_of(dv@, w, p) + 1 == d_of(
                        dv@,
                        w,
                        c,
                    ));
                }
            }
        }
        Ghost(assigned + 1)
    } else {
        proof {
            // t already carries a distance; it sits somewhere on the
            // frontier, whose values bound it by dcur + 1
            assert(has_d(dv@, h, w, t));
            let k = choose|k: int| 0 <= k < frontier@.len() && frontier@[k] == t;
            assert(d_of(dv@, w, frontier@[k]) <= dcur + 1);
        }
        Ghost(assigned)
    }
}

/// Whether the table entry at `i` is still empty.
fn distances_entry_is_none(dv: &Vec<Option<usize>>, i: usize) -> (r: bool)
    requires
        i < dv@.len(),
    ensures
        r <==> dv@[i as int] is None,
{
    match dv[i] {
        None => true,
        Some(_) => false,
    }
}


impl Dijkstra {
    /// Builds the distance field of `grid` from `origin` by a
    /// breadth-first search over the links: the origin gets distance 0;
    /// popping the earliest-enqueued coordinate assigns each of its
    /// linked neighbors still without a distance one hop more and
    /// enqueues it. Unreachable coordinates get no entry.
    #[verifier::rlimit(100)]
    pub fn new(grid: &Grid, origin: &GridCoords) -> (d: Dijkstra)
        requires
            grid.wf(),
            grid.in_bounds(*origin),
        ensures
            d.wf_d(),
            d.spec_origin() == *origin,
            d.spec_height() == grid.spec_height(),
            d.spec_width() == grid.spec_width(),
            d.consistent_with(*grid),
    {
        let h = grid.height();
        let w = grid.width();
        let ghost hi = h as int;
        let ghost wi = w as int;
        let mut dv: Vec<Option<usize>> = Vec::new();
        let mut r: usize = 0;
        while r < h
            invariant
                r <= h,
                dv@.len() == r * w,
                forall|i: int| 0 <= i < dv@.len() ==> (#[trigger] dv@[i]) is None,
            decreases h - r,
        {
            let mut c: usize = 0;
            while c < w
                invariant
                    c <= w,
                    r < h,
                    dv@.len() == r * w + c,
                    forall|i: int| 0 <= i < dv@.len() ==> (#[trigger] dv@[i]) is None,
                decreases w - c,
            {
                dv.push(None);
                c = c + 1;
            }
            proof {
                assert((r + 1) * w == r * w + w) by (nonlinear_arith);
            }
            r = r + 1;
        }
        proof {
            lemma_count_some_none(dv@);
            lemma_pos_bounds(*origin, hi, wi);
        }
        let ghost dv_init = dv@;
        let _table = dv.len();
        let opos = origin.row_index * w + origin.col_index;
        dv[opos] = Some(0usize);
        let mut frontier: Vec<GridCoords> = Vec::new();
        frontier.push(*origin);
        let mut head: usize = 0;
        let ghost mut assigned: int = 1;
        proof {
            lemma_count_some_update(dv_init, opos as int, Some(0usize));
            assert forall|c: GridCoords| #[trigger] has_d(dv@, hi, wi, c) implies c
                == *origin by {
                if c != *origin {
                    lemma_pos_bounds(c, hi, wi);
                    lemma_pos_inj(c, *origin, hi, wi);
                }
            }
            assert(frontier@[0] == *origin);
            lemma_count_some_le_len(dv@);
        }
        while head < frontier.len()
            invariant
                grid.wf(),
                grid.spec_height() == h,
                grid.spec_width() == w,
                hi == h as int,
                wi == w as int,
                dv@.len() == hi * wi,
                head <= frontier@.len(),
                forall|k: int|
                    0 <= k < frontier@.len() ==> grid.in_bounds(#[trigger] frontier@[k]) && has_d(
                        dv@,
                        hi,
                        wi,
                        frontier@[k],
                    ),
                forall|k1: int, k2: int|
                    0 <= k1 <= k2 < frontier@.len() ==> d_of(dv@, wi, #[trigger] frontier@[k1])
                        <= d_of(dv@, wi, #[trigger] frontier@[k2]),
                head < frontier@.len() ==> d_of(dv@, wi, frontier@[frontier@.len() - 1]) <= d_of(
                    dv@,
                    wi,
                    frontier@[head as int],
                ) + 1,
                forall|c: GridCoords|
                    #[trigger] has_d(dv@, hi, wi, c) ==> frontier@.contains(c),
                frontier@.no_duplicates(),
                forall|k: int, y: GridCoords|
                    0 <= k < head && #[trigger] grid.linked(frontier@[k], y) ==> has_d(
                        dv@,
                        hi,
                        wi,
                        y,
                    ) && d_of(dv@, wi, y) <= d_of(dv@, wi, frontier@[k]) + 1,
                forall|c: GridCoords|
                    #[trigger] has_d(dv@, hi, wi, c) && c != *origin ==> exists|p: GridCoords|
                        has_d(dv@, hi, wi, p) && #[trigger] grid.linked(p, c) && d_of(dv@, wi, p)
                            + 1 == d_of(dv@, wi, c),
                has_d(dv@, hi, wi, *origin),
                d_of(dv@, wi, *origin) == 0,
                forall|c: GridCoords|
                    #[trigger] has_d(dv@, hi, wi, c) ==> d_of(dv@, wi, c) < assigned,
                assigned == count_some(dv@),
                assigned <= hi * wi,
            decreases hi * wi - assigned, frontier@.len() - head,
        {
            let cur = frontier[head];
            let ghost old_head = head as int;
            head = head + 1;
            proof {
                lemma_pos_bounds(cur, hi, wi);
            }
            let _table = dv.len();
            let cpos = cur.row_index * w + cur.col_index;
            let dcur = dv[cpos].unwrap();
            let cell = Cell::new(&cur);
            let links = grid.links(&cell);
            let ghost fr_entry = frontier@;
            let ghost dv_entry = dv@;
            let ghost a_entry = assigned;
            let mut j: usize = 0;
            while j < links.len()
                invariant
                    grid.wf(),
                    grid.spec_height() == h,
                    grid.spec_width() == w,
                    hi == h as int,
                    wi == w as int,
                    dv@.len() == hi * wi,
                    links@.len() == grid.links_seq(cur).len(),
                    forall|k: int|
                        0 <= k < links@.len() ==> (#[trigger] links@[k]).coords
                            == grid.links_seq(cur)[k],
                    j <= links@.len(),
                    1 <= head <= frontier@.len(),
                    frontier@[head - 1] == cur,
                    has_d(dv@, hi, wi, cur),
                    d_of(dv@, wi, cur) == dcur,
                    (dcur as int) + 1 <= hi * wi,
                    forall|k: int|
                        0 <= k < frontier@.len() ==> grid.in_bounds(#[trigger] frontier@[k])
                            && has_d(dv@, hi, wi, frontier@[k]),
                    forall|k1: int, k2: int|
                        0 <= k1 <= k2 < frontier@.len() ==> d_of(
                            dv@,
                            wi,
                            #[trigger] frontier@[k1],
                        ) <= d_of(dv@, wi, #[trigger] frontier@[k2]),
                    forall|k: int|
                        0 <= k < frontier@.len() ==> d_of(dv@, wi, #[trigger] frontier@[k])
                            <= dcur + 1,
                    forall|k: int|
                        head - 1 <= k < frontier@.len() ==> d_of(dv@, wi, #[trigger] frontier@[k])
                            >= dcur,
                    forall|c: GridCoords|
                        #[trigger] has_d(dv@, hi, wi, c) ==> frontier@.contains(c),
                    frontier@.no_duplicates(),
                    forall|k: int, y: GridCoords|
                        0 <= k < head - 1 && #[trigger] grid.linked(frontier@[k], y) ==> has_d(
                            dv@,
                            hi,
                            wi,
                            y,
                        ) && d_of(dv@, wi, y) <= d_of(dv@, wi, frontier@[k]) + 1,
                    forall|jj: int|
                        0 <= jj < j ==> has_d(
                            dv@,
                            hi,
                            wi,
                            #[trigger] grid.links_seq(cur)[jj],
                        ) && d_of(dv@, wi, grid.links_seq(cur)[jj]) <= dcur + 1,
                    forall|c: GridCoords|
                        #[trigger] has_d(dv@, hi, wi, c) && c != *origin ==> exists|p: GridCoords|
                            has_d(dv@, hi, wi, p) && #[trigger] grid.linked(p, c) && d_of(
                                dv@,
                                wi,
                                p,
                            ) + 1 == d_of(dv@, wi, c),
                    has_d(dv@, hi, wi, *origin),
                    d_of(dv@, wi, *origin) == 0,
                    forall|c: GridCoords|
                        #[trigger] has_d(dv@, hi, wi, c) ==> d_of(dv@, wi, c) < assigned,
                    assigned == count_some(dv@),
                    assigned <= hi * wi,
                    assigned >= a_entry,
                    frontier@.len() >= fr_entry.len(),
                    frontier@.len() > fr_entry.len() ==> assigned > a_entry,
                    frontier@.len() == fr_entry.len() ==> assigned == a_entry && dv@ == dv_entry
                        && frontier@ == fr_entry,
                    forall|k: int| 0 <= k < fr_entry.len() ==> #[trigger] frontier@[k]
                        == fr_entry[k],
                decreases links@.len() - j,
            {
                let t = links[j].coords();
                proof {
                    assert(grid.links_seq(cur).contains(t)) by {
                        assert(grid.links_seq(cur)[j as int] == t);
                    }
                    lemma_count_some_le_len(dv@);
                }
                let ghost fr_pre = frontier@;
                let ghost dv_pre = dv@;
                let ghost a_pre = assigned;
                let Ghost(na) = visit(grid, &mut dv, &mut frontier, head, cur, dcur, t, *origin,
                    Ghost(assigned));
                proof {
                    assigned = na;
                    lemma_count_some_le_len(dv@);
                    if frontier@.len() == fr_entry.len() {
                        assert(fr_pre.len() == fr_entry.len());
                        assert(frontier@ == fr_pre && dv@ == dv_pre && assigned == a_pre);
                    }
                }
                j = j + 1;
            }
            proof {
                // the popped cell now satisfies the processed-cell rule
                assert forall|k: int, y: GridCoords|
                    0 <= k < head && #[trigger] grid.linked(frontier@[k], y) implies has_d(
                    dv@,
                    hi,
                    wi,
                    y,
                ) && d_of(dv@, wi, y) <= d_of(dv@, wi, frontier@[k]) + 1 by {
                    if k == head - 1 {
                        let jj = choose|jj: int|
                            0 <= jj < grid.links_seq(cur).len() && grid.links_seq(
                                cur,
                            )[jj] == y;
                        assert(has_d(dv@, hi, wi, grid.links_seq(cur)[jj]));
                    }
                }
            }
        }
        // the frontier is exhausted: find the largest recorded distance
        let n_table = dv.len();
        let mut max_d: usize = 0;
        let mut i: usize = 0;
        proof {
            assert(has_d(dv@, hi, wi, *origin) && d_of(dv@, wi, *origin) == 0);
        }
        while i < n_table
            invariant
                dv@.len() == hi * wi,
                n_table == dv@.len(),
                i <= n_table,
                hi == h as int,
                wi == w as int,
                h as int >= 1,
                w as int >= 1,
                exists|c: GridCoords| #[trigger] has_d(dv@, hi, wi, c) && d_of(dv@, wi, c)
                    == max_d,
                forall|c: GridCoords|
                    #[trigger] has_d(dv@, hi, wi, c) && c.row_index * wi + c.col_index < i
                        ==> d_of(dv@, wi, c) <= max_d,
            decreases n_table - i,
        {
            let e = dv[i];
            if let Some(v) = e {
                if v > max_d {
                    max_d = v;
                    proof {
                        let cc = lemma_coord_of_pos(hi, wi, i as int);
                        assert(has_d(dv@, hi, wi, cc) && d_of(dv@, wi, cc) == v);
                    }
                }
            }
            i = i + 1;
        }
        let ghost dvf = dv@;
        let d = Dijkstra {
            distances: dv,
            origin: *origin,
            height: h,
            width: w,
            max_distance: max_d,
        };
        proof {
            assert(d.distances@ == dvf);
            assert forall|c: GridCoords| #[trigger] d.has_dist(c) implies has_d(
                dvf,
                hi,
                wi,
                c,
            ) && d.dist(c) == d_of(dvf, wi, c) by {}
            assert forall|c: GridCoords| #[trigger] has_d(dvf, hi, wi, c) implies d.has_dist(c)
                && d.dist(c) == d_of(dvf, wi, c) by {}
            assert forall|c: GridCoords| #[trigger] d.has_dist(c) implies d.dist(c)
                <= d.spec_max_distance() by {
                lemma_pos_bounds(c, hi, wi);
                assert(has_d(dvf, hi, wi, c));
                assert(d_of(dvf, wi, c) <= max_d);
            }
            assert(d.wf_d()) by {
                let cm = choose|c: GridCoords| #[trigger] has_d(dvf, hi, wi, c) && d_of(
                    dvf,
                    wi,
                    c,
                ) == max_d;
                assert(d.has_dist(cm) && d.dist(cm) == d.spec_max_distance());
                assert(has_d(dvf, hi, wi, *origin));
            }
            assert forall|c: GridCoords| #[trigger] d.has_dist(c) && c != d.spec_origin() implies
                exists|p: GridCoords|
                    d.has_dist(p) && #[trigger] grid.linked(p, c) && d.dist(p) + 1 == d.dist(
                        c,
                    ) by {
                assert(has_d(dvf, hi, wi, c));
                let p = choose|p: GridCoords|
                    has_d(dvf, hi, wi, p) && #[trigger] grid.linked(p, c) && d_of(dvf, wi, p) + 1
                        == d_of(dvf, wi, c);
                assert(d.has_dist(p) && grid.linked(p, c) && d.dist(p) + 1 == d.dist(c));
            }
            assert forall|c: GridCoords, y: GridCoords|
                d.has_dist(c) && #[trigger] grid.linked(c, y) implies d.has_dist(y) && d.dist(y)
                    <= d.dist(c) + 1 by {
                assert(has_d(dvf, hi, wi, c));
                let k = choose|k: int| 0 <= k < frontier@.len() && frontier@[k] == c;
                assert(grid.linked(frontier@[k], y));
                assert(has_d(dvf, hi, wi, y) && d_of(dvf, wi, y) <= d_of(dvf, wi, c) + 1);
            }
        }
        d
    }
}


impl Dijkstra {
    /// Reconstructs a shortest path from the recorded origin to `dest`,
    /// ordered destination first, origin last: starting at `dest`, it
    /// repeatedly steps to the linked neighbor with the smallest
    /// recorded distance among those strictly closer than the current
    /// cell. An unreachable destination yields `Unreachable`; a walk
    /// that gets stuck — possible only against a grid whose links no
    /// longer match the field — yields `InconsistentState`. Against the
    /// grid the field was built from (whose links are symmetric), the
    /// walk succeeds exactly when `dest` is recorded, and the path then
    /// holds `dist(dest) + 1` coordinates.
    #[verifier::rlimit(100)]
    pub fn shortest_path_to(&self, grid: &Grid, dest: &GridCoords) -> (r: Result<
        Vec<GridCoords>,
        GridError,
    >)
        requires
            self.wf_d(),
            grid.wf(),
        ensures
            match r {
                Ok(p) => {
                    &&& self.has_dist(*dest)
                    &&& p@.len() >= 1
                    &&& p@.first() == *dest
                    &&& p@.last() == self.spec_origin()
                    &&& forall|k: int|
                        0 <= k < p@.len() - 1 ==> #[trigger] grid.linked(p@[k], p@[k + 1])
                    &&& forall|k: int| 0 <= k < p@.len() ==> self.has_dist(#[trigger] p@[k])
                    &&& forall|k: int|
                        0 <= k < p@.len() - 1 ==> self.dist(p@[k + 1]) < self.dist(
                            #[trigger] p@[k],
                        )
                    &&& p@.len() <= self.dist(*dest) + 1
                },
                Err(e) => {
                    &&& e == GridError::Unreachable || e == GridError::InconsistentState
                    &&& (e == GridError::Unreachable <==> !self.has_dist(*dest))
                    &&& e == GridError::InconsistentState ==> !(self.consistent_with(*grid)
                        && grid.symmetric())
                },
            },
            self.consistent_with(*grid) && grid.symmetric() && self.has_dist(*dest) ==> r is Ok,
            self.consistent_with(*grid) && grid.symmetric() && r is Ok ==> r->Ok_0@.len()
                == self.dist(*dest) + 1,
            *dest == self.spec_origin() ==> (r matches Ok(p) && p@ == seq![*dest]),
    {
        let origin = self.origin;
        let dd = match self.distance(dest) {
            Some(v) => v,
            None => {
                return Err(GridError::Unreachable);
            },
        };
        let mut path: Vec<GridCoords> = Vec::new();
        path.push(*dest);
        let mut cur: GridCoords = *dest;
        let mut dcur: usize = dd;
        while cur != origin
            invariant
                self.wf_d(),
                grid.wf(),
                origin == self.spec_origin(),
                path@.len() >= 1,
                path@.first() == *dest,
                path@.last() == cur,
                self.has_dist(cur),
                self.dist(cur) == dcur,
                self.has_dist(*dest),
                self.dist(*dest) == dd,
                forall|k: int|
                    0 <= k < path@.len() - 1 ==> #[trigger] grid.linked(path@[k], path@[k + 1]),
                forall|k: int| 0 <= k < path@.len() ==> self.has_dist(#[trigger] path@[k]),
                forall|k: int|
                    0 <= k < path@.len() - 1 ==> self.dist(path@[k + 1]) < self.dist(
                        #[trigger] path@[k],
                    ),
                path@.len() - 1 + dcur <= dd,
                self.consistent_with(*grid) && grid.symmetric() ==> path@.len() - 1 + dcur == dd,
            decreases dcur,
        {
            let cell = Cell::new(&cur);
            let links = grid.links(&cell);
            let mut best: Option<GridCoords> = None;
            let mut best_d: usize = 0;
            let mut k: usize = 0;
            while k < links.len()
                invariant
                    self.wf_d(),
                    grid.wf(),
                    links@.len() == grid.links_seq(cur).len(),
                    forall|i: int|
                        0 <= i < links@.len() ==> (#[trigger] links@[i]).coords == grid.links_seq(
                            cur,
                        )[i],
                    k <= links@.len(),
                    self.has_dist(cur),
                    self.dist(cur) == dcur,
                    match best {
                        Some(b) => self.has_dist(b) && grid.linked(cur, b) && best_d as int
                            == self.dist(b) && (best_d as int) < dcur as int,
                        None => forall|i: int|
                            0 <= i < k ==> !(self.has_dist(#[trigger] grid.links_seq(cur)[i])
                                && self.dist(grid.links_seq(cur)[i]) < dcur as int),
                    },
                decreases links@.len() - k,
            {
                let t = links[k].coords();
                proof {
                    assert(grid.links_seq(cur).contains(t)) by {
                        assert(grid.links_seq(cur)[k as int] == t);
                    }
                }
                if let Some(dt) = self.distance(&t) {
                    if dt < dcur && (best.is_none() || dt < best_d) {
                        best = Some(t);
                        best_d = dt;
                    }
                }
                k = k + 1;
            }
            match best {
                None => {
                    proof {
                        if *dest == self.spec_origin() {
                            assert(path@.len() == 1);
                            assert(cur == *dest);
                            assert(false);
                        }
                        if self.consistent_with(*grid) && grid.symmetric() {
                            assert(cur != self.spec_origin());
                            let p = choose|p: GridCoords|
                                self.has_dist(p) && #[trigger] grid.linked(p, cur) && self.dist(p)
                                    + 1 == self.dist(cur);
                            assert(grid.linked(cur, p));
                            let i = choose|i: int|
                                0 <= i < grid.links_seq(cur).len() && grid.links_seq(cur)[i] == p;
                            assert(self.has_dist(grid.links_seq(cur)[i]) && self.dist(
                                grid.links_seq(cur)[i],
                            ) < dcur as int);
                            assert(false);
                        }
                    }
                    return Err(GridError::InconsistentState);
                },
                Some(b) => {
                    let ghost path0 = path@;
                    path.push(b);
                    proof {
                        assert(path@.last() == b);
                        assert forall|k2: int|
                            0 <= k2 < path@.len() - 1 implies #[trigger] grid.linked(
                            path@[k2],
                            path@[k2 + 1],
                        ) by {
                            if k2 < path0.len() - 1 {
                                assert(path@[k2] == path0[k2] && path@[k2 + 1] == path0[k2 + 1]);
                                assert(grid.linked(path0[k2], path0[k2 + 1]));
                            } else {
                                assert(path@[k2] == cur && path@[k2 + 1] == b);
                            }
                        }
                        if self.consistent_with(*grid) && grid.symmetric() {
                            assert(grid.linked(b, cur));
                            assert(self.dist(cur) <= self.dist(b) + 1);
                        }
                    }
                    cur = b;
                    dcur = best_d;
                },
            }
        }
        proof {
            assert(self.dist(self.spec_origin()) == 0);
            if *dest == self.spec_origin() {
                assert(path@.len() == 1);
                assert(path@ =~= seq![*dest]);
            }
        }
        Ok(path)
    }
}

/// The recorded distances are achievable: from the origin a path of
/// exactly `dist(c) + 1` coordinates leads through the links to any
/// recorded coordinate, which is therefore reachable.
pub proof fn lemma_distance_achievable(d: Dijkstra, g: Grid, c: GridCoords)
    requires
        d.wf_d(),
        g.wf(),
        d.consistent_with(g),
        d.has_dist(c),
    ensures
        exists|p: Seq<GridCoords>|
            is_path(g, p) && p.first() == d.spec_origin() && p.last() == c && p.len() == d.dist(c)
                + 1,
        reach(g, d.spec_origin(), c),
    decreases d.dist(c),
{
    if c == d.spec_origin() {
        let p = seq![c];
        assert(is_path(g, p) && p.first() == d.spec_origin() && p.last() == c && p.len()
            == d.dist(c) + 1);
    } else {
        let parent = choose|parent: GridCoords|
            d.has_dist(parent) && #[trigger] g.linked(parent, c) && d.dist(parent) + 1 == d.dist(
                c,
            );
        lemma_distance_achievable(d, g, parent);
        let q = choose|q: Seq<GridCoords>|
            is_path(g, q) && q.first() == d.spec_origin() && q.last() == parent && q.len()
                == d.dist(parent) + 1;
        let p = q.push(c);
        assert forall|i: int| 0 <= i < p.len() - 1 implies #[trigger] g.linked(p[i], p[i + 1]) by {
            if i < q.len() - 1 {
                assert(p[i] == q[i] && p[i + 1] == q[i + 1]);
                assert(g.linked(q[i], q[i + 1]));
            } else {
                assert(p[i] == parent && p[i + 1] == c);
            }
        }
        assert(is_path(g, p) && p.first() == d.spec_origin() && p.last() == c && p.len()
            == d.dist(c) + 1);
    }
}

/// The recorded distances are minimal: every path through the links
/// from the origin ends at a recorded coordinate whose distance is at
/// most the path's hop count. In particular a coordinate without an
/// entry is unreachable.
pub proof fn lemma_distance_minimal(d: Dijkstra, g: Grid, p: Seq<GridCoords>)
    requires
        d.wf_d(),
        g.wf(),
        d.consistent_with(g),
        is_path(g, p),
        p.first() == d.spec_origin(),
    ensures
        d.has_dist(p.last()),
        d.dist(p.last()) <= p.len() - 1,
    decreases p.len(),
{
    if p.len() == 1 {
        assert(p.last() == d.spec_origin());
    } else {
        let q = p.drop_last();
        assert forall|i: int| 0 <= i < q.len() - 1 implies #[trigger] g.linked(q[i], q[i + 1]) by {
            assert(q[i] == p[i] && q[i + 1] == p[i + 1]);
            assert(g.linked(p[i], p[i + 1]));
        }
        assert(is_path(g, q) && q.first() == d.spec_origin());
        lemma_distance_minimal(d, g, q);
        let i = p.len() - 2;
        assert(g.linked(p[i], p[i + 1]));
        assert(p[i + 1] == p.last());
        assert(q.last() == p[i]);
    }
}


/// On a grid with symmetric links, each recorded distance other than
/// the origin's is exactly one more than the smallest distance among
/// the cell's linked neighbors: some neighbor is recorded one step
/// closer, and none is recorded more than one step closer.
pub proof fn lemma_distance_via_neighbors(d: Dijkstra, g: Grid, c: GridCoords)
    requires
        d.wf_d(),
        g.wf(),
        d.consistent_with(g),
        g.symmetric(),
        d.has_dist(c),
        c != d.spec_origin(),
    ensures
        exists|p: GridCoords|
            #[trigger] g.linked(c, p) && d.has_dist(p) && d.dist(p) == d.dist(c) - 1,
        forall|p: GridCoords|
            #[trigger] g.linked(c, p) && d.has_dist(p) ==> d.dist(p) >= d.dist(c) - 1,
{
    let parent = choose|parent: GridCoords|
        d.has_dist(parent) && #[trigger] g.linked(parent, c) && d.dist(parent) + 1 == d.dist(c);
    assert(g.linked(c, parent));
    assert forall|p: GridCoords| #[trigger] g.linked(c, p) && d.has_dist(p) implies d.dist(p)
        >= d.dist(c) - 1 by {
        assert(g.linked(p, c));
        assert(d.dist(c) <= d.dist(p) + 1);
    }
}

} // verus!
