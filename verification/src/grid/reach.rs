use vstd::prelude::*;

verus! {

use crate::grid::Grid;
use crate::grid::cell::GridCoords;

/// A walk through the grid: at least one coordinate, each consecutive
/// pair joined by a directed link.
pub open spec fn is_path(g: Grid, p: Seq<GridCoords>) -> bool {
    &&& p.len() >= 1
    &&& forall|i: int| 0 <= i < p.len() - 1 ==> #[trigger] g.linked(p[i], p[i + 1])
}

/// Some walk through the links of `g` leads from `a` to `b`.
pub open spec fn reach(g: Grid, a: GridCoords, b: GridCoords) -> bool {
    exists|p: Seq<GridCoords>| is_path(g, p) && p.first() == a && p.last() == b
}

pub proof fn lemma_reach_refl(g: Grid, a: GridCoords)
    ensures
        reach(g, a, a),
{
    let p = seq![a];
    assert(is_path(g, p) && p.first() == a && p.last() == a);
}

pub proof fn lemma_reach_step(g: Grid, a: GridCoords, b: GridCoords)
    requires
        g.linked(a, b),
    ensures
        reach(g, a, b),
{
    let p = seq![a, b];
    assert(g.linked(p[0], p[1]));
    assert(is_path(g, p) && p.first() == a && p.last() == b);
}

pub proof fn lemma_reach_trans(g: Grid, a: GridCoords, b: GridCoords, c: GridCoords)
    requires
        reach(g, a, b),
        reach(g, b, c),
    ensures
        reach(g, a, c),
{
    let p1 = choose|p: Seq<GridCoords>| is_path(g, p) && p.first() == a && p.last() == b;
    let p2 = choose|p: Seq<GridCoords>| is_path(g, p) && p.first() == b && p.last() == c;
    let q = p1 + p2.drop_first();
    assert forall|i: int| 0 <= i < q.len() - 1 implies #[trigger] g.linked(q[i], q[i + 1]) by {
        if i < p1.len() - 1 {
            assert(q[i] == p1[i] && q[i + 1] == p1[i + 1]);
        } else if i == p1.len() - 1 {
            assert(q[i] == p1[i] && p1[i] == b && b == p2[0]);
            assert(q[i + 1] == p2.drop_first()[i + 1 - p1.len()] && p2.drop_first()[0] == p2[1]);
            assert(g.linked(p2[0], p2[1]));
        } else {
            let j = i - p1.len() + 1;
            assert(q[i] == p2[j] && q[i + 1] == p2[j + 1]);
            assert(g.linked(p2[j], p2[j + 1]));
        }
    }
    assert(is_path(g, q));
    assert(q.first() == a);
    if p2.len() == 1 {
        assert(q.last() == p1.last() && p2[0] == c);
    } else {
        assert(q.last() == p2[p2.len() - 1]);
    }
    assert(q.last() == c);
}

pub proof fn lemma_linked_mono(g1: Grid, g2: Grid, a: GridCoords, b: GridCoords)
    requires
        g2.extends(g1),
        g1.linked(a, b),
    ensures
        g2.linked(a, b),
{
    let j = choose|j: int| 0 <= j < g1.links_seq(a).len() && g1.links_seq(a)[j] == b;
    assert(g2.links_seq(a)[j] == b);
}

/// Whatever is reachable stays reachable when links are only added.
pub proof fn lemma_reach_mono(g1: Grid, g2: Grid, a: GridCoords, b: GridCoords)
    requires
        g2.extends(g1),
        reach(g1, a, b),
    ensures
        reach(g2, a, b),
{
    let p = choose|p: Seq<GridCoords>| is_path(g1, p) && p.first() == a && p.last() == b;
    assert forall|i: int| 0 <= i < p.len() - 1 implies #[trigger] g2.linked(p[i], p[i + 1]) by {
        assert(g1.linked(p[i], p[i + 1]));
        lemma_linked_mono(g1, g2, p[i], p[i + 1]);
    }
    assert(is_path(g2, p));
}

} // verus!
