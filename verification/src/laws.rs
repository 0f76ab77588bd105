//! Guarantees that relate the four algorithms' routes to each other, stated
//! over the same route model the algorithms' own contracts use.

use crate::engine::path_cost;
use crate::engine::path_ok;
use crate::engine::GridModel;
use crate::engine::Point;
use vstd::prelude::*;

verus! {

broadcast use crate::engine::lemma_sidx_in_range;

/// Two cost-optimal routes over one grid always cost the same.  In
/// particular, whenever Dijkstra's algorithm and A* both return a route,
/// the two routes' total costs are equal, though the cell sequences may
/// differ when several optimal routes exist.
pub proof fn lemma_optimal_costs_equal(m: GridModel, p1: Seq<Point>, p2: Seq<Point>)
    requires
        path_ok(m, p1),
        path_ok(m, p2),
        forall|w: Seq<Point>| #[trigger] path_ok(m, w) ==> path_cost(m, p1) <= path_cost(m, w),
        forall|w: Seq<Point>| #[trigger] path_ok(m, w) ==> path_cost(m, p2) <= path_cost(m, w),
    ensures
        path_cost(m, p1) == path_cost(m, p2),
{
    assert(path_cost(m, p1) <= path_cost(m, p2));
    assert(path_cost(m, p2) <= path_cost(m, p1));
}

/// On a grid whose cells all share one cost, a route's total cost is that
/// cost times the number of cells entered.
pub proof fn lemma_uniform_cost(m: GridModel, k: int, w: Seq<Point>)
    requires
        m.wf(),
        forall|i: int| 0 <= i < m.cells.len() ==> (#[trigger] m.cells[i].cost) == k,
        w.len() >= 1,
        forall|j: int| 0 <= j < w.len() ==> m.in_bounds(#[trigger] w[j]),
    ensures
        path_cost(m, w) == k * (w.len() - 1),
    decreases w.len(),
{
    if w.len() == 1 {
    } else {
        let d = w.drop_last();
        lemma_uniform_cost(m, k, d);
        assert(m.cost_at(w[w.len() - 1]) == k);
        assert(k * (d.len() - 1) + k == k * (w.len() - 1)) by (nonlinear_arith)
            requires
                d.len() == w.len() - 1,
                w.len() >= 2,
        ;
    }
}

/// On uniform-cost terrain a cost-optimal route is also no longer than any
/// other route.  In particular, the routes Dijkstra's algorithm and A*
/// return there never have more cells than the one breadth-first search
/// returns.
pub proof fn lemma_uniform_optimal_is_no_longer(m: GridModel, k: int, p: Seq<Point>, w: Seq<Point>)
    requires
        m.wf(),
        forall|i: int| 0 <= i < m.cells.len() ==> (#[trigger] m.cells[i].cost) == k,
        path_ok(m, p),
        path_ok(m, w),
        path_cost(m, p) <= path_cost(m, w),
    ensures
        p.len() <= w.len(),
{
    assert(m.cells[0].cost == k && m.cells[0].cost >= 1) by {
        assert(m.cells.len() >= 1) by (nonlinear_arith)
            requires
                m.cells.len() == m.rows * m.cols,
                m.rows >= 1,
                m.cols >= 1,
        ;
    }
    lemma_uniform_cost(m, k, p);
    lemma_uniform_cost(m, k, w);
    assert(p.len() <= w.len()) by (nonlinear_arith)
        requires
            k >= 1,
            k * (p.len() - 1) <= k * (w.len() - 1),
            p.len() >= 1,
            w.len() >= 1,
    ;
}

/// On uniform-cost terrain, a route with the fewest cells and a route with
/// the least cost have the same number of cells: breadth-first search and
/// Dijkstra's algorithm agree on the length of the route there.
pub proof fn lemma_uniform_fewest_cells_equals_cheapest(
    m: GridModel,
    k: int,
    b: Seq<Point>,
    d: Seq<Point>,
)
    requires
        m.wf(),
        forall|i: int| 0 <= i < m.cells.len() ==> (#[trigger] m.cells[i].cost) == k,
        path_ok(m, b),
        path_ok(m, d),
        forall|w: Seq<Point>| #[trigger] path_ok(m, w) ==> b.len() <= w.len(),
        forall|w: Seq<Point>| #[trigger] path_ok(m, w) ==> path_cost(m, d) <= path_cost(m, w),
    ensures
        b.len() == d.len(),
{
    assert(b.len() <= d.len());
    assert(path_cost(m, d) <= path_cost(m, b));
    lemma_uniform_optimal_is_no_longer(m, k, d, b);
}

} // verus!
