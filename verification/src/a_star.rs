//! A*: the weighted search with a Manhattan-biased frontier.

use crate::engine::connected;
use crate::engine::path_cost;
use crate::engine::path_ok;
use crate::engine::Grid;
use crate::engine::Point;
use vstd::prelude::*;

verus! {

/// A*.  Identical mechanics to Dijkstra's algorithm — relaxation, lazy
/// deletion of stale entries, termination the instant the end cell is
/// popped — except that the frontier key adds the Manhattan distance to the
/// end, scaled by the minimum per-step cost of one.  Since every
/// traversable cell costs at least one, the heuristic never overstates the
/// remaining cost, so the route found costs no more than Dijkstra's, though
/// the cells visited may differ when several optimal routes exist.
///
/// Returns a route from start to end, or `None` exactly when no route whose
/// total cost fits the distance labels exists.
pub fn a_star(g: &Grid) -> (r: Option<Vec<Point>>)
    ensures
        r matches Some(p) ==> path_ok(g@, p@) && p@.len() >= 2 && connected(g@),
        r is None ==> !(exists|w: Seq<Point>|
            path_ok(g@, w) && path_cost(g@, w) < usize::MAX),
        (exists|w: Seq<Point>| path_ok(g@, w) && path_cost(g@, w) < usize::MAX) ==> r is Some,
        crate::dijkstra::adj_cheap(g@) ==> (r matches Some(p) && p@ =~= seq![g@.start, g@.end]),
        r matches Some(p) ==> path_cost(g@, p@) < usize::MAX && (forall|w: Seq<Point>|
            path_ok(g@, w) ==> path_cost(g@, p@) <= path_cost(g@, w)),
{
    crate::dijkstra::weighted_search(g, true)
}

} // verus!
