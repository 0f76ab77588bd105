//! Label-setting shortest-path search over weighted cells: Dijkstra's
//! algorithm, and the A* variant that biases the frontier by an admissible
//! heuristic.  Both run the same relaxation loop; only the frontier key
//! differs.

use crate::engine::adjacent;
use crate::engine::connected;
use crate::engine::path_cost;
use crate::engine::path_ok;
use crate::engine::step_ok;
use crate::engine::CellType;
use crate::engine::Grid;
use crate::engine::GridModel;
use crate::engine::Point;
use crate::search::filled;
use crate::search::lemma_sum_nonneg;
use crate::search::lemma_sum_update;
use crate::search::lemma_swap_remove_contains;
use crate::search::sum_seq;
use crate::search::walk;
use crate::search::wf_pred;
use vstd::prelude::*;

verus! {

broadcast use crate::engine::lemma_sidx_in_range;

/// A frontier entry: a position and the tentative distance it was pushed
/// with.  Stale entries, superseded by a later relaxation, are skipped when
/// popped; this lazy deletion stands in for a decrease-key operation.
#[derive(Clone, Copy, PartialEq, Eq, Structural, Debug)]
struct Node {
    pos: Point,
    cost: usize,
}

/// The Manhattan distance between two positions: the heuristic A* adds to
/// the frontier key.  Every traversable cell costs at least one, so this
/// never overstates the true remaining cost — it is admissible.
pub open spec fn manhattan(p: Point, q: Point) -> int {
    (if p.row >= q.row {
        p.row - q.row
    } else {
        q.row - p.row
    }) + (if p.col >= q.col {
        p.col - q.col
    } else {
        q.col - p.col
    })
}

/// The frontier key of an entry: its tentative distance, plus the Manhattan
/// heuristic when one is in use.
spec fn spec_key(nd: Node, end: Point, use_h: bool) -> int {
    nd.cost + if use_h {
        manhattan(nd.pos, end)
    } else {
        0
    }
}

fn man_dist(p: Point, q: Point) -> (r: u128)
    ensures
        r == manhattan(p, q),
{
    let dr = if p.row >= q.row {
        p.row - q.row
    } else {
        q.row - p.row
    };
    let dc = if p.col >= q.col {
        p.col - q.col
    } else {
        q.col - p.col
    };
    dr as u128 + dc as u128
}

/// The index of a minimum-key frontier entry.
fn min_key_index(fr: &Vec<Node>, end: Point, use_h: bool) -> (mi: usize)
    requires
        fr@.len() > 0,
    ensures
        mi < fr@.len(),
        forall|i: int|
            0 <= i < fr@.len() ==> spec_key(fr@[mi as int], end, use_h) <= spec_key(
                #[trigger] fr@[i],
                end,
                use_h,
            ),
{
    let mut mi: usize = 0;
    let first = fr[0];
    let mut best: u128 = first.cost as u128 + if use_h {
        man_dist(first.pos, end)
    } else {
        0
    };
    let mut i: usize = 1;
    while i < fr.len()
        invariant
            1 <= i <= fr@.len(),
            mi < i,
            best == spec_key(fr@[mi as int], end, use_h),
            forall|j: int| 0 <= j < i ==> best <= spec_key(#[trigger] fr@[j], end, use_h),
        decreases fr@.len() - i,
    {
        let nd = fr[i];
        let k: u128 = nd.cost as u128 + if use_h {
            man_dist(nd.pos, end)
        } else {
            0
        };
        if k < best {
            best = k;
            mi = i;
        }
        i += 1;
    }
    mi
}

/// A position's tentative distance cannot be improved through any of its
/// traversable neighbors.
#[verifier::opaque]
pub open spec fn relaxed(m: GridModel, dist: Seq<usize>, v: Point) -> bool {
    forall|q: Point| #[trigger]
        step_ok(m, v, q) ==> dist[m.sidx(q)] <= dist[m.sidx(v)] + m.cost_at(q)
}

/// The frontier holds an entry for this position at exactly its current
/// tentative distance.
spec fn frontier_has(fr: Seq<Node>, v: Point, c: usize) -> bool {
    fr.contains((Node { pos: v, cost: c }))
}

/// The state the relaxation loop maintains: sound tentative distances and
/// predecessor links, and a sane frontier.
spec fn dij_core(
    m: GridModel,
    dist: Seq<usize>,
    pred: Seq<Option<Point>>,
    fr: Seq<Node>,
    rank: Map<Point, nat>,
) -> bool {
    &&& dist.len() == m.rows * m.cols
    &&& pred.len() == m.rows * m.cols
    &&& dist[m.sidx(m.start)] == 0
    &&& forall|v: Point| #![trigger m.sidx(v)]
        m.in_bounds(v) && dist[m.sidx(v)] < usize::MAX ==> {
            &&& m.open_at(v)
            &&& (v == m.start || pred[m.sidx(v)] is Some)
            &&& (v != m.start ==> dist[m.sidx(v)] >= 1)
            &&& rank.contains_key(v)
            &&& rank[v] == dist[m.sidx(v)]
        }
    &&& forall|v: Point| #![trigger rank.contains_key(v)]
        rank.contains_key(v) ==> m.in_bounds(v) && dist[m.sidx(v)] < usize::MAX
    &&& wf_pred(m, pred, rank)
    &&& forall|i: int|
        0 <= i < fr.len() ==> {
            &&& m.open_at((#[trigger] fr[i]).pos)
            &&& dist[m.sidx(fr[i].pos)] <= fr[i].cost
            &&& fr[i].cost < usize::MAX
        }
}

/// Every discovered position still has a frontier entry at its current
/// distance, or is fully relaxed — except possibly `p` when `skip` holds.
/// The end cell never counts as relaxed: popping it ends the search, so as
/// long as the loop runs, a discovered end keeps a frontier entry.
spec fn dij_witness_except(
    m: GridModel,
    dist: Seq<usize>,
    fr: Seq<Node>,
    p: Point,
    skip: bool,
) -> bool {
    forall|v: Point| #![trigger m.sidx(v)]
        m.in_bounds(v) && (v != p || !skip) && dist[m.sidx(v)] < usize::MAX ==> (frontier_has(
            fr,
            v,
            dist[m.sidx(v)],
        ) || (v != m.end && relaxed(m, dist, v)))
}

/// The start and end cells are adjacent and the end's cost is
/// representable: the precondition under which the two-cell route is the
/// unique cheapest one.
pub open spec fn adj_cheap(m: GridModel) -> bool {
    adjacent(m.start, m.end) && m.cost_at(m.end) < usize::MAX
}

/// The end cell has been relaxed through the start and can never be
/// improved again.
spec fn end_settled(m: GridModel, dist: Seq<usize>, pred: Seq<Option<Point>>) -> bool {
    dist[m.sidx(m.end)] == m.cost_at(m.end) && pred[m.sidx(m.end)] == Some(m.start)
}

/// Every predecessor link once paid its way: the parent's tentative
/// distance plus the child's cost never exceeds the child's tentative
/// distance.  Since distances only decrease, reconstructed routes cost no
/// more than the end's final label.
#[verifier::opaque]
spec fn links_costed(m: GridModel, dist: Seq<usize>, pred: Seq<Option<Point>>) -> bool {
    forall|u: Point, v: Point| #![trigger m.sidx(u), m.sidx(v)]
        m.in_bounds(u) && m.in_bounds(v) && pred[m.sidx(v)] == Some(u) ==> dist[m.sidx(u)]
            + m.cost_at(v) <= dist[m.sidx(v)]
}

proof fn lemma_links_costed_empty(m: GridModel, dist: Seq<usize>, pred: Seq<Option<Point>>)
    requires
        m.wf(),
        pred.len() == m.rows * m.cols,
        forall|i: int| 0 <= i < pred.len() ==> (#[trigger] pred[i]) is None,
    ensures
        links_costed(m, dist, pred),
{
    reveal(links_costed);
    assert forall|u: Point, v: Point| #![trigger m.sidx(u), m.sidx(v)]
        m.in_bounds(u) && m.in_bounds(v) && pred[m.sidx(v)] == Some(u) implies dist[m.sidx(u)]
        + m.cost_at(v) <= dist[m.sidx(v)] by {
        crate::engine::lemma_sidx_bounds(m, v);
        assert(pred[m.sidx(v)] is None);
    }
}

proof fn lemma_links_costed_after_update(
    m: GridModel,
    dist0: Seq<usize>,
    pred0: Seq<Option<Point>>,
    p: Point,
    c: usize,
    q: Point,
    nc: usize,
)
    requires
        m.wf(),
        m.in_bounds(p),
        m.in_bounds(q),
        q != p,
        dist0.len() == m.rows * m.cols,
        pred0.len() == m.rows * m.cols,
        links_costed(m, dist0, pred0),
        dist0[m.sidx(p)] == c,
        nc == c + m.cost_at(q),
        nc < dist0[m.sidx(q)],
    ensures
        links_costed(m, dist0.update(m.sidx(q), nc), pred0.update(m.sidx(q), Some(p))),
{
    broadcast use crate::engine::lemma_sidx_in_range, crate::engine::lemma_sidx_inj;

    reveal(links_costed);
    let dist1 = dist0.update(m.sidx(q), nc);
    let pred1 = pred0.update(m.sidx(q), Some(p));
    assert forall|u: Point, v: Point| #![trigger m.sidx(u), m.sidx(v)]
        m.in_bounds(u) && m.in_bounds(v) && pred1[m.sidx(v)] == Some(u) implies dist1[m.sidx(u)]
        + m.cost_at(v) <= dist1[m.sidx(v)] by {
        if v == q {
            assert(u == p);
        } else {
            assert(pred0[m.sidx(v)] == Some(u));
            assert(dist0[m.sidx(u)] + m.cost_at(v) <= dist0[m.sidx(v)]);
            assert(dist1[m.sidx(u)] <= dist0[m.sidx(u)]);
        }
    }
}

/// Removing a frontier entry of one position keeps every other position's
/// witness.
proof fn lemma_witness_after_remove(
    m: GridModel,
    dist: Seq<usize>,
    fr0: Seq<Node>,
    mi: int,
    p: Point,
)
    requires
        0 <= mi < fr0.len(),
        fr0[mi].pos == p,
        dij_witness_except(m, dist, fr0, p, true),
    ensures
        dij_witness_except(m, dist, fr0.update(mi, fr0.last()).drop_last(), p, true),
{
    let fr1 = fr0.update(mi, fr0.last()).drop_last();
    assert forall|v: Point| #![trigger m.sidx(v)]
        m.in_bounds(v) && v != p && dist[m.sidx(v)] < usize::MAX implies (frontier_has(
        fr1,
        v,
        dist[m.sidx(v)],
    ) || (v != m.end && relaxed(m, dist, v))) by {
        if !(v != m.end && relaxed(m, dist, v)) {
            assert(frontier_has(fr0, v, dist[m.sidx(v)]));
            let i = choose|i: int|
                0 <= i < fr0.len() && fr0[i] == (Node { pos: v, cost: dist[m.sidx(v)] });
            assert(i != mi);
            lemma_swap_remove_contains(fr0, mi, i, (Node { pos: v, cost: dist[m.sidx(v)] }));
        }
    }
}

/// Relaxedness survives other cells' distances dropping, as long as the
/// cell's own distance is unchanged.
proof fn lemma_relaxed_mono(m: GridModel, dist0: Seq<usize>, dist1: Seq<usize>, v: Point)
    requires
        m.wf(),
        m.in_bounds(v),
        dist0.len() == m.rows * m.cols,
        dist1.len() == m.rows * m.cols,
        relaxed(m, dist0, v),
        forall|u: Point| #![trigger m.sidx(u)]
            m.in_bounds(u) ==> dist1[m.sidx(u)] <= dist0[m.sidx(u)],
        dist1[m.sidx(v)] == dist0[m.sidx(v)],
    ensures
        relaxed(m, dist1, v),
{
    reveal(relaxed);
    assert forall|q: Point| #[trigger]
        step_ok(m, v, q) implies dist1[m.sidx(q)] <= dist1[m.sidx(v)] + m.cost_at(q) by {
        assert(dist0[m.sidx(q)] <= dist0[m.sidx(v)] + m.cost_at(q));
    }
}

proof fn lemma_path_cost_take_step(m: GridModel, w: Seq<Point>, k: int)
    requires
        1 <= k < w.len(),
    ensures
        path_cost(m, w.take(k + 1)) == path_cost(m, w.take(k)) + m.cost_at(w[k]),
{
    assert(w.take(k + 1).drop_last() =~= w.take(k));
    assert(w.take(k + 1).last() == w[k]);
}

proof fn lemma_path_cost_prefix_le(m: GridModel, w: Seq<Point>, k: int)
    requires
        m.wf(),
        path_ok(m, w),
        1 <= k <= w.len(),
    ensures
        path_cost(m, w.take(k)) <= path_cost(m, w),
    decreases w.len() - k,
{
    broadcast use crate::engine::lemma_sidx_in_range;

    if k == w.len() {
        assert(w.take(k) =~= w);
    } else {
        lemma_path_cost_take_step(m, w, k);
        assert(m.open_at(w[k]));
        assert(m.cost_at(w[k]) >= 1);
        lemma_path_cost_prefix_le(m, w, k + 1);
    }
}

proof fn lemma_dist_prefix(m: GridModel, dist: Seq<usize>, w: Seq<Point>, i: int)
    requires
        m.wf(),
        dist.len() == m.rows * m.cols,
        path_ok(m, w),
        path_cost(m, w) < usize::MAX,
        dist[m.sidx(m.start)] == 0,
        forall|v: Point| #![trigger m.sidx(v)]
            m.in_bounds(v) && dist[m.sidx(v)] < usize::MAX && v != m.end ==> relaxed(m, dist, v),
        0 <= i < w.len(),
    ensures
        dist[m.sidx(w[i])] <= path_cost(m, w.take(i + 1)) || dist[m.sidx(m.end)] < usize::MAX,
    decreases i,
{
    reveal(relaxed);
    if i == 0 {
        assert(w.take(1).len() == 1);
    } else {
        lemma_dist_prefix(m, dist, w, i - 1);
        lemma_path_cost_prefix_le(m, w, i);
        if dist[m.sidx(m.end)] < usize::MAX {
        } else if w[i - 1] == m.end {
            assert(dist[m.sidx(w[i - 1])] <= path_cost(m, w.take(i)));
        } else {
            assert(dist[m.sidx(w[i - 1])] < usize::MAX);
            assert(relaxed(m, dist, w[i - 1]));
            assert(step_ok(m, w[i - 1], w[i]));
            lemma_path_cost_take_step(m, w, i);
        }
    }
}

/// If some route from start to end has a total cost the distance labels can
/// represent, and every discovered cell but the end is fully relaxed, the
/// end cell has been discovered.
proof fn lemma_cheap_path_reaches_end(m: GridModel, dist: Seq<usize>, w: Seq<Point>)
    requires
        m.wf(),
        dist.len() == m.rows * m.cols,
        path_ok(m, w),
        path_cost(m, w) < usize::MAX,
        dist[m.sidx(m.start)] == 0,
        forall|v: Point| #![trigger m.sidx(v)]
            m.in_bounds(v) && dist[m.sidx(v)] < usize::MAX && v != m.end ==> relaxed(m, dist, v),
    ensures
        dist[m.sidx(m.end)] < usize::MAX,
{
    lemma_dist_prefix(m, dist, w, w.len() - 1);
    lemma_path_cost_prefix_le(m, w, w.len() - 1 + 1);
    assert(w.take(w.len() as int) =~= w);
}

/// One relaxation step keeps the core loop state sound.
proof fn lemma_core_after_update(
    m: GridModel,
    dist0: Seq<usize>,
    pred0: Seq<Option<Point>>,
    fr0: Seq<Node>,
    rank0: Map<Point, nat>,
    p: Point,
    c: usize,
    q: Point,
    nc: usize,
)
    requires
        m.wf(),
        m.start != m.end,
        m.open_at(p),
        m.open_at(q),
        adjacent(p, q),
        q != p,
        q != m.start,
        dij_core(m, dist0, pred0, fr0, rank0),
        dist0[m.sidx(p)] == c,
        c < usize::MAX,
        nc == c + m.cost_at(q),
        nc < dist0[m.sidx(q)],
    ensures
        dij_core(
            m,
            dist0.update(m.sidx(q), nc),
            pred0.update(m.sidx(q), Some(p)),
            fr0.push((Node { pos: q, cost: nc })),
            rank0.insert(q, nc as nat),
        ),
{
    broadcast use crate::engine::lemma_sidx_in_range, crate::engine::lemma_sidx_inj;

    let dist1 = dist0.update(m.sidx(q), nc);
    let pred1 = pred0.update(m.sidx(q), Some(p));
    let fr1 = fr0.push((Node { pos: q, cost: nc }));
    let rank1 = rank0.insert(q, nc as nat);
    assert(wf_pred(m, pred1, rank1));
    assert(fr1[fr1.len() - 1] == (Node { pos: q, cost: nc }));
    assert(dij_core(m, dist1, pred1, fr1, rank1));
}

/// One relaxation step keeps every other position's frontier witness or
/// relaxedness.
proof fn lemma_witness_after_update(
    m: GridModel,
    dist0: Seq<usize>,
    fr0: Seq<Node>,
    p: Point,
    q: Point,
    nc: usize,
)
    requires
        m.wf(),
        m.in_bounds(q),
        dist0.len() == m.rows * m.cols,
        dij_witness_except(m, dist0, fr0, p, true),
        nc < dist0[m.sidx(q)],
    ensures
        dij_witness_except(
            m,
            dist0.update(m.sidx(q), nc),
            fr0.push((Node { pos: q, cost: nc })),
            p,
            true,
        ),
{
    broadcast use crate::engine::lemma_sidx_in_range, crate::engine::lemma_sidx_inj;

    let dist1 = dist0.update(m.sidx(q), nc);
    let fr1 = fr0.push((Node { pos: q, cost: nc }));
    assert(fr1[fr1.len() - 1] == (Node { pos: q, cost: nc }));
    assert forall|v: Point| #![trigger m.sidx(v)]
        m.in_bounds(v) && v != p && dist1[m.sidx(v)] < usize::MAX implies (frontier_has(
        fr1,
        v,
        dist1[m.sidx(v)],
    ) || (v != m.end && relaxed(m, dist1, v))) by {
        if v == q {
            assert(frontier_has(fr1, q, nc));
        } else {
            assert(dist1[m.sidx(v)] == dist0[m.sidx(v)]);
            if frontier_has(fr0, v, dist0[m.sidx(v)]) {
                let i = choose|i: int|
                    0 <= i < fr0.len() && fr0[i] == (Node { pos: v, cost: dist0[m.sidx(v)] });
                assert(fr1[i] == (Node { pos: v, cost: dist1[m.sidx(v)] }));
            } else {
                assert(v != m.end && relaxed(m, dist0, v));
                lemma_relaxed_mono(m, dist0, dist1, v);
            }
        }
    }
}

/// Along a route reconstructed from predecessor links, every prefix costs
/// no more than the distance label of its last cell.
proof fn lemma_walk_cost(
    m: GridModel,
    dist: Seq<usize>,
    pred: Seq<Option<Point>>,
    path: Seq<Point>,
    i: int,
)
    requires
        m.wf(),
        dist.len() == m.rows * m.cols,
        pred.len() == m.rows * m.cols,
        links_costed(m, dist, pred),
        dist[m.sidx(m.start)] == 0,
        path.len() >= 1,
        path[0] == m.start,
        forall|j: int| 0 <= j < path.len() ==> m.in_bounds(#[trigger] path[j]),
        forall|j: int|
            1 <= j < path.len() ==> pred[m.sidx(#[trigger] path[j])] == Some(path[j - 1]),
        0 <= i < path.len(),
    ensures
        path_cost(m, path.take(i + 1)) <= dist[m.sidx(path[i])],
    decreases i,
{
    reveal(links_costed);
    if i == 0 {
        assert(path.take(1).len() == 1);
    } else {
        lemma_walk_cost(m, dist, pred, path, i - 1);
        lemma_path_cost_take_step(m, path, i);
        assert(pred[m.sidx(path[i])] == Some(path[i - 1]));
        assert(dist[m.sidx(path[i - 1])] + m.cost_at(path[i]) <= dist[m.sidx(path[i])]);
    }
}

/// One step changes the Manhattan distance to a fixed target by at most
/// one.
proof fn lemma_manhattan_step(a: Point, b: Point, t: Point)
    requires
        adjacent(a, b),
    ensures
        manhattan(a, t) <= manhattan(b, t) + 1,
{
}

/// The Manhattan heuristic never overstates the cost still ahead on any
/// route: it is admissible, because every cell entered costs at least one.
proof fn lemma_manhattan_bound(m: GridModel, w: Seq<Point>, i: int)
    requires
        m.wf(),
        path_ok(m, w),
        0 <= i < w.len(),
    ensures
        path_cost(m, w.take(i + 1)) + manhattan(w[i], m.end) <= path_cost(m, w),
    decreases w.len() - i,
{
    if i == w.len() - 1 {
        assert(w[i] == m.end);
        assert(w.take(w.len() as int) =~= w);
    } else {
        lemma_manhattan_bound(m, w, i + 1);
        lemma_path_cost_take_step(m, w, i + 1);
        assert(adjacent(w[i], w[i + 1]));
        lemma_manhattan_step(w[i], w[i + 1], m.end);
        assert(m.open_at(w[i + 1]));
        assert(m.cost_at(w[i + 1]) >= 1);
    }
}

/// While the loop runs, every affordable route either keeps a frontier
/// entry whose key does not exceed the route's total cost, or the end cell
/// is already labeled no worse than the route.
proof fn lemma_cut(
    m: GridModel,
    dist: Seq<usize>,
    fr: Seq<Node>,
    w: Seq<Point>,
    use_h: bool,
    j: int,
)
    requires
        m.wf(),
        dist.len() == m.rows * m.cols,
        path_ok(m, w),
        path_cost(m, w) < usize::MAX,
        dij_witness_except(m, dist, fr, m.start, false),
        0 <= j < w.len(),
        dist[m.sidx(w[j])] <= path_cost(m, w.take(j + 1)),
    ensures
        (exists|i: int|
            0 <= i < fr.len() && spec_key(#[trigger] fr[i], m.end, use_h) <= path_cost(m, w))
            || dist[m.sidx(m.end)] <= path_cost(m, w),
    decreases w.len() - j,
{
    reveal(relaxed);
    lemma_path_cost_prefix_le(m, w, j + 1);
    if w[j] == m.end {
    } else {
        assert(m.open_at(w[j]));
        assert(dist[m.sidx(w[j])] < usize::MAX);
        if frontier_has(fr, w[j], dist[m.sidx(w[j])]) {
            let i = choose|i: int|
                0 <= i < fr.len() && fr[i] == (Node { pos: w[j], cost: dist[m.sidx(w[j])] });
            if use_h {
                lemma_manhattan_bound(m, w, j);
            }
            assert(spec_key(fr[i], m.end, use_h) <= path_cost(m, w));
        } else {
            assert(relaxed(m, dist, w[j]));
            assert(j < w.len() - 1);
            assert(step_ok(m, w[j], w[j + 1]));
            lemma_path_cost_take_step(m, w, j + 1);
            lemma_cut(m, dist, fr, w, use_h, j + 1);
        }
    }
}

/// When the end cell is popped with a minimum frontier key, the route read
/// off the predecessor links costs no more than any route at all.
proof fn lemma_pop_end_optimal(
    m: GridModel,
    dist: Seq<usize>,
    pred: Seq<Option<Point>>,
    fr0: Seq<Node>,
    mi: int,
    use_h: bool,
    path: Seq<Point>,
)
    requires
        m.wf(),
        dist.len() == m.rows * m.cols,
        pred.len() == m.rows * m.cols,
        dij_witness_except(m, dist, fr0, m.start, false),
        links_costed(m, dist, pred),
        dist[m.sidx(m.start)] == 0,
        0 <= mi < fr0.len(),
        fr0[mi].pos == m.end,
        dist[m.sidx(m.end)] <= fr0[mi].cost,
        dist[m.sidx(m.end)] < usize::MAX,
        forall|i: int|
            0 <= i < fr0.len() ==> spec_key(fr0[mi], m.end, use_h) <= spec_key(
                #[trigger] fr0[i],
                m.end,
                use_h,
            ),
        path.len() >= 1,
        path[0] == m.start,
        path[path.len() - 1] == m.end,
        forall|j: int| 0 <= j < path.len() ==> m.in_bounds(#[trigger] path[j]),
        forall|j: int|
            1 <= j < path.len() ==> pred[m.sidx(#[trigger] path[j])] == Some(path[j - 1]),
    ensures
        forall|w: Seq<Point>| path_ok(m, w) ==> path_cost(m, path) <= path_cost(m, w),
{
    lemma_walk_cost(m, dist, pred, path, path.len() - 1);
    assert(path.take(path.len() as int) =~= path);
    assert(path_cost(m, path) <= dist[m.sidx(m.end)]);
    assert(spec_key(fr0[mi], m.end, use_h) == fr0[mi].cost);
    assert forall|w: Seq<Point>| path_ok(m, w) implies path_cost(m, path) <= path_cost(
        m,
        w,
    ) by {
        if path_cost(m, w) < usize::MAX {
            assert(w.take(1).len() == 1);
            assert(dist[m.sidx(w[0])] <= path_cost(m, w.take(1)));
            lemma_cut(m, dist, fr0, w, use_h, 0);
            if exists|i: int|
                0 <= i < fr0.len() && spec_key(#[trigger] fr0[i], m.end, use_h) <= path_cost(
                    m,
                    w,
                ) {
                let i = choose|i: int|
                    0 <= i < fr0.len() && spec_key(#[trigger] fr0[i], m.end, use_h)
                        <= path_cost(m, w);
                assert(fr0[mi].cost <= spec_key(fr0[i], m.end, use_h));
            }
        }
    }
}

/// Relaxes a single traversable neighbor `q` of the popped position `p`:
/// when the route through `p` improves on `q`'s tentative distance, the
/// distance and predecessor are updated and a fresh frontier entry pushed.
#[verifier::rlimit(100)]
fn relax_one(
    g: &Grid,
    p: Point,
    c: usize,
    q: Point,
    dist: &mut Vec<usize>,
    pred: &mut Vec<Option<Point>>,
    fr: &mut Vec<Node>,
    rank: Ghost<Map<Point, nat>>,
) -> (rank1: Ghost<Map<Point, nat>>)
    requires
        g@.start != g@.end,
        g@.open_at(p),
        p != g@.end,
        g@.open_at(q),
        adjacent(p, q),
        old(dist)@[g@.sidx(p)] == c,
        c < usize::MAX,
        dij_core(g@, old(dist)@, old(pred)@, old(fr)@, rank@),
        dij_witness_except(g@, old(dist)@, old(fr)@, p, true),
        links_costed(g@, old(dist)@, old(pred)@),
    ensures
        dij_core(g@, final(dist)@, final(pred)@, final(fr)@, rank1@),
        dij_witness_except(g@, final(dist)@, final(fr)@, p, true),
        links_costed(g@, final(dist)@, final(pred)@),
        final(dist)@[g@.sidx(p)] == c,
        forall|u: Point| #![trigger g@.sidx(u)]
            g@.in_bounds(u) ==> final(dist)@[g@.sidx(u)] <= old(dist)@[g@.sidx(u)],
        forall|u: Point| #![trigger g@.sidx(u)]
            g@.in_bounds(u) && u != q ==> final(dist)@[g@.sidx(u)] == old(dist)@[g@.sidx(u)]
                && final(pred)@[g@.sidx(u)] == old(pred)@[g@.sidx(u)],
        final(dist)@[g@.sidx(q)] <= c + g@.cost_at(q),
        sum_seq(final(dist)@) + final(fr)@.len() <= sum_seq(old(dist)@) + old(fr)@.len(),
        end_settled(g@, old(dist)@, old(pred)@) ==> end_settled(g@, final(dist)@, final(pred)@),
        (q == g@.end && p == g@.start && c == 0 && g@.cost_at(g@.end) < usize::MAX && old(
            dist,
        )@[g@.sidx(g@.end)] == usize::MAX) ==> end_settled(g@, final(dist)@, final(pred)@),
{
    proof {
        use_type_invariant(g);
    }
    let ghost m = g@;
    let ghost mut rk: Map<Point, nat> = rank@;
    let qi = g.index_of(q);
    let w_cost = g.cost_of(q);
    let dq = dist[qi];
    match c.checked_add(w_cost) {
        Some(nc) => {
            if nc < dq {
                proof {
                    assert(q != p) by {
                        if q == p {
                            assert(dist@[qi as int] == c);
                        }
                    }
                    assert(q != m.start) by {
                        if q == m.start {
                            assert(dist@[m.sidx(m.start)] == 0);
                        }
                    }
                    if end_settled(m, dist@, pred@) && q == m.end {
                        assert(dist@[m.sidx(m.end)] == m.cost_at(m.end));
                        assert(false);
                    }
                }
                let ghost dist0 = dist@;
                let ghost pred0 = pred@;
                let ghost frv0 = fr@;
                dist[qi] = nc;
                pred[qi] = Some(p);
                fr.push(Node { pos: q, cost: nc });
                proof {
                    rk = rk.insert(q, nc as nat);
                    lemma_sum_update(dist0, qi as int, nc);
                    assert forall|u: Point| #![trigger m.sidx(u)]
                        m.in_bounds(u) && u != q implies m.sidx(u) != m.sidx(q) by {
                        crate::engine::lemma_sidx_injective(m, u, q);
                    }
                    lemma_core_after_update(m, dist0, pred0, frv0, rank@, p, c, q, nc);
                    lemma_witness_after_update(m, dist0, frv0, p, q, nc);
                    lemma_links_costed_after_update(m, dist0, pred0, p, c, q, nc);
                    assert(dist@ =~= dist0.update(m.sidx(q), nc));
                    assert(pred@ =~= pred0.update(m.sidx(q), Some(p)));
                    assert(fr@ =~= frv0.push((Node { pos: q, cost: nc })));
                }
            }
        },
        None => {},
    }
    Ghost(rk)
}

/// Relaxes every traversable neighbor of a freshly popped position, in the
/// fixed order left, right, up, down.
#[verifier::rlimit(100)]
fn relax_neighbors(
    g: &Grid,
    p: Point,
    c: usize,
    dist: &mut Vec<usize>,
    pred: &mut Vec<Option<Point>>,
    fr: &mut Vec<Node>,
    rank: Ghost<Map<Point, nat>>,
) -> (rank1: Ghost<Map<Point, nat>>)
    requires
        g@.start != g@.end,
        g@.open_at(p),
        p != g@.end,
        old(dist)@[g@.sidx(p)] == c,
        c < usize::MAX,
        dij_core(g@, old(dist)@, old(pred)@, old(fr)@, rank@),
        dij_witness_except(g@, old(dist)@, old(fr)@, p, true),
        links_costed(g@, old(dist)@, old(pred)@),
        adj_cheap(g@) ==> ((p == g@.start && c == 0 && old(dist)@[g@.sidx(g@.end)] == usize::MAX)
            || end_settled(g@, old(dist)@, old(pred)@)),
    ensures
        dij_core(g@, final(dist)@, final(pred)@, final(fr)@, rank1@),
        dij_witness_except(g@, final(dist)@, final(fr)@, p, true),
        links_costed(g@, final(dist)@, final(pred)@),
        relaxed(g@, final(dist)@, p),
        final(dist)@[g@.sidx(p)] == c,
        sum_seq(final(dist)@) + final(fr)@.len() <= sum_seq(old(dist)@) + old(fr)@.len(),
        adj_cheap(g@) ==> end_settled(g@, final(dist)@, final(pred)@),
{
    proof {
        use_type_invariant(g);
    }
    let ghost m = g@;
    let ghost mut rk: Map<Point, nat> = rank@;
    let ns = g.neighbors(p);
    let mut j: usize = 0;
    while j < ns.len()
        invariant
            m == g@,
            m.wf(),
            m.start != m.end,
            j <= ns@.len(),
            forall|i: int|
                0 <= i < ns@.len() ==> m.in_bounds(#[trigger] ns@[i]) && adjacent(p, ns@[i]),
            forall|q: Point| m.in_bounds(q) && adjacent(p, q) ==> ns@.contains(q),
            m.open_at(p),
            p != m.end,
            dist@[m.sidx(p)] == c,
            c < usize::MAX,
            dij_core(m, dist@, pred@, fr@, rk),
            dij_witness_except(m, dist@, fr@, p, true),
            links_costed(m, dist@, pred@),
            sum_seq(dist@) + fr@.len() <= sum_seq(old(dist)@) + old(fr)@.len(),
            forall|k: int|
                0 <= k < j && m.open_at(#[trigger] ns@[k]) ==> dist@[m.sidx(ns@[k])] <= c
                    + m.cost_at(ns@[k]),
            adj_cheap(m) ==> ((p == m.start && c == 0 && dist@[m.sidx(m.end)] == usize::MAX && (
            forall|k: int| 0 <= k < j ==> ns@[k] != m.end)) || end_settled(m, dist@, pred@)),
        decreases ns@.len() - j,
    {
        let q = ns[j];
        if !g.is_blocked(q) {
            let ghost dist_b = dist@;
            let ghost pred_b = pred@;
            let rank1 = relax_one(g, p, c, q, &mut *dist, &mut *pred, &mut *fr, Ghost(rk));
            proof {
                rk = rank1@;
                assert forall|k: int|
                    0 <= k < j + 1 && m.open_at(#[trigger] ns@[k]) implies dist@[m.sidx(ns@[k])]
                    <= c + m.cost_at(ns@[k]) by {
                    if k < j {
                        assert(dist@[m.sidx(ns@[k])] <= dist_b[m.sidx(ns@[k])]);
                    }
                }
                if adj_cheap(m) {
                    if end_settled(m, dist_b, pred_b) {
                    } else if q == m.end {
                        assert(end_settled(m, dist@, pred@));
                    } else {
                        assert(dist@[m.sidx(m.end)] == dist_b[m.sidx(m.end)]);
                        assert(pred@[m.sidx(m.end)] == pred_b[m.sidx(m.end)]);
                    }
                }
            }
        } else {
            proof {
                if adj_cheap(m) && q == m.end {
                    assert(m.cells[m.sidx(m.end)].typ == CellType::End);
                    assert(false);
                }
            }
        }
        j += 1;
    }
    proof {
        if adj_cheap(m) && !end_settled(m, dist@, pred@) {
            assert(m.open_at(m.end)) by {
                assert(m.cells[m.sidx(m.end)].typ == CellType::End);
            }
            assert(ns@.contains(m.end));
            let k = choose|k: int| 0 <= k < ns@.len() && ns@[k] == m.end;
            assert(false);
        }
        assert(relaxed(m, dist@, p)) by {
            reveal(relaxed);
            assert forall|q2: Point| #[trigger]
                step_ok(m, p, q2) implies dist@[m.sidx(q2)] <= dist@[m.sidx(p)] + m.cost_at(
                q2,
            ) by {
                assert(ns@.contains(q2));
                let k = choose|k: int| 0 <= k < ns@.len() && ns@[k] == q2;
                assert(m.open_at(ns@[k]));
            }
        }
    }
    Ghost(rk)
}

/// The shared relaxation loop of Dijkstra's algorithm and A*.  The frontier
/// key is the tentative distance, plus the Manhattan heuristic when `use_h`
/// is set; the choice of key never affects which routes exist, only which
/// optimal route is found first.
///
/// Returns a route from start to end, or `None` exactly when no route whose
/// total cost the distance labels can represent exists.
#[verifier::rlimit(100)]
pub(crate) fn weighted_search(g: &Grid, use_h: bool) -> (r: Option<Vec<Point>>)
    ensures
        r matches Some(p) ==> path_ok(g@, p@) && p@.len() >= 2 && connected(g@),
        r is None ==> !(exists|w: Seq<Point>|
            path_ok(g@, w) && path_cost(g@, w) < usize::MAX),
        (exists|w: Seq<Point>| path_ok(g@, w) && path_cost(g@, w) < usize::MAX) ==> r is Some,
        adj_cheap(g@) ==> (r matches Some(p) && p@ =~= seq![g@.start, g@.end]),
        r matches Some(p) ==> path_cost(g@, p@) < usize::MAX && (forall|w: Seq<Point>|
            path_ok(g@, w) ==> path_cost(g@, p@) <= path_cost(g@, w)),
{
    proof {
        use_type_invariant(g);
    }
    let ghost m = g@;
    let n = g.cell_count();
    let start = g.start();
    let end = g.end();
    proof {
        assert(m.start != m.end) by {
            assert(m.cells[m.sidx(m.start)].typ == CellType::Start);
        }
        assert(m.open_at(m.start)) by {
            assert(m.cells[m.sidx(m.start)].typ == CellType::Start);
        }
    }
    let mut dist: Vec<usize> = filled(n, usize::MAX);
    let mut pred: Vec<Option<Point>> = filled(n, None);
    let mut fr: Vec<Node> = Vec::new();
    let ghost mut rank: Map<Point, nat> = Map::empty();
    let si = g.index_of(start);
    let ghost dist_init = dist@;
    dist[si] = 0;
    proof {
        rank = rank.insert(start, 0nat);
        lemma_sum_update(dist_init, si as int, 0);
        assert forall|v: Point| #![trigger m.sidx(v)]
            m.in_bounds(v) && v != m.start implies m.sidx(v) != m.sidx(m.start) by {
            crate::engine::lemma_sidx_injective(m, v, m.start);
        }
    }
    fr.push(Node { pos: start, cost: 0 });
    proof {
        assert(fr@[0] == (Node { pos: start, cost: 0 }));
        assert(frontier_has(fr@, m.start, 0));
        lemma_links_costed_empty(m, dist@, pred@);
    }
    while fr.len() > 0
        invariant
            m == g@,
            m.wf(),
            n == m.rows * m.cols,
            start == m.start,
            end == m.end,
            m.start != m.end,
            dij_core(m, dist@, pred@, fr@, rank),
            dij_witness_except(m, dist@, fr@, m.start, false),
            links_costed(m, dist@, pred@),
            adj_cheap(m) ==> ((fr@ =~= seq![(Node { pos: m.start, cost: 0 })] && dist@[m.sidx(
                m.end,
            )] == usize::MAX) || end_settled(m, dist@, pred@)),
        decreases sum_seq(dist@) + fr@.len(),
    {
        let mi = min_key_index(&fr, end, use_h);
        let ghost fr0 = fr@;
        let nd = fr.swap_remove(mi);
        let p = nd.pos;
        let c = nd.cost;
        let pi = g.index_of(p);
        if p.row == end.row && p.col == end.col {
            proof {
                assert(p == m.end);
                assert(dist@[m.sidx(m.end)] < usize::MAX);
                assert(pred@[m.sidx(m.end)] is Some);
            }
            let path = walk(g, &pred, Ghost(rank));
            proof {
                assert(connected(m)) by {
                    assert(path_ok(m, path@));
                }
                lemma_pop_end_optimal(m, dist@, pred@, fr0, mi as int, use_h, path@);
                lemma_walk_cost(m, dist@, pred@, path@, path@.len() - 1);
                assert(path@.take(path@.len() as int) =~= path@);
                if adj_cheap(m) {
                    assert(end_settled(m, dist@, pred@)) by {
                        if !end_settled(m, dist@, pred@) {
                            assert(fr0[mi as int] == (Node { pos: m.start, cost: 0 }));
                        }
                    }
                    assert(pred@[m.sidx(m.end)] == Some(m.start));
                    assert(pred@[m.sidx(m.start)] is None);
                    crate::search::lemma_two_cell_path(m, pred@, path@);
                }
            }
            return Some(path);
        }
        let dp = dist[pi];
        if c > dp {
            // A stale entry: a later relaxation already improved this cell.
            proof {
                if adj_cheap(m) && !end_settled(m, dist@, pred@) {
                    assert(fr0[mi as int] == (Node { pos: m.start, cost: 0 }));
                    assert(false);
                }
                lemma_witness_after_remove(m, dist@, fr0, mi as int, p);
                assert forall|v: Point| #![trigger m.sidx(v)]
                    m.in_bounds(v) && dist@[m.sidx(v)] < usize::MAX implies (frontier_has(
                    fr@,
                    v,
                    dist@[m.sidx(v)],
                ) || (v != m.end && relaxed(m, dist@, v))) by {
                    if v == p && !(v != m.end && relaxed(m, dist@, v)) {
                        assert(frontier_has(fr0, p, dist@[m.sidx(p)]));
                        let i = choose|i: int|
                            0 <= i < fr0.len() && fr0[i] == (Node {
                                pos: p,
                                cost: dist@[m.sidx(p)],
                            });
                        assert(i != mi);
                        lemma_swap_remove_contains(
                            fr0,
                            mi as int,
                            i,
                            (Node { pos: p, cost: dist@[m.sidx(p)] }),
                        );
                    }
                }
            }
        } else {
            proof {
                assert(c == dp);
                assert(p != m.end);
                lemma_witness_after_remove(m, dist@, fr0, mi as int, p);
                if adj_cheap(m) && !end_settled(m, dist@, pred@) {
                    assert(fr0[mi as int] == (Node { pos: m.start, cost: 0 }));
                    assert(p == m.start && c == 0);
                }
            }
            let rank1 = relax_neighbors(g, p, c, &mut dist, &mut pred, &mut fr, Ghost(rank));
            proof {
                rank = rank1@;
                assert forall|v: Point| #![trigger m.sidx(v)]
                    m.in_bounds(v) && dist@[m.sidx(v)] < usize::MAX implies (frontier_has(
                    fr@,
                    v,
                    dist@[m.sidx(v)],
                ) || (v != m.end && relaxed(m, dist@, v))) by {
                    if v == p {
                        assert(p != m.end && relaxed(m, dist@, p));
                    }
                }
            }
        }
        proof {
            lemma_sum_nonneg(dist@);
        }
    }
    proof {
        if adj_cheap(m) {
            crate::search::lemma_adjacent_route(m);
            assert(path_ok(m, seq![m.start, m.end]) && path_cost(m, seq![m.start, m.end])
                < usize::MAX);
        }
        if exists|w: Seq<Point>| path_ok(m, w) && path_cost(m, w) < usize::MAX {
            let w = choose|w: Seq<Point>| path_ok(m, w) && path_cost(m, w) < usize::MAX;
            lemma_cheap_path_reaches_end(m, dist@, w);
            assert(frontier_has(fr@, m.end, dist@[m.sidx(m.end)]));
            assert(false);
        }
    }
    None
}

/// Dijkstra's algorithm: label-setting shortest path on weighted cells.  A
/// min-priority frontier keyed by tentative distance relaxes neighbors,
/// skipping stale entries; the search ends the instant the end cell is
/// popped, which is sound because no cost is negative.  The cost of a route
/// charges each cell entered, never the start.
///
/// Returns a route from start to end, or `None` exactly when no route whose
/// total cost fits the distance labels exists.
pub fn dijkstra(g: &Grid) -> (r: Option<Vec<Point>>)
    ensures
        r matches Some(p) ==> path_ok(g@, p@) && p@.len() >= 2 && connected(g@),
        r is None ==> !(exists|w: Seq<Point>|
            path_ok(g@, w) && path_cost(g@, w) < usize::MAX),
        (exists|w: Seq<Point>| path_ok(g@, w) && path_cost(g@, w) < usize::MAX) ==> r is Some,
        adj_cheap(g@) ==> (r matches Some(p) && p@ =~= seq![g@.start, g@.end]),
        r matches Some(p) ==> path_cost(g@, p@) < usize::MAX && (forall|w: Seq<Point>|
            path_ok(g@, w) ==> path_cost(g@, p@) <= path_cost(g@, w)),
{
    weighted_search(g, false)
}

} // verus!
