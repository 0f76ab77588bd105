//! Breadth-first search: the unweighted search with a FIFO frontier,
//! optimal by edge count.

use crate::engine::adjacent;
use crate::engine::connected;
use crate::engine::path_ok;
use crate::engine::step_ok;
use crate::engine::CellType;
use crate::engine::Grid;
use crate::engine::GridModel;
use crate::engine::Point;
use crate::search::count_true;
use crate::search::filled;
use crate::search::lemma_count_true_all_false;
use crate::search::lemma_count_true_le;
use crate::search::lemma_count_true_update;
use crate::search::lemma_path_closed;
use crate::search::walk;
use crate::search::wf_pred;
use vstd::prelude::*;

verus! {

broadcast use crate::engine::lemma_sidx_in_range;

/// Every predecessor link climbs exactly one level: the level of a cell is
/// one more than its predecessor's.
spec fn hop_links(m: GridModel, pred: Seq<Option<Point>>, rank: Map<Point, nat>) -> bool {
    forall|u: Point, v: Point| #![trigger m.sidx(u), m.sidx(v)]
        m.in_bounds(u) && m.in_bounds(v) && pred[m.sidx(v)] == Some(u) ==> rank.contains_key(u)
            && rank.contains_key(v) && rank[v] == rank[u] + 1
}

/// Along a route reconstructed from one-level links, the level of each cell
/// is its position, so the route's length is the end's level plus one.
proof fn lemma_hop_path_len(
    m: GridModel,
    pred: Seq<Option<Point>>,
    rank: Map<Point, nat>,
    path: Seq<Point>,
    i: int,
)
    requires
        hop_links(m, pred, rank),
        path.len() >= 1,
        path[0] == m.start,
        rank.contains_key(m.start),
        rank[m.start] == 0,
        forall|j: int| 0 <= j < path.len() ==> m.in_bounds(#[trigger] path[j]),
        forall|j: int|
            1 <= j < path.len() ==> pred[m.sidx(#[trigger] path[j])] == Some(path[j - 1]),
        0 <= i < path.len(),
    ensures
        rank.contains_key(path[i]) && rank[path[i]] == i,
    decreases i,
{
    if i > 0 {
        lemma_hop_path_len(m, pred, rank, path, i - 1);
        assert(pred[m.sidx(path[i])] == Some(path[i - 1]));
    }
}

/// While the loop runs, any route from start to end must leave the expanded
/// region before reaching the end, so the level of the cell being expanded
/// is at most the route's length minus two.
proof fn lemma_bfs_cut(
    m: GridModel,
    visited: Seq<bool>,
    queue: Seq<Point>,
    rank: Map<Point, nat>,
    hd: int,
    hp: nat,
    w: Seq<Point>,
    j: int,
)
    requires
        m.wf(),
        visited.len() == m.rows * m.cols,
        path_ok(m, w),
        !visited[m.sidx(m.end)],
        forall|v: Point| #![trigger m.sidx(v)]
            m.in_bounds(v) && visited[m.sidx(v)] ==> queue.contains(v),
        0 <= hd <= queue.len(),
        forall|i: int| 0 <= i < queue.len() ==> rank.contains_key(#[trigger] queue[i]),
        forall|i: int, q: Point|
            0 <= i < hd && #[trigger] step_ok(m, queue[i], q) ==> visited[m.sidx(q)]
                && rank.contains_key(q) && rank[q] <= rank[queue[i]] + 1,
        forall|i: int| 0 <= i < hd ==> rank[#[trigger] queue[i]] <= hp,
        forall|i: int| hd <= i < queue.len() ==> rank[#[trigger] queue[i]] >= hp,
        0 <= j < w.len(),
        visited[m.sidx(w[j])],
        rank.contains_key(w[j]),
        rank[w[j]] <= j,
    ensures
        hp <= w.len() - 2,
    decreases w.len() - j,
{
    assert(w[j] != m.end);
    assert(j < w.len() - 1);
    assert(queue.contains(w[j]));
    let i = choose|i: int| 0 <= i < queue.len() && queue[i] == w[j];
    if i < hd {
        assert(step_ok(m, w[j], w[j + 1]));
        assert(visited[m.sidx(w[j + 1])] && rank[w[j + 1]] <= rank[w[j]] + 1);
        lemma_bfs_cut(m, visited, queue, rank, hd, hp, w, j + 1);
    } else {
        assert(rank[w[j]] >= hp);
    }
}

/// Breadth-first search.  A FIFO frontier is seeded with the start cell;
/// each dequeued cell expands its unvisited traversable neighbors in the
/// fixed order left, right, up, down, recording the predecessor on first
/// visit.  The search stops the instant the end cell is discovered.
///
/// Returns a route from start to end with the fewest cells any route has,
/// or `None` exactly when no route exists.
#[verifier::rlimit(100)]
pub fn bfs(g: &Grid) -> (r: Option<Vec<Point>>)
    ensures
        r matches Some(p) ==> path_ok(g@, p@) && p@.len() >= 2,
        r is None <==> !connected(g@),
        adjacent(g@.start, g@.end) ==> (r matches Some(p) && p@ =~= seq![g@.start, g@.end]),
        r matches Some(p) ==> (forall|w: Seq<Point>|
            path_ok(g@, w) ==> p@.len() <= w.len()),
{
    proof {
        use_type_invariant(g);
    }
    let ghost m = g@;
    let n = g.cell_count();
    let start = g.start();
    let end = g.end();
    proof {
        assert(m.start != m.end) by {
            assert(m.cells[m.sidx(m.start)].typ == CellType::Start);
        }
    }
    let mut visited: Vec<bool> = filled(n, false);
    let mut pred: Vec<Option<Point>> = filled(n, None);
    let mut queue: Vec<Point> = Vec::new();
    let ghost mut rank: Map<Point, nat> = Map::empty();
    let si = g.index_of(start);
    proof {
        lemma_count_true_all_false(visited@);
        lemma_count_true_update(visited@, si as int);
    }
    visited[si] = true;
    queue.push(start);
    proof {
        rank = rank.insert(start, 0nat);
        assert(queue@[0] == m.start);
        assert(m.open_at(m.start)) by {
            assert(m.cells[m.sidx(m.start)].typ == CellType::Start);
        }
        assert forall|v: Point| #![trigger m.sidx(v)]
            m.in_bounds(v) && v != m.start implies m.sidx(v) != m.sidx(m.start) by {
            crate::engine::lemma_sidx_injective(m, v, m.start);
        }
    }
    let mut head: usize = 0;
    while head < queue.len()
        invariant
            m == g@,
            m.wf(),
            n == m.rows * m.cols,
            start == m.start,
            end == m.end,
            m.start != m.end,
            visited@.len() == n,
            pred@.len() == n,
            head <= queue@.len(),
            queue@.len() <= count_true(visited@),
            count_true(visited@) <= n,
            forall|i: int|
                0 <= i < queue@.len() ==> m.open_at(#[trigger] queue@[i]) && visited@[m.sidx(
                    queue@[i],
                )],
            forall|v: Point| #![trigger m.sidx(v)]
                m.in_bounds(v) && visited@[m.sidx(v)] ==> {
                    &&& m.open_at(v)
                    &&& queue@.contains(v)
                    &&& rank.contains_key(v)
                },
            visited@[m.sidx(m.start)],
            !visited@[m.sidx(m.end)],
            rank.contains_key(m.start) && rank[m.start] == 0,
            forall|v: Point| #![trigger m.sidx(v)]
                m.in_bounds(v) ==> (pred@[m.sidx(v)] is Some <==> (visited@[m.sidx(v)] && v
                    != m.start)),
            forall|v: Point| #![trigger m.sidx(v)]
                m.in_bounds(v) && pred@[m.sidx(v)] is Some ==> visited@[m.sidx(
                    pred@[m.sidx(v)].unwrap(),
                )],
            wf_pred(m, pred@, rank),
            hop_links(m, pred@, rank),
            forall|i: int, j: int|
                #![trigger queue@[i], queue@[j]]
                0 <= i <= j < queue@.len() ==> rank[queue@[i]] <= rank[queue@[j]],
            forall|i: int, j: int|
                #![trigger queue@[i], queue@[j]]
                head <= i <= j < queue@.len() ==> rank[queue@[j]] <= rank[queue@[i]] + 1,
            forall|i: int, q: Point|
                0 <= i < head && #[trigger] step_ok(m, queue@[i], q) ==> visited@[m.sidx(q)]
                    && rank.contains_key(q) && rank[q] <= rank[queue@[i]] + 1,
            queue@[0] == m.start,
            adjacent(m.start, m.end) ==> head == 0,
        decreases 4 * (n - count_true(visited@)) + queue@.len() - head,
    {
        let p = queue[head];
        head += 1;
        let ghost hp = rank[p];
        let ns = g.neighbors(p);
        let ghost qlen0 = queue@.len();
        let ghost cnt0 = count_true(visited@);
        let mut j: usize = 0;
        while j < ns.len()
            invariant
                m == g@,
                m.wf(),
                n == m.rows * m.cols,
                start == m.start,
                end == m.end,
                m.start != m.end,
                m.open_at(p),
                forall|i: int|
                    0 <= i < ns@.len() ==> m.in_bounds(#[trigger] ns@[i]) && adjacent(p, ns@[i]),
                forall|q: Point| m.in_bounds(q) && adjacent(p, q) ==> ns@.contains(q),
                j <= ns@.len(),
                1 <= head <= queue@.len(),
                visited@.len() == n,
                pred@.len() == n,
                queue@.len() <= count_true(visited@),
                count_true(visited@) <= n,
                count_true(visited@) - cnt0 == queue@.len() - qlen0,
                queue@.len() >= qlen0,
                queue@[head - 1] == p,
                rank.contains_key(p) && rank[p] == hp,
                forall|i: int|
                    0 <= i < queue@.len() ==> m.open_at(#[trigger] queue@[i]) && visited@[m.sidx(
                        queue@[i],
                    )],
                forall|v: Point| #![trigger m.sidx(v)]
                    m.in_bounds(v) && visited@[m.sidx(v)] ==> {
                        &&& m.open_at(v)
                        &&& queue@.contains(v)
                        &&& rank.contains_key(v)
                    },
                visited@[m.sidx(m.start)],
                !visited@[m.sidx(m.end)],
                rank.contains_key(m.start) && rank[m.start] == 0,
                forall|v: Point| #![trigger m.sidx(v)]
                    m.in_bounds(v) ==> (pred@[m.sidx(v)] is Some <==> (visited@[m.sidx(v)] && v
                        != m.start)),
                forall|v: Point| #![trigger m.sidx(v)]
                    m.in_bounds(v) && pred@[m.sidx(v)] is Some ==> visited@[m.sidx(
                        pred@[m.sidx(v)].unwrap(),
                    )],
                wf_pred(m, pred@, rank),
                hop_links(m, pred@, rank),
                forall|i: int, jj: int|
                    #![trigger queue@[i], queue@[jj]]
                    0 <= i <= jj < queue@.len() ==> rank[queue@[i]] <= rank[queue@[jj]],
                forall|i: int|
                    head - 1 <= i < queue@.len() ==> hp <= rank[#[trigger] queue@[i]] && rank[
                        queue@[i]
                    ] <= hp + 1,
                forall|i: int, q: Point|
                    0 <= i < head - 1 && #[trigger] step_ok(m, queue@[i], q) ==> visited@[m.sidx(
                        q,
                    )] && rank.contains_key(q) && rank[q] <= rank[queue@[i]] + 1,
                forall|k: int|
                    0 <= k < j && m.open_at(#[trigger] ns@[k]) ==> visited@[m.sidx(ns@[k])]
                        && rank.contains_key(ns@[k]) && rank[ns@[k]] <= hp + 1,
                queue@[0] == m.start,
                adjacent(m.start, m.end) ==> (head == 1 && p == m.start),
            decreases ns@.len() - j,
        {
            let q = ns[j];
            if !g.is_blocked(q) {
                let qi = g.index_of(q);
                if q == end {
                    pred[qi] = Some(p);
                    proof {
                        rank = rank.insert(m.end, hp + 1);
                        assert forall|v: Point| #![trigger m.sidx(v)]
                            m.in_bounds(v) && v != m.end implies m.sidx(v) != m.sidx(m.end) by {
                            crate::engine::lemma_sidx_injective(m, v, m.end);
                        }
                        assert(wf_pred(m, pred@, rank));
                        assert(hop_links(m, pred@, rank));
                    }
                    let path = walk(g, &pred, Ghost(rank));
                    proof {
                        assert(connected(m)) by {
                            assert(path_ok(m, path@));
                        }
                        if adjacent(m.start, m.end) {
                            assert(pred@[m.sidx(m.end)] == Some(m.start));
                            assert(pred@[m.sidx(m.start)] is None);
                            crate::search::lemma_two_cell_path(m, pred@, path@);
                        }
                        lemma_hop_path_len(m, pred@, rank, path@, path@.len() - 1);
                        assert(path@.len() == hp + 2);
                        assert forall|w: Seq<Point>| path_ok(m, w) implies path@.len()
                            <= w.len() by {
                            assert(visited@[m.sidx(w[0])] && rank[w[0]] <= 0) by {
                                assert(w[0] == m.start);
                            }
                            lemma_bfs_cut(m, visited@, queue@, rank, head - 1, hp, w, 0);
                        }
                    }
                    return Some(path);
                }
                if !visited[qi] {
                    let ghost vis0 = visited@;
                    let ghost que0 = queue@;
                    visited[qi] = true;
                    pred[qi] = Some(p);
                    queue.push(q);
                    proof {
                        rank = rank.insert(q, hp + 1);
                        lemma_count_true_update(vis0, qi as int);
                        lemma_count_true_le(visited@);
                        assert forall|v: Point| #![trigger m.sidx(v)]
                            m.in_bounds(v) && v != q implies m.sidx(v) != m.sidx(q) by {
                            crate::engine::lemma_sidx_injective(m, v, q);
                        }
                        assert(wf_pred(m, pred@, rank));
                        assert(hop_links(m, pred@, rank));
                        assert(queue@[queue@.len() - 1] == q);
                        assert forall|v: Point| #![trigger m.sidx(v)]
                            m.in_bounds(v) && visited@[m.sidx(v)] implies queue@.contains(v) by {
                            if v == q {
                                assert(queue@[queue@.len() - 1] == q);
                            } else {
                                assert(vis0[m.sidx(v)]);
                                assert(que0.contains(v));
                                let i = choose|i: int| 0 <= i < que0.len() && que0[i] == v;
                                assert(queue@[i] == v);
                            }
                        }
                    }
                }
            } else {
                proof {
                    if m.open_at(ns@[j as int]) {
                        assert(false);
                    }
                }
            }
            proof {
                if j < ns@.len() && m.open_at(ns@[j as int]) && visited@[m.sidx(ns@[j as int])]
                    && ns@[j as int] != m.end {
                    let q2 = ns@[j as int];
                    assert(queue@.contains(q2));
                    let i = choose|i: int| 0 <= i < queue@.len() && queue@[i] == q2;
                    if i < head - 1 {
                        assert(rank[queue@[i]] <= rank[queue@[head - 1]]);
                        assert(rank[q2] <= hp + 1);
                    } else {
                        assert(rank[q2] <= hp + 1);
                    }
                }
            }
            j += 1;
        }
        proof {
            lemma_count_true_le(visited@);
            if adjacent(m.start, m.end) {
                assert(p == m.start);
                assert(m.open_at(m.end)) by {
                    assert(m.cells[m.sidx(m.end)].typ == CellType::End);
                }
                assert(ns@.contains(m.end));
                let k = choose|k: int| 0 <= k < ns@.len() && ns@[k] == m.end;
                assert(m.open_at(ns@[k]));
                assert(visited@[m.sidx(m.end)]);
                assert(false);
            }
            assert forall|i: int, q2: Point|
                0 <= i < head && #[trigger] step_ok(m, queue@[i], q2) implies visited@[m.sidx(
                q2,
            )] && rank.contains_key(q2) && rank[q2] <= rank[queue@[i]] + 1 by {
                if i == head - 1 {
                    assert(queue@[i] == p);
                    assert(m.in_bounds(q2) && adjacent(p, q2));
                    assert(ns@.contains(q2));
                    let k = choose|k: int| 0 <= k < ns@.len() && ns@[k] == q2;
                    assert(m.open_at(ns@[k]));
                }
            }
            assert forall|i: int, jj: int|
                #![trigger queue@[i], queue@[jj]]
                head <= i <= jj < queue@.len() implies rank[queue@[jj]] <= rank[queue@[i]]
                + 1 by {
                assert(hp <= rank[queue@[i]] && rank[queue@[jj]] <= hp + 1);
            }
        }
    }
    proof {
        if adjacent(m.start, m.end) {
            crate::search::lemma_adjacent_route(m);
        }
        if connected(m) {
            let w = choose|w: Seq<Point>| path_ok(m, w);
            let closed = |v: Point| m.in_bounds(v) && visited@[m.sidx(v)];
            assert forall|a: Point, b: Point|
                closed(a) && #[trigger] step_ok(m, a, b) implies closed(b) by {
                assert(queue@.contains(a));
                let i = choose|i: int| 0 <= i < queue@.len() && queue@[i] == a;
                assert(step_ok(m, queue@[i], b));
            }
            lemma_path_closed(m, w, closed);
            assert(closed(w[w.len() - 1]));
            assert(false);
        }
    }
    None
}

} // verus!
