//! Depth-first search: a reachability witness, not an optimal route.

use crate::engine::adjacent;
use crate::engine::connected;
use crate::engine::path_ok;
use crate::engine::step_ok;
use crate::engine::CellType;
use crate::engine::Grid;
use crate::engine::GridModel;
use crate::engine::Point;
use crate::search::count_true;
use crate::search::filled;
use crate::search::lemma_count_true_all_false;
use crate::search::lemma_count_true_le;
use crate::search::lemma_count_true_update;
use crate::search::lemma_path_closed;
use crate::search::walk;
use crate::search::wf_pred;
use vstd::prelude::*;

verus! {

broadcast use crate::engine::lemma_sidx_in_range;

/// The state the depth-first loop maintains: only traversable cells on the
/// stack, sound predecessor links, the end cell untouched, and chains that
/// bottom out at the start.
spec fn dfs_inv(
    m: GridModel,
    visited: Seq<bool>,
    pred: Seq<Option<Point>>,
    stack: Seq<Point>,
    rank: Map<Point, nat>,
    counter: nat,
) -> bool {
    &&& visited.len() == m.rows * m.cols
    &&& pred.len() == m.rows * m.cols
    &&& forall|i: int|
        0 <= i < stack.len() ==> {
            &&& m.open_at(#[trigger] stack[i])
            &&& stack[i] != m.end
            &&& (stack[i] == m.start || pred[m.sidx(stack[i])] is Some)
            &&& rank.contains_key(stack[i])
            &&& rank[stack[i]] < counter
        }
    &&& forall|v: Point| #![trigger m.sidx(v)]
        m.in_bounds(v) && visited[m.sidx(v)] ==> {
            &&& m.open_at(v)
            &&& v != m.end
            &&& (v == m.start || pred[m.sidx(v)] is Some)
            &&& rank.contains_key(v)
            &&& rank[v] < counter
        }
    &&& !visited[m.sidx(m.end)]
    &&& forall|v: Point| #![trigger m.sidx(v)]
        m.in_bounds(v) && pred[m.sidx(v)] is Some ==> visited[m.sidx(pred[m.sidx(v)].unwrap())]
    &&& wf_pred(m, pred, rank)
}

/// Every expanded cell's traversable neighbors are expanded or on the
/// stack — except possibly those of `p` when `skip` holds.
spec fn dfs_closure_except(
    m: GridModel,
    visited: Seq<bool>,
    stack: Seq<Point>,
    p: Point,
    skip: bool,
) -> bool {
    forall|v: Point, q: Point| #![trigger visited[m.sidx(v)], step_ok(m, v, q)]
        m.in_bounds(v) && (v != p || !skip) && visited[m.sidx(v)] && step_ok(m, v, q) ==> (visited[
            m.sidx(q)
        ] || stack.contains(q))
}

/// Expands one freshly visited cell: scans its neighbors in the fixed
/// order, returns a finished route the instant the end is discovered, and
/// otherwise records predecessors and pushes the unvisited ones.
#[verifier::loop_isolation(false)]
#[verifier::rlimit(100)]
fn dfs_expand(
    g: &Grid,
    p: Point,
    visited: &Vec<bool>,
    pred: &mut Vec<Option<Point>>,
    stack: &mut Vec<Point>,
    rank: Ghost<Map<Point, nat>>,
    counter: Ghost<nat>,
) -> (res: (Option<Vec<Point>>, Ghost<Map<Point, nat>>, Ghost<nat>))
    requires
        g@.start != g@.end,
        g@.open_at(p),
        visited@[g@.sidx(p)],
        visited@[g@.sidx(g@.start)],
        dfs_inv(g@, visited@, old(pred)@, old(stack)@, rank@, counter@),
        dfs_closure_except(g@, visited@, old(stack)@, p, true),
        adjacent(g@.start, g@.end) ==> p == g@.start,
    ensures
        res.0 matches Some(path) ==> path_ok(g@, path@) && path@.len() >= 2 && connected(g@),
        adjacent(g@.start, g@.end) ==> (res.0 matches Some(path) && path@ =~= seq![
            g@.start,
            g@.end,
        ]),
        res.0 is None ==> {
            &&& dfs_inv(g@, visited@, final(pred)@, final(stack)@, res.1@, res.2@)
            &&& dfs_closure_except(g@, visited@, final(stack)@, p, false)
            &&& final(stack)@.len() <= old(stack)@.len() + 4
        },
{
    proof {
        use_type_invariant(g);
    }
    let ghost m = g@;
    let end = g.end();
    let ghost mut rk: Map<Point, nat> = rank@;
    let ghost mut ctr: nat = counter@;
    let ns = g.neighbors(p);
    let ghost slen0 = stack@.len();
    let mut j: usize = 0;
    while j < ns.len()
        invariant
            j <= ns@.len(),
            stack@.len() <= slen0 + j,
            dfs_inv(m, visited@, pred@, stack@, rk, ctr),
            dfs_closure_except(m, visited@, stack@, p, true),
            forall|k: int|
                0 <= k < j && m.open_at(#[trigger] ns@[k]) ==> (visited@[m.sidx(ns@[k])]
                    || stack@.contains(ns@[k])),
        decreases ns@.len() - j,
    {
        let q = ns[j];
        if !g.is_blocked(q) {
            let qi = g.index_of(q);
            if q == end {
                pred[qi] = Some(p);
                proof {
                    rk = rk.insert(m.end, ctr);
                    assert forall|v: Point| #![trigger m.sidx(v)]
                        m.in_bounds(v) && v != m.end implies m.sidx(v) != m.sidx(m.end) by {
                        crate::engine::lemma_sidx_injective(m, v, m.end);
                    }
                    assert(wf_pred(m, pred@, rk));
                }
                let path = walk(g, &pred, Ghost(rk));
                proof {
                    assert(connected(m)) by {
                        assert(path_ok(m, path@));
                    }
                    if adjacent(m.start, m.end) {
                        assert(pred@[m.sidx(m.end)] == Some(m.start));
                        assert(pred@[m.sidx(m.start)] is None);
                        crate::search::lemma_two_cell_path(m, pred@, path@);
                    }
                }
                return (Some(path), Ghost(rk), Ghost(ctr));
            }
            if !visited[qi] {
                let ghost stk1 = stack@;
                pred[qi] = Some(p);
                stack.push(q);
                proof {
                    rk = rk.insert(q, ctr);
                    ctr = ctr + 1;
                    assert forall|v: Point| #![trigger m.sidx(v)]
                        m.in_bounds(v) && v != q implies m.sidx(v) != m.sidx(q) by {
                        crate::engine::lemma_sidx_injective(m, v, q);
                    }
                    assert(wf_pred(m, pred@, rk));
                    assert(stack@[stack@.len() - 1] == q);
                    assert forall|v: Point, q2: Point|
                        #![trigger visited@[m.sidx(v)], step_ok(m, v, q2)]
                        m.in_bounds(v) && v != p && visited@[m.sidx(v)] && step_ok(
                        m,
                        v,
                        q2,
                    ) implies (visited@[m.sidx(q2)] || stack@.contains(q2)) by {
                        if !visited@[m.sidx(q2)] {
                            assert(stk1.contains(q2));
                            let i = choose|i: int| 0 <= i < stk1.len() && stk1[i] == q2;
                            assert(stack@[i] == q2);
                        }
                    }
                    assert forall|k: int|
                        0 <= k < j + 1 && m.open_at(#[trigger] ns@[k]) implies (visited@[m.sidx(
                        ns@[k],
                    )] || stack@.contains(ns@[k])) by {
                        if k < j && !visited@[m.sidx(ns@[k])] {
                            assert(stk1.contains(ns@[k]));
                            let i = choose|i: int| 0 <= i < stk1.len() && stk1[i] == ns@[k];
                            assert(stack@[i] == ns@[k]);
                        }
                    }
                }
            }
        }
        j += 1;
    }
    proof {
        assert forall|v: Point, q2: Point|
            #![trigger visited@[m.sidx(v)], step_ok(m, v, q2)]
            m.in_bounds(v) && visited@[m.sidx(v)] && step_ok(m, v, q2) implies (visited@[m.sidx(
            q2,
        )] || stack@.contains(q2)) by {
            if v == p && !visited@[m.sidx(q2)] {
                assert(m.in_bounds(q2) && adjacent(p, q2));
                assert(ns@.contains(q2));
                let k = choose|k: int| 0 <= k < ns@.len() && ns@[k] == q2;
                assert(m.open_at(ns@[k]));
            }
        }
        if adjacent(m.start, m.end) {
            assert(m.open_at(m.end)) by {
                assert(m.cells[m.sidx(m.end)].typ == CellType::End);
            }
            assert(ns@.contains(m.end));
            let k = choose|k: int| 0 <= k < ns@.len() && ns@[k] == m.end;
            assert(m.open_at(ns@[k]));
            assert(visited@[m.sidx(m.end)] || stack@.contains(ns@[k]));
            if stack@.contains(ns@[k]) {
                let i = choose|i: int| 0 <= i < stack@.len() && stack@[i] == ns@[k];
                assert(stack@[i] != m.end);
            }
            assert(false);
        }
    }
    (None, Ghost(rk), Ghost(ctr))
}

/// Depth-first search.  A LIFO frontier explores the grid in the same fixed
/// neighbor order as the other algorithms; a cell is marked visited when it
/// is expanded, which prevents cycles.  The search stops the instant the end
/// cell is discovered and returns the first route so found.
///
/// The route is structurally valid but carries no shortness or cost
/// guarantee of any kind: it is a reachability witness only.  Callers that
/// need an optimal route must use one of the other three algorithms.
///
/// Returns a route from start to end, or `None` exactly when no route
/// exists.
#[verifier::rlimit(100)]
pub fn dfs(g: &Grid) -> (r: Option<Vec<Point>>)
    ensures
        r matches Some(p) ==> path_ok(g@, p@) && p@.len() >= 2,
        r is None <==> !connected(g@),
        adjacent(g@.start, g@.end) ==> (r matches Some(p) && p@ =~= seq![g@.start, g@.end]),
{
    proof {
        use_type_invariant(g);
    }
    let ghost m = g@;
    let n = g.cell_count();
    let start = g.start();
    proof {
        assert(m.start != m.end) by {
            assert(m.cells[m.sidx(m.start)].typ == CellType::Start);
        }
        assert(m.open_at(m.start)) by {
            assert(m.cells[m.sidx(m.start)].typ == CellType::Start);
        }
    }
    let mut visited: Vec<bool> = filled(n, false);
    let mut pred: Vec<Option<Point>> = filled(n, None);
    let mut stack: Vec<Point> = Vec::new();
    let ghost mut rank: Map<Point, nat> = Map::empty();
    let ghost mut counter: nat = 1;
    proof {
        rank = rank.insert(start, 0nat);
        lemma_count_true_all_false(visited@);
    }
    stack.push(start);
    while stack.len() > 0
        invariant
            m == g@,
            m.wf(),
            n == m.rows * m.cols,
            start == m.start,
            m.start != m.end,
            count_true(visited@) <= n,
            dfs_inv(m, visited@, pred@, stack@, rank, counter),
            visited@[m.sidx(m.start)] || stack@ =~= seq![m.start],
            dfs_closure_except(m, visited@, stack@, m.start, false),
            adjacent(m.start, m.end) ==> count_true(visited@) == 0,
        decreases 4 * (n - count_true(visited@)) + stack@.len(),
    {
        let ghost stk0 = stack@;
        let p = stack.pop().unwrap();
        let pi = g.index_of(p);
        if !visited[pi] {
            let ghost vis0 = visited@;
            visited[pi] = true;
            proof {
                lemma_count_true_update(vis0, pi as int);
                lemma_count_true_le(visited@);
                assert forall|v: Point| #![trigger m.sidx(v)]
                    m.in_bounds(v) && v != p implies m.sidx(v) != m.sidx(p) by {
                    crate::engine::lemma_sidx_injective(m, v, p);
                }
                assert(visited@[m.sidx(m.start)]) by {
                    if !vis0[m.sidx(m.start)] {
                        assert(stk0 =~= seq![m.start]);
                    }
                }
                assert forall|v: Point, q2: Point|
                    #![trigger visited@[m.sidx(v)], step_ok(m, v, q2)]
                    m.in_bounds(v) && v != p && visited@[m.sidx(v)] && step_ok(m, v, q2) implies (
                visited@[m.sidx(q2)] || stack@.contains(q2)) by {
                    if !visited@[m.sidx(q2)] {
                        assert(vis0[m.sidx(v)]);
                        assert(stk0.contains(q2));
                        let i = choose|i: int| 0 <= i < stk0.len() && stk0[i] == q2;
                        assert(q2 != p);
                        assert(i < stk0.len() - 1);
                        assert(stack@[i] == q2);
                    }
                }
            }
            proof {
                if adjacent(m.start, m.end) {
                    assert(!vis0[m.sidx(m.start)]) by {
                        if vis0[m.sidx(m.start)] {
                            crate::search::lemma_count_true_at(vis0, m.sidx(m.start));
                        }
                    }
                    assert(stk0 =~= seq![m.start]);
                    assert(p == m.start);
                }
            }
            let (found, rank1, counter1) = dfs_expand(
                g,
                p,
                &visited,
                &mut pred,
                &mut stack,
                Ghost(rank),
                Ghost(counter),
            );
            proof {
                rank = rank1@;
                counter = counter1@;
            }
            match found {
                Some(path) => {
                    return Some(path);
                },
                None => {
                    proof {
                        assert(!adjacent(m.start, m.end));
                    }
                },
            }
        } else {
            proof {
                if adjacent(m.start, m.end) {
                    crate::search::lemma_count_true_at(visited@, pi as int);
                    assert(false);
                }
                assert(visited@[m.sidx(m.start)]) by {
                    if !visited@[m.sidx(m.start)] {
                        assert(stk0 =~= seq![m.start]);
                        assert(p == m.start);
                    }
                }
                assert forall|v: Point, q2: Point|
                    #![trigger visited@[m.sidx(v)], step_ok(m, v, q2)]
                    m.in_bounds(v) && visited@[m.sidx(v)] && step_ok(m, v, q2) implies (visited@[
                m.sidx(q2)] || stack@.contains(q2)) by {
                    if !visited@[m.sidx(q2)] {
                        assert(stk0.contains(q2));
                        let i = choose|i: int| 0 <= i < stk0.len() && stk0[i] == q2;
                        assert(q2 != p);
                        assert(i < stk0.len() - 1);
                        assert(stack@[i] == q2);
                    }
                }
            }
        }
    }
    proof {
        if adjacent(m.start, m.end) {
            crate::search::lemma_adjacent_route(m);
        }
        if connected(m) {
            let w = choose|w: Seq<Point>| path_ok(m, w);
            let closed = |v: Point| m.in_bounds(v) && visited@[m.sidx(v)];
            assert forall|a: Point, b: Point|
                closed(a) && #[trigger] step_ok(m, a, b) implies closed(b) by {
                assert(visited@[m.sidx(b)] || stack@.contains(b));
            }
            lemma_path_closed(m, w, closed);
            assert(closed(w[w.len() - 1]));
            assert(false);
        }
    }
    None
}

} // verus!
