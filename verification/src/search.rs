//! Machinery shared by the four search algorithms: predecessor tracking,
//! path reconstruction, and the closure argument behind every
//! "unreachable" verdict.

use crate::engine::adjacent;
use crate::engine::path_ok;
use crate::engine::step_ok;
use crate::engine::Grid;
use crate::engine::GridModel;
use crate::engine::Point;
use vstd::prelude::*;

verus! {

/// A well-formed predecessor table.  Every recorded predecessor link is a
/// legal move, chains never touch the start's entry, every link strictly
/// descends in rank, and every chain bottoms out at the start.  The rank is
/// the order in which the links were recorded; it makes the chains
/// well-founded.
pub open spec fn wf_pred(m: GridModel, pred: Seq<Option<Point>>, rank: Map<Point, nat>) -> bool {
    &&& pred.len() == m.rows * m.cols
    &&& forall|v: Point|
        (m.in_bounds(v) && (#[trigger] pred[m.sidx(v)]) is Some) ==> {
            let u = pred[m.sidx(v)].unwrap();
            &&& step_ok(m, u, v)
            &&& v != m.start
            &&& (u == m.start || pred[m.sidx(u)] is Some)
            &&& rank.contains_key(u)
            &&& rank.contains_key(v)
            &&& rank[u] < rank[v]
        }
}

/// A predecessor chain read off backwards: it begins at the end cell, each
/// entry is reached from the one after it by a legal move, and the last
/// entry is traversable.
pub open spec fn rev_chain(m: GridModel, s: Seq<Point>) -> bool {
    &&& s.len() >= 1
    &&& s[0] == m.end
    &&& m.open_at(s[s.len() - 1])
    &&& forall|j: int| 1 <= j < s.len() ==> step_ok(m, #[trigger] s[j], s[j - 1])
}

/// A vector holding `n` copies of one value.
pub(crate) fn filled<T: Copy>(n: usize, x: T) -> (r: Vec<T>)
    ensures
        r@.len() == n,
        forall|i: int| 0 <= i < n ==> r@[i] == x,
{
    let mut r: Vec<T> = Vec::new();
    let mut i: usize = 0;
    while i < n
        invariant
            i <= n,
            r@.len() == i,
            forall|j: int| 0 <= j < i ==> r@[j] == x,
        decreases n - i,
    {
        r.push(x);
        i += 1;
    }
    r
}

/// Walks predecessor links backward from the end cell, then reverses the
/// collected sequence into start-to-end order.  Shared by all four
/// algorithms as their terminal step.
#[verifier::loop_isolation(false)]
pub(crate) fn walk(g: &Grid, pred: &Vec<Option<Point>>, rank: Ghost<Map<Point, nat>>) -> (r: Vec<
    Point,
>)
    requires
        wf_pred(g@, pred@, rank@),
        pred@[g@.sidx(g@.end)] is Some,
    ensures
        path_ok(g@, r@),
        r@.len() >= 2,
        forall|i: int| 1 <= i < r@.len() ==> pred@[g@.sidx(#[trigger] r@[i])] == Some(r@[i - 1]),
{
    proof {
        use_type_invariant(g);
    }
    let ghost m = g@;
    let mut rev: Vec<Point> = Vec::new();
    let mut cur: Point = g.end();
    proof {
        assert(m.in_bounds(cur) && m.open_at(cur) && rank@.contains_key(cur)) by {
            assert(pred@[m.sidx(m.end)] matches Some(u));
        }
    }
    while pred[g.index_of(cur)].is_some()
        invariant
            m.in_bounds(cur),
            m.open_at(cur),
            rank@.contains_key(cur),
            cur == m.start || pred@[m.sidx(cur)] is Some,
            rev_chain(m, rev@.push(cur)),
            rev@.len() >= 1 ==> pred@[m.sidx(rev@[rev@.len() - 1])] == Some(cur),
            forall|j: int|
                1 <= j < rev@.len() ==> pred@[m.sidx(#[trigger] rev@[j - 1])] == Some(rev@[j]),
        decreases rank@[cur],
    {
        let i = g.index_of(cur);
        let link: Option<Point> = pred[i];
        let u = link.unwrap();
        rev.push(cur);
        proof {
            assert(step_ok(m, u, cur));
            assert(rev_chain(m, rev@.push(u)));
        }
        cur = u;
    }
    proof {
        assert(cur == m.start);
        assert(rev@.len() >= 1) by {
            if rev@.len() == 0 {
                assert(rev@.push(cur)[0] == m.end);
                assert(cur == m.end);
                assert(pred@[m.sidx(m.end)] is None);
            }
        }
    }
    rev.push(cur);
    let ghost full = rev@;
    let len = rev.len();
    let mut path: Vec<Point> = Vec::new();
    let mut k: usize = 0;
    while k < len
        invariant
            k <= len,
            len == full.len(),
            rev@ == full,
            path@.len() == k,
            forall|j: int| 0 <= j < k ==> path@[j] == full[len - 1 - j],
        decreases len - k,
    {
        path.push(rev[len - 1 - k]);
        k += 1;
    }
    proof {
        assert(path_ok(m, path@)) by {
            assert(rev_chain(m, full));
            assert(full[full.len() - 1] == m.start);
            assert forall|i: int| 0 <= i < path@.len() implies m.open_at(#[trigger] path@[i]) by {
                if i < path@.len() - 1 {
                    assert(step_ok(m, full[len - 1 - i], full[len - 2 - i]));
                }
            }
            assert forall|i: int| 1 <= i < path@.len() implies adjacent(
                #[trigger] path@[i - 1],
                path@[i],
            ) by {
                assert(step_ok(m, full[len - i], full[len - i - 1]));
            }
        }
        assert forall|i: int| 1 <= i < path@.len() implies pred@[m.sidx(#[trigger] path@[i])]
            == Some(path@[i - 1]) by {
            assert(path@[i] == full[len - 1 - i]);
            assert(path@[i - 1] == full[len - i]);
            assert(pred@[m.sidx(full[(len - i) - 1])] == Some(full[len - i]));
        }
    }
    path
}

/// A route whose links all follow the predecessor table, where the end's
/// predecessor is the start itself and the start has none, is exactly the
/// two-cell route.
pub(crate) proof fn lemma_two_cell_path(m: GridModel, pred: Seq<Option<Point>>, p: Seq<Point>)
    requires
        p.len() >= 2,
        p[0] == m.start,
        p[p.len() - 1] == m.end,
        forall|i: int| 1 <= i < p.len() ==> pred[m.sidx(#[trigger] p[i])] == Some(p[i - 1]),
        pred[m.sidx(m.end)] == Some(m.start),
        pred[m.sidx(m.start)] is None,
    ensures
        p =~= seq![m.start, m.end],
{
    assert(pred[m.sidx(p[p.len() - 1])] == Some(p[p.len() - 2]));
    assert(p[p.len() - 2] == m.start);
    if p.len() > 2 {
        assert(pred[m.sidx(p[p.len() - 2])] == Some(p[p.len() - 3]));
        assert(false);
    }
}

/// Any set of cells that contains the start and is closed under legal moves
/// contains every cell of every well-formed route.
pub proof fn lemma_path_closed(m: GridModel, w: Seq<Point>, closed: spec_fn(Point) -> bool)
    requires
        path_ok(m, w),
        closed(m.start),
        forall|p: Point, q: Point| closed(p) && #[trigger] step_ok(m, p, q) ==> closed(q),
    ensures
        forall|i: int| 0 <= i < w.len() ==> closed(#[trigger] w[i]),
{
    assert forall|i: int| 0 <= i < w.len() implies closed(#[trigger] w[i]) by {
        lemma_path_closed_upto(m, w, closed, i);
    }
}

proof fn lemma_path_closed_upto(m: GridModel, w: Seq<Point>, closed: spec_fn(Point) -> bool, i: int)
    requires
        path_ok(m, w),
        closed(m.start),
        forall|p: Point, q: Point| closed(p) && #[trigger] step_ok(m, p, q) ==> closed(q),
        0 <= i < w.len(),
    ensures
        closed(w[i]),
    decreases i,
{
    if i > 0 {
        lemma_path_closed_upto(m, w, closed, i - 1);
        assert(step_ok(m, w[i - 1], w[i]));
    }
}

/// The sum of a distance array, the potential that bounds the work a
/// frontier with lazy deletion can still do.
pub open spec fn sum_seq(s: Seq<usize>) -> int
    decreases s.len(),
{
    if s.len() == 0 {
        0
    } else {
        sum_seq(s.drop_last()) + s.last()
    }
}

pub proof fn lemma_sum_nonneg(s: Seq<usize>)
    ensures
        sum_seq(s) >= 0,
    decreases s.len(),
{
    if s.len() > 0 {
        lemma_sum_nonneg(s.drop_last());
    }
}

pub proof fn lemma_sum_update(s: Seq<usize>, i: int, v: usize)
    requires
        0 <= i < s.len(),
    ensures
        sum_seq(s.update(i, v)) == sum_seq(s) - s[i] + v,
    decreases s.len(),
{
    let t = s.update(i, v);
    if i == s.len() - 1 {
        assert(t.drop_last() =~= s.drop_last());
    } else {
        assert(t.drop_last() =~= s.drop_last().update(i, v));
        lemma_sum_update(s.drop_last(), i, v);
    }
}

/// An element known to sit away from the removed slot survives a
/// `swap_remove`.
pub proof fn lemma_swap_remove_contains<T>(s: Seq<T>, mi: int, k: int, x: T)
    requires
        0 <= mi < s.len(),
        0 <= k < s.len(),
        k != mi,
        s[k] == x,
    ensures
        s.update(mi, s.last()).drop_last().contains(x),
{
    let t = s.update(mi, s.last()).drop_last();
    if k == s.len() - 1 {
        assert(t[mi] == x);
    } else {
        assert(t[k] == x);
    }
}

/// When every in-bounds neighbor of the end cell is blocked, no route from
/// start to end exists at all: every algorithm reports "unreachable".
pub proof fn lemma_end_sealed_unreachable(m: GridModel)
    requires
        m.wf(),
        forall|q: Point|
            m.in_bounds(q) && adjacent(q, m.end) ==> #[trigger] m.kind_at(q)
                == crate::engine::CellType::Blocked,
    ensures
        !crate::engine::connected(m),
        !(exists|w: Seq<Point>|
            path_ok(m, w) && crate::engine::path_cost(m, w) < usize::MAX),
{
    broadcast use crate::engine::lemma_sidx_in_range;

    if crate::engine::connected(m) {
        let w = choose|w: Seq<Point>| path_ok(m, w);
        assert(m.start != m.end) by {
            assert(m.cells[m.sidx(m.start)].typ == crate::engine::CellType::Start);
        }
        assert(w.len() >= 2);
        let k = w.len() - 1;
        let z = w[k - 1];
        assert(m.open_at(z));
        assert(adjacent(w[k - 1], w[k]));
        assert(m.kind_at(z) == crate::engine::CellType::Blocked);
        assert(false);
    }
    lemma_no_route_when_disconnected(m);
}

/// A start adjacent to the end with no obstruction yields the two-cell
/// route, whose total cost is the end cell's own cost.
pub proof fn lemma_adjacent_route(m: GridModel)
    requires
        m.wf(),
        adjacent(m.start, m.end),
    ensures
        path_ok(m, seq![m.start, m.end]),
        crate::engine::connected(m),
        crate::engine::path_cost(m, seq![m.start, m.end]) == m.cost_at(m.end),
{
    broadcast use crate::engine::lemma_sidx_in_range;

    let w = seq![m.start, m.end];
    assert(m.cells[m.sidx(m.start)].typ == crate::engine::CellType::Start);
    assert(m.cells[m.sidx(m.end)].typ == crate::engine::CellType::End);
    assert(path_ok(m, w));
    assert(w.len() == 2);
    assert(w.drop_last() =~= seq![m.start]);
    assert(crate::engine::path_cost(m, seq![m.start]) == 0);
    assert(crate::engine::path_cost(m, w) == crate::engine::path_cost(m, w.drop_last())
        + m.cost_at(w[w.len() - 1]));
    assert(w[w.len() - 1] == m.end);
}

/// Where start and end are not connected at all, no route of any cost
/// exists either.
pub proof fn lemma_no_route_when_disconnected(m: GridModel)
    ensures
        !crate::engine::connected(m) ==> !(exists|w: Seq<Point>|
            path_ok(m, w) && crate::engine::path_cost(m, w) < usize::MAX),
{
    if exists|w: Seq<Point>| path_ok(m, w) && crate::engine::path_cost(m, w) < usize::MAX {
        let w = choose|w: Seq<Point>|
            path_ok(m, w) && crate::engine::path_cost(m, w) < usize::MAX;
        assert(path_ok(m, w));
    }
}

/// How many entries of a flag array are set.
pub open spec fn count_true(s: Seq<bool>) -> nat
    decreases s.len(),
{
    if s.len() == 0 {
        0
    } else {
        count_true(s.drop_last()) + if s.last() {
            1nat
        } else {
            0nat
        }
    }
}

pub proof fn lemma_count_true_le(s: Seq<bool>)
    ensures
        count_true(s) <= s.len(),
    decreases s.len(),
{
    if s.len() > 0 {
        lemma_count_true_le(s.drop_last());
    }
}

pub proof fn lemma_count_true_at(s: Seq<bool>, i: int)
    requires
        0 <= i < s.len(),
        s[i],
    ensures
        count_true(s) >= 1,
    decreases s.len(),
{
    if i < s.len() - 1 {
        lemma_count_true_at(s.drop_last(), i);
    }
}

pub proof fn lemma_count_true_all_false(s: Seq<bool>)
    requires
        forall|i: int| 0 <= i < s.len() ==> !(#[trigger] s[i]),
    ensures
        count_true(s) == 0,
    decreases s.len(),
{
    if s.len() > 0 {
        lemma_count_true_all_false(s.drop_last());
    }
}

pub proof fn lemma_count_true_update(s: Seq<bool>, i: int)
    requires
        0 <= i < s.len(),
        !s[i],
    ensures
        count_true(s.update(i, true)) == count_true(s) + 1,
    decreases s.len(),
{
    let t = s.update(i, true);
    if i == s.len() - 1 {
        assert(t.drop_last() =~= s.drop_last());
    } else {
        assert(t.drop_last() =~= s.drop_last().update(i, true));
        lemma_count_true_update(s.drop_last(), i);
    }
}

} // verus!
