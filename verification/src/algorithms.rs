//! Interchangeable search strategies over the editor's terrain.  Each
//! strategy turns the board and the user's chosen start and end markers
//! into an engine grid with uniform costs and runs its search.

use crate::engine::adjacent;
use crate::engine::lemma_count_single;
use crate::engine::path_cost;
use crate::engine::path_ok;
use crate::engine::Cell;
use crate::engine::CellType;
use crate::engine::GridModel;
use crate::engine::Point;
use crate::terrain::Grid;
use crate::terrain::Square;
use vstd::arithmetic::div_mod::lemma_fundamental_div_mod_converse;
use vstd::prelude::*;

verus! {

broadcast use crate::engine::lemma_sidx_in_range, crate::engine::lemma_sidx_inj;

/// A structurally valid route over the editor's terrain: from start to end,
/// inside the board, 4-directional steps, and never through a blocked
/// square other than the chosen start and end markers themselves.
pub open spec fn route_ok(grid: Grid, start: Point, end: Point, p: Seq<Point>) -> bool {
    &&& p.len() >= 2
    &&& p[0] == start
    &&& p[p.len() - 1] == end
    &&& forall|i: int|
        0 <= i < p.len() ==> (#[trigger] p[i]).row < grid.rows && p[i].col < grid.cols
    &&& forall|i: int|
        0 <= i < p.len() ==> ((#[trigger] p[i]) == start || p[i] == end || grid.squares[p[i].row
            * grid.cols + p[i].col] != Square::Blocked)
    &&& forall|i: int| 1 <= i < p.len() ==> adjacent(#[trigger] p[i - 1], p[i])
}

/// The board and the chosen markers are fit for a search: a non-empty
/// rectangle whose square array matches its dimensions, with two distinct
/// in-bounds markers.
pub open spec fn board_ok(grid: Grid, start: Point, end: Point) -> bool {
    &&& grid.rows >= 1
    &&& grid.cols >= 1
    &&& grid.rows * grid.cols <= usize::MAX
    &&& grid.squares.len() == grid.rows * grid.cols
    &&& start.row < grid.rows && start.col < grid.cols
    &&& end.row < grid.rows && end.col < grid.cols
    &&& start != end
}

/// The engine grid a board and its chosen markers denote: every square
/// keeps its traversability at uniform cost one, and the markers take the
/// start and end roles whatever square lies under them.
pub open spec fn board_model(grid: Grid, start: Point, end: Point) -> GridModel {
    GridModel {
        rows: grid.rows as int,
        cols: grid.cols as int,
        cells: Seq::new(
            grid.squares@.len(),
            |i: int|
                Cell {
                    typ: if i == start.row * grid.cols + start.col {
                        CellType::Start
                    } else if i == end.row * grid.cols + end.col {
                        CellType::End
                    } else if grid.squares@[i] == Square::Blocked {
                        CellType::Blocked
                    } else {
                        CellType::Empty
                    },
                    cost: 1,
                },
        ),
        start: start,
        end: end,
    }
}

/// A search strategy over the editor's terrain.
pub trait PathfindingAlgorithm {
    /// Computes a cost-optimal route from `start` to `end` over the board
    /// (every entered square costs one), treating the chosen markers as
    /// traversable whatever square lies under them.  Returns `None` exactly
    /// when the board or the markers are malformed, or when no route whose
    /// cost the engine's labels can represent connects the markers.
    fn find_shortest_path(start: Point, end: Point, grid: &Grid) -> (r: Option<Vec<Point>>)
        ensures
            r matches Some(p) ==> route_ok(*grid, start, end, p@),
            r matches Some(p) ==> (forall|w: Seq<Point>|
                path_ok(board_model(*grid, start, end), w) ==> path_cost(
                    board_model(*grid, start, end),
                    p@,
                ) <= path_cost(board_model(*grid, start, end), w)),
            r matches Some(p) ==> (forall|w: Seq<Point>|
                path_ok(board_model(*grid, start, end), w) ==> p@.len() <= w.len()),
            r is None <==> (!board_ok(*grid, start, end) || !(exists|w: Seq<Point>|
                path_ok(board_model(*grid, start, end), w) && path_cost(
                    board_model(*grid, start, end),
                    w,
                ) < usize::MAX)),
    ;
}

/// The A* strategy.
pub struct AStar;

/// The Dijkstra strategy.
pub struct Dijkstra;

/// Turns the board and the chosen markers into an engine grid with uniform
/// costs.  Returns `None` when the board's square array does not match its
/// dimensions, a marker is out of bounds, or the markers coincide.
fn to_engine(start: Point, end: Point, grid: &Grid) -> (r: Option<crate::engine::Grid>)
    ensures
        r is Some <==> board_ok(*grid, start, end),
        r matches Some(g) ==> g@ == board_model(*grid, start, end),
{
    if grid.rows == 0 || grid.cols == 0 {
        return None;
    }
    let total = match grid.rows.checked_mul(grid.cols) {
        Some(t) => t,
        None => {
            return None;
        },
    };
    if grid.squares.len() != total {
        return None;
    }
    if !(start.row < grid.rows && start.col < grid.cols) {
        return None;
    }
    if !(end.row < grid.rows && end.col < grid.cols) {
        return None;
    }
    if start.row == end.row && start.col == end.col {
        return None;
    }
    proof {
        assert(start.row * grid.cols + start.col < total && end.row * grid.cols + end.col
            < total) by (nonlinear_arith)
            requires
                start.row < grid.rows,
                start.col < grid.cols,
                end.row < grid.rows,
                end.col < grid.cols,
                total == grid.rows * grid.cols,
        ;
        assert(start.row * grid.cols + start.col != end.row * grid.cols + end.col)
            by (nonlinear_arith)
            requires
                start.col < grid.cols,
                end.col < grid.cols,
                !(start.row == end.row && start.col == end.col),
        ;
    }
    let si = start.row * grid.cols + start.col;
    let ei = end.row * grid.cols + end.col;
    let mut roles: Vec<CellType> = Vec::new();
    let mut i: usize = 0;
    #[verifier::loop_isolation(false)]
    while i < total
        invariant
            i <= total,
            roles@.len() == i,
            forall|j: int|
                0 <= j < i ==> #[trigger] roles@[j] == (if j == si {
                    CellType::Start
                } else if j == ei {
                    CellType::End
                } else if grid.squares@[j] == Square::Blocked {
                    CellType::Blocked
                } else {
                    CellType::Empty
                }),
        decreases total - i,
    {
        let t = if i == si {
            CellType::Start
        } else if i == ei {
            CellType::End
        } else if grid.squares[i] == Square::Blocked {
            CellType::Blocked
        } else {
            CellType::Empty
        };
        roles.push(t);
        i += 1;
    }
    proof {
        lemma_count_single(roles@, CellType::Start, si as int);
        lemma_count_single(roles@, CellType::End, ei as int);
        lemma_fundamental_div_mod_converse(
            total as int,
            grid.cols as int,
            grid.rows as int,
            0,
        );
    }
    match crate::engine::Grid::build(roles, None, grid.cols) {
        Ok(g) => {
            proof {
                assert(g@.sidx(start) == si as int && g@.sidx(end) == ei as int);
                assert(g@.cells[si as int].typ == CellType::Start);
                assert(g@.cells[ei as int].typ == CellType::End);
                assert(si as int == g@.sidx(g@.start));
                assert(ei as int == g@.sidx(g@.end));
                assert(g@.start == start) by {
                    if g@.start != start {
                        assert(g@.sidx(g@.start) != g@.sidx(start));
                    }
                }
                assert(g@.end == end) by {
                    if g@.end != end {
                        assert(g@.sidx(g@.end) != g@.sidx(end));
                    }
                }
                assert(g@.cells =~= board_model(*grid, start, end).cells);
                assert(g@ =~= board_model(*grid, start, end));
            }
            Some(g)
        },
        Err(_) => {
            proof {
                assert(false);
            }
            None
        },
    }
}

/// Runs a verified engine search over the converted board and carries its
/// guarantees back to the terrain.
fn run_strategy(start: Point, end: Point, grid: &Grid, use_h: bool) -> (r: Option<Vec<Point>>)
    ensures
        r matches Some(p) ==> route_ok(*grid, start, end, p@),
        r matches Some(p) ==> (forall|w: Seq<Point>|
            path_ok(board_model(*grid, start, end), w) ==> path_cost(
                board_model(*grid, start, end),
                p@,
            ) <= path_cost(board_model(*grid, start, end), w)),
        r matches Some(p) ==> (forall|w: Seq<Point>|
            path_ok(board_model(*grid, start, end), w) ==> p@.len() <= w.len()),
        r is None <==> (!board_ok(*grid, start, end) || !(exists|w: Seq<Point>|
            path_ok(board_model(*grid, start, end), w) && path_cost(
                board_model(*grid, start, end),
                w,
            ) < usize::MAX)),
{
    let eg = match to_engine(start, end, grid) {
        Some(eg) => eg,
        None => {
            return None;
        },
    };
    proof {
        use_type_invariant(&eg);
    }
    let found = if use_h {
        crate::a_star::a_star(&eg)
    } else {
        crate::dijkstra::dijkstra(&eg)
    };
    match found {
        Some(p) => {
            proof {
                let m = eg@;
                assert(crate::engine::path_ok(m, p@));
                assert(forall|i: int|
                    0 <= i < m.cells.len() ==> (#[trigger] m.cells[i].cost) == 1);
                assert forall|w: Seq<Point>| path_ok(m, w) implies p@.len() <= w.len() by {
                    crate::laws::lemma_uniform_optimal_is_no_longer(m, 1, p@, w);
                }
                assert forall|i: int|
                    0 <= i < p@.len() implies ((#[trigger] p@[i]) == start || p@[i] == end
                    || grid.squares[p@[i].row * grid.cols + p@[i].col] != Square::Blocked) by {
                    assert(m.open_at(p@[i]));
                    if p@[i] != start && p@[i] != end {
                        assert(m.sidx(p@[i]) != m.sidx(start));
                        assert(m.sidx(p@[i]) != m.sidx(end));
                    }
                }
            }
            Some(p)
        },
        None => None,
    }
}

impl PathfindingAlgorithm for AStar {
    fn find_shortest_path(start: Point, end: Point, grid: &Grid) -> (r: Option<Vec<Point>>) {
        run_strategy(start, end, grid, true)
    }
}

impl PathfindingAlgorithm for Dijkstra {
    fn find_shortest_path(start: Point, end: Point, grid: &Grid) -> (r: Option<Vec<Point>>) {
        run_strategy(start, end, grid, false)
    }
}

} // verus!
