//! The engine's request boundary: one synchronous call carrying a
//! serialized grid and an algorithm selector, answered with a sequence of
//! coordinates, an empty sequence for "unreachable", or a
//! `ConfigurationError`.

use crate::a_star::a_star;
use crate::bfs::bfs;
use crate::dfs::dfs;
use crate::dijkstra::dijkstra;
use crate::engine::all_roles_ok;
use crate::engine::build_err;
use crate::engine::connected;
use crate::engine::path_cost;
use crate::engine::path_ok;
use crate::engine::request_model;
use crate::engine::roles_of;
use crate::engine::ConfigurationError;
use crate::engine::Grid;
use crate::engine::Point;
use vstd::prelude::*;
use vstd::string::StringSliceAdditionalSpecFns;

verus! {

/// The four search algorithms a request can select.
#[derive(Clone, Copy, PartialEq, Eq, Structural, Debug)]
pub enum Algorithm {
    Bfs,
    Dfs,
    Dijkstra,
    AStar,
}

/// The algorithm a textual selector denotes, if any.
pub open spec fn spec_algorithm(s: Seq<char>) -> Option<Algorithm> {
    if s == "bfs"@ {
        Some(Algorithm::Bfs)
    } else if s == "dfs"@ {
        Some(Algorithm::Dfs)
    } else if s == "dijkstra"@ {
        Some(Algorithm::Dijkstra)
    } else if s == "a-star"@ {
        Some(Algorithm::AStar)
    } else {
        None
    }
}

/// Parses one algorithm selector.
pub fn parse_algorithm(s: &str) -> (r: Option<Algorithm>)
    ensures
        r == spec_algorithm(s@),
{
    if s.to_owned() == "bfs".to_owned() {
        Some(Algorithm::Bfs)
    } else if s.to_owned() == "dfs".to_owned() {
        Some(Algorithm::Dfs)
    } else if s.to_owned() == "dijkstra".to_owned() {
        Some(Algorithm::Dijkstra)
    } else if s.to_owned() == "a-star".to_owned() {
        Some(Algorithm::AStar)
    } else {
        None
    }
}

/// Runs the selected algorithm on a grid.  The result sequence runs from
/// start to end; an empty sequence means the end is unreachable.  An
/// unrecognized selector is the one error this call can report.
pub fn find_path(g: &Grid, algorithm: &str) -> (r: Result<Vec<Point>, ConfigurationError>)
    ensures
        r is Err <==> spec_algorithm(algorithm@) is None,
        r is Err ==> r == Err::<Vec<Point>, ConfigurationError>(
            ConfigurationError::UnknownAlgorithm,
        ),
        r matches Ok(p) ==> (p@.len() == 0 || (path_ok(g@, p@) && p@.len() >= 2 && connected(
            g@,
        ))),
        r matches Ok(p) && p@.len() == 0 ==> !(exists|w: Seq<Point>|
            path_ok(g@, w) && path_cost(g@, w) < usize::MAX),
        (spec_algorithm(algorithm@) == Some(Algorithm::Bfs) || spec_algorithm(algorithm@) == Some(
            Algorithm::Dfs,
        )) ==> (r matches Ok(p) ==> (p@.len() == 0 <==> !connected(g@))),
        spec_algorithm(algorithm@) == Some(Algorithm::Bfs) ==> (r matches Ok(p) ==> (p@.len() > 0
            ==> forall|w: Seq<Point>| path_ok(g@, w) ==> p@.len() <= w.len())),
        (spec_algorithm(algorithm@) == Some(Algorithm::Dijkstra) || spec_algorithm(algorithm@)
            == Some(Algorithm::AStar)) ==> (r matches Ok(p) ==> (p@.len() > 0 ==> forall|
            w: Seq<Point>,
        | path_ok(g@, w) ==> path_cost(g@, p@) <= path_cost(g@, w))),
{
    let alg = match parse_algorithm(algorithm) {
        Some(alg) => alg,
        None => {
            return Err(ConfigurationError::UnknownAlgorithm);
        },
    };
    let found = match alg {
        Algorithm::Bfs => bfs(g),
        Algorithm::Dfs => dfs(g),
        Algorithm::Dijkstra => dijkstra(g),
        Algorithm::AStar => a_star(g),
    };
    proof {
        crate::search::lemma_no_route_when_disconnected(g@);
    }
    match found {
        Some(path) => Ok(path),
        None => Ok(Vec::new()),
    }
}

/// The grid model a request's flat arrays denote, once the tags are
/// recognized: the success clauses of [`run_pathfinding`] speak of the
/// search over this model.
pub open spec fn spec_request_grid(colors: Seq<&str>, costs: Seq<usize>, size: int) -> crate::engine::GridModel {
    request_model(roles_of(colors), costs, size)
}

/// Serves one whole request: builds the grid from the caller's flat tag and
/// cost arrays and the textual dimension, then runs the selected algorithm.
/// Every malformed input is answered with a `ConfigurationError`, never by
/// aborting; on success the answer carries every guarantee the selected
/// algorithm gives over the grid the request denotes.
pub fn run_pathfinding(colors: Vec<&str>, costs: Vec<usize>, grid_size: &str, algorithm: &str) -> (r:
    Result<Vec<Point>, ConfigurationError>)
    ensures
        crate::num::spec_usize(grid_size.spec_bytes()) is None ==> r == Err::<
            Vec<Point>,
            ConfigurationError,
        >(ConfigurationError::BadDimension),
        crate::num::spec_usize(grid_size.spec_bytes()) matches Some(size) && !all_roles_ok(
            colors@,
        ) ==> r == Err::<Vec<Point>, ConfigurationError>(ConfigurationError::UnknownRole),
        crate::num::spec_usize(grid_size.spec_bytes()) matches Some(size) ==> (all_roles_ok(
            colors@,
        ) ==> (build_err(roles_of(colors@), Some(costs@), size as int) matches Some(e) ==> r
            == Err::<Vec<Point>, ConfigurationError>(e))),
        r is Err <==> (crate::num::spec_usize(grid_size.spec_bytes()) is None || !all_roles_ok(
            colors@,
        ) || build_err(
            roles_of(colors@),
            Some(costs@),
            crate::num::spec_usize(grid_size.spec_bytes()).unwrap() as int,
        ) is Some || spec_algorithm(algorithm@) is None),
        r matches Ok(p) ==> ({
            let gm = spec_request_grid(
                colors@,
                costs@,
                crate::num::spec_usize(grid_size.spec_bytes()).unwrap() as int,
            );
            &&& (p@.len() == 0 || (path_ok(gm, p@) && p@.len() >= 2 && connected(gm)))
            &&& (p@.len() == 0 ==> !(exists|w: Seq<Point>|
                path_ok(gm, w) && path_cost(gm, w) < usize::MAX))
            &&& ((spec_algorithm(algorithm@) == Some(Algorithm::Bfs) || spec_algorithm(
                algorithm@,
            ) == Some(Algorithm::Dfs)) ==> (p@.len() == 0 <==> !connected(gm)))
            &&& (spec_algorithm(algorithm@) == Some(Algorithm::Bfs) ==> (p@.len() > 0 ==> forall|
                w: Seq<Point>,
            | path_ok(gm, w) ==> p@.len() <= w.len()))
            &&& ((spec_algorithm(algorithm@) == Some(Algorithm::Dijkstra) || spec_algorithm(
                algorithm@,
            ) == Some(Algorithm::AStar)) ==> (p@.len() > 0 ==> forall|w: Seq<Point>|
                path_ok(gm, w) ==> path_cost(gm, p@) <= path_cost(gm, w)))
        }),
{
    let size = match crate::num::parse_usize(grid_size) {
        Some(size) => size,
        None => {
            return Err(ConfigurationError::BadDimension);
        },
    };
    let ghost colors_view = colors@;
    let grid = match Grid::new(colors, costs, size) {
        Ok(grid) => grid,
        Err(e) => {
            return Err(e);
        },
    };
    proof {
        crate::engine::lemma_built_model(
            grid@,
            roles_of(colors_view),
            costs@,
            size as int,
        );
    }
    find_path(&grid, algorithm)
}

} // verus!
