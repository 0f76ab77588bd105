use pathfinder::a_star::a_star;
use pathfinder::bfs::bfs;
use pathfinder::dfs::dfs;
use pathfinder::dijkstra::dijkstra;
use pathfinder::engine::Grid;
use pathfinder::engine::Point;

fn grid(colors: Vec<&str>, costs: Vec<usize>, size: usize) -> Grid {
    Grid::new(colors, costs, size).unwrap()
}

fn uniform(colors: Vec<&str>, size: usize) -> Grid {
    let costs = vec![1; colors.len()];
    grid(colors, costs, size)
}

fn assert_valid_route(g: &Grid, path: &Vec<Point>) {
    assert!(path.len() >= 2);
    assert_eq!(path[0], g.start());
    assert_eq!(path[path.len() - 1], g.end());
    for p in path.iter() {
        assert!(p.row < g.rows() && p.col < g.cols());
        assert!(!g.is_blocked(*p));
    }
    for w in path.windows(2) {
        let dr = if w[0].row >= w[1].row { w[0].row - w[1].row } else { w[1].row - w[0].row };
        let dc = if w[0].col >= w[1].col { w[0].col - w[1].col } else { w[1].col - w[0].col };
        assert_eq!(dr + dc, 1);
    }
}

fn route_cost(g: &Grid, path: &Vec<Point>) -> usize {
    let mut total = 0;
    for p in path.iter().skip(1) {
        total += g.cost_of(*p);
    }
    total
}

// The concrete scenario: a 3x3 grid, start at (0,0), end at (2,2), the
// middle row blocked except (1,0).  The unique minimum route has five cells.
fn scenario_grid() -> Grid {
    uniform(
        vec!["green", "white", "white", "white", "black", "black", "white", "white", "red"],
        3,
    )
}

#[test]
fn scenario_unique_minimum_route() {
    let g = scenario_grid();
    let expected = vec![
        Point::new(0, 0),
        Point::new(1, 0),
        Point::new(2, 0),
        Point::new(2, 1),
        Point::new(2, 2),
    ];
    assert_eq!(bfs(&g).unwrap(), expected);
    assert_eq!(dijkstra(&g).unwrap(), expected);
    assert_eq!(a_star(&g).unwrap(), expected);
}

#[test]
fn scenario_dfs_is_a_valid_route() {
    let g = scenario_grid();
    let path = dfs(&g).unwrap();
    assert_valid_route(&g, &path);
}

#[test]
fn connected_grid_all_four_find_valid_routes() {
    let g = uniform(
        vec![
            "green", "white", "black", "white", //
            "white", "white", "black", "white", //
            "black", "white", "white", "white", //
            "white", "white", "black", "red",
        ],
        4,
    );
    for path in [
        bfs(&g).unwrap(),
        dfs(&g).unwrap(),
        dijkstra(&g).unwrap(),
        a_star(&g).unwrap(),
    ] {
        assert_valid_route(&g, &path);
    }
}

#[test]
fn uniform_bfs_and_dijkstra_routes_have_equal_length() {
    let g = uniform(
        vec![
            "green", "white", "white", "white", //
            "black", "black", "white", "black", //
            "white", "white", "white", "white", //
            "white", "black", "black", "red",
        ],
        4,
    );
    let b = bfs(&g).unwrap();
    let d = dijkstra(&g).unwrap();
    assert_valid_route(&g, &b);
    assert_valid_route(&g, &d);
    assert_eq!(b.len(), d.len());
}

#[test]
fn weighted_dijkstra_and_a_star_costs_are_equal() {
    // The direct corridor is expensive; the detour costs less.
    let g = grid(
        vec![
            "green", "white", "red", //
            "white", "black", "white", //
            "white", "white", "white",
        ],
        vec![1, 9, 1, 1, 1, 1, 1, 1, 1],
        3,
    );
    let d = dijkstra(&g).unwrap();
    let a = a_star(&g).unwrap();
    assert_valid_route(&g, &d);
    assert_valid_route(&g, &a);
    assert_eq!(route_cost(&g, &d), route_cost(&g, &a));
    // The detour around the blocked cell enters six cells of cost one;
    // through the expensive middle cell the route would cost ten.
    assert_eq!(route_cost(&g, &d), 6);
}

#[test]
fn weighted_route_avoids_expensive_cell() {
    let g = grid(
        vec!["green", "white", "white", "red"],
        vec![1, 100, 1, 1],
        2,
    );
    // Around: (0,0) -> (1,0) -> (1,1), cost 1 + 1 = 2.
    let expected = vec![Point::new(0, 0), Point::new(1, 0), Point::new(1, 1)];
    assert_eq!(dijkstra(&g).unwrap(), expected);
    assert_eq!(a_star(&g).unwrap(), expected);
}

#[test]
fn adjacent_start_and_end_yield_the_two_cell_route() {
    let g = uniform(vec!["green", "red"], 2);
    let expected = vec![Point::new(0, 0), Point::new(0, 1)];
    assert_eq!(bfs(&g).unwrap(), expected);
    assert_eq!(dfs(&g).unwrap(), expected);
    assert_eq!(dijkstra(&g).unwrap(), expected);
    assert_eq!(a_star(&g).unwrap(), expected);
}

#[test]
fn adjacent_in_a_larger_grid_still_two_cells() {
    let g = uniform(
        vec![
            "white", "white", "white", //
            "white", "green", "red", //
            "white", "white", "white",
        ],
        3,
    );
    let expected = vec![Point::new(1, 1), Point::new(1, 2)];
    assert_eq!(bfs(&g).unwrap(), expected);
    assert_eq!(dfs(&g).unwrap(), expected);
    assert_eq!(dijkstra(&g).unwrap(), expected);
    assert_eq!(a_star(&g).unwrap(), expected);
}

#[test]
fn sealed_end_is_unreachable_for_all_four() {
    let g = uniform(
        vec![
            "green", "white", "black", //
            "white", "black", "black", //
            "black", "black", "red",
        ],
        3,
    );
    assert_eq!(bfs(&g), None);
    assert_eq!(dfs(&g), None);
    assert_eq!(dijkstra(&g), None);
    assert_eq!(a_star(&g), None);
}

#[test]
fn separating_wall_is_unreachable_for_all_four() {
    let g = uniform(
        vec![
            "green", "black", "white", //
            "white", "black", "white", //
            "white", "black", "red",
        ],
        3,
    );
    assert_eq!(bfs(&g), None);
    assert_eq!(dfs(&g), None);
    assert_eq!(dijkstra(&g), None);
    assert_eq!(a_star(&g), None);
}

#[test]
fn bfs_returns_a_shortest_route_here() {
    // Two routes exist; the short one has three cells.
    let g = uniform(
        vec![
            "green", "white", "red", //
            "white", "white", "white",
        ],
        3,
    );
    let b = bfs(&g).unwrap();
    assert_eq!(b.len(), 3);
}
