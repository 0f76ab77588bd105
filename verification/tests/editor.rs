use pathfinder::algorithms::AStar;
use pathfinder::algorithms::Dijkstra;
use pathfinder::algorithms::PathfindingAlgorithm;
use pathfinder::board;
use pathfinder::engine::Point;
use pathfinder::terrain;
use pathfinder::terrain::Square;

#[test]
fn terrain_new_is_all_empty() {
    let g = terrain::Grid::new(4, 5);
    assert_eq!(g.rows, 4);
    assert_eq!(g.cols, 5);
    assert_eq!(g.squares.len(), 20);
    assert!(g.squares.iter().all(|s| *s == Square::Empty));
    assert!(g.start.is_none());
    assert!(g.end.is_none());
}

#[test]
fn terrain_default_dimensions() {
    let g = terrain::Grid::default();
    assert_eq!(g.rows, terrain::DEFAULT_GRID_ROWS);
    assert_eq!(g.cols, terrain::DEFAULT_GRID_COLS);
    assert_eq!(g.squares.len(), 25 * 25);
}

#[test]
fn terrain_random_blockage_only_empty_or_blocked() {
    let g = terrain::Grid::with_random_blockage(6, 7);
    assert_eq!(g.squares.len(), 42);
    assert!(g
        .squares
        .iter()
        .all(|s| *s == Square::Empty || *s == Square::Blocked));
    assert!(g.start.is_none());
    assert!(g.end.is_none());
}

#[test]
fn square_labels() {
    assert_eq!(Square::Empty.label(), "Empty");
    assert_eq!(Square::Blocked.label(), "Blocked");
    assert_eq!(Square::Start.label(), "Start");
    assert_eq!(Square::End.label(), "End");
    assert_eq!(Square::default(), Square::Empty);
}

#[test]
fn board_new_and_default() {
    let b = board::Grid::new(3, 4, 10);
    assert_eq!(b.rows, 3);
    assert_eq!(b.cols, 4);
    assert_eq!(b.square_size, 10);
    assert_eq!(b.squares.len(), 12);
    assert!(b.squares.iter().all(|s| *s == board::SquareState::Empty));
    let d = board::Grid::default();
    assert_eq!(d.rows, board::GRID_ROWS);
    assert_eq!(d.cols, board::GRID_COLS);
    assert_eq!(d.square_size, board::SQUARE_SIZE);
    assert_eq!(board::SquareState::default(), board::SquareState::Empty);
}

fn open_board(rows: usize, cols: usize) -> terrain::Grid {
    terrain::Grid::new(rows, cols)
}

fn check_route(g: &terrain::Grid, start: Point, end: Point, path: &Vec<Point>) {
    assert!(path.len() >= 2);
    assert_eq!(path[0], start);
    assert_eq!(path[path.len() - 1], end);
    for p in path.iter() {
        assert!(p.row < g.rows && p.col < g.cols);
        if *p != start && *p != end {
            assert!(g.squares[p.row * g.cols + p.col] != Square::Blocked);
        }
    }
    for w in path.windows(2) {
        let dr = if w[0].row >= w[1].row { w[0].row - w[1].row } else { w[1].row - w[0].row };
        let dc = if w[0].col >= w[1].col { w[0].col - w[1].col } else { w[1].col - w[0].col };
        assert_eq!(dr + dc, 1);
    }
}

#[test]
fn strategies_route_over_an_open_board() {
    let g = open_board(3, 3);
    let start = Point::new(0, 0);
    let end = Point::new(2, 2);
    let a = AStar::find_shortest_path(start, end, &g).unwrap();
    check_route(&g, start, end, &a);
    let d = Dijkstra::find_shortest_path(start, end, &g).unwrap();
    check_route(&g, start, end, &d);
    assert_eq!(a.len(), 5);
    assert_eq!(d.len(), 5);
}

#[test]
fn strategies_respect_blocked_squares() {
    let mut g = open_board(3, 3);
    // Block the whole middle row except the first column.
    g.squares[3 + 1] = Square::Blocked;
    g.squares[3 + 2] = Square::Blocked;
    let start = Point::new(0, 0);
    let end = Point::new(2, 2);
    let expected = vec![
        Point::new(0, 0),
        Point::new(1, 0),
        Point::new(2, 0),
        Point::new(2, 1),
        Point::new(2, 2),
    ];
    assert_eq!(AStar::find_shortest_path(start, end, &g).unwrap(), expected);
    assert_eq!(Dijkstra::find_shortest_path(start, end, &g).unwrap(), expected);
}

#[test]
fn strategies_reject_malformed_markers() {
    let g = open_board(3, 3);
    let inside = Point::new(1, 1);
    let outside = Point::new(3, 0);
    assert!(AStar::find_shortest_path(outside, inside, &g).is_none());
    assert!(AStar::find_shortest_path(inside, outside, &g).is_none());
    assert!(AStar::find_shortest_path(inside, inside, &g).is_none());
    assert!(Dijkstra::find_shortest_path(inside, inside, &g).is_none());
}

#[test]
fn strategies_report_unreachable_as_none() {
    let mut g = open_board(3, 3);
    // Wall the middle column off entirely.
    g.squares[0 * 3 + 1] = Square::Blocked;
    g.squares[1 * 3 + 1] = Square::Blocked;
    g.squares[2 * 3 + 1] = Square::Blocked;
    let start = Point::new(0, 0);
    let end = Point::new(0, 2);
    assert!(AStar::find_shortest_path(start, end, &g).is_none());
    assert!(Dijkstra::find_shortest_path(start, end, &g).is_none());
}

#[test]
fn random_board_routes_stay_valid() {
    let g = terrain::Grid::with_random_blockage(5, 5);
    let start = Point::new(0, 0);
    let end = Point::new(4, 4);
    if let Some(path) = AStar::find_shortest_path(start, end, &g) {
        check_route(&g, start, end, &path);
    }
}
