use pathfinder::engine::ConfigurationError;
use pathfinder::engine::Grid;
use pathfinder::engine::Point;
use pathfinder::num::parse_usize;
use pathfinder::request::find_path;
use pathfinder::request::parse_algorithm;
use pathfinder::request::run_pathfinding;
use pathfinder::request::Algorithm;

#[test]
fn parse_algorithm_recognizes_the_four_selectors() {
    assert_eq!(parse_algorithm("bfs"), Some(Algorithm::Bfs));
    assert_eq!(parse_algorithm("dfs"), Some(Algorithm::Dfs));
    assert_eq!(parse_algorithm("dijkstra"), Some(Algorithm::Dijkstra));
    assert_eq!(parse_algorithm("a-star"), Some(Algorithm::AStar));
    assert_eq!(parse_algorithm("a*"), None);
    assert_eq!(parse_algorithm(""), None);
}

#[test]
fn parse_usize_accepts_digit_runs() {
    assert_eq!(parse_usize("0"), Some(0));
    assert_eq!(parse_usize("25"), Some(25));
    assert_eq!(parse_usize("007"), Some(7));
    assert_eq!(parse_usize("18446744073709551615"), Some(usize::MAX));
}

#[test]
fn parse_usize_rejects_everything_else() {
    assert_eq!(parse_usize(""), None);
    assert_eq!(parse_usize("3x"), None);
    assert_eq!(parse_usize("-3"), None);
    assert_eq!(parse_usize(" 3"), None);
    assert_eq!(parse_usize("18446744073709551616"), None);
}

#[test]
fn find_path_rejects_unknown_selector() {
    let g = Grid::new(vec!["green", "red"], vec![1, 1], 2).unwrap();
    assert_eq!(
        find_path(&g, "best-first"),
        Err(ConfigurationError::UnknownAlgorithm)
    );
}

#[test]
fn find_path_returns_empty_for_unreachable() {
    let g = Grid::new(
        vec!["green", "black", "black", "red"],
        vec![1, 1, 1, 1],
        2,
    )
    .unwrap();
    for alg in ["bfs", "dfs", "dijkstra", "a-star"] {
        assert_eq!(find_path(&g, alg).unwrap(), vec![]);
    }
}

#[test]
fn find_path_dispatches_each_algorithm() {
    let g = Grid::new(vec!["green", "white", "red"], vec![1, 1, 1], 3).unwrap();
    let expected = vec![Point::new(0, 0), Point::new(0, 1), Point::new(0, 2)];
    for alg in ["bfs", "dfs", "dijkstra", "a-star"] {
        assert_eq!(find_path(&g, alg).unwrap(), expected);
    }
}

#[test]
fn run_pathfinding_serves_the_whole_scenario() {
    let colors = vec![
        "green", "white", "white", "white", "black", "black", "white", "white", "red",
    ];
    let expected = vec![
        Point::new(0, 0),
        Point::new(1, 0),
        Point::new(2, 0),
        Point::new(2, 1),
        Point::new(2, 2),
    ];
    for alg in ["bfs", "dijkstra", "a-star"] {
        let r = run_pathfinding(colors.clone(), vec![1; 9], "3", alg).unwrap();
        assert_eq!(r, expected);
    }
}

#[test]
fn run_pathfinding_reports_unreachable_empty() {
    let colors = vec!["green", "black", "black", "red"];
    for alg in ["bfs", "dfs", "dijkstra", "a-star"] {
        let r = run_pathfinding(colors.clone(), vec![1; 4], "2", alg).unwrap();
        assert_eq!(r, vec![]);
    }
}

#[test]
fn run_pathfinding_rejects_non_numeric_dimension() {
    let r = run_pathfinding(vec!["green", "red"], vec![1, 1], "two", "bfs");
    assert_eq!(r, Err(ConfigurationError::BadDimension));
}

#[test]
fn run_pathfinding_rejects_unknown_role_before_counts() {
    let r = run_pathfinding(vec!["green", "purple"], vec![1, 1], "2", "bfs");
    assert_eq!(r, Err(ConfigurationError::UnknownRole));
}

#[test]
fn run_pathfinding_rejects_unknown_algorithm() {
    let r = run_pathfinding(vec!["green", "red"], vec![1, 1], "2", "ida-star");
    assert_eq!(r, Err(ConfigurationError::UnknownAlgorithm));
}

#[test]
fn run_pathfinding_reports_grid_errors() {
    let r = run_pathfinding(vec!["green", "green"], vec![1, 1], "2", "bfs");
    assert_eq!(r, Err(ConfigurationError::StartCount));
    let r = run_pathfinding(vec!["green", "white"], vec![1, 1], "2", "bfs");
    assert_eq!(r, Err(ConfigurationError::EndCount));
    let r = run_pathfinding(vec!["green", "red"], vec![1, 0], "2", "bfs");
    assert_eq!(r, Err(ConfigurationError::BadCosts));
    let r = run_pathfinding(vec!["green", "red", "white"], vec![1, 1, 1], "2", "bfs");
    assert_eq!(r, Err(ConfigurationError::BadDimension));
}
