use pathfinder::engine::CellType;
use pathfinder::engine::ConfigurationError;
use pathfinder::engine::Grid;
use pathfinder::engine::Point;

#[test]
fn rejects_two_starts() {
    let r = Grid::new(vec!["green", "green", "red", "white"], vec![1, 1, 1, 1], 2);
    assert_eq!(r.err(), Some(ConfigurationError::StartCount));
}

#[test]
fn rejects_zero_starts() {
    let r = Grid::new(vec!["white", "white", "red", "white"], vec![1, 1, 1, 1], 2);
    assert_eq!(r.err(), Some(ConfigurationError::StartCount));
}

#[test]
fn rejects_zero_ends() {
    let r = Grid::new(vec!["green", "white", "white", "white"], vec![1, 1, 1, 1], 2);
    assert_eq!(r.err(), Some(ConfigurationError::EndCount));
}

#[test]
fn rejects_two_ends() {
    let r = Grid::new(vec!["green", "red", "red", "white"], vec![1, 1, 1, 1], 2);
    assert_eq!(r.err(), Some(ConfigurationError::EndCount));
}

#[test]
fn rejects_indivisible_roles() {
    let r = Grid::new(vec!["green", "red", "white"], vec![1, 1, 1], 2);
    assert_eq!(r.err(), Some(ConfigurationError::BadDimension));
}

#[test]
fn rejects_zero_dimension() {
    let r = Grid::new(vec!["green", "red"], vec![1, 1], 0);
    assert_eq!(r.err(), Some(ConfigurationError::BadDimension));
}

#[test]
fn rejects_empty_roles() {
    let r = Grid::new(vec![], vec![], 3);
    assert_eq!(r.err(), Some(ConfigurationError::BadDimension));
}

#[test]
fn rejects_zero_cost() {
    let r = Grid::new(vec!["green", "red"], vec![1, 0], 2);
    assert_eq!(r.err(), Some(ConfigurationError::BadCosts));
}

#[test]
fn rejects_cost_count_mismatch() {
    let r = Grid::new(vec!["green", "red"], vec![1], 2);
    assert_eq!(r.err(), Some(ConfigurationError::BadCosts));
}

#[test]
fn rejects_unknown_role() {
    let r = Grid::new(vec!["green", "blue"], vec![1, 1], 2);
    assert_eq!(r.err(), Some(ConfigurationError::UnknownRole));
}

#[test]
fn accepts_minimal_grid() {
    let g = Grid::new(vec!["green", "red"], vec![1, 7], 2).unwrap();
    assert_eq!(g.rows(), 1);
    assert_eq!(g.cols(), 2);
    assert_eq!(g.cell_count(), 2);
    assert_eq!(g.start(), Point::new(0, 0));
    assert_eq!(g.end(), Point::new(0, 1));
    assert_eq!(g.cost_of(Point::new(0, 1)), 7);
    assert!(!g.is_blocked(Point::new(0, 0)));
    let c = g.get(Point::new(0, 1)).unwrap();
    assert_eq!(c.typ, CellType::End);
    assert_eq!(c.cost, 7);
    assert!(g.get(Point::new(1, 0)).is_none());
    assert!(g.get(Point::new(0, 2)).is_none());
}

#[test]
fn build_defaults_costs_to_one() {
    let roles = vec![CellType::Start, CellType::Empty, CellType::Blocked, CellType::End];
    let g = Grid::build(roles, None, 2).unwrap();
    assert_eq!(g.rows(), 2);
    assert_eq!(g.cols(), 2);
    assert_eq!(g.cost_of(Point::new(0, 0)), 1);
    assert_eq!(g.cost_of(Point::new(1, 1)), 1);
    assert!(g.is_blocked(Point::new(1, 0)));
}

#[test]
fn rectangular_grid_dimensions() {
    // Six roles at dimension two: three rows of two columns.
    let g = Grid::new(
        vec!["green", "white", "white", "white", "white", "red"],
        vec![1, 1, 1, 1, 1, 1],
        2,
    )
    .unwrap();
    assert_eq!(g.rows(), 3);
    assert_eq!(g.cols(), 2);
    assert_eq!(g.start(), Point::new(0, 0));
    assert_eq!(g.end(), Point::new(2, 1));
}

#[test]
fn neighbors_fixed_order_left_right_up_down() {
    let mut colors = vec!["white"; 9];
    colors[0] = "green";
    colors[8] = "red";
    let g = Grid::new(colors, vec![1; 9], 3).unwrap();
    let ns = g.neighbors(Point::new(1, 1));
    assert_eq!(
        ns,
        vec![Point::new(1, 0), Point::new(1, 2), Point::new(0, 1), Point::new(2, 1)]
    );
    let corner = g.neighbors(Point::new(0, 0));
    assert_eq!(corner, vec![Point::new(0, 1), Point::new(1, 0)]);
}

#[test]
fn parse_role_recognizes_the_four_tags() {
    assert_eq!(pathfinder::engine::parse_role("green"), Some(CellType::Start));
    assert_eq!(pathfinder::engine::parse_role("red"), Some(CellType::End));
    assert_eq!(pathfinder::engine::parse_role("black"), Some(CellType::Blocked));
    assert_eq!(pathfinder::engine::parse_role("white"), Some(CellType::Empty));
    assert_eq!(pathfinder::engine::parse_role("greenish"), None);
    assert_eq!(pathfinder::engine::parse_role(""), None);
}
