use ereea::map::{CellType, CellVisibility, GridMap, MapConfig};
use ereea::pathfinding::{find_path, get_neighbors, manhattan_distance};

/// An all-empty test map.
fn open_map(width: usize, height: usize) -> GridMap {
    GridMap {
        config: MapConfig { width, height, seed: 0 },
        cells: vec![vec![CellType::Empty; width]; height],
        visibility: vec![vec![CellVisibility::Hidden; width]; height],
    }
}

fn check_path(m: &GridMap, p: &[(usize, usize)], start: (usize, usize), goal: (usize, usize)) {
    assert!(!p.is_empty());
    assert_eq!(p[0], start);
    assert_eq!(*p.last().unwrap(), goal);
    for w in p.windows(2) {
        let dx = w[0].0.abs_diff(w[1].0);
        let dy = w[0].1.abs_diff(w[1].1);
        assert_eq!(dx + dy, 1);
        assert!(m.is_walkable(w[1].0, w[1].1));
    }
}

#[test]
fn straight_path_has_manhattan_length() {
    let m = open_map(10, 8);
    let start = (1usize, 2usize);
    let goal = (7usize, 5usize);
    let p = find_path(&m, start, goal).expect("open grid must have a route");
    check_path(&m, &p, start, goal);
    // unit steps: an unobstructed route takes exactly the Manhattan distance
    assert_eq!(p.len(), manhattan_distance(start, goal) + 1);
    assert_eq!(p.len(), 10);
}

#[test]
fn trivial_path_when_start_is_goal() {
    let m = open_map(5, 5);
    let p = find_path(&m, (2, 2), (2, 2)).expect("trivial route");
    assert_eq!(p, vec![(2, 2)]);
}

#[test]
fn wall_with_gap_forces_a_detour_through_the_gap() {
    let mut m = open_map(7, 7);
    // a 1-cell-wide vertical wall at x == 3 with a single gap at y == 0
    for y in 1..7 {
        m.cells[y][3] = CellType::Obstacle;
    }
    let start = (0usize, 3usize);
    let goal = (6usize, 3usize);
    let p = find_path(&m, start, goal).expect("the gap leaves a route");
    check_path(&m, &p, start, goal);
    assert!(p.contains(&(3, 0)), "the only opening is the gap at (3, 0)");
    // up 3, across 6, down 3: 12 steps, 13 positions
    assert_eq!(p.len(), 13);
}

#[test]
fn enclosed_goal_yields_no_path() {
    let mut m = open_map(7, 7);
    // an unbroken obstacle ring around the goal at (5, 5)
    for (x, y) in [(4, 4), (5, 4), (6, 4), (4, 5), (6, 5), (4, 6), (5, 6), (6, 6)] {
        m.cells[y][x] = CellType::Obstacle;
    }
    assert_eq!(find_path(&m, (0, 0), (5, 5)), None);
}

#[test]
fn enclosed_start_yields_no_path() {
    let mut m = open_map(5, 5);
    for (x, y) in [(1, 0), (0, 1), (1, 1)] {
        m.cells[y][x] = CellType::Obstacle;
    }
    assert_eq!(find_path(&m, (0, 0), (4, 4)), None);
}

#[test]
fn pathfinding_does_not_mutate_the_map() {
    let mut m = open_map(6, 6);
    m.cells[2][2] = CellType::Obstacle;
    m.cells[3][4] = CellType::Energy;
    let cells_before = m.cells.clone();
    let vis_before = m.visibility.clone();
    let _ = find_path(&m, (0, 0), (5, 5));
    let _ = find_path(&m, (0, 0), (2, 2));
    assert_eq!(m.cells, cells_before);
    assert_eq!(m.visibility, vis_before);
}

#[test]
fn paths_avoid_obstacles_but_cross_resources() {
    let mut m = open_map(5, 1);
    m.cells[0][2] = CellType::Mineral;
    let p = find_path(&m, (0, 0), (4, 0)).expect("resources are passable");
    assert_eq!(p.len(), 5);
    m.cells[0][2] = CellType::Obstacle;
    assert_eq!(find_path(&m, (0, 0), (4, 0)), None);
}

#[test]
fn repeated_searches_agree_on_the_length() {
    let mut m = open_map(8, 8);
    for y in 1..8 {
        m.cells[y][4] = CellType::Obstacle;
    }
    let p1 = find_path(&m, (1, 5), (7, 5)).expect("gap at the top");
    let p2 = find_path(&m, (1, 5), (7, 5)).expect("gap at the top");
    assert_eq!(p1.len(), p2.len());
}

#[test]
fn manhattan_distance_is_coordinatewise() {
    assert_eq!(manhattan_distance((0, 0), (0, 0)), 0);
    assert_eq!(manhattan_distance((1, 2), (4, 6)), 7);
    assert_eq!(manhattan_distance((4, 6), (1, 2)), 7);
}

#[test]
fn neighbors_are_walkable_cardinal_cells() {
    let mut m = open_map(3, 3);
    m.cells[0][1] = CellType::Obstacle;
    let n = get_neighbors(&m, (1, 1));
    assert_eq!(n, vec![(1, 2), (2, 1), (0, 1)]);
    let corner = get_neighbors(&m, (0, 0));
    assert_eq!(corner, vec![(0, 1)]);
}
