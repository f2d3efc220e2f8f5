use ereea::map::{CellType, CellVisibility, GridMap, MapConfig};
use noise::NoiseFn;

/// The rough obstacle field the driver feeds the generator: a Perlin sample
/// at scale 0.15 per cell, marked as obstacle above the 0.2 threshold.
fn perlin_field(width: usize, height: usize, seed: u32) -> Vec<Vec<bool>> {
    let perlin = noise::Perlin::new(seed);
    let scale = 0.15f64;
    let mut rows = Vec::new();
    for y in 0..height {
        let mut row = Vec::new();
        for x in 0..width {
            let v = perlin.get([x as f64 * scale, y as f64 * scale]);
            row.push(v > 0.2);
        }
        rows.push(row);
    }
    rows
}

fn small_config() -> MapConfig {
    MapConfig { width: 20, height: 12, seed: 7 }
}

#[test]
fn generation_is_deterministic() {
    let config = MapConfig { width: 50, height: 30, seed: 42 };
    let f1 = perlin_field(50, 30, 42);
    let f2 = perlin_field(50, 30, 42);
    assert_eq!(f1, f2);
    let m1 = GridMap::new(config.clone(), f1);
    let m2 = GridMap::new(config, f2);
    assert_eq!(m1.cells, m2.cells);
    assert_eq!(m1.visibility, m2.visibility);
}

#[test]
fn generation_differs_across_seeds() {
    let c1 = MapConfig { width: 50, height: 30, seed: 42 };
    let c2 = MapConfig { width: 50, height: 30, seed: 43 };
    let m1 = GridMap::new(c1, perlin_field(50, 30, 42));
    let m2 = GridMap::new(c2, perlin_field(50, 30, 43));
    assert_ne!(m1.cells, m2.cells);
}

#[test]
fn base_area_is_empty_and_walkable() {
    for seed in [1u32, 7, 42, 1000] {
        let config = MapConfig { width: 50, height: 30, seed };
        let m = GridMap::new(config, perlin_field(50, 30, seed));
        let cx = 25usize;
        let cy = 15usize;
        for y in cy - 1..=cy + 1 {
            for x in cx - 1..=cx + 1 {
                assert_eq!(m.cells[y][x], CellType::Empty);
                assert!(m.is_walkable(x, y));
            }
        }
    }
}

#[test]
fn initial_visibility_is_a_disc_around_the_base() {
    let config = small_config();
    let m = GridMap::new(config, perlin_field(20, 12, 7));
    let (cx, cy) = (10i64, 6i64);
    for y in 0..12i64 {
        for x in 0..20i64 {
            let d2 = (x - cx) * (x - cx) + (y - cy) * (y - cy);
            let vis = m.visibility[y as usize][x as usize];
            if d2 <= 9 {
                assert_eq!(vis, CellVisibility::Visible);
            } else {
                assert_eq!(vis, CellVisibility::Hidden);
            }
        }
    }
}

#[test]
fn is_walkable_rejects_bounds_and_obstacles() {
    let config = small_config();
    let mut m = GridMap::new(config, perlin_field(20, 12, 7));
    m.cells[5][4] = CellType::Obstacle;
    m.cells[5][5] = CellType::Energy;
    assert!(!m.is_walkable(20, 5));
    assert!(!m.is_walkable(5, 12));
    assert!(!m.is_walkable(4, 5));
    assert!(m.is_walkable(5, 5));
}

#[test]
fn fade_turns_visible_into_explored_only() {
    let config = small_config();
    let mut m = GridMap::new(config, perlin_field(20, 12, 7));
    m.visibility[0][0] = CellVisibility::Hidden;
    m.visibility[0][1] = CellVisibility::Visible;
    m.visibility[0][2] = CellVisibility::Explored;
    m.fade_visibility();
    assert_eq!(m.visibility[0][0], CellVisibility::Hidden);
    assert_eq!(m.visibility[0][1], CellVisibility::Explored);
    assert_eq!(m.visibility[0][2], CellVisibility::Explored);
}

#[test]
fn update_visibility_discloses_a_disc_and_upgrades_explored() {
    let config = small_config();
    let mut m = GridMap::new(config, perlin_field(20, 12, 7));
    for row in m.visibility.iter_mut() {
        for v in row.iter_mut() {
            *v = CellVisibility::Hidden;
        }
    }
    m.visibility[3][3] = CellVisibility::Explored;
    m.update_visibility(3, 3, 2);
    assert_eq!(m.visibility[3][3], CellVisibility::Visible);
    assert_eq!(m.visibility[3][5], CellVisibility::Visible);
    assert_eq!(m.visibility[5][3], CellVisibility::Visible);
    // distance sqrt(8) < 2 is false: (2,2) offset is outside radius 2
    assert_eq!(m.visibility[5][5], CellVisibility::Hidden);
    assert_eq!(m.visibility[3][6], CellVisibility::Hidden);
}

#[test]
fn explored_never_returns_to_hidden() {
    let config = small_config();
    let mut m = GridMap::new(config, perlin_field(20, 12, 7));
    m.visibility[2][2] = CellVisibility::Explored;
    for round in 0..6 {
        m.fade_visibility();
        m.update_visibility(10 - round, 6, 3);
        m.update_visibility(2, 2, 1);
        m.fade_visibility();
        assert_ne!(m.visibility[2][2], CellVisibility::Hidden);
    }
}

#[test]
fn count_obstacle_neighbors_counts_edges_as_obstacles() {
    let config = MapConfig { width: 4, height: 3, seed: 0 };
    let cells = vec![
        vec![CellType::Empty, CellType::Empty, CellType::Empty, CellType::Empty],
        vec![CellType::Empty, CellType::Empty, CellType::Obstacle, CellType::Empty],
        vec![CellType::Empty, CellType::Empty, CellType::Empty, CellType::Empty],
    ];
    let visibility = vec![vec![CellVisibility::Hidden; 4]; 3];
    let m = GridMap { config, cells, visibility };
    // corner: 5 phantom neighbors outside the map
    assert_eq!(m.count_obstacle_neighbors(0, 0), 5);
    // interior cell next to the one obstacle
    assert_eq!(m.count_obstacle_neighbors(1, 1), 1);
    // edge cell: 3 phantom neighbors plus the obstacle
    assert_eq!(m.count_obstacle_neighbors(2, 0), 4);
}

#[test]
fn carving_clears_a_corridor() {
    let config = MapConfig { width: 9, height: 9, seed: 1 };
    let cells = vec![vec![CellType::Obstacle; 9]; 9];
    let visibility = vec![vec![CellVisibility::Hidden; 9]; 9];
    let mut m = GridMap { config, cells, visibility };
    m.create_path(1, 1, 7, 7);
    // the walk steps diagonally toward the target, clearing each 3x3 block
    let mut x = 1usize;
    let mut y = 1usize;
    while x != 7 || y != 7 {
        assert_eq!(m.cells[y][x], CellType::Empty);
        if x < 7 {
            x += 1;
        }
        if y < 7 {
            y += 1;
        }
    }
    assert_eq!(m.cells[7][7], CellType::Empty);
    // a far corner stays untouched
    assert_eq!(m.cells[0][8], CellType::Obstacle);
}
