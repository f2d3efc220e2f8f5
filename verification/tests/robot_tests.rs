use ereea::map::{CellType, CellVisibility, GridMap, MapConfig};
use ereea::robot::{Robot, RobotModule};
use ereea::station::Station;

fn open_map(width: usize, height: usize) -> GridMap {
    GridMap {
        config: MapConfig { width, height, seed: 0 },
        cells: vec![vec![CellType::Empty; width]; height],
        visibility: vec![vec![CellVisibility::Hidden; width]; height],
    }
}

#[test]
fn new_robot_starts_empty_handed() {
    let r = Robot::new(3, 4, 5, vec![RobotModule::Drill]);
    assert_eq!(r.id, 3);
    assert_eq!((r.x, r.y), (4, 5));
    assert_eq!(r.carried_energy, 0);
    assert_eq!(r.carried_minerals, 0);
    assert_eq!(r.carried_scientific_data, 0);
    assert!(!r.should_return_to_base());
}

#[test]
fn carrying_anything_triggers_return() {
    let mut r = Robot::new(0, 0, 0, vec![RobotModule::Exploration]);
    r.carried_scientific_data = 1;
    assert!(r.should_return_to_base());
    r.carried_scientific_data = 0;
    r.carried_energy = 2;
    assert!(r.should_return_to_base());
}

#[test]
fn near_base_is_chebyshev_one() {
    let r = Robot::new(0, 5, 5, vec![RobotModule::Drill]);
    assert!(r.is_near_base(5, 5));
    assert!(r.is_near_base(6, 4));
    assert!(!r.is_near_base(7, 5));
    assert!(!r.is_near_base(5, 3));
}

#[test]
fn gathering_requires_the_matching_module() {
    // the capability gate: no Drill, no mineral, however long it stands there
    let mut m = open_map(5, 5);
    m.cells[2][2] = CellType::Mineral;
    let mut r = Robot::new(0, 2, 2, vec![RobotModule::Exploration, RobotModule::EnergyCollector]);
    for _ in 0..10 {
        assert!(!r.try_gather_resource(&mut m));
        assert_eq!(r.carried_minerals, 0);
        assert_eq!(m.cells[2][2], CellType::Mineral);
    }
}

#[test]
fn drill_collects_and_depletes_a_mineral() {
    let mut m = open_map(5, 5);
    m.cells[2][2] = CellType::Mineral;
    let mut r = Robot::new(0, 2, 2, vec![RobotModule::Drill]);
    assert!(r.try_gather_resource(&mut m));
    assert_eq!(r.carried_minerals, 1);
    assert_eq!(m.cells[2][2], CellType::Empty);
    // the cell is spent: a second attempt collects nothing
    assert!(!r.try_gather_resource(&mut m));
    assert_eq!(r.carried_minerals, 1);
}

#[test]
fn energy_collector_collects_and_depletes_energy() {
    let mut m = open_map(5, 5);
    m.cells[1][3] = CellType::Energy;
    let mut r = Robot::new(0, 3, 1, vec![RobotModule::EnergyCollector]);
    assert!(r.try_gather_resource(&mut m));
    assert_eq!(r.carried_energy, 1);
    assert_eq!(m.cells[1][3], CellType::Empty);
}

#[test]
fn scientific_site_is_never_depleted() {
    let mut m = open_map(5, 5);
    m.cells[4][4] = CellType::ScientificSite;
    let mut r = Robot::new(0, 4, 4, vec![RobotModule::Exploration]);
    for round in 1..=5u32 {
        assert!(r.try_gather_resource(&mut m));
        assert_eq!(r.carried_scientific_data, round);
        assert_eq!(m.cells[4][4], CellType::ScientificSite);
    }
}

#[test]
fn deposit_beside_the_base_zeroes_cargo_and_credits_the_station() {
    let m = open_map(9, 9);
    let mut st = Station::new(4, 4);
    let mut r = Robot::new(0, 5, 4, vec![RobotModule::Drill]);
    r.carried_energy = 2;
    r.carried_minerals = 3;
    r.carried_scientific_data = 4;
    r.try_deposit_resources(&mut st, &m);
    assert_eq!(r.carried_energy, 0);
    assert_eq!(r.carried_minerals, 0);
    assert_eq!(r.carried_scientific_data, 0);
    assert_eq!(st.energy_storage, 2);
    assert_eq!(st.minerals_storage, 3);
    assert_eq!(st.scientific_data_count, 4);
}

#[test]
fn deposit_away_from_the_base_changes_nothing() {
    let m = open_map(9, 9);
    let mut st = Station::new(4, 4);
    let mut r = Robot::new(0, 8, 8, vec![RobotModule::Drill]);
    r.carried_minerals = 3;
    r.try_deposit_resources(&mut st, &m);
    assert_eq!(r.carried_minerals, 3);
    assert_eq!(st.minerals_storage, 0);
}

#[test]
fn move_towards_takes_one_step_along_a_route() {
    let m = open_map(9, 1);
    let mut r = Robot::new(0, 0, 0, vec![RobotModule::Drill]);
    for expected_x in 1..=8usize {
        r.move_towards(8, 0, &m);
        assert_eq!((r.x, r.y), (expected_x, 0));
    }
    // at the target the robot stays put
    r.move_towards(8, 0, &m);
    assert_eq!((r.x, r.y), (8, 0));
}

#[test]
fn move_towards_without_a_route_steps_greedily_onto_walkable_cells() {
    let mut m = open_map(5, 5);
    // wall off the right half so no route exists, leaving a walkable cell
    // diagonally ahead of the robot
    for y in 0..5 {
        m.cells[y][2] = CellType::Obstacle;
    }
    let mut r = Robot::new(0, 0, 0, vec![RobotModule::Drill]);
    r.move_towards(4, 4, &m);
    assert_eq!((r.x, r.y), (1, 1));
    // blocked greedy step: the robot stays put
    let mut blocked = Robot::new(1, 1, 1, vec![RobotModule::Drill]);
    m.cells[2][2] = CellType::Obstacle;
    blocked.move_towards(4, 4, &m);
    assert_eq!((blocked.x, blocked.y), (1, 1));
}

#[test]
fn random_move_stays_in_bounds_and_takes_single_steps() {
    // whatever the entropy source hands back, a wander step is at most one
    // cell in each axis and lands on a walkable cell
    let m = open_map(6, 6);
    let mut r = Robot::new(0, 3, 3, vec![RobotModule::Drill]);
    for _ in 0..500 {
        let (px, py) = (r.x, r.y);
        r.random_move(&m);
        assert!(r.x < 6 && r.y < 6);
        assert!(px.abs_diff(r.x) <= 1);
        assert!(py.abs_diff(r.y) <= 1);
    }
}

#[test]
fn random_move_heads_home_when_carrying() {
    let m = open_map(9, 9);
    let mut r = Robot::new(0, 8, 8, vec![RobotModule::Drill]);
    r.carried_minerals = 1;
    for _ in 0..20 {
        r.random_move(&m);
    }
    // the base is at (4, 4); returning stops within Chebyshev distance 1
    assert!(r.x.abs_diff(4) <= 1 && r.y.abs_diff(4) <= 1);
}
