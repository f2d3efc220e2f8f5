use ereea::map::{CellType, CellVisibility, GridMap, MapConfig};
use ereea::robot::RobotModule;
use ereea::simulation::{find_nearest_resource, find_unexplored_area, Simulation};
use noise::NoiseFn;

fn perlin_field(width: usize, height: usize, seed: u32) -> Vec<Vec<bool>> {
    let perlin = noise::Perlin::new(seed);
    let scale = 0.15f64;
    let mut rows = Vec::new();
    for y in 0..height {
        let mut row = Vec::new();
        for x in 0..width {
            row.push(perlin.get([x as f64 * scale, y as f64 * scale]) > 0.2);
        }
        rows.push(row);
    }
    rows
}

fn open_map(width: usize, height: usize) -> GridMap {
    GridMap {
        config: MapConfig { width, height, seed: 0 },
        cells: vec![vec![CellType::Empty; width]; height],
        visibility: vec![vec![CellVisibility::Hidden; width]; height],
    }
}

fn carried_sums(sim: &Simulation) -> (u32, u32, u32) {
    let mut e = 0u32;
    let mut m = 0u32;
    let mut s = 0u32;
    for r in sim.robots.iter() {
        e += r.carried_energy;
        m += r.carried_minerals;
        s += r.carried_scientific_data;
    }
    (e, m, s)
}

/// The accounting law checked on concrete state: banked + carried + one unit
/// per spawned robot equals the collected total, for each resource.
fn assert_conserved(sim: &Simulation) {
    let (ce, cm, cs) = carried_sums(sim);
    let spawned = sim.stats.robots_created;
    assert_eq!(
        sim.station.energy_storage + ce + spawned,
        sim.stats.total_energy_collected
    );
    assert_eq!(
        sim.station.minerals_storage + cm + spawned,
        sim.stats.total_minerals_collected
    );
    assert_eq!(
        sim.station.scientific_data_count + cs + spawned,
        sim.stats.total_scientific_data_collected
    );
}

#[test]
fn new_simulation_has_the_fixed_roster() {
    let config = MapConfig { width: 50, height: 30, seed: 42 };
    let sim = Simulation::new(config, perlin_field(50, 30, 42));
    assert_eq!(sim.robots.len(), 5);
    for (i, r) in sim.robots.iter().enumerate() {
        assert_eq!(r.id, i);
        assert_eq!((r.x, r.y), (25, 15));
    }
    assert_eq!(sim.robots[0].modules, vec![RobotModule::Exploration]);
    assert_eq!(sim.robots[1].modules, vec![RobotModule::Exploration]);
    assert_eq!(sim.robots[2].modules, vec![RobotModule::Drill]);
    assert_eq!(sim.robots[3].modules, vec![RobotModule::Drill]);
    assert_eq!(sim.robots[4].modules, vec![RobotModule::EnergyCollector]);
    assert_eq!(sim.stats.simulation_step, 0);
    assert_eq!(sim.stats.robots_created, 0);
    assert_conserved(&sim);
}

#[test]
fn long_run_scenario_keeps_the_books_straight() {
    // 50x30 map, seed 42, the 5-robot roster at (25, 15), 300 ticks
    let config = MapConfig { width: 50, height: 30, seed: 42 };
    let mut sim = Simulation::new(config, perlin_field(50, 30, 42));
    let mut spawn_successes = 0u32;
    for _ in 0..300 {
        assert!(sim.can_advance());
        let robots_before = sim.robots.len();
        let created_before = sim.stats.robots_created;
        sim.update();
        let created_now = sim.stats.robots_created - created_before;
        assert!(created_now <= 1);
        // each successful creation grows the roster by exactly one
        assert_eq!(sim.robots.len(), robots_before + created_now as usize);
        spawn_successes += created_now;
        assert_conserved(&sim);
    }
    assert_eq!(sim.stats.simulation_step, 300);
    assert_eq!(sim.stats.robots_created, spawn_successes);
    assert_eq!(sim.robots.len(), 5 + spawn_successes as usize);
    // every mineral pickup the event log reported is accounted for
    assert!(
        sim.stats.total_minerals_collected + sim.station.minerals_storage
            >= sim.stats.total_minerals_collected
    );
    // the fog has lifted around the base at least
    assert_ne!(sim.map.visibility[15][25], CellVisibility::Hidden);
    // ids stay the roster indices: strictly increasing, never reused
    for (i, r) in sim.robots.iter().enumerate() {
        assert_eq!(r.id, i);
    }
}

#[test]
fn visibility_never_regresses_over_ticks() {
    let config = MapConfig { width: 30, height: 20, seed: 9 };
    let mut sim = Simulation::new(config, perlin_field(30, 20, 9));
    let mut disclosed: Vec<(usize, usize)> = Vec::new();
    for _ in 0..40 {
        sim.update();
        for (x, y) in disclosed.iter() {
            assert_ne!(sim.map.visibility[*y][*x], CellVisibility::Hidden);
        }
        for y in 0..20 {
            for x in 0..30 {
                if sim.map.visibility[y][x] != CellVisibility::Hidden
                    && !disclosed.contains(&(x, y))
                {
                    disclosed.push((x, y));
                }
            }
        }
    }
}

#[test]
fn find_nearest_resource_picks_the_closest_disclosed_cell() {
    let mut m = open_map(10, 10);
    m.cells[1][1] = CellType::Mineral;
    m.cells[5][6] = CellType::Mineral;
    m.cells[9][9] = CellType::Mineral;
    // only two of them are disclosed
    m.visibility[1][1] = CellVisibility::Explored;
    m.visibility[5][6] = CellVisibility::Visible;
    assert_eq!(find_nearest_resource(5, 5, &m, CellType::Mineral), Some((6, 5)));
    // from the corner the explored one wins
    assert_eq!(find_nearest_resource(0, 0, &m, CellType::Mineral), Some((1, 1)));
}

#[test]
fn find_nearest_resource_ignores_hidden_cells() {
    let mut m = open_map(8, 8);
    m.cells[3][3] = CellType::Energy;
    assert_eq!(find_nearest_resource(3, 3, &m, CellType::Energy), None);
    m.visibility[3][3] = CellVisibility::Visible;
    assert_eq!(find_nearest_resource(3, 3, &m, CellType::Energy), Some((3, 3)));
}

#[test]
fn find_unexplored_area_returns_a_walkable_frontier_cell() {
    let mut m = open_map(21, 21);
    // disclose a patch around the robot; the frontier lies beyond it
    for y in 0..21usize {
        for x in 0..21usize {
            if x.abs_diff(10) <= 2 && y.abs_diff(10) <= 2 {
                m.visibility[y][x] = CellVisibility::Explored;
            }
        }
    }
    let p = find_unexplored_area(10, 10, &m).expect("hidden cells are in ring range");
    assert!(m.is_walkable(p.0, p.1));
    assert_eq!(m.visibility[p.1][p.0], CellVisibility::Hidden);
}

#[test]
fn find_unexplored_area_falls_back_to_explored_cells() {
    let mut m = open_map(9, 9);
    // nothing hidden anywhere: the fallback pass returns an explored cell
    for y in 0..9 {
        for x in 0..9 {
            m.visibility[y][x] = CellVisibility::Explored;
        }
    }
    let p = find_unexplored_area(4, 4, &m).expect("explored fallback");
    assert_eq!(m.visibility[p.1][p.0], CellVisibility::Explored);
}

#[test]
fn find_unexplored_area_reports_none_when_nothing_qualifies() {
    // everything in ring range is Visible: neither the Hidden pass nor the
    // Explored fallback finds a target
    let mut m = open_map(25, 25);
    for y in 0..25 {
        for x in 0..25 {
            m.visibility[y][x] = CellVisibility::Visible;
        }
    }
    assert_eq!(find_unexplored_area(12, 12, &m), None);
}

#[test]
fn spawning_consumes_deposits_made_over_ticks() {
    // hand the station exactly one spawn's worth through a depositing robot
    let config = MapConfig { width: 20, height: 12, seed: 3 };
    let mut sim = Simulation::new(config, perlin_field(20, 12, 3));
    sim.robots[0].carried_energy = 1;
    sim.robots[1].carried_minerals = 1;
    sim.robots[2].carried_scientific_data = 1;
    // keep the books consistent with the injected cargo
    sim.stats.total_energy_collected += 1;
    sim.stats.total_minerals_collected += 1;
    sim.stats.total_scientific_data_collected += 1;
    assert_conserved(&sim);
    let before = sim.robots.len();
    sim.update();
    // all robots start beside the base, so everything was deposited and the
    // station immediately afforded one robot
    assert_eq!(sim.stats.robots_created, 1);
    assert_eq!(sim.robots.len(), before + 1);
    assert_eq!(sim.station.energy_storage, 0);
    assert_eq!(sim.station.minerals_storage, 0);
    assert_eq!(sim.station.scientific_data_count, 0);
    assert_conserved(&sim);
}
