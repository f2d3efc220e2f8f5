use ereea::robot::RobotModule;
use ereea::station::Station;

#[test]
fn fresh_station_matches_the_initial_roster() {
    let s = Station::new(25, 15);
    assert_eq!(s.energy_storage, 0);
    assert_eq!(s.minerals_storage, 0);
    assert_eq!(s.scientific_data_count, 0);
    assert_eq!(s.robot_counter, 5);
    assert_eq!(s.explorer_count, 2);
    assert_eq!(s.driller_count, 2);
    assert_eq!(s.energy_collector_count, 1);
    assert_eq!(s.get_center_x(), 25);
    assert_eq!(s.get_center_y(), 15);
}

#[test]
fn deposits_accumulate() {
    let mut s = Station::new(4, 4);
    s.add_energy(3);
    s.add_energy(2);
    s.add_minerals(7);
    s.add_scientific_data(1);
    assert_eq!(s.energy_storage, 5);
    assert_eq!(s.minerals_storage, 7);
    assert_eq!(s.scientific_data_count, 1);
}

#[test]
fn robot_counts_track_each_capability() {
    let mut s = Station::new(4, 4);
    s.update_robot_counts(&RobotModule::Exploration);
    s.update_robot_counts(&RobotModule::Drill);
    s.update_robot_counts(&RobotModule::EnergyCollector);
    s.update_robot_counts(&RobotModule::EnergyCollector);
    assert_eq!(s.explorer_count, 3);
    assert_eq!(s.driller_count, 3);
    assert_eq!(s.energy_collector_count, 3);
}

#[test]
fn spawn_with_unit_resources_succeeds_exactly_once() {
    // Station with energy = 1, minerals = 1, scientific data = 1: the first
    // call creates a robot and empties the ledger; the second returns none.
    let mut s = Station::new(25, 15);
    s.add_energy(1);
    s.add_minerals(1);
    s.add_scientific_data(1);
    let first = s.try_create_robot();
    let robot = first.expect("all three resources cover the unit cost");
    assert_eq!(s.energy_storage, 0);
    assert_eq!(s.minerals_storage, 0);
    assert_eq!(s.scientific_data_count, 0);
    assert_eq!(robot.id, 5);
    assert_eq!((robot.x, robot.y), (25, 15));
    assert_eq!(robot.modules.len(), 1);
    assert_eq!(robot.carried_energy, 0);
    assert_eq!(robot.carried_minerals, 0);
    assert_eq!(robot.carried_scientific_data, 0);
    assert!(s.try_create_robot().is_none());
    assert_eq!(s.robot_counter, 6);
}

#[test]
fn spawn_fails_when_any_resource_is_missing() {
    let mut s = Station::new(4, 4);
    s.add_energy(5);
    s.add_minerals(5);
    assert!(s.try_create_robot().is_none());
    assert_eq!(s.energy_storage, 5);
    assert_eq!(s.minerals_storage, 5);
    assert_eq!(s.robot_counter, 5);
}

#[test]
fn spawned_ids_increase_and_are_never_reused() {
    let mut s = Station::new(4, 4);
    s.add_energy(3);
    s.add_minerals(3);
    s.add_scientific_data(3);
    let a = s.try_create_robot().unwrap();
    let b = s.try_create_robot().unwrap();
    let c = s.try_create_robot().unwrap();
    assert_eq!((a.id, b.id, c.id), (5, 6, 7));
    assert!(s.try_create_robot().is_none());
}

#[test]
fn policy_prefers_the_scarce_collector_on_a_fresh_station() {
    // counts 2/2/1 over 5 robots, all three resources critically low: the
    // scaled deficits are 10 (Exploration), 5 (Drill), 15 (EnergyCollector)
    let s = Station::new(4, 4);
    assert_eq!(s.determine_next_robot_type(), RobotModule::EnergyCollector);
}

#[test]
fn policy_boosts_the_drill_when_minerals_run_low() {
    // counts 2/2/2 over 6 robots; only minerals below the scarcity line 5:
    // deficits scaled by 60: Exploration 4, Drill -2 + 12 = 10, Collector -2
    let mut s = Station::new(4, 4);
    s.update_robot_counts(&RobotModule::EnergyCollector);
    s.robot_counter += 1;
    s.add_energy(9);
    s.add_minerals(2);
    s.add_scientific_data(9);
    assert_eq!(s.determine_next_robot_type(), RobotModule::Drill);
}

#[test]
fn policy_follows_target_shares_when_nothing_is_scarce() {
    // counts 2/2/1 over 5, everything stocked: deficits 0, -5, 5
    let mut s = Station::new(4, 4);
    s.add_energy(9);
    s.add_minerals(9);
    s.add_scientific_data(9);
    assert_eq!(s.determine_next_robot_type(), RobotModule::EnergyCollector);
    // one more collector (2/2/2 over 6): deficits become 4, -2, -2,
    // so Exploration takes the lead
    s.update_robot_counts(&RobotModule::EnergyCollector);
    s.robot_counter += 1;
    assert_eq!(s.determine_next_robot_type(), RobotModule::Exploration);
}

#[test]
fn policy_breaks_ties_in_evaluation_order() {
    // counts 3/2/5 over 10, everything stocked: scaled deficits tie at
    // 10, 10, -20, and Exploration comes first in the evaluation order
    let mut s = Station::new(4, 4);
    s.explorer_count = 3;
    s.driller_count = 2;
    s.energy_collector_count = 5;
    s.robot_counter = 10;
    s.add_energy(9);
    s.add_minerals(9);
    s.add_scientific_data(9);
    assert_eq!(s.determine_next_robot_type(), RobotModule::Exploration);
    // counts 6/2/2 over 10: deficits -20, 10, 10 tie Drill against the
    // collector, and Drill comes first
    s.explorer_count = 6;
    s.driller_count = 2;
    s.energy_collector_count = 2;
    assert_eq!(s.determine_next_robot_type(), RobotModule::Drill);
}
