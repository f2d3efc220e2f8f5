//! The station: resource ledger and the adaptive spawn policy.
//!
//! The policy compares per-capability deficits against target population
//! shares (Exploration 0.4, Drill 0.3, EnergyCollector 0.3), boosting a
//! capability by 0.2 when its resource is critically low. All comparisons are
//! done in exact integer arithmetic: every deficit is scaled by ten times the
//! robot population, which preserves the order of the rational values.

use vstd::prelude::*;

use crate::robot::{Robot, RobotModule};

verus! {

/// Largest robot population the policy arithmetic is sized for; far beyond
/// anything a run can reach, but it keeps the 64-bit scaling overflow-free.
pub const MAX_ROBOTS: usize = 0x10000000;

/// The station ledger: banked resources, the next robot id, and the
/// per-capability population counts the spawn policy reads.
#[derive(Debug)]
pub struct Station {
    pub energy_storage: u32,
    pub minerals_storage: u32,
    pub scientific_data_count: u32,
    pub robot_counter: usize,
    pub explorer_count: usize,
    pub driller_count: usize,
    pub energy_collector_count: usize,
    pub center_x: usize,
    pub center_y: usize,
}

/// The Exploration deficit scaled by ten times the population.
pub open spec fn explorer_deficit_scaled(s: Station) -> int {
    4 * s.robot_counter - 10 * s.explorer_count + (if s.scientific_data_count < 5 {
        2 * s.robot_counter as int
    } else {
        0int
    })
}

/// The Drill deficit scaled by ten times the population.
pub open spec fn driller_deficit_scaled(s: Station) -> int {
    3 * s.robot_counter - 10 * s.driller_count + (if s.minerals_storage < 5 {
        2 * s.robot_counter as int
    } else {
        0int
    })
}

/// The EnergyCollector deficit scaled by ten times the population.
pub open spec fn collector_deficit_scaled(s: Station) -> int {
    3 * s.robot_counter - 10 * s.energy_collector_count + (if s.energy_storage < 5 {
        2 * s.robot_counter as int
    } else {
        0int
    })
}

/// The capability with the largest adjusted deficit; ties go to the earlier
/// capability in the fixed evaluation order Exploration, Drill,
/// EnergyCollector.
pub open spec fn next_module(s: Station) -> RobotModule {
    if explorer_deficit_scaled(s) >= driller_deficit_scaled(s) && explorer_deficit_scaled(s)
        >= collector_deficit_scaled(s) {
        RobotModule::Exploration
    } else if driller_deficit_scaled(s) >= collector_deficit_scaled(s) {
        RobotModule::Drill
    } else {
        RobotModule::EnergyCollector
    }
}

/// The station can afford one robot: every resource at least the unit cost.
pub open spec fn can_spawn(s: Station) -> bool {
    s.energy_storage >= 1 && s.minerals_storage >= 1 && s.scientific_data_count >= 1
}

impl Station {
    /// The per-capability counts add up to the population, and the population
    /// stays within the policy arithmetic's sizing.
    pub open spec fn wf(self) -> bool {
        &&& self.explorer_count + self.driller_count + self.energy_collector_count
            == self.robot_counter
        &&& 1 <= self.robot_counter <= MAX_ROBOTS
    }

    /// A fresh station for the fixed initial roster of 5 robots
    /// (2 Exploration, 2 Drill, 1 EnergyCollector), with the base position
    /// new robots will spawn at.
    pub fn new(center_x: usize, center_y: usize) -> (s: Station)
        ensures
            s.wf(),
            s.energy_storage == 0,
            s.minerals_storage == 0,
            s.scientific_data_count == 0,
            s.robot_counter == 5,
            s.explorer_count == 2,
            s.driller_count == 2,
            s.energy_collector_count == 1,
            s.center_x == center_x,
            s.center_y == center_y,
    {
        Station {
            energy_storage: 0,
            minerals_storage: 0,
            scientific_data_count: 0,
            robot_counter: 5,
            explorer_count: 2,
            driller_count: 2,
            energy_collector_count: 1,
            center_x,
            center_y,
        }
    }

    /// Bank deposited energy.
    pub fn add_energy(&mut self, amount: u32)
        requires
            old(self).energy_storage + amount <= u32::MAX,
        ensures
            *final(self) == (Station {
                energy_storage: (old(self).energy_storage + amount) as u32,
                ..*old(self)
            }),
    {
        self.energy_storage = self.energy_storage + amount;
    }

    /// Bank deposited minerals.
    pub fn add_minerals(&mut self, amount: u32)
        requires
            old(self).minerals_storage + amount <= u32::MAX,
        ensures
            *final(self) == (Station {
                minerals_storage: (old(self).minerals_storage + amount) as u32,
                ..*old(self)
            }),
    {
        self.minerals_storage = self.minerals_storage + amount;
    }

    /// Bank deposited scientific data.
    pub fn add_scientific_data(&mut self, amount: u32)
        requires
            old(self).scientific_data_count + amount <= u32::MAX,
        ensures
            *final(self) == (Station {
                scientific_data_count: (old(self).scientific_data_count + amount) as u32,
                ..*old(self)
            }),
    {
        self.scientific_data_count = self.scientific_data_count + amount;
    }

    /// Record one more robot of the given capability.
    pub fn update_robot_counts(&mut self, robot_type: &RobotModule)
        requires
            old(self).explorer_count + old(self).driller_count + old(self).energy_collector_count
                < usize::MAX,
        ensures
            *final(self) == (match robot_type {
                RobotModule::Exploration => Station {
                    explorer_count: (old(self).explorer_count + 1) as usize,
                    ..*old(self)
                },
                RobotModule::Drill => Station {
                    driller_count: (old(self).driller_count + 1) as usize,
                    ..*old(self)
                },
                RobotModule::EnergyCollector => Station {
                    energy_collector_count: (old(self).energy_collector_count + 1) as usize,
                    ..*old(self)
                },
            }),
    {
        match robot_type {
            RobotModule::Exploration => {
                self.explorer_count = self.explorer_count + 1;
            },
            RobotModule::Drill => {
                self.driller_count = self.driller_count + 1;
            },
            RobotModule::EnergyCollector => {
                self.energy_collector_count = self.energy_collector_count + 1;
            },
        }
    }

    /// The deficit-based choice of the next robot's capability.
    pub fn determine_next_robot_type(&self) -> (m: RobotModule)
        requires
            self.wf(),
        ensures
            m == next_module(*self),
    {
        let t: i64 = self.robot_counter as i64;
        let expl_boost: i64 = if self.scientific_data_count < 5 {
            2 * t
        } else {
            0
        };
        let drill_boost: i64 = if self.minerals_storage < 5 {
            2 * t
        } else {
            0
        };
        let coll_boost: i64 = if self.energy_storage < 5 {
            2 * t
        } else {
            0
        };
        let expl: i64 = 4 * t - 10 * (self.explorer_count as i64) + expl_boost;
        let drill: i64 = 3 * t - 10 * (self.driller_count as i64) + drill_boost;
        let coll: i64 = 3 * t - 10 * (self.energy_collector_count as i64) + coll_boost;
        if expl >= drill && expl >= coll {
            RobotModule::Exploration
        } else if drill >= coll {
            RobotModule::Drill
        } else {
            RobotModule::EnergyCollector
        }
    }

    /// Where new robots appear: the base.
    pub fn get_center_x(&self) -> (x: usize)
        ensures
            x == self.center_x,
    {
        self.center_x
    }

    pub fn get_center_y(&self) -> (y: usize)
        ensures
            y == self.center_y,
    {
        self.center_y
    }

    /// Spawn one robot when every resource covers the unit cost of 1:
    /// deduct the cost, pick the capability by the deficit policy, and hand
    /// back the new robot, whose id is the next counter value. Otherwise
    /// change nothing and report that no robot was created.
    pub fn try_create_robot(&mut self) -> (r: Option<Robot>)
        requires
            old(self).wf(),
            old(self).robot_counter < MAX_ROBOTS,
        ensures
            final(self).wf(),
            r is Some <==> can_spawn(*old(self)),
            r is None ==> *final(self) == *old(self),
            r matches Some(robot) ==> {
                &&& robot.id == old(self).robot_counter
                &&& robot.x == old(self).center_x
                &&& robot.y == old(self).center_y
                &&& robot.modules@ =~= seq![next_module(*old(self))]
                &&& robot.carried_energy == 0
                &&& robot.carried_minerals == 0
                &&& robot.carried_scientific_data == 0
                &&& robot.last_dx == 0
                &&& robot.last_dy == 0
                &&& final(self).energy_storage == old(self).energy_storage - 1
                &&& final(self).minerals_storage == old(self).minerals_storage - 1
                &&& final(self).scientific_data_count == old(self).scientific_data_count - 1
                &&& final(self).robot_counter == old(self).robot_counter + 1
                &&& final(self).explorer_count == old(self).explorer_count + (if next_module(
                    *old(self),
                ) is Exploration {
                    1int
                } else {
                    0int
                })
                &&& final(self).driller_count == old(self).driller_count + (if next_module(
                    *old(self),
                ) is Drill {
                    1int
                } else {
                    0int
                })
                &&& final(self).energy_collector_count == old(self).energy_collector_count + (
                if next_module(*old(self)) is EnergyCollector {
                    1int
                } else {
                    0int
                })
                &&& final(self).center_x == old(self).center_x
                &&& final(self).center_y == old(self).center_y
            },
    {
        let min_resources_needed: u32 = 1;
        if self.energy_storage >= min_resources_needed && self.minerals_storage
            >= min_resources_needed && self.scientific_data_count >= min_resources_needed {
            let robot_module: RobotModule = self.determine_next_robot_type();
            self.energy_storage = self.energy_storage - min_resources_needed;
            self.minerals_storage = self.minerals_storage - min_resources_needed;
            self.scientific_data_count = self.scientific_data_count - min_resources_needed;
            let mut modules: Vec<RobotModule> = Vec::new();
            modules.push(robot_module);
            let robot: Robot = Robot::new(
                self.robot_counter,
                self.get_center_x(),
                self.get_center_y(),
                modules,
            );
            self.robot_counter = self.robot_counter + 1;
            self.update_robot_counts(&robot_module);
            Some(robot)
        } else {
            None
        }
    }
}

} // verus!
