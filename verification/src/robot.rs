//! Agents: position, capability modules, carried resources, and the per-tick
//! movement and interaction logic.
//!
//! Capabilities gate resource interaction: EnergyCollector for Energy, Drill
//! for Mineral, Exploration for ScientificSite. Gathering a depleting
//! resource clears its cell; a ScientificSite is never depleted. Every move
//! is proved to land on a walkable cell at most one Chebyshev step away, or
//! to leave the robot where it stood.

use vstd::prelude::*;

use rand::Rng;

use crate::map::{clamped, dist1, set_cell, step_toward, walkable_at, CellType, GridMap};
use crate::pathfinding::{adjacent4, find_path, reachable};
use crate::station::Station;

verus! {

/// A capability module.
#[derive(Clone, Copy, Debug, PartialEq, Eq, Structural)]
pub enum RobotModule {
    Exploration,
    Drill,
    EnergyCollector,
}

/// An agent: identity, grid position, equipped modules, carried resources,
/// and the movement bias remembered from the last successful wander step.
#[derive(Debug)]
pub struct Robot {
    pub id: usize,
    pub x: usize,
    pub y: usize,
    pub modules: Vec<RobotModule>,
    pub has_data_to_share: bool,
    pub carried_energy: u32,
    pub carried_minerals: u32,
    pub carried_scientific_data: u32,
    pub last_dx: i32,
    pub last_dy: i32,
}

/// The robot is equipped to gather what this cell holds.
pub open spec fn gathers(cell: CellType, mods: Seq<RobotModule>) -> bool {
    ||| (cell is Energy && mods.contains(RobotModule::EnergyCollector))
    ||| (cell is Mineral && mods.contains(RobotModule::Drill))
    ||| (cell is ScientificSite && mods.contains(RobotModule::Exploration))
}

/// A legal single move: stay put, or step onto a walkable cell at most one
/// Chebyshev step away.
pub open spec fn step_ok(m: GridMap, ox: int, oy: int, nx: int, ny: int) -> bool {
    ||| (nx == ox && ny == oy)
    ||| (walkable_at(m.grid(), m.width(), m.height(), nx, ny) && dist1(ox, nx) <= 1 && dist1(
        oy,
        ny,
    ) <= 1)
}

impl Robot {
    /// The remembered wander bias is a single-cell delta.
    pub open spec fn wf(self) -> bool {
        -1 <= self.last_dx <= 1 && -1 <= self.last_dy <= 1
    }

    /// Everything of the robot except position and wander bias.
    pub open spec fn same_cargo(self, o: Robot) -> bool {
        &&& self.id == o.id
        &&& self.modules == o.modules
        &&& self.has_data_to_share == o.has_data_to_share
        &&& self.carried_energy == o.carried_energy
        &&& self.carried_minerals == o.carried_minerals
        &&& self.carried_scientific_data == o.carried_scientific_data
    }

    /// Everything of the robot except the carried counters and share flag.
    pub open spec fn same_body(self, o: Robot) -> bool {
        &&& self.id == o.id
        &&& self.x == o.x
        &&& self.y == o.y
        &&& self.modules == o.modules
        &&& self.last_dx == o.last_dx
        &&& self.last_dy == o.last_dy
    }

    pub fn new(id: usize, x: usize, y: usize, modules: Vec<RobotModule>) -> (r: Robot)
        ensures
            r.id == id,
            r.x == x,
            r.y == y,
            r.modules == modules,
            !r.has_data_to_share,
            r.carried_energy == 0,
            r.carried_minerals == 0,
            r.carried_scientific_data == 0,
            r.last_dx == 0,
            r.last_dy == 0,
            r.wf(),
    {
        Robot {
            id,
            x,
            y,
            modules,
            has_data_to_share: false,
            carried_energy: 0,
            carried_minerals: 0,
            carried_scientific_data: 0,
            last_dx: 0,
            last_dy: 0,
        }
    }

    /// Whether a module is equipped.
    pub fn has_module(&self, m: RobotModule) -> (r: bool)
        ensures
            r == self.modules@.contains(m),
    {
        let mut i: usize = 0;
        while i < self.modules.len()
            invariant
                i <= self.modules@.len(),
                forall|j: int| 0 <= j < i ==> self.modules@[j] != m,
            decreases self.modules@.len() - i,
        {
            if self.modules[i] == m {
                return true;
            }
            i = i + 1;
        }
        false
    }

    /// Carrying anything means it is time to head home.
    pub fn should_return_to_base(&self) -> (r: bool)
        ensures
            r == (self.carried_energy > 0 || self.carried_minerals > 0
                || self.carried_scientific_data > 0),
    {
        self.carried_energy > 0 || self.carried_minerals > 0 || self.carried_scientific_data > 0
    }

    /// Within Chebyshev distance 1 of the base.
    pub fn is_near_base(&self, center_x: usize, center_y: usize) -> (r: bool)
        ensures
            r == (dist1(self.x as int, center_x as int) <= 1 && dist1(
                self.y as int,
                center_y as int,
            ) <= 1),
    {
        let dx: usize = if self.x >= center_x {
            self.x - center_x
        } else {
            center_x - self.x
        };
        let dy: usize = if self.y >= center_y {
            self.y - center_y
        } else {
            center_y - self.y
        };
        dx <= 1 && dy <= 1
    }

    /// One step toward a target: along an A*-planned path when one exists —
    /// then the robot takes one cardinal step onto a walkable cell, or stands
    /// still only when it is already at the target — else a greedy single
    /// step (possibly diagonal) taken only if the stepped-to cell is
    /// walkable.
    pub fn move_towards(&mut self, target_x: usize, target_y: usize, map: &GridMap)
        requires
            map.wf(),
            old(self).x < map.width(),
            old(self).y < map.height(),
            target_x < map.width(),
            target_y < map.height(),
        ensures
            final(self).same_cargo(*old(self)),
            final(self).last_dx == old(self).last_dx,
            final(self).last_dy == old(self).last_dy,
            final(self).x < map.width(),
            final(self).y < map.height(),
            step_ok(
                *map,
                old(self).x as int,
                old(self).y as int,
                final(self).x as int,
                final(self).y as int,
            ),
            reachable(map.grid(), map.width(), map.height(), (old(self).x, old(self).y), (target_x, target_y))
                && (old(self).x != target_x || old(self).y != target_y) ==> {
                &&& adjacent4(
                    final(self).x as int,
                    final(self).y as int,
                    old(self).x as int,
                    old(self).y as int,
                )
                &&& walkable_at(
                    map.grid(),
                    map.width(),
                    map.height(),
                    final(self).x as int,
                    final(self).y as int,
                )
            },
            old(self).x == target_x && old(self).y == target_y ==> final(self).x == old(self).x
                && final(self).y == old(self).y,
            !reachable(map.grid(), map.width(), map.height(), (old(self).x, old(self).y), (target_x, target_y))
                ==> {
                let gx = step_toward(old(self).x as int, target_x as int);
                let gy = step_toward(old(self).y as int, target_y as int);
                if walkable_at(map.grid(), map.width(), map.height(), gx, gy) {
                    final(self).x == gx && final(self).y == gy
                } else {
                    final(self).x == old(self).x && final(self).y == old(self).y
                }
            },
    {
        let start: (usize, usize) = (self.x, self.y);
        let goal: (usize, usize) = (target_x, target_y);
        let found: Option<Vec<(usize, usize)>> = find_path(map, start, goal);
        match found {
            Some(path) => {
                if path.len() > 1 {
                    let next_pos: (usize, usize) = path[1];
                    proof {
                        assert(path@[0] == start);
                        assert(walkable_at(
                            map.grid(),
                            map.width(),
                            map.height(),
                            path@[1].0 as int,
                            path@[1].1 as int,
                        ));
                    }
                    self.x = next_pos.0;
                    self.y = next_pos.1;
                }
            },
            None => {
                let dx: i32 = if self.x < target_x {
                    1
                } else if self.x > target_x {
                    -1
                } else {
                    0
                };
                let dy: i32 = if self.y < target_y {
                    1
                } else if self.y > target_y {
                    -1
                } else {
                    0
                };
                let nxi: i64 = self.x as i64 + dx as i64;
                let nyi: i64 = self.y as i64 + dy as i64;
                let new_x: usize = if nxi < 0 {
                    0
                } else if nxi >= map.config.width as i64 {
                    map.config.width - 1
                } else {
                    nxi as usize
                };
                let new_y: usize = if nyi < 0 {
                    0
                } else if nyi >= map.config.height as i64 {
                    map.config.height - 1
                } else {
                    nyi as usize
                };
                if map.is_walkable(new_x, new_y) {
                    self.x = new_x;
                    self.y = new_y;
                }
            },
        }
    }

    /// The biased random wander, or a step home when carrying resources:
    /// with resources aboard head for the base unless already beside it
    /// (exactly as `move_towards` the center); otherwise repeat the
    /// remembered delta 80% of the time if it still works, else try a fresh
    /// random delta, remembering it on success — a changed bias certifies a
    /// move onto the walkable cell the new bias points at.
    pub fn random_move(&mut self, map: &GridMap)
        requires
            map.wf(),
            old(self).wf(),
            old(self).x < map.width(),
            old(self).y < map.height(),
        ensures
            final(self).wf(),
            final(self).same_cargo(*old(self)),
            final(self).x < map.width(),
            final(self).y < map.height(),
            step_ok(
                *map,
                old(self).x as int,
                old(self).y as int,
                final(self).x as int,
                final(self).y as int,
            ),
            ({
                let carrying = old(self).carried_energy > 0 || old(self).carried_minerals > 0
                    || old(self).carried_scientific_data > 0;
                let cx = (map.config.width / 2) as usize;
                let cy = (map.config.height / 2) as usize;
                let near = dist1(old(self).x as int, cx as int) <= 1 && dist1(
                    old(self).y as int,
                    cy as int,
                ) <= 1;
                &&& (carrying && near ==> *final(self) == *old(self))
                &&& (carrying && !near ==> {
                    &&& final(self).last_dx == old(self).last_dx
                    &&& final(self).last_dy == old(self).last_dy
                    &&& (reachable(
                        map.grid(),
                        map.width(),
                        map.height(),
                        (old(self).x, old(self).y),
                        (cx, cy),
                    ) ==> adjacent4(
                        final(self).x as int,
                        final(self).y as int,
                        old(self).x as int,
                        old(self).y as int,
                    ) && walkable_at(
                        map.grid(),
                        map.width(),
                        map.height(),
                        final(self).x as int,
                        final(self).y as int,
                    ))
                    &&& (!reachable(
                        map.grid(),
                        map.width(),
                        map.height(),
                        (old(self).x, old(self).y),
                        (cx, cy),
                    ) ==> {
                        let gx = step_toward(old(self).x as int, cx as int);
                        let gy = step_toward(old(self).y as int, cy as int);
                        if walkable_at(map.grid(), map.width(), map.height(), gx, gy) {
                            final(self).x == gx && final(self).y == gy
                        } else {
                            final(self).x == old(self).x && final(self).y == old(self).y
                        }
                    })
                })
            }),
            (final(self).last_dx != old(self).last_dx || final(self).last_dy != old(
                self,
            ).last_dy) ==> {
                &&& final(self).x as int == clamped(
                    old(self).x + final(self).last_dx,
                    map.width(),
                )
                &&& final(self).y as int == clamped(
                    old(self).y + final(self).last_dy,
                    map.height(),
                )
                &&& walkable_at(
                    map.grid(),
                    map.width(),
                    map.height(),
                    final(self).x as int,
                    final(self).y as int,
                )
            },
    {
        let center_x: usize = map.config.width / 2;
        let center_y: usize = map.config.height / 2;
        if self.should_return_to_base() {
            if !self.is_near_base(center_x, center_y) {
                self.move_towards(center_x, center_y, map);
            }
        } else {
            let coin: u32 = sample_below(10);
            if coin < 8 && (self.last_dx != 0 || self.last_dy != 0) {
                let nxi: i64 = self.x as i64 + self.last_dx as i64;
                let nyi: i64 = self.y as i64 + self.last_dy as i64;
                let new_x: usize = if nxi < 0 {
                    0
                } else if nxi >= map.config.width as i64 {
                    map.config.width - 1
                } else {
                    nxi as usize
                };
                let new_y: usize = if nyi < 0 {
                    0
                } else if nyi >= map.config.height as i64 {
                    map.config.height - 1
                } else {
                    nyi as usize
                };
                if map.is_walkable(new_x, new_y) {
                    proof {
                        assert(dist1(old(self).x as int, new_x as int) <= 1);
                        assert(dist1(old(self).y as int, new_y as int) <= 1);
                    }
                    self.x = new_x;
                    self.y = new_y;
                    return ;
                }
            }
            let dx: i32 = sample_below(3) as i32 - 1;
            let dy: i32 = sample_below(3) as i32 - 1;
            let nxi: i64 = self.x as i64 + dx as i64;
            let nyi: i64 = self.y as i64 + dy as i64;
            let new_x: usize = if nxi < 0 {
                0
            } else if nxi >= map.config.width as i64 {
                map.config.width - 1
            } else {
                nxi as usize
            };
            let new_y: usize = if nyi < 0 {
                0
            } else if nyi >= map.config.height as i64 {
                map.config.height - 1
            } else {
                nyi as usize
            };
            if map.is_walkable(new_x, new_y) {
                self.x = new_x;
                self.y = new_y;
                self.last_dx = dx;
                self.last_dy = dy;
            }
        }
    }

    /// Gather the resource under the robot when a matching module is
    /// equipped: the matching carried counter grows by one, and an Energy or
    /// Mineral cell is cleared to Empty; a ScientificSite stays in place. A
    /// robot without the matching module changes nothing: in particular one
    /// lacking Drill never drains a Mineral cell nor grows its mineral count.
    pub fn try_gather_resource(&mut self, map: &mut GridMap) -> (r: bool)
        requires
            old(map).wf(),
            old(self).x < old(map).width(),
            old(self).y < old(map).height(),
            old(self).carried_energy < u32::MAX,
            old(self).carried_minerals < u32::MAX,
            old(self).carried_scientific_data < u32::MAX,
        ensures
            final(map).wf(),
            final(map).config == old(map).config,
            final(map).visibility == old(map).visibility,
            final(map).vis() == old(map).vis(),
            final(self).same_body(*old(self)),
            final(self).has_data_to_share == old(self).has_data_to_share,
            r == gathers(
                old(map).grid()[old(self).y as int][old(self).x as int],
                old(self).modules@,
            ),
            ({
                let cell = old(map).grid()[old(self).y as int][old(self).x as int];
                &&& final(map).grid() == (if r && (cell is Energy || cell is Mineral) {
                    set_cell(
                        old(map).grid(),
                        old(self).x as int,
                        old(self).y as int,
                        CellType::Empty,
                    )
                } else {
                    old(map).grid()
                })
                &&& final(self).carried_energy == old(self).carried_energy + (
                if r && cell is Energy {
                    1int
                } else {
                    0int
                })
                &&& final(self).carried_minerals == old(self).carried_minerals + (
                if r && cell is Mineral {
                    1int
                } else {
                    0int
                })
                &&& final(self).carried_scientific_data == old(self).carried_scientific_data + (
                if r && cell is ScientificSite {
                    1int
                } else {
                    0int
                })
            }),
    {
        let cell: CellType = map.cell(self.x, self.y);
        let ghost gpre = map.grid();
        match cell {
            CellType::Energy => {
                if self.has_module(RobotModule::EnergyCollector) {
                    self.carried_energy = self.carried_energy + 1;
                    map.cell_set(self.x, self.y, CellType::Empty);
                    proof {
                        assert(map.grid() =~~= set_cell(
                            gpre,
                            self.x as int,
                            self.y as int,
                            CellType::Empty,
                        ));
                        assert(map.vis() =~~= old(map).vis());
                    }
                    return true;
                }
            },
            CellType::Mineral => {
                if self.has_module(RobotModule::Drill) {
                    self.carried_minerals = self.carried_minerals + 1;
                    map.cell_set(self.x, self.y, CellType::Empty);
                    proof {
                        assert(map.grid() =~~= set_cell(
                            gpre,
                            self.x as int,
                            self.y as int,
                            CellType::Empty,
                        ));
                        assert(map.vis() =~~= old(map).vis());
                    }
                    return true;
                }
            },
            CellType::ScientificSite => {
                if self.has_module(RobotModule::Exploration) {
                    self.carried_scientific_data = self.carried_scientific_data + 1;
                    proof {
                        assert(map.vis() =~~= old(map).vis());
                    }
                    return true;
                }
            },
            _ => {},
        }
        proof {
            assert(map.vis() =~~= old(map).vis());
        }
        false
    }

    /// Deposit everything at the station when beside the base: all carried
    /// counters transfer to storage and drop to zero, whatever the equipped
    /// modules. Away from the base nothing changes.
    pub fn try_deposit_resources(&mut self, station: &mut Station, map: &GridMap)
        requires
            map.wf(),
            old(station).energy_storage + old(self).carried_energy <= u32::MAX,
            old(station).minerals_storage + old(self).carried_minerals <= u32::MAX,
            old(station).scientific_data_count + old(self).carried_scientific_data <= u32::MAX,
        ensures
            final(self).same_body(*old(self)),
            ({
                let near = dist1(old(self).x as int, crate::map::center_x(map.config)) <= 1
                    && dist1(old(self).y as int, crate::map::center_y(map.config)) <= 1;
                if near {
                    &&& final(self).carried_energy == 0
                    &&& final(self).carried_minerals == 0
                    &&& final(self).carried_scientific_data == 0
                    &&& !final(self).has_data_to_share
                    &&& final(station).energy_storage == old(station).energy_storage + old(self).carried_energy
                    &&& final(station).minerals_storage == old(station).minerals_storage + old(self).carried_minerals
                    &&& final(station).scientific_data_count == old(station).scientific_data_count + old(self).carried_scientific_data
                    &&& final(station).robot_counter == old(station).robot_counter
                    &&& final(station).explorer_count == old(station).explorer_count
                    &&& final(station).driller_count == old(station).driller_count
                    &&& final(station).energy_collector_count == old(station).energy_collector_count
                    &&& final(station).center_x == old(station).center_x
                    &&& final(station).center_y == old(station).center_y
                } else {
                    final(self).carried_energy == old(self).carried_energy && final(self).carried_minerals == old(self).carried_minerals && final(self).carried_scientific_data == old(self).carried_scientific_data && final(self).has_data_to_share == old(self).has_data_to_share && *final(station) == *old(station)
                }
            }),
    {
        let center_x: usize = map.config.width / 2;
        let center_y: usize = map.config.height / 2;
        if self.is_near_base(center_x, center_y) {
            if self.carried_energy > 0 {
                station.add_energy(self.carried_energy);
                self.carried_energy = 0;
            }
            if self.carried_minerals > 0 {
                station.add_minerals(self.carried_minerals);
                self.carried_minerals = 0;
            }
            if self.carried_scientific_data > 0 {
                station.add_scientific_data(self.carried_scientific_data);
                self.carried_scientific_data = 0;
            }
            if self.has_data_to_share {
                self.has_data_to_share = false;
            }
        }
    }
}

/// Relies on rand's thread-local generator and `Rng::gen_range` over the
/// half-open range `0..n`, which returns a uniformly distributed value below
/// `n` and panics only on an empty range, ruled out by the precondition.
/// Nothing beyond the bound is assumed of the outcome.
#[verifier::external_body]
fn sample_below(n: u32) -> (r: u32)
    requires
        n >= 1,
    ensures
        r < n,
{
    rand::thread_rng().gen_range(0..n)
}

} // verus!
