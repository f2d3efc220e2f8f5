//! The per-tick orchestrator: visibility refresh, sequential agent
//! decide-move-act, deposits, adaptive spawning, and statistics.
//!
//! Collection and creation events are buffered in an ordered in-memory log
//! during the tick and drained into the aggregate statistics exactly once, at
//! tick end. The central accounting invariant ties everything together: for
//! each resource, banked storage plus everything carried plus the spawn cost
//! spent so far equals everything ever collected.

use vstd::prelude::*;

use crate::map::{
    center_x, center_y, clamped, config_ok, dims_ok, generated_grid, generated_vis, in_bounds,
    vec2_view, walkable_at, within_radius, CellType, CellVisibility, GridMap, MapConfig,
};
use crate::robot::{Robot, RobotModule};
use crate::station::{Station, MAX_ROBOTS};

verus! {

/// What a collection event carries.
#[derive(Clone, Copy, Debug, PartialEq, Eq, Structural)]
pub enum ResourceType {
    Energy,
    Mineral,
    ScientificData,
}

/// One entry of the per-tick event log.
#[derive(Clone, Copy, Debug)]
pub enum SimulationEvent {
    ResourceCollected { resource_type: ResourceType, amount: u32 },
    RobotCreated { id: usize },
}

/// Monotonically increasing aggregate counters, fed only by drained events
/// and the spawn bookkeeping.
#[derive(Debug)]
pub struct SimulationStats {
    pub total_energy_collected: u32,
    pub total_minerals_collected: u32,
    pub total_scientific_data_collected: u32,
    pub robots_created: u32,
    pub simulation_step: usize,
}

impl Default for SimulationStats {
    /// All counters start at zero.
    fn default() -> (r: SimulationStats)
        ensures
            r.total_energy_collected == 0,
            r.total_minerals_collected == 0,
            r.total_scientific_data_collected == 0,
            r.robots_created == 0,
            r.simulation_step == 0,
    {
        SimulationStats {
            total_energy_collected: 0,
            total_minerals_collected: 0,
            total_scientific_data_collected: 0,
            robots_created: 0,
            simulation_step: 0,
        }
    }
}

/// Energy carried across a roster of robots.
pub open spec fn sum_energy(rs: Seq<Robot>) -> int
    decreases rs.len(),
{
    if rs.len() == 0 {
        0int
    } else {
        sum_energy(rs.drop_last()) + rs.last().carried_energy
    }
}

/// Minerals carried across a roster of robots.
pub open spec fn sum_minerals(rs: Seq<Robot>) -> int
    decreases rs.len(),
{
    if rs.len() == 0 {
        0int
    } else {
        sum_minerals(rs.drop_last()) + rs.last().carried_minerals
    }
}

/// Scientific data carried across a roster of robots.
pub open spec fn sum_science(rs: Seq<Robot>) -> int
    decreases rs.len(),
{
    if rs.len() == 0 {
        0int
    } else {
        sum_science(rs.drop_last()) + rs.last().carried_scientific_data
    }
}

/// Energy amounts still waiting in the event log.
pub open spec fn pending_energy(evs: Seq<SimulationEvent>) -> int
    decreases evs.len(),
{
    if evs.len() == 0 {
        0int
    } else {
        pending_energy(evs.drop_last()) + (match evs.last() {
            SimulationEvent::ResourceCollected { resource_type: ResourceType::Energy, amount } => {
                amount as int
            },
            _ => 0int,
        })
    }
}

/// Mineral amounts still waiting in the event log.
pub open spec fn pending_minerals(evs: Seq<SimulationEvent>) -> int
    decreases evs.len(),
{
    if evs.len() == 0 {
        0int
    } else {
        pending_minerals(evs.drop_last()) + (match evs.last() {
            SimulationEvent::ResourceCollected { resource_type: ResourceType::Mineral, amount } => {
                amount as int
            },
            _ => 0int,
        })
    }
}

/// Scientific-data amounts still waiting in the event log.
pub open spec fn pending_science(evs: Seq<SimulationEvent>) -> int
    decreases evs.len(),
{
    if evs.len() == 0 {
        0int
    } else {
        pending_science(evs.drop_last()) + (match evs.last() {
            SimulationEvent::ResourceCollected {
                resource_type: ResourceType::ScientificData,
                amount,
            } => { amount as int },
            _ => 0int,
        })
    }
}

/// Replacing one robot changes each carried sum by the difference of the two
/// robots' counters.
pub proof fn lemma_sums_update(rs: Seq<Robot>, i: int, r2: Robot)
    requires
        0 <= i < rs.len(),
    ensures
        sum_energy(rs.update(i, r2)) == sum_energy(rs) - rs[i].carried_energy + r2.carried_energy,
        sum_minerals(rs.update(i, r2)) == sum_minerals(rs) - rs[i].carried_minerals
            + r2.carried_minerals,
        sum_science(rs.update(i, r2)) == sum_science(rs) - rs[i].carried_scientific_data
            + r2.carried_scientific_data,
    decreases rs.len(),
{
    let rs2 = rs.update(i, r2);
    if i == rs.len() - 1 {
        assert(rs2.drop_last() =~= rs.drop_last());
        assert(rs2.last() == r2);
    } else {
        assert(rs2.drop_last() =~= rs.drop_last().update(i, r2));
        assert(rs.drop_last()[i] == rs[i]);
        lemma_sums_update(rs.drop_last(), i, r2);
        assert(rs2.last() == rs.last());
    }
}

/// Appending one robot adds its carried counters to the sums.
pub proof fn lemma_sums_push(rs: Seq<Robot>, r: Robot)
    ensures
        sum_energy(rs.push(r)) == sum_energy(rs) + r.carried_energy,
        sum_minerals(rs.push(r)) == sum_minerals(rs) + r.carried_minerals,
        sum_science(rs.push(r)) == sum_science(rs) + r.carried_scientific_data,
{
    assert(rs.push(r).drop_last() =~= rs);
    assert(rs.push(r).last() == r);
}

/// Each robot's carried counter is bounded by the roster-wide sum.
pub proof fn lemma_sums_bound(rs: Seq<Robot>, i: int)
    requires
        0 <= i < rs.len(),
    ensures
        rs[i].carried_energy <= sum_energy(rs),
        rs[i].carried_minerals <= sum_minerals(rs),
        rs[i].carried_scientific_data <= sum_science(rs),
        sum_energy(rs) >= 0,
        sum_minerals(rs) >= 0,
        sum_science(rs) >= 0,
    decreases rs.len(),
{
    lemma_sums_nonneg(rs.drop_last());
    if i == rs.len() - 1 {
    } else {
        lemma_sums_bound(rs.drop_last(), i);
        assert(rs.drop_last()[i] == rs[i]);
    }
}

/// Carried sums are never negative.
pub proof fn lemma_sums_nonneg(rs: Seq<Robot>)
    ensures
        sum_energy(rs) >= 0,
        sum_minerals(rs) >= 0,
        sum_science(rs) >= 0,
    decreases rs.len(),
{
    if rs.len() > 0 {
        lemma_sums_nonneg(rs.drop_last());
    }
}

/// Appending one event raises exactly the matching pending amount.
pub proof fn lemma_pending_push(evs: Seq<SimulationEvent>, e: SimulationEvent)
    ensures
        pending_energy(evs.push(e)) == pending_energy(evs) + (match e {
            SimulationEvent::ResourceCollected { resource_type: ResourceType::Energy, amount } => {
                amount as int
            },
            _ => 0int,
        }),
        pending_minerals(evs.push(e)) == pending_minerals(evs) + (match e {
            SimulationEvent::ResourceCollected { resource_type: ResourceType::Mineral, amount } => {
                amount as int
            },
            _ => 0int,
        }),
        pending_science(evs.push(e)) == pending_science(evs) + (match e {
            SimulationEvent::ResourceCollected {
                resource_type: ResourceType::ScientificData,
                amount,
            } => { amount as int },
            _ => 0int,
        }),
{
    assert(evs.push(e).drop_last() =~= evs);
    assert(evs.push(e).last() == e);
}

/// Pending amounts are never negative.
pub proof fn lemma_pending_nonneg(evs: Seq<SimulationEvent>)
    ensures
        pending_energy(evs) >= 0,
        pending_minerals(evs) >= 0,
        pending_science(evs) >= 0,
    decreases evs.len(),
{
    if evs.len() > 0 {
        lemma_pending_nonneg(evs.drop_last());
    }
}

/// Draining one more event moves its contribution across the prefix split.
pub proof fn lemma_pending_take_step(evs: Seq<SimulationEvent>, k: int)
    requires
        0 <= k < evs.len(),
    ensures
        pending_energy(evs.take(k + 1)) == pending_energy(evs.take(k)) + (match evs[k] {
            SimulationEvent::ResourceCollected { resource_type: ResourceType::Energy, amount } => {
                amount as int
            },
            _ => 0int,
        }),
        pending_minerals(evs.take(k + 1)) == pending_minerals(evs.take(k)) + (match evs[k] {
            SimulationEvent::ResourceCollected { resource_type: ResourceType::Mineral, amount } => {
                amount as int
            },
            _ => 0int,
        }),
        pending_science(evs.take(k + 1)) == pending_science(evs.take(k)) + (match evs[k] {
            SimulationEvent::ResourceCollected {
                resource_type: ResourceType::ScientificData,
                amount,
            } => { amount as int },
            _ => 0int,
        }),
{
    assert(evs.take(k + 1).drop_last() =~= evs.take(k));
    assert(evs.take(k + 1).last() == evs[k]);
}

/// A prefix never holds more pending than the whole log.
pub proof fn lemma_pending_prefix_le(evs: Seq<SimulationEvent>, k: int)
    requires
        0 <= k <= evs.len(),
    ensures
        pending_energy(evs.take(k)) <= pending_energy(evs),
        pending_minerals(evs.take(k)) <= pending_minerals(evs),
        pending_science(evs.take(k)) <= pending_science(evs),
        pending_energy(evs.take(k)) >= 0,
        pending_minerals(evs.take(k)) >= 0,
        pending_science(evs.take(k)) >= 0,
    decreases evs.len() - k,
{
    lemma_pending_nonneg(evs.take(k));
    if k == evs.len() {
        assert(evs.take(k) =~= evs);
    } else {
        lemma_pending_take_step(evs, k);
        lemma_pending_prefix_le(evs, k + 1);
    }
}

/// Beside the base and carrying something: such a robot does not move during
/// its tick and deposits everything it holds.
pub open spec fn homebound(r: Robot, cx: int, cy: int) -> bool {
    &&& crate::map::dist1(r.x as int, cx) <= 1
    &&& crate::map::dist1(r.y as int, cy) <= 1
    &&& (r.carried_energy > 0 || r.carried_minerals > 0 || r.carried_scientific_data > 0)
}

/// Energy carried by the homebound robots of a roster.
pub open spec fn hb_energy(rs: Seq<Robot>, cx: int, cy: int) -> int
    decreases rs.len(),
{
    if rs.len() == 0 {
        0int
    } else {
        hb_energy(rs.drop_last(), cx, cy) + (if homebound(rs.last(), cx, cy) {
            rs.last().carried_energy as int
        } else {
            0int
        })
    }
}

/// Minerals carried by the homebound robots of a roster.
pub open spec fn hb_minerals(rs: Seq<Robot>, cx: int, cy: int) -> int
    decreases rs.len(),
{
    if rs.len() == 0 {
        0int
    } else {
        hb_minerals(rs.drop_last(), cx, cy) + (if homebound(rs.last(), cx, cy) {
            rs.last().carried_minerals as int
        } else {
            0int
        })
    }
}

/// Scientific data carried by the homebound robots of a roster.
pub open spec fn hb_science(rs: Seq<Robot>, cx: int, cy: int) -> int
    decreases rs.len(),
{
    if rs.len() == 0 {
        0int
    } else {
        hb_science(rs.drop_last(), cx, cy) + (if homebound(rs.last(), cx, cy) {
            rs.last().carried_scientific_data as int
        } else {
            0int
        })
    }
}

/// One more robot crosses the prefix split of the homebound sums.
proof fn lemma_hb_take_step(rs: Seq<Robot>, cx: int, cy: int, k: int)
    requires
        0 <= k < rs.len(),
    ensures
        hb_energy(rs.take(k + 1), cx, cy) == hb_energy(rs.take(k), cx, cy) + (if homebound(
            rs[k],
            cx,
            cy,
        ) {
            rs[k].carried_energy as int
        } else {
            0int
        }),
        hb_minerals(rs.take(k + 1), cx, cy) == hb_minerals(rs.take(k), cx, cy) + (if homebound(
            rs[k],
            cx,
            cy,
        ) {
            rs[k].carried_minerals as int
        } else {
            0int
        }),
        hb_science(rs.take(k + 1), cx, cy) == hb_science(rs.take(k), cx, cy) + (if homebound(
            rs[k],
            cx,
            cy,
        ) {
            rs[k].carried_scientific_data as int
        } else {
            0int
        }),
{
    assert(rs.take(k + 1).drop_last() =~= rs.take(k));
    assert(rs.take(k + 1).last() == rs[k]);
}

/// Squared Euclidean distance between two grid positions.
pub open spec fn sq_dist(ax: int, ay: int, bx: int, by: int) -> int {
    (ax - bx) * (ax - bx) + (ay - by) * (ay - by)
}

/// Row-major scan order: the first position comes no later than the second.
pub open spec fn scan_before(px: int, py: int, ax: int, ay: int) -> bool {
    py < ay || (py == ay && px <= ax)
}

/// Linear scan for the closest disclosed cell of the wanted resource type,
/// by squared Euclidean distance, the first found at the minimum winning.
/// `None` is returned exactly when no matching cell is disclosed.
#[verifier::loop_isolation(false)]
pub fn find_nearest_resource(
    robot_x: usize,
    robot_y: usize,
    map: &GridMap,
    resource_type: CellType,
) -> (r: Option<(usize, usize)>)
    requires
        map.wf(),
        robot_x < map.width(),
        robot_y < map.height(),
    ensures
        r matches Some(p) ==> {
            &&& in_bounds(map.width(), map.height(), p.0 as int, p.1 as int)
            &&& map.grid()[p.1 as int][p.0 as int] == resource_type
            &&& !(map.vis()[p.1 as int][p.0 as int] is Hidden)
            &&& forall|a: int, b: int|
                in_bounds(map.width(), map.height(), a, b) && map.grid()[b][a] == resource_type
                    && !(map.vis()[b][a] is Hidden) ==> {
                    let d0 = sq_dist(p.0 as int, p.1 as int, robot_x as int, robot_y as int);
                    let d1 = sq_dist(a, b, robot_x as int, robot_y as int);
                    d0 < d1 || (d0 == d1 && scan_before(p.0 as int, p.1 as int, a, b))
                }
        },
        r is None ==> forall|a: int, b: int|
            in_bounds(map.width(), map.height(), a, b) ==> !(map.grid()[b][a] == resource_type && !(
            map.vis()[b][a] is Hidden)),
{
    let w: usize = map.config.width;
    let h: usize = map.config.height;
    let rxi: i64 = robot_x as i64;
    let ryi: i64 = robot_y as i64;
    let mut best: Option<(usize, usize)> = None;
    let mut best_d: i64 = 0;
    let mut y: usize = 0;
    while y < h
        invariant
            y <= h,
            best matches Some(p) ==> {
                &&& in_bounds(w as int, h as int, p.0 as int, p.1 as int)
                &&& map.grid()[p.1 as int][p.0 as int] == resource_type
                &&& !(map.vis()[p.1 as int][p.0 as int] is Hidden)
                &&& best_d == sq_dist(p.0 as int, p.1 as int, robot_x as int, robot_y as int)
                &&& p.1 < y
                &&& forall|a: int, b: int|
                    in_bounds(w as int, h as int, a, b) && b < y && map.grid()[b][a]
                        == resource_type && !(map.vis()[b][a] is Hidden) ==> {
                        let d1 = sq_dist(a, b, robot_x as int, robot_y as int);
                        best_d < d1 || (best_d == d1 && scan_before(p.0 as int, p.1 as int, a, b))
                    }
            },
            best is None ==> forall|a: int, b: int|
                in_bounds(w as int, h as int, a, b) && b < y ==> !(map.grid()[b][a]
                    == resource_type && !(map.vis()[b][a] is Hidden)),
        decreases h - y,
    {
        let mut x: usize = 0;
        while x < w
            invariant
                y < h,
                x <= w,
                best matches Some(p) ==> {
                    &&& in_bounds(w as int, h as int, p.0 as int, p.1 as int)
                    &&& map.grid()[p.1 as int][p.0 as int] == resource_type
                    &&& !(map.vis()[p.1 as int][p.0 as int] is Hidden)
                    &&& best_d == sq_dist(p.0 as int, p.1 as int, robot_x as int, robot_y as int)
                    &&& (p.1 < y || (p.1 == y && p.0 < x))
                    &&& forall|a: int, b: int|
                        in_bounds(w as int, h as int, a, b) && (b < y || (b == y && a < x))
                            && map.grid()[b][a] == resource_type && !(map.vis()[b][a] is Hidden)
                            ==> {
                            let d1 = sq_dist(a, b, robot_x as int, robot_y as int);
                            best_d < d1 || (best_d == d1 && scan_before(
                                p.0 as int,
                                p.1 as int,
                                a,
                                b,
                            ))
                        }
                },
                best is None ==> forall|a: int, b: int|
                    in_bounds(w as int, h as int, a, b) && (b < y || (b == y && a < x)) ==> !(
                    map.grid()[b][a] == resource_type && !(map.vis()[b][a] is Hidden)),
            decreases w - x,
        {
            let cv: CellVisibility = map.visibility_at(x, y);
            let ct: CellType = map.cell(x, y);
            if cv != CellVisibility::Hidden && ct == resource_type {
                proof {
                    crate::map::lemma_square_range(x as int - robot_x as int);
                    crate::map::lemma_square_range(y as int - robot_y as int);
                }
                let ddx: i64 = x as i64 - rxi;
                let ddy: i64 = y as i64 - ryi;
                let d: i64 = ddx * ddx + ddy * ddy;
                match best {
                    None => {
                        best = Some((x, y));
                        best_d = d;
                    },
                    Some(_) => {
                        if d < best_d {
                            best = Some((x, y));
                            best_d = d;
                        }
                    },
                }
            }
            x = x + 1;
        }
        y = y + 1;
    }
    best
}

/// The ring search probes, for each radius, the offsets of the annulus whose
/// squared distance lies in the band `[(r-2)^2, r^2]`, each clamped into the
/// map; this is what one such probe would find.
pub open spec fn ring_hit(
    g: Seq<Seq<CellType>>,
    v: Seq<Seq<CellVisibility>>,
    w: int,
    h: int,
    rx: int,
    ry: int,
    target: CellVisibility,
    r: int,
    dx: int,
    dy: int,
) -> bool {
    let x = clamped(rx + dx, w);
    let y = clamped(ry + dy, h);
    walkable_at(g, w, h, x, y) && v[y][x] == target
}

/// An offset the search at radius `r` actually probes.
pub open spec fn ring_offset(r: int, dx: int, dy: int) -> bool {
    &&& r == 3 || r == 6 || r == 9
    &&& -r <= dx <= r
    &&& -r <= dy <= r
    &&& (r - 2) * (r - 2) <= dx * dx + dy * dy <= r * r
}

/// One pass of the expanding ring search: scan annuli of radius 3, 6, 9
/// around the robot, clamped to the map, for the first walkable cell at the
/// wanted visibility; `None` exactly when no probed position qualifies.
#[verifier::loop_isolation(false)]
fn ring_scan(map: &GridMap, robot_x: usize, robot_y: usize, target: CellVisibility) -> (r: Option<
    (usize, usize),
>)
    requires
        map.wf(),
        robot_x < map.width(),
        robot_y < map.height(),
    ensures
        r matches Some(p) ==> {
            &&& walkable_at(map.grid(), map.width(), map.height(), p.0 as int, p.1 as int)
            &&& map.vis()[p.1 as int][p.0 as int] == target
        },
        r is None ==> forall|rr: int, dx: int, dy: int|
            ring_offset(rr, dx, dy) ==> !#[trigger] ring_hit(
                map.grid(),
                map.vis(),
                map.width(),
                map.height(),
                robot_x as int,
                robot_y as int,
                target,
                rr,
                dx,
                dy,
            ),
{
    let w: usize = map.config.width;
    let h: usize = map.config.height;
    let ghost grid = map.grid();
    let ghost vis = map.vis();
    let ghost rx = robot_x as int;
    let ghost ry = robot_y as int;
    let mut radius: i64 = 3;
    while radius <= 10
        invariant
            radius == 3 || radius == 6 || radius == 9 || radius == 12,
            forall|rr: int, dx0: int, dy0: int|
                ring_offset(rr, dx0, dy0) && rr < radius ==> !#[trigger] ring_hit(
                    grid,
                    vis,
                    w as int,
                    h as int,
                    rx,
                    ry,
                    target,
                    rr,
                    dx0,
                    dy0,
                ),
        decreases 13 - radius,
    {
        let mut dx: i64 = -radius;
        while dx <= radius
            invariant
                -radius <= dx <= radius + 1,
                forall|rr: int, dx0: int, dy0: int|
                    ring_offset(rr, dx0, dy0) && (rr < radius || (rr == radius && dx0 < dx))
                        ==> !#[trigger] ring_hit(
                        grid,
                        vis,
                        w as int,
                        h as int,
                        rx,
                        ry,
                        target,
                        rr,
                        dx0,
                        dy0,
                    ),
            decreases radius - dx + 1,
        {
            let mut dy: i64 = -radius;
            while dy <= radius
                invariant
                    -radius <= dy <= radius + 1,
                    forall|rr: int, dx0: int, dy0: int|
                        ring_offset(rr, dx0, dy0) && (rr < radius || (rr == radius && (dx0 < dx
                            || (dx0 == dx && dy0 < dy)))) ==> !#[trigger] ring_hit(
                            grid,
                            vis,
                            w as int,
                            h as int,
                            rx,
                            ry,
                            target,
                            rr,
                            dx0,
                            dy0,
                        ),
                decreases radius - dy + 1,
            {
                proof {
                    crate::map::lemma_square_range(dx as int);
                    crate::map::lemma_square_range(dy as int);
                    crate::map::lemma_square_range(radius as int);
                    crate::map::lemma_square_range(radius as int - 2);
                }
                let d2: i64 = dx * dx + dy * dy;
                let lo: i64 = (radius - 2) * (radius - 2);
                let hi: i64 = radius * radius;
                if d2 >= lo && d2 <= hi {
                    let xi: i64 = robot_x as i64 + dx;
                    let yi: i64 = robot_y as i64 + dy;
                    let x: usize = if xi < 0 {
                        0
                    } else if xi >= w as i64 {
                        w - 1
                    } else {
                        xi as usize
                    };
                    let y: usize = if yi < 0 {
                        0
                    } else if yi >= h as i64 {
                        h - 1
                    } else {
                        yi as usize
                    };
                    proof {
                        assert(x as int == clamped(rx + dx, w as int));
                        assert(y as int == clamped(ry + dy, h as int));
                    }
                    let cv: CellVisibility = map.visibility_at(x, y);
                    if cv == target && map.is_walkable(x, y) {
                        return Some((x, y));
                    }
                    proof {
                        assert(!ring_hit(
                            grid,
                            vis,
                            w as int,
                            h as int,
                            rx,
                            ry,
                            target,
                            radius as int,
                            dx as int,
                            dy as int,
                        ));
                    }
                }
                dy = dy + 1;
            }
            dx = dx + 1;
        }
        radius = radius + 3;
    }
    None
}

/// The frontier search of Exploration robots: the first walkable Hidden cell
/// in an expanding ring around the robot. Hidden targets take priority: an
/// Explored cell is returned only when no probed annulus position is walkable
/// and Hidden, and `None` only when no probed position is walkable and Hidden
/// nor walkable and Explored.
pub fn find_unexplored_area(robot_x: usize, robot_y: usize, map: &GridMap) -> (r: Option<
    (usize, usize),
>)
    requires
        map.wf(),
        robot_x < map.width(),
        robot_y < map.height(),
    ensures
        r matches Some(p) ==> {
            &&& walkable_at(map.grid(), map.width(), map.height(), p.0 as int, p.1 as int)
            &&& (map.vis()[p.1 as int][p.0 as int] is Hidden || map.vis()[p.1 as int][p.0 as int]
                is Explored)
            &&& map.vis()[p.1 as int][p.0 as int] is Explored ==> forall|rr: int, dx: int, dy: int|
                ring_offset(rr, dx, dy) ==> !#[trigger] ring_hit(
                    map.grid(),
                    map.vis(),
                    map.width(),
                    map.height(),
                    robot_x as int,
                    robot_y as int,
                    CellVisibility::Hidden,
                    rr,
                    dx,
                    dy,
                )
        },
        r is None ==> forall|rr: int, dx: int, dy: int|
            ring_offset(rr, dx, dy) ==> !#[trigger] ring_hit(
                map.grid(),
                map.vis(),
                map.width(),
                map.height(),
                robot_x as int,
                robot_y as int,
                CellVisibility::Hidden,
                rr,
                dx,
                dy,
            ) && !ring_hit(
                map.grid(),
                map.vis(),
                map.width(),
                map.height(),
                robot_x as int,
                robot_y as int,
                CellVisibility::Explored,
                rr,
                dx,
                dy,
            ),
{
    let hidden: Option<(usize, usize)> = ring_scan(map, robot_x, robot_y, CellVisibility::Hidden);
    match hidden {
        Some(p) => Some(p),
        None => ring_scan(map, robot_x, robot_y, CellVisibility::Explored),
    }
}

/// The simulation: map, station, roster, event log, and statistics, owned
/// exclusively for the run's lifetime.
pub struct Simulation {
    pub map: GridMap,
    pub station: Station,
    pub robots: Vec<Robot>,
    pub events: Vec<SimulationEvent>,
    pub stats: SimulationStats,
}

/// The accounting law: for each resource, banked storage plus everything the
/// roster carries plus one unit per spawned robot equals everything ever
/// collected, counting amounts still waiting in the event log.
pub open spec fn accounted(
    st: Station,
    rs: Seq<Robot>,
    evs: Seq<SimulationEvent>,
    stats: SimulationStats,
) -> bool {
    &&& st.energy_storage + sum_energy(rs) + stats.robots_created == stats.total_energy_collected
        + pending_energy(evs)
    &&& st.minerals_storage + sum_minerals(rs) + stats.robots_created
        == stats.total_minerals_collected + pending_minerals(evs)
    &&& st.scientific_data_count + sum_science(rs) + stats.robots_created
        == stats.total_scientific_data_collected + pending_science(evs)
}

impl Simulation {
    /// Well-formed between ticks: all parts well-formed, the station's spawn
    /// point at the map center, the event log drained, the accounting law
    /// with no pending amounts, the roster in step with the id counter (so
    /// ids are the roster indices, strictly increasing and never reused), and
    /// every robot inside the map.
    pub open spec fn wf(self) -> bool {
        &&& self.map.wf()
        &&& self.station.wf()
        &&& self.station.center_x == center_x(self.map.config)
        &&& self.station.center_y == center_y(self.map.config)
        &&& self.events@.len() == 0
        &&& accounted(self.station, self.robots@, self.events@, self.stats)
        &&& self.robots@.len() == self.station.robot_counter
        &&& self.station.robot_counter == 5 + self.stats.robots_created
        &&& forall|i: int|
            0 <= i < self.robots@.len() ==> {
                let r = #[trigger] self.robots@[i];
                &&& r.id == i
                &&& r.x < self.map.width()
                &&& r.y < self.map.height()
                &&& r.wf()
            }
    }

    /// Room for one tick's worth of growth in every counter: at most one
    /// pickup per robot per resource, one spawn, one step.
    pub open spec fn tick_headroom(self) -> bool {
        &&& self.stats.total_energy_collected + self.robots@.len() < u32::MAX
        &&& self.stats.total_minerals_collected + self.robots@.len() < u32::MAX
        &&& self.stats.total_scientific_data_collected + self.robots@.len() < u32::MAX
        &&& self.station.robot_counter < MAX_ROBOTS
        &&& self.stats.simulation_step < usize::MAX
    }

    /// Whether the next tick is safely within every counter's range; a driver
    /// checks this before calling `update`.
    pub fn can_advance(&self) -> (r: bool)
        ensures
            r == self.tick_headroom(),
    {
        let len_usize: usize = self.robots.len();
        let cap: u64 = u32::MAX as u64;
        if len_usize as u64 >= cap {
            return false;
        }
        let len: u64 = len_usize as u64;
        let he: bool = (self.stats.total_energy_collected as u64) + len < cap;
        let hm: bool = (self.stats.total_minerals_collected as u64) + len < cap;
        let hs: bool = (self.stats.total_scientific_data_collected as u64) + len < cap;
        he && hm && hs && self.station.robot_counter < MAX_ROBOTS && self.stats.simulation_step
            < usize::MAX
    }

    /// Build a simulation: the generated map, a fresh station at its center,
    /// and the fixed initial roster of 5 robots there (2 Exploration,
    /// 2 Drill, 1 EnergyCollector), with ids 0 through 4.
    pub fn new(config: MapConfig, rough: Vec<Vec<bool>>) -> (s: Simulation)
        requires
            config_ok(config),
            dims_ok(vec2_view(rough), config.width as int, config.height as int),
        ensures
            s.wf(),
            s.map.config == config,
            s.map.grid() == generated_grid(config, vec2_view(rough)),
            s.map.vis() == generated_vis(config),
            s.robots@.len() == 5,
            s.stats.simulation_step == 0,
            s.stats.robots_created == 0,
            s.stats.total_energy_collected == 0,
            s.stats.total_minerals_collected == 0,
            s.stats.total_scientific_data_collected == 0,
            s.station.energy_storage == 0,
            s.station.minerals_storage == 0,
            s.station.scientific_data_count == 0,
            s.robots@[0].modules@ =~= seq![RobotModule::Exploration],
            s.robots@[1].modules@ =~= seq![RobotModule::Exploration],
            s.robots@[2].modules@ =~= seq![RobotModule::Drill],
            s.robots@[3].modules@ =~= seq![RobotModule::Drill],
            s.robots@[4].modules@ =~= seq![RobotModule::EnergyCollector],
            forall|i: int|
                0 <= i < 5 ==> (#[trigger] s.robots@[i]).x == center_x(config)
                    && s.robots@[i].y == center_y(config),
    {
        let map = GridMap::new(config, rough);
        let cx: usize = map.config.width / 2;
        let cy: usize = map.config.height / 2;
        let station = Station::new(cx, cy);
        let mut robots: Vec<Robot> = Vec::new();
        let mut m0: Vec<RobotModule> = Vec::new();
        m0.push(RobotModule::Exploration);
        let rb0: Robot = Robot::new(0, cx, cy, m0);
        let ghost gv0 = robots@;
        let ghost gr0 = rb0;
        robots.push(rb0);
        let mut m1: Vec<RobotModule> = Vec::new();
        m1.push(RobotModule::Exploration);
        let rb1: Robot = Robot::new(1, cx, cy, m1);
        let ghost gv1 = robots@;
        let ghost gr1 = rb1;
        robots.push(rb1);
        let mut m2: Vec<RobotModule> = Vec::new();
        m2.push(RobotModule::Drill);
        let rb2: Robot = Robot::new(2, cx, cy, m2);
        let ghost gv2 = robots@;
        let ghost gr2 = rb2;
        robots.push(rb2);
        let mut m3: Vec<RobotModule> = Vec::new();
        m3.push(RobotModule::Drill);
        let rb3: Robot = Robot::new(3, cx, cy, m3);
        let ghost gv3 = robots@;
        let ghost gr3 = rb3;
        robots.push(rb3);
        let mut m4: Vec<RobotModule> = Vec::new();
        m4.push(RobotModule::EnergyCollector);
        let rb4: Robot = Robot::new(4, cx, cy, m4);
        let ghost gv4 = robots@;
        let ghost gr4 = rb4;
        robots.push(rb4);
        proof {
            lemma_sums_push(gv0, gr0);
            lemma_sums_push(gv1, gr1);
            lemma_sums_push(gv2, gr2);
            lemma_sums_push(gv3, gr3);
            lemma_sums_push(gv4, gr4);
            assert(sum_energy(robots@) == 0 && sum_minerals(robots@) == 0 && sum_science(robots@)
                == 0);
        }
        let stats = SimulationStats::default();
        let events: Vec<SimulationEvent> = Vec::new();
        Simulation { map, station, robots, events, stats }
    }

    /// Drain the event log, in emission order, into the statistics: each
    /// pending amount lands on its total, exactly once.
    #[verifier::loop_isolation(false)]
    fn process_events(&mut self)
        requires
            old(self).stats.total_energy_collected + pending_energy(old(self).events@)
                <= u32::MAX,
            old(self).stats.total_minerals_collected + pending_minerals(old(self).events@)
                <= u32::MAX,
            old(self).stats.total_scientific_data_collected + pending_science(old(self).events@)
                <= u32::MAX,
        ensures
            final(self).map == old(self).map,
            final(self).station == old(self).station,
            final(self).robots == old(self).robots,
            final(self).events@.len() == 0,
            final(self).stats.simulation_step == old(self).stats.simulation_step,
            final(self).stats.robots_created == old(self).stats.robots_created,
            final(self).stats.total_energy_collected == old(self).stats.total_energy_collected
                + pending_energy(old(self).events@),
            final(self).stats.total_minerals_collected == old(self).stats.total_minerals_collected
                + pending_minerals(old(self).events@),
            final(self).stats.total_scientific_data_collected == old(self).stats.total_scientific_data_collected + pending_science(old(self).events@),
    {
        proof {
            lemma_pending_nonneg(self.events@);
        }
        let n: usize = self.events.len();
        let mut k: usize = 0;
        while k < n
            invariant
                k <= n,
                n == self.events@.len(),
                self.events == old(self).events,
                self.map == old(self).map,
                self.station == old(self).station,
                self.robots == old(self).robots,
                self.stats.simulation_step == old(self).stats.simulation_step,
                self.stats.robots_created == old(self).stats.robots_created,
                self.stats.total_energy_collected == old(self).stats.total_energy_collected
                    + pending_energy(self.events@.take(k as int)),
                self.stats.total_minerals_collected == old(self).stats.total_minerals_collected
                    + pending_minerals(self.events@.take(k as int)),
                self.stats.total_scientific_data_collected == old(self).stats.total_scientific_data_collected + pending_science(
                    self.events@.take(k as int),
                ),
            decreases n - k,
        {
            proof {
                lemma_pending_take_step(self.events@, k as int);
                lemma_pending_prefix_le(self.events@, k as int + 1);
            }
            let ev: SimulationEvent = self.events[k];
            match ev {
                SimulationEvent::ResourceCollected { resource_type, amount } => {
                    match resource_type {
                        ResourceType::Energy => {
                            self.stats.total_energy_collected = self.stats.total_energy_collected
                                + amount;
                        },
                        ResourceType::Mineral => {
                            self.stats.total_minerals_collected =
                            self.stats.total_minerals_collected + amount;
                        },
                        ResourceType::ScientificData => {
                            self.stats.total_scientific_data_collected =
                            self.stats.total_scientific_data_collected + amount;
                        },
                    }
                },
                SimulationEvent::RobotCreated { .. } => {},
            }
            k = k + 1;
        }
        proof {
            assert(self.events@.take(n as int) =~= self.events@);
        }
        self.events.clear();
    }

    /// One full tick run to completion: fade
    /// visibility; for each robot in roster order disclose its surroundings,
    /// decide and move, then attempt a pickup (earlier robots' pickups are
    /// seen by later ones); disclose the base area; let every robot deposit;
    /// let the station try to spawn; drain the event log into the statistics;
    /// count the step. The accounting law and every structural invariant are
    /// preserved, statistics only grow, at most one robot is created, nothing
    /// disclosed ever returns to Hidden, and in a tick without a spawn no
    /// resource is lost: banked plus carried never decreases. Deterministic
    /// outcomes are pinned exactly: every cell within Euclidean distance 2 of
    /// a robot's pre-tick position and within 3 of the base ends Visible, and
    /// a robot that starts the tick beside the base with cargo stands still,
    /// ends empty-handed, and its cargo reaches storage (less the one unit a
    /// spawn may spend).
    #[verifier::loop_isolation(false)]
    #[verifier::rlimit(100)]
    pub fn update(&mut self)
        requires
            old(self).wf(),
            old(self).tick_headroom(),
        ensures
            final(self).wf(),
            final(self).map.config == old(self).map.config,
            final(self).stats.simulation_step == old(self).stats.simulation_step + 1,
            final(self).stats.total_energy_collected >= old(self).stats.total_energy_collected,
            final(self).stats.total_minerals_collected >= old(self).stats.total_minerals_collected,
            final(self).stats.total_scientific_data_collected >= old(self).stats.total_scientific_data_collected,
            old(self).stats.robots_created <= final(self).stats.robots_created <= old(self).stats.robots_created + 1,
            final(self).robots@.len() - old(self).robots@.len() == final(self).stats.robots_created - old(self).stats.robots_created,
            forall|a: int, b: int|
                in_bounds(old(self).map.width(), old(self).map.height(), a, b) && !(old(self).map.vis()[b][a] is Hidden) ==> !(#[trigger] final(self).map.vis()[b][a]
                    is Hidden),
            forall|i: int|
                0 <= i < old(self).robots@.len() ==> (#[trigger] final(self).robots@[i]).modules
                    == old(self).robots@[i].modules,
            forall|i: int, a: int, b: int|
                #![trigger old(self).robots@[i], final(self).map.vis()[b][a]]
                0 <= i < old(self).robots@.len() && in_bounds(
                    old(self).map.width(),
                    old(self).map.height(),
                    a,
                    b,
                ) && within_radius(
                    old(self).robots@[i].x as int,
                    old(self).robots@[i].y as int,
                    2,
                    a,
                    b,
                ) ==> final(self).map.vis()[b][a] is Visible,
            forall|a: int, b: int|
                in_bounds(old(self).map.width(), old(self).map.height(), a, b) && within_radius(
                    center_x(old(self).map.config),
                    center_y(old(self).map.config),
                    3,
                    a,
                    b,
                ) ==> (#[trigger] final(self).map.vis()[b][a]) is Visible,
            forall|i: int|
                0 <= i < old(self).robots@.len() && homebound(
                    #[trigger] old(self).robots@[i],
                    center_x(old(self).map.config),
                    center_y(old(self).map.config),
                ) ==> final(self).robots@[i].carried_energy == 0 && final(self).robots@[i].carried_minerals == 0 && final(self).robots@[i].carried_scientific_data
                    == 0,
            final(self).station.energy_storage + (final(self).stats.robots_created - old(self).stats.robots_created) >= old(self).station.energy_storage + hb_energy(
                old(self).robots@,
                center_x(old(self).map.config),
                center_y(old(self).map.config),
            ),
            final(self).station.minerals_storage + (final(self).stats.robots_created - old(self).stats.robots_created) >= old(self).station.minerals_storage + hb_minerals(
                old(self).robots@,
                center_x(old(self).map.config),
                center_y(old(self).map.config),
            ),
            final(self).station.scientific_data_count + (final(self).stats.robots_created - old(self).stats.robots_created) >= old(self).station.scientific_data_count + hb_science(
                old(self).robots@,
                center_x(old(self).map.config),
                center_y(old(self).map.config),
            ),
            final(self).stats.robots_created == old(self).stats.robots_created ==> {
                &&& final(self).station.energy_storage + sum_energy(final(self).robots@) >= old(self).station.energy_storage + sum_energy(old(self).robots@)
                &&& final(self).station.minerals_storage + sum_minerals(final(self).robots@)
                    >= old(self).station.minerals_storage + sum_minerals(old(self).robots@)
                &&& final(self).station.scientific_data_count + sum_science(final(self).robots@)
                    >= old(self).station.scientific_data_count + sum_science(old(self).robots@)
            },
    {
        let w: usize = self.map.config.width;
        let h: usize = self.map.config.height;
        let ghost cxg = center_x(old(self).map.config);
        let ghost cyg = center_y(old(self).map.config);
        self.map.fade_visibility();
        let n: usize = self.robots.len();
        let mut i: usize = 0;
        while i < n
            invariant
                i <= n,
                self.map.wf(),
                self.map.config == old(self).map.config,
                self.station == old(self).station,
                self.stats == old(self).stats,
                self.robots@.len() == n,
                forall|k: int|
                    0 <= k < n ==> {
                        let r = #[trigger] self.robots@[k];
                        &&& r.id == k
                        &&& r.x < self.map.width()
                        &&& r.y < self.map.height()
                        &&& r.wf()
                        &&& r.modules == old(self).robots@[k].modules
                    },
                accounted(self.station, self.robots@, self.events@, self.stats),
                pending_energy(self.events@) >= 0,
                pending_minerals(self.events@) >= 0,
                pending_science(self.events@) >= 0,
                pending_energy(self.events@) + pending_minerals(self.events@) + pending_science(
                    self.events@,
                ) <= i,
                forall|a: int, b: int|
                    in_bounds(w as int, h as int, a, b) && !(old(self).map.vis()[b][a] is Hidden)
                        ==> !(#[trigger] self.map.vis()[b][a] is Hidden),
                forall|k: int| i <= k < n ==> #[trigger] self.robots@[k] == old(self).robots@[k],
                forall|k: int|
                    0 <= k < i && homebound(#[trigger] old(self).robots@[k], cxg, cyg) ==> {
                        &&& self.robots@[k].x == old(self).robots@[k].x
                        &&& self.robots@[k].y == old(self).robots@[k].y
                        &&& self.robots@[k].carried_energy >= old(self).robots@[k].carried_energy
                        &&& self.robots@[k].carried_minerals >= old(self).robots@[k].carried_minerals
                        &&& self.robots@[k].carried_scientific_data >= old(self).robots@[k].carried_scientific_data
                    },
                forall|k: int, a: int, b: int|
                    #![trigger old(self).robots@[k], self.map.vis()[b][a]]
                    0 <= k < i && in_bounds(w as int, h as int, a, b) && within_radius(
                        old(self).robots@[k].x as int,
                        old(self).robots@[k].y as int,
                        2,
                        a,
                        b,
                    ) ==> self.map.vis()[b][a] is Visible,
            decreases n - i,
        {
            let ghost rs_pre = self.robots@;
            let ghost evs_pre = self.events@;
            let mut rob: Robot = self.robots.remove(i);
            self.map.update_visibility(rob.x, rob.y, 2);
            let mut specialized: bool = false;
            if rob.should_return_to_base() {
                let cx: usize = self.map.config.width / 2;
                let cy: usize = self.map.config.height / 2;
                if !rob.is_near_base(cx, cy) {
                    rob.move_towards(cx, cy, &self.map);
                    specialized = true;
                }
            } else {
                if rob.has_module(RobotModule::Exploration) {
                    let t: Option<(usize, usize)> = find_unexplored_area(rob.x, rob.y, &self.map);
                    match t {
                        Some(p) => {
                            rob.move_towards(p.0, p.1, &self.map);
                            specialized = true;
                        },
                        None => {},
                    }
                } else if rob.has_module(RobotModule::Drill) {
                    let t: Option<(usize, usize)> = find_nearest_resource(
                        rob.x,
                        rob.y,
                        &self.map,
                        CellType::Mineral,
                    );
                    match t {
                        Some(p) => {
                            rob.move_towards(p.0, p.1, &self.map);
                            specialized = true;
                        },
                        None => {},
                    }
                } else if rob.has_module(RobotModule::EnergyCollector) {
                    let t: Option<(usize, usize)> = find_nearest_resource(
                        rob.x,
                        rob.y,
                        &self.map,
                        CellType::Energy,
                    );
                    match t {
                        Some(p) => {
                            rob.move_towards(p.0, p.1, &self.map);
                            specialized = true;
                        },
                        None => {},
                    }
                }
            }
            if !specialized {
                rob.random_move(&self.map);
            }
            proof {
                lemma_sums_bound(rs_pre, i as int);
                lemma_pending_nonneg(evs_pre);
            }
            let cell_before: CellType = self.map.cell(rob.x, rob.y);
            let got: bool = rob.try_gather_resource(&mut self.map);
            if got {
                let rt: ResourceType = match cell_before {
                    CellType::Energy => ResourceType::Energy,
                    CellType::Mineral => ResourceType::Mineral,
                    _ => ResourceType::ScientificData,
                };
                self.events.push(
                    SimulationEvent::ResourceCollected { resource_type: rt, amount: 1 },
                );
                proof {
                    lemma_pending_push(
                        evs_pre,
                        SimulationEvent::ResourceCollected { resource_type: rt, amount: 1u32 },
                    );
                }
            }
            let ghost rv = rob;
            self.robots.insert(i, rob);
            proof {
                assert(self.robots@ =~= rs_pre.update(i as int, rv));
                lemma_sums_update(rs_pre, i as int, rv);
            }
            i = i + 1;
        }
        let cxb: usize = self.map.config.width / 2;
        let cyb: usize = self.map.config.height / 2;
        self.map.update_visibility(cxb, cyb, 3);
        let ghost map_mid = self.map;
        let mut j: usize = 0;
        while j < n
            invariant
                j <= n,
                self.map == map_mid,
                self.map.wf(),
                self.map.config == old(self).map.config,
                self.stats == old(self).stats,
                self.station.wf(),
                self.station.robot_counter == old(self).station.robot_counter,
                self.station.explorer_count == old(self).station.explorer_count,
                self.station.driller_count == old(self).station.driller_count,
                self.station.energy_collector_count == old(self).station.energy_collector_count,
                self.station.center_x == old(self).station.center_x,
                self.station.center_y == old(self).station.center_y,
                self.robots@.len() == n,
                forall|k: int|
                    0 <= k < n ==> {
                        let r = #[trigger] self.robots@[k];
                        &&& r.id == k
                        &&& r.x < self.map.width()
                        &&& r.y < self.map.height()
                        &&& r.wf()
                        &&& r.modules == old(self).robots@[k].modules
                    },
                accounted(self.station, self.robots@, self.events@, self.stats),
                pending_energy(self.events@) >= 0,
                pending_minerals(self.events@) >= 0,
                pending_science(self.events@) >= 0,
                pending_energy(self.events@) + pending_minerals(self.events@) + pending_science(
                    self.events@,
                ) <= n,
                self.station.energy_storage >= old(self).station.energy_storage + hb_energy(
                    old(self).robots@.take(j as int),
                    cxg,
                    cyg,
                ),
                self.station.minerals_storage >= old(self).station.minerals_storage + hb_minerals(
                    old(self).robots@.take(j as int),
                    cxg,
                    cyg,
                ),
                self.station.scientific_data_count >= old(self).station.scientific_data_count
                    + hb_science(old(self).robots@.take(j as int), cxg, cyg),
                forall|k: int|
                    0 <= k < j && homebound(#[trigger] old(self).robots@[k], cxg, cyg)
                        ==> self.robots@[k].carried_energy == 0 && self.robots@[k].carried_minerals
                        == 0 && self.robots@[k].carried_scientific_data == 0,
                forall|k: int|
                    j <= k < n && homebound(#[trigger] old(self).robots@[k], cxg, cyg) ==> {
                        &&& self.robots@[k].x == old(self).robots@[k].x
                        &&& self.robots@[k].y == old(self).robots@[k].y
                        &&& self.robots@[k].carried_energy >= old(self).robots@[k].carried_energy
                        &&& self.robots@[k].carried_minerals >= old(self).robots@[k].carried_minerals
                        &&& self.robots@[k].carried_scientific_data >= old(self).robots@[k].carried_scientific_data
                    },
            decreases n - j,
        {
            let ghost rs_pre = self.robots@;
            let mut rob: Robot = self.robots.remove(j);
            proof {
                lemma_sums_bound(rs_pre, j as int);
                lemma_pending_nonneg(self.events@);
            }
            rob.try_deposit_resources(&mut self.station, &self.map);
            let ghost rv = rob;
            self.robots.insert(j, rob);
            proof {
                assert(self.robots@ =~= rs_pre.update(j as int, rv));
                lemma_sums_update(rs_pre, j as int, rv);
                lemma_hb_take_step(old(self).robots@, cxg, cyg, j as int);
            }
            j = j + 1;
        }
        proof {
            assert(old(self).robots@.take(n as int) =~= old(self).robots@);
        }
        let spawned: Option<Robot> = self.station.try_create_robot();
        match spawned {
            Some(new_robot) => {
                let rid: usize = new_robot.id;
                let ghost evs_pre2 = self.events@;
                let ghost rs_pre2 = self.robots@;
                let ghost nr = new_robot;
                self.events.push(SimulationEvent::RobotCreated { id: rid });
                self.robots.push(new_robot);
                self.stats.robots_created = self.stats.robots_created + 1;
                proof {
                    lemma_pending_push(evs_pre2, SimulationEvent::RobotCreated { id: rid });
                    lemma_sums_push(rs_pre2, nr);
                }
            },
            None => {},
        }
        proof {
            lemma_pending_nonneg(self.events@);
        }
        self.process_events();
        self.stats.simulation_step = self.stats.simulation_step + 1;
    }
}

} // verus!
