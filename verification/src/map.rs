//! The grid world: terrain cells plus a fog-of-war visibility layer.
//!
//! Terrain starts from a caller-supplied rough obstacle field (the driver
//! samples a coherent-noise source for it), is smoothed by cellular-automata
//! rounds, carved with corridors, and seeded with resources. Every stage is a
//! pure function of the configuration and the rough field, which is what pins
//! generation down as deterministic.

use vstd::prelude::*;

use crate::rng::{draw, next_state, SeedRng};

verus! {

/// Construction-time configuration: dimensions and the terrain seed.
#[derive(Clone, Copy, Debug, PartialEq, Eq, Structural)]
pub struct MapConfig {
    pub width: usize,
    pub height: usize,
    pub seed: u32,
}

/// What a grid position holds. Obstacles are impassable; everything else is
/// passable. Energy and Mineral deplete on pickup; a ScientificSite does not.
#[derive(Clone, Copy, Debug, PartialEq, Eq, Structural)]
pub enum CellType {
    Empty,
    Obstacle,
    Energy,
    Mineral,
    ScientificSite,
}

/// Fog-of-war state of a grid position. Hidden cells have never been seen;
/// Visible cells are in view this tick; Explored cells were seen earlier.
#[derive(Clone, Copy, Debug, PartialEq, Eq, Structural)]
pub enum CellVisibility {
    Hidden,
    Visible,
    Explored,
}

/// Dimension bounds that keep every coordinate computation of the library
/// (squared Euclidean distances in 64 bits, path scores in usize) free of
/// overflow.
pub open spec fn config_ok(c: MapConfig) -> bool {
    &&& 1 <= c.width <= 0x1000000
    &&& 1 <= c.height <= 0x1000000
    &&& c.width * c.height + c.width + c.height + 2 <= usize::MAX
}

/// The base sits at the map center.
pub open spec fn center_x(c: MapConfig) -> int {
    c.width as int / 2
}

pub open spec fn center_y(c: MapConfig) -> int {
    c.height as int / 2
}

/// A rectangular grid: `h` rows of width `w`.
pub open spec fn dims_ok<T>(g: Seq<Seq<T>>, w: int, h: int) -> bool {
    &&& g.len() == h
    &&& forall|y: int| 0 <= y < h ==> (#[trigger] g[y]).len() == w
}

pub open spec fn in_bounds(w: int, h: int, x: int, y: int) -> bool {
    0 <= x < w && 0 <= y < h
}

/// A position can be stepped onto: inside the map and not an obstacle.
/// Visibility plays no role; legality is physical, not epistemic.
pub open spec fn walkable_at(g: Seq<Seq<CellType>>, w: int, h: int, x: int, y: int) -> bool {
    in_bounds(w, h, x, y) && !(g[y][x] is Obstacle)
}

/// Squared-Euclidean test used by visibility disclosure.
pub open spec fn within_radius(cx: int, cy: int, r: int, x: int, y: int) -> bool {
    (x - cx) * (x - cx) + (y - cy) * (y - cy) <= r * r
}

/// Disclosure: every in-radius cell becomes Visible; all others keep their
/// state. Never downgrades, and upgrades Explored back to Visible.
pub open spec fn disclosed(
    v: Seq<Seq<CellVisibility>>,
    w: int,
    h: int,
    cx: int,
    cy: int,
    r: int,
) -> Seq<Seq<CellVisibility>> {
    Seq::new(
        h as nat,
        |y: int|
            Seq::new(
                w as nat,
                |x: int| if within_radius(cx, cy, r, x, y) {
                    CellVisibility::Visible
                } else {
                    v[y][x]
                },
            ),
    )
}

/// Fading: every Visible cell becomes Explored; Hidden and Explored cells are
/// untouched.
pub open spec fn faded(v: Seq<Seq<CellVisibility>>, w: int, h: int) -> Seq<Seq<CellVisibility>> {
    Seq::new(
        h as nat,
        |y: int|
            Seq::new(
                w as nat,
                |x: int| if v[y][x] is Visible {
                    CellVisibility::Explored
                } else {
                    v[y][x]
                },
            ),
    )
}

/// A two-dimensional vector seen as a mathematical grid.
pub open spec fn vec2_view<T>(v: Vec<Vec<T>>) -> Seq<Seq<T>> {
    Seq::new(v@.len(), |y: int| v@[y]@)
}

/// Initial terrain: a rough field marks which cells start as obstacles.
pub open spec fn rough_cells(rough: Seq<Seq<bool>>, w: int, h: int) -> Seq<Seq<CellType>> {
    Seq::new(
        h as nat,
        |y: int|
            Seq::new(
                w as nat,
                |x: int| if rough[y][x] {
                    CellType::Obstacle
                } else {
                    CellType::Empty
                },
            ),
    )
}

/// 1 when the position holds an obstacle or lies outside the map (the edge
/// counts as obstacle, biasing border cells toward staying walls), else 0.
pub open spec fn obstacle_or_edge(g: Seq<Seq<CellType>>, w: int, h: int, x: int, y: int) -> int {
    if in_bounds(w, h, x, y) {
        if g[y][x] is Obstacle {
            1int
        } else {
            0int
        }
    } else {
        1int
    }
}

/// How many of the 8 neighbors of a cell are obstacles (or out of bounds).
pub open spec fn obstacle_neighbors(g: Seq<Seq<CellType>>, w: int, h: int, x: int, y: int) -> int {
    obstacle_or_edge(g, w, h, x - 1, y - 1) + obstacle_or_edge(g, w, h, x, y - 1)
        + obstacle_or_edge(g, w, h, x + 1, y - 1) + obstacle_or_edge(g, w, h, x - 1, y)
        + obstacle_or_edge(g, w, h, x + 1, y) + obstacle_or_edge(g, w, h, x - 1, y + 1)
        + obstacle_or_edge(g, w, h, x, y + 1) + obstacle_or_edge(g, w, h, x + 1, y + 1)
}

/// One cellular-automata rule application: an obstacle survives with at least
/// 4 obstacle neighbors; an open cell closes with at least 5.
pub open spec fn smooth_cell(g: Seq<Seq<CellType>>, w: int, h: int, x: int, y: int) -> CellType {
    let n = obstacle_neighbors(g, w, h, x, y);
    if g[y][x] is Obstacle {
        if n >= 4 {
            CellType::Obstacle
        } else {
            CellType::Empty
        }
    } else {
        if n >= 5 {
            CellType::Obstacle
        } else {
            CellType::Empty
        }
    }
}

/// One full smoothing round, all cells updated simultaneously from the
/// previous round's snapshot.
pub open spec fn smoothed(g: Seq<Seq<CellType>>, w: int, h: int) -> Seq<Seq<CellType>> {
    Seq::new(h as nat, |y: int| Seq::new(w as nat, |x: int| smooth_cell(g, w, h, x, y)))
}

/// `n` smoothing rounds.
pub open spec fn smoothed_n(g: Seq<Seq<CellType>>, w: int, h: int, n: nat) -> Seq<Seq<CellType>>
    decreases n,
{
    if n == 0 {
        g
    } else {
        smoothed(smoothed_n(g, w, h, (n - 1) as nat), w, h)
    }
}

/// One cell overwritten.
pub open spec fn set_cell(g: Seq<Seq<CellType>>, x: int, y: int, c: CellType) -> Seq<Seq<
    CellType,
>> {
    g.update(y, g[y].update(x, c))
}

/// The full 3-by-3 neighborhood of a center cleared to Empty (clipped to the
/// map bounds).
pub open spec fn clear_box(g: Seq<Seq<CellType>>, w: int, h: int, cx: int, cy: int) -> Seq<Seq<
    CellType,
>> {
    Seq::new(
        h as nat,
        |y: int|
            Seq::new(
                w as nat,
                |x: int| if cx - 1 <= x <= cx + 1 && cy - 1 <= y <= cy + 1 {
                    CellType::Empty
                } else {
                    g[y][x]
                },
            ),
    )
}

/// One greedy coordinate step toward a target.
pub open spec fn step_toward(a: int, target: int) -> int {
    if a < target {
        a + 1
    } else if a > target {
        a - 1
    } else {
        a
    }
}

/// A coordinate clipped into `[0, n)`.
pub open spec fn clamped(v: int, n: int) -> int {
    if v < 0 {
        0
    } else if v >= n {
        n - 1
    } else {
        v
    }
}

pub open spec fn dist1(a: int, b: int) -> int {
    if a <= b {
        b - a
    } else {
        a - b
    }
}

/// The corridor walk: clear the current cell, step each coordinate one cell
/// toward the target, clear the 3-by-3 neighborhood of the new position, and
/// repeat until the target is reached.
pub open spec fn carve_walk(
    g: Seq<Seq<CellType>>,
    w: int,
    h: int,
    x: int,
    y: int,
    tx: int,
    ty: int,
) -> Seq<Seq<CellType>>
    decreases dist1(x, tx) + dist1(y, ty),
{
    if x == tx && y == ty {
        g
    } else {
        let g1 = set_cell(g, x, y, CellType::Empty);
        let nx = step_toward(x, tx);
        let ny = step_toward(y, ty);
        let g2 = clear_box(g1, w, h, nx, ny);
        carve_walk(g2, w, h, nx, ny, tx, ty)
    }
}

/// `k` corridors between endpoints drawn from the deterministic stream.
pub open spec fn carve_paths(g: Seq<Seq<CellType>>, cfg: MapConfig, s: u64, k: nat) -> (Seq<
    Seq<CellType>,
>, u64)
    decreases k,
{
    if k == 0 {
        (g, s)
    } else {
        let sx = draw(s, cfg.width);
        let s1 = next_state(s);
        let sy = draw(s1, cfg.height);
        let s2 = next_state(s1);
        let ex = draw(s2, cfg.width);
        let s3 = next_state(s2);
        let ey = draw(s3, cfg.height);
        let s4 = next_state(s3);
        let g1 = carve_walk(g, cfg.width as int, cfg.height as int, sx, sy, ex, ey);
        carve_paths(g1, cfg, s4, (k - 1) as nat)
    }
}

/// A position may receive a resource: it is Empty and lies strictly outside
/// the Chebyshev-1 ring around the base.
pub open spec fn placement_ok(g: Seq<Seq<CellType>>, cfg: MapConfig, x: int, y: int) -> bool {
    let cx = center_x(cfg);
    let cy = center_y(cfg);
    &&& !(dist1(x, cx) <= 1 && dist1(y, cy) <= 1)
    &&& g[y][x] is Empty
}

/// One resource item: up to `tries` random positions, the first acceptable
/// one receives the resource; if all fail the item is silently skipped.
pub open spec fn place_one(
    g: Seq<Seq<CellType>>,
    cfg: MapConfig,
    s: u64,
    c: CellType,
    tries: nat,
) -> (Seq<Seq<CellType>>, u64)
    decreases tries,
{
    if tries == 0 {
        (g, s)
    } else {
        let x = draw(s, cfg.width);
        let s1 = next_state(s);
        let y = draw(s1, cfg.height);
        let s2 = next_state(s1);
        if placement_ok(g, cfg, x, y) {
            (set_cell(g, x, y, c), s2)
        } else {
            place_one(g, cfg, s2, c, (tries - 1) as nat)
        }
    }
}

/// `count` items of one resource kind, each with a 10-try budget.
pub open spec fn place_many(
    g: Seq<Seq<CellType>>,
    cfg: MapConfig,
    s: u64,
    c: CellType,
    count: nat,
) -> (Seq<Seq<CellType>>, u64)
    decreases count,
{
    if count == 0 {
        (g, s)
    } else {
        let r = place_one(g, cfg, s, c, 10);
        place_many(r.0, cfg, r.1, c, (count - 1) as nat)
    }
}

/// The full resource pass: 20 Energy, 20 Mineral, then 5 ScientificSite.
pub open spec fn place_all(g: Seq<Seq<CellType>>, cfg: MapConfig, s: u64) -> (Seq<
    Seq<CellType>,
>, u64) {
    let r1 = place_many(g, cfg, s, CellType::Energy, 20);
    let r2 = place_many(r1.0, cfg, r1.1, CellType::Mineral, 20);
    place_many(r2.0, cfg, r2.1, CellType::ScientificSite, 5)
}

/// The whole terrain pipeline: rough field, 4 smoothing rounds, 3 carved
/// corridors, the base area cleared, resources placed.
pub open spec fn generated_grid(cfg: MapConfig, rough: Seq<Seq<bool>>) -> Seq<Seq<CellType>> {
    let w = cfg.width as int;
    let h = cfg.height as int;
    let g0 = rough_cells(rough, w, h);
    let g1 = smoothed_n(g0, w, h, 4);
    let r2 = carve_paths(g1, cfg, SeedRng::seeded(cfg.seed), 3);
    let g3 = clear_box(r2.0, w, h, center_x(cfg), center_y(cfg));
    place_all(g3, cfg, r2.1).0
}

/// Everything starts Hidden.
pub open spec fn all_hidden(w: int, h: int) -> Seq<Seq<CellVisibility>> {
    Seq::new(h as nat, |y: int| Seq::new(w as nat, |x: int| CellVisibility::Hidden))
}

/// Initial visibility: a radius-3 disc around the base disclosed.
pub open spec fn generated_vis(cfg: MapConfig) -> Seq<Seq<CellVisibility>> {
    disclosed(
        all_hidden(cfg.width as int, cfg.height as int),
        cfg.width as int,
        cfg.height as int,
        center_x(cfg),
        center_y(cfg),
        3,
    )
}

/// The square of a value bounded by `i32::MAX` in magnitude fits comfortably
/// in 64 bits.
pub proof fn lemma_square_range(a: int)
    requires
        -0x7fff_ffff <= a <= 0x7fff_ffff,
    ensures
        0 <= a * a <= 0x3fff_ffff_0000_0001,
{
    assert(0 <= a * a <= 0x3fff_ffff_0000_0001) by (nonlinear_arith)
        requires
            -0x7fff_ffff <= a <= 0x7fff_ffff,
    ;
}

/// A cell within Euclidean distance `r` of a center lies inside the square
/// box of half-width `r` around that center.
pub proof fn lemma_radius_box(cx: int, cy: int, r: int, x: int, y: int)
    requires
        0 <= r,
        within_radius(cx, cy, r, x, y),
    ensures
        -r <= x - cx <= r,
        -r <= y - cy <= r,
{
    assert(-r <= x - cx <= r && -r <= y - cy <= r) by (nonlinear_arith)
        requires
            0 <= r,
            (x - cx) * (x - cx) + (y - cy) * (y - cy) <= r * r,
    ;
}

/// The grid map: terrain, visibility, and the configuration it was built for.
#[derive(Debug)]
pub struct GridMap {
    pub config: MapConfig,
    pub cells: Vec<Vec<CellType>>,
    pub visibility: Vec<Vec<CellVisibility>>,
}

impl GridMap {
    /// The terrain as a mathematical grid of cells.
    pub open spec fn grid(self) -> Seq<Seq<CellType>> {
        Seq::new(self.cells@.len(), |y: int| self.cells@[y]@)
    }

    /// The visibility layer as a mathematical grid.
    pub open spec fn vis(self) -> Seq<Seq<CellVisibility>> {
        Seq::new(self.visibility@.len(), |y: int| self.visibility@[y]@)
    }

    pub open spec fn width(self) -> int {
        self.config.width as int
    }

    pub open spec fn height(self) -> int {
        self.config.height as int
    }

    /// Well-formed: a valid configuration and two grids of exactly its size.
    pub open spec fn wf(self) -> bool {
        &&& config_ok(self.config)
        &&& dims_ok(self.grid(), self.width(), self.height())
        &&& dims_ok(self.vis(), self.width(), self.height())
    }

    /// Read one terrain cell.
    pub fn cell(&self, x: usize, y: usize) -> (c: CellType)
        requires
            dims_ok(self.grid(), self.width(), self.height()),
            x < self.width(),
            y < self.height(),
        ensures
            c == self.grid()[y as int][x as int],
    {
        proof {
            assert(self.grid()[y as int] == self.cells@[y as int]@);
        }
        self.cells[y][x]
    }

    /// Read one visibility cell.
    pub fn visibility_at(&self, x: usize, y: usize) -> (v: CellVisibility)
        requires
            dims_ok(self.vis(), self.width(), self.height()),
            x < self.width(),
            y < self.height(),
        ensures
            v == self.vis()[y as int][x as int],
    {
        proof {
            assert(self.vis()[y as int] == self.visibility@[y as int]@);
        }
        self.visibility[y][x]
    }

    /// Write one terrain cell.
    pub(crate) fn cell_set(&mut self, x: usize, y: usize, c: CellType)
        requires
            dims_ok(old(self).grid(), old(self).width(), old(self).height()),
            x < old(self).width(),
            y < old(self).height(),
        ensures
            final(self).config == old(self).config,
            final(self).visibility == old(self).visibility,
            dims_ok(final(self).grid(), old(self).width(), old(self).height()),
            forall|a: int, b: int|
                in_bounds(old(self).width(), old(self).height(), a, b)
                    ==> #[trigger] final(self).grid()[b][a] == (if a == x && b == y {
                    c
                } else {
                    old(self).grid()[b][a]
                }),
    {
        proof {
            assert(self.grid()[y as int] == self.cells@[y as int]@);
        }
        self.cells[y][x] = c;
        proof {
            assert forall|b: int| 0 <= b < old(self).height() implies (#[trigger] self.grid()[b])
                == (if b == y {
                old(self).grid()[b].update(x as int, c)
            } else {
                old(self).grid()[b]
            }) by {
                assert(self.grid()[b] =~= if b == y {
                    old(self).grid()[b].update(x as int, c)
                } else {
                    old(self).grid()[b]
                });
            }
        }
    }

    /// Write one visibility cell.
    fn vis_set(&mut self, x: usize, y: usize, v: CellVisibility)
        requires
            dims_ok(old(self).vis(), old(self).width(), old(self).height()),
            x < old(self).width(),
            y < old(self).height(),
        ensures
            final(self).config == old(self).config,
            final(self).cells == old(self).cells,
            dims_ok(final(self).vis(), old(self).width(), old(self).height()),
            forall|a: int, b: int|
                in_bounds(old(self).width(), old(self).height(), a, b)
                    ==> #[trigger] final(self).vis()[b][a] == (if a == x && b == y {
                    v
                } else {
                    old(self).vis()[b][a]
                }),
    {
        proof {
            assert(self.vis()[y as int] == self.visibility@[y as int]@);
        }
        self.visibility[y][x] = v;
        proof {
            assert forall|b: int| 0 <= b < old(self).height() implies (#[trigger] self.vis()[b])
                == (if b == y {
                old(self).vis()[b].update(x as int, v)
            } else {
                old(self).vis()[b]
            }) by {
                assert(self.vis()[b] =~= if b == y {
                    old(self).vis()[b].update(x as int, v)
                } else {
                    old(self).vis()[b]
                });
            }
        }
    }

    /// 0 or 1 for one neighborhood probe; out-of-bounds counts as an obstacle.
    fn obstacle_probe(&self, x: i64, y: i64) -> (n: usize)
        requires
            config_ok(self.config),
            dims_ok(self.grid(), self.width(), self.height()),
        ensures
            n == obstacle_or_edge(self.grid(), self.width(), self.height(), x as int, y as int),
            n <= 1,
    {
        if x >= 0 && x < self.config.width as i64 && y >= 0 && y < self.config.height as i64 {
            if self.cell(x as usize, y as usize) == CellType::Obstacle {
                1
            } else {
                0
            }
        } else {
            1
        }
    }

    /// How many of the 8 neighbors of `(x, y)` are obstacles, counting cells
    /// outside the map as obstacles.
    pub fn count_obstacle_neighbors(&self, x: usize, y: usize) -> (n: usize)
        requires
            config_ok(self.config),
            dims_ok(self.grid(), self.width(), self.height()),
            x < self.width(),
            y < self.height(),
        ensures
            n == obstacle_neighbors(self.grid(), self.width(), self.height(), x as int, y as int),
    {
        let xi: i64 = x as i64;
        let yi: i64 = y as i64;
        let mut n: usize = self.obstacle_probe(xi - 1, yi - 1);
        n = n + self.obstacle_probe(xi, yi - 1);
        n = n + self.obstacle_probe(xi + 1, yi - 1);
        n = n + self.obstacle_probe(xi - 1, yi);
        n = n + self.obstacle_probe(xi + 1, yi);
        n = n + self.obstacle_probe(xi - 1, yi + 1);
        n = n + self.obstacle_probe(xi, yi + 1);
        n = n + self.obstacle_probe(xi + 1, yi + 1);
        n
    }

    /// One simultaneous cellular-automata round over the whole grid.
    #[verifier::loop_isolation(false)]
    fn smooth_round(&mut self)
        requires
            config_ok(old(self).config),
            dims_ok(old(self).grid(), old(self).width(), old(self).height()),
        ensures
            final(self).config == old(self).config,
            final(self).visibility == old(self).visibility,
            dims_ok(final(self).grid(), old(self).width(), old(self).height()),
            final(self).grid() == smoothed(
                old(self).grid(),
                old(self).width(),
                old(self).height(),
            ),
    {
        let w: usize = self.config.width;
        let h: usize = self.config.height;
        let ghost target = smoothed(old(self).grid(), w as int, h as int);
        let mut rows: Vec<Vec<CellType>> = Vec::new();
        let mut y: usize = 0;
        while y < h
            invariant
                y <= h,
                rows@.len() == y,
                forall|b: int| 0 <= b < y ==> (#[trigger] rows@[b])@ == target[b],
            decreases h - y,
        {
            let mut row: Vec<CellType> = Vec::new();
            let mut x: usize = 0;
            while x < w
                invariant
                    y < h,
                    x <= w,
                    row@.len() == x,
                    forall|a: int|
                        0 <= a < x ==> row@[a] == smooth_cell(
                            old(self).grid(),
                            w as int,
                            h as int,
                            a,
                            y as int,
                        ),
                decreases w - x,
            {
                let n: usize = self.count_obstacle_neighbors(x, y);
                let cur: CellType = self.cell(x, y);
                let nc: CellType = if cur == CellType::Obstacle {
                    if n >= 4 {
                        CellType::Obstacle
                    } else {
                        CellType::Empty
                    }
                } else {
                    if n >= 5 {
                        CellType::Obstacle
                    } else {
                        CellType::Empty
                    }
                };
                row.push(nc);
                x = x + 1;
            }
            proof {
                assert(row@ =~= target[y as int]);
            }
            rows.push(row);
            y = y + 1;
        }
        self.cells = rows;
        proof {
            assert(self.grid() =~~= target);
        }
    }

    /// Clear the 3-by-3 neighborhood of `(cx, cy)` to Empty, clipped to the
    /// map bounds.
    #[verifier::loop_isolation(false)]
    fn clear_area(&mut self, cx: usize, cy: usize)
        requires
            config_ok(old(self).config),
            dims_ok(old(self).grid(), old(self).width(), old(self).height()),
            cx < old(self).width(),
            cy < old(self).height(),
        ensures
            final(self).config == old(self).config,
            final(self).visibility == old(self).visibility,
            dims_ok(final(self).grid(), old(self).width(), old(self).height()),
            final(self).grid() == clear_box(
                old(self).grid(),
                old(self).width(),
                old(self).height(),
                cx as int,
                cy as int,
            ),
    {
        let w: usize = self.config.width;
        let h: usize = self.config.height;
        let x0: usize = if cx >= 1 {
            cx - 1
        } else {
            0
        };
        let y0: usize = if cy >= 1 {
            cy - 1
        } else {
            0
        };
        let x1: usize = if cx + 1 < w {
            cx + 1
        } else {
            w - 1
        };
        let y1: usize = if cy + 1 < h {
            cy + 1
        } else {
            h - 1
        };
        let mut y: usize = y0;
        while y <= y1
            invariant
                y0 <= y <= y1 + 1,
                self.config == old(self).config,
                self.visibility == old(self).visibility,
                dims_ok(self.grid(), w as int, h as int),
                forall|a: int, b: int|
                    in_bounds(w as int, h as int, a, b) ==> #[trigger] self.grid()[b][a] == (
                    if x0 <= a <= x1 && y0 <= b < y {
                        CellType::Empty
                    } else {
                        old(self).grid()[b][a]
                    }),
            decreases y1 + 1 - y,
        {
            let mut x: usize = x0;
            while x <= x1
                invariant
                    y0 <= y <= y1,
                    x0 <= x <= x1 + 1,
                    self.config == old(self).config,
                    self.visibility == old(self).visibility,
                    dims_ok(self.grid(), w as int, h as int),
                    forall|a: int, b: int|
                        in_bounds(w as int, h as int, a, b) ==> #[trigger] self.grid()[b][a] == (
                        if (x0 <= a <= x1 && y0 <= b < y) || (b == y && x0 <= a < x) {
                            CellType::Empty
                        } else {
                            old(self).grid()[b][a]
                        }),
                decreases x1 + 1 - x,
            {
                self.cell_set(x, y, CellType::Empty);
                x = x + 1;
            }
            y = y + 1;
        }
        proof {
            assert(self.grid() =~~= clear_box(
                old(self).grid(),
                w as int,
                h as int,
                cx as int,
                cy as int,
            ));
        }
    }

    /// Carve one corridor from a start to an end position, force-clearing the
    /// 3-by-3 neighborhood of every step.
    #[verifier::loop_isolation(false)]
    pub fn create_path(&mut self, start_x: usize, start_y: usize, end_x: usize, end_y: usize)
        requires
            config_ok(old(self).config),
            dims_ok(old(self).grid(), old(self).width(), old(self).height()),
            start_x < old(self).width(),
            start_y < old(self).height(),
            end_x < old(self).width(),
            end_y < old(self).height(),
        ensures
            final(self).config == old(self).config,
            final(self).visibility == old(self).visibility,
            dims_ok(final(self).grid(), old(self).width(), old(self).height()),
            final(self).grid() == carve_walk(
                old(self).grid(),
                old(self).width(),
                old(self).height(),
                start_x as int,
                start_y as int,
                end_x as int,
                end_y as int,
            ),
    {
        let w: usize = self.config.width;
        let h: usize = self.config.height;
        let mut x: usize = start_x;
        let mut y: usize = start_y;
        while x != end_x || y != end_y
            invariant
                x < w,
                y < h,
                self.config == old(self).config,
                self.visibility == old(self).visibility,
                dims_ok(self.grid(), w as int, h as int),
                carve_walk(
                    self.grid(),
                    w as int,
                    h as int,
                    x as int,
                    y as int,
                    end_x as int,
                    end_y as int,
                ) == carve_walk(
                    old(self).grid(),
                    w as int,
                    h as int,
                    start_x as int,
                    start_y as int,
                    end_x as int,
                    end_y as int,
                ),
            decreases dist1(x as int, end_x as int) + dist1(y as int, end_y as int),
        {
            let ghost gpre = self.grid();
            let ghost xpre = x as int;
            let ghost ypre = y as int;
            self.cell_set(x, y, CellType::Empty);
            proof {
                assert(self.grid() =~~= set_cell(gpre, xpre, ypre, CellType::Empty));
            }
            let ghost gset = self.grid();
            if x < end_x {
                x = x + 1;
            } else if x > end_x {
                x = x - 1;
            }
            if y < end_y {
                y = y + 1;
            } else if y > end_y {
                y = y - 1;
            }
            proof {
                assert(x as int == step_toward(xpre, end_x as int));
                assert(y as int == step_toward(ypre, end_y as int));
            }
            self.clear_area(x, y);
            proof {
                assert(self.grid() == clear_box(gset, w as int, h as int, x as int, y as int));
                assert(carve_walk(gpre, w as int, h as int, xpre, ypre, end_x as int, end_y as int)
                    == carve_walk(
                    self.grid(),
                    w as int,
                    h as int,
                    x as int,
                    y as int,
                    end_x as int,
                    end_y as int,
                ));
            }
        }
    }

    /// Carve 3 corridors between endpoints drawn from the deterministic
    /// stream. A heuristic traversability safeguard, not a connectivity
    /// proof: the corridors themselves are guaranteed clear, nothing more.
    #[verifier::loop_isolation(false)]
    fn ensure_traversable(&mut self, rng: &mut SeedRng)
        requires
            config_ok(old(self).config),
            dims_ok(old(self).grid(), old(self).width(), old(self).height()),
        ensures
            final(self).config == old(self).config,
            final(self).visibility == old(self).visibility,
            dims_ok(final(self).grid(), old(self).width(), old(self).height()),
            ({
                let r = carve_paths(old(self).grid(), old(self).config, old(rng).state(), 3);
                final(self).grid() == r.0 && final(rng).state() == r.1
            }),
    {
        let w: usize = self.config.width;
        let h: usize = self.config.height;
        let mut k: usize = 0;
        while k < 3
            invariant
                k <= 3,
                self.config == old(self).config,
                self.visibility == old(self).visibility,
                dims_ok(self.grid(), w as int, h as int),
                carve_paths(self.grid(), old(self).config, rng.state(), (3 - k) as nat)
                    == carve_paths(old(self).grid(), old(self).config, old(rng).state(), 3),
            decreases 3 - k,
        {
            let ghost gpre = self.grid();
            let ghost spre = rng.state();
            let start_x: usize = rng.below(w);
            let start_y: usize = rng.below(h);
            let end_x: usize = rng.below(w);
            let end_y: usize = rng.below(h);
            self.create_path(start_x, start_y, end_x, end_y);
            proof {
                assert(carve_paths(gpre, old(self).config, spre, (3 - k) as nat) == carve_paths(
                    self.grid(),
                    old(self).config,
                    rng.state(),
                    (3 - k - 1) as nat,
                ));
            }
            k = k + 1;
        }
    }

    /// Smooth the rough field with 4 cellular-automata rounds, then carve the
    /// 3 traversability corridors.
    #[verifier::loop_isolation(false)]
    fn generate_terrain(&mut self, rng: &mut SeedRng)
        requires
            config_ok(old(self).config),
            dims_ok(old(self).grid(), old(self).width(), old(self).height()),
        ensures
            final(self).config == old(self).config,
            final(self).visibility == old(self).visibility,
            dims_ok(final(self).grid(), old(self).width(), old(self).height()),
            ({
                let g1 = smoothed_n(
                    old(self).grid(),
                    old(self).width(),
                    old(self).height(),
                    4,
                );
                let r = carve_paths(g1, old(self).config, old(rng).state(), 3);
                final(self).grid() == r.0 && final(rng).state() == r.1
            }),
    {
        let w: usize = self.config.width;
        let h: usize = self.config.height;
        let mut i: usize = 0;
        while i < 4
            invariant
                i <= 4,
                self.config == old(self).config,
                self.visibility == old(self).visibility,
                dims_ok(self.grid(), w as int, h as int),
                self.grid() == smoothed_n(old(self).grid(), w as int, h as int, i as nat),
            decreases 4 - i,
        {
            self.smooth_round();
            i = i + 1;
        }
        self.ensure_traversable(rng);
    }

    /// Clear the 3-by-3 base area at the map center, whatever earlier stages
    /// left there.
    pub fn clear_base_area(&mut self)
        requires
            config_ok(old(self).config),
            dims_ok(old(self).grid(), old(self).width(), old(self).height()),
        ensures
            final(self).config == old(self).config,
            final(self).visibility == old(self).visibility,
            dims_ok(final(self).grid(), old(self).width(), old(self).height()),
            final(self).grid() == clear_box(
                old(self).grid(),
                old(self).width(),
                old(self).height(),
                center_x(old(self).config),
                center_y(old(self).config),
            ),
    {
        let cx: usize = self.config.width / 2;
        let cy: usize = self.config.height / 2;
        self.clear_area(cx, cy);
    }

    /// Try to place one resource item: up to 10 random positions, the first
    /// Empty cell outside the base ring receives it; otherwise the item is
    /// skipped.
    #[verifier::loop_isolation(false)]
    fn place_one_item(&mut self, rng: &mut SeedRng, c: CellType)
        requires
            config_ok(old(self).config),
            dims_ok(old(self).grid(), old(self).width(), old(self).height()),
        ensures
            final(self).config == old(self).config,
            final(self).visibility == old(self).visibility,
            dims_ok(final(self).grid(), old(self).width(), old(self).height()),
            ({
                let r = place_one(old(self).grid(), old(self).config, old(rng).state(), c, 10);
                final(self).grid() == r.0 && final(rng).state() == r.1
            }),
    {
        let w: usize = self.config.width;
        let h: usize = self.config.height;
        let mut t: usize = 10;
        let mut placed: bool = false;
        while t > 0 && !placed
            invariant
                t <= 10,
                self.config == old(self).config,
                self.visibility == old(self).visibility,
                dims_ok(self.grid(), w as int, h as int),
                ({
                    let r = place_one(old(self).grid(), old(self).config, old(rng).state(), c, 10);
                    if placed {
                        self.grid() == r.0 && rng.state() == r.1
                    } else {
                        place_one(self.grid(), old(self).config, rng.state(), c, t as nat) == r
                    }
                }),
            decreases (if placed {
                0int
            } else {
                t + 1
            }),
        {
            let ghost gpre = self.grid();
            let ghost spre = rng.state();
            let x: usize = rng.below(w);
            let y: usize = rng.below(h);
            let cxv: usize = w / 2;
            let cyv: usize = h / 2;
            let dx: usize = if x >= cxv {
                x - cxv
            } else {
                cxv - x
            };
            let dyv: usize = if y >= cyv {
                y - cyv
            } else {
                cyv - y
            };
            let cell_here: CellType = self.cell(x, y);
            let valid: bool = !(dx <= 1 && dyv <= 1) && cell_here == CellType::Empty;
            proof {
                assert(valid == placement_ok(gpre, old(self).config, x as int, y as int));
            }
            if valid {
                self.cell_set(x, y, c);
                proof {
                    assert(self.grid() =~~= set_cell(gpre, x as int, y as int, c));
                }
                placed = true;
            } else {
                t = t - 1;
                proof {
                    assert(place_one(gpre, old(self).config, spre, c, (t + 1) as nat) == place_one(
                        self.grid(),
                        old(self).config,
                        rng.state(),
                        c,
                        t as nat,
                    ));
                }
            }
        }
    }

    /// Place `count` items of one resource kind.
    #[verifier::loop_isolation(false)]
    fn place_kind(&mut self, rng: &mut SeedRng, c: CellType, count: usize)
        requires
            config_ok(old(self).config),
            dims_ok(old(self).grid(), old(self).width(), old(self).height()),
        ensures
            final(self).config == old(self).config,
            final(self).visibility == old(self).visibility,
            dims_ok(final(self).grid(), old(self).width(), old(self).height()),
            ({
                let r = place_many(
                    old(self).grid(),
                    old(self).config,
                    old(rng).state(),
                    c,
                    count as nat,
                );
                final(self).grid() == r.0 && final(rng).state() == r.1
            }),
    {
        let w: usize = self.config.width;
        let h: usize = self.config.height;
        let mut i: usize = 0;
        while i < count
            invariant
                i <= count,
                self.config == old(self).config,
                self.visibility == old(self).visibility,
                dims_ok(self.grid(), w as int, h as int),
                place_many(self.grid(), old(self).config, rng.state(), c, (count - i) as nat)
                    == place_many(
                    old(self).grid(),
                    old(self).config,
                    old(rng).state(),
                    c,
                    count as nat,
                ),
            decreases count - i,
        {
            let ghost gpre = self.grid();
            let ghost spre = rng.state();
            self.place_one_item(rng, c);
            proof {
                assert(place_many(gpre, old(self).config, spre, c, (count - i) as nat)
                    == place_many(
                    self.grid(),
                    old(self).config,
                    rng.state(),
                    c,
                    (count - i - 1) as nat,
                ));
            }
            i = i + 1;
        }
    }

    /// The resource pass: 20 Energy and 20 Mineral deposits and 5 scientific
    /// sites, each attempted at up to 10 random positions.
    pub fn place_resources(&mut self, rng: &mut SeedRng)
        requires
            config_ok(old(self).config),
            dims_ok(old(self).grid(), old(self).width(), old(self).height()),
        ensures
            final(self).config == old(self).config,
            final(self).visibility == old(self).visibility,
            dims_ok(final(self).grid(), old(self).width(), old(self).height()),
            ({
                let r = place_all(old(self).grid(), old(self).config, old(rng).state());
                final(self).grid() == r.0 && final(rng).state() == r.1
            }),
    {
        self.place_kind(rng, CellType::Energy, 20);
        self.place_kind(rng, CellType::Mineral, 20);
        self.place_kind(rng, CellType::ScientificSite, 5);
    }

    /// Generate a map. The result is a pure function of the configuration and
    /// the rough obstacle field: equal inputs give bit-identical maps.
    #[verifier::loop_isolation(false)]
    pub fn new(config: MapConfig, rough: Vec<Vec<bool>>) -> (m: GridMap)
        requires
            config_ok(config),
            dims_ok(vec2_view(rough), config.width as int, config.height as int),
        ensures
            m.wf(),
            m.config == config,
            m.grid() == generated_grid(config, vec2_view(rough)),
            m.vis() == generated_vis(config),
    {
        let w: usize = config.width;
        let h: usize = config.height;
        let ghost g0 = rough_cells(vec2_view(rough), w as int, h as int);
        let mut rows: Vec<Vec<CellType>> = Vec::new();
        let mut y: usize = 0;
        while y < h
            invariant
                y <= h,
                rows@.len() == y,
                forall|b: int| 0 <= b < y ==> (#[trigger] rows@[b])@ == g0[b],
            decreases h - y,
        {
            proof {
                assert(vec2_view(rough)[y as int] == rough@[y as int]@);
            }
            let mut row: Vec<CellType> = Vec::new();
            let mut x: usize = 0;
            while x < w
                invariant
                    y < h,
                    x <= w,
                    row@.len() == x,
                    forall|a: int| 0 <= a < x ==> row@[a] == g0[y as int][a],
                decreases w - x,
            {
                let ob: bool = rough[y][x];
                let c: CellType = if ob {
                    CellType::Obstacle
                } else {
                    CellType::Empty
                };
                row.push(c);
                x = x + 1;
            }
            proof {
                assert(row@ =~= g0[y as int]);
            }
            rows.push(row);
            y = y + 1;
        }
        let mut vrows: Vec<Vec<CellVisibility>> = Vec::new();
        let mut vy: usize = 0;
        while vy < h
            invariant
                vy <= h,
                vrows@.len() == vy,
                forall|b: int|
                    0 <= b < vy ==> (#[trigger] vrows@[b])@ == all_hidden(w as int, h as int)[b],
            decreases h - vy,
        {
            let mut vrow: Vec<CellVisibility> = Vec::new();
            let mut vx: usize = 0;
            while vx < w
                invariant
                    vy < h,
                    vx <= w,
                    vrow@.len() == vx,
                    forall|a: int| 0 <= a < vx ==> vrow@[a] == CellVisibility::Hidden,
                decreases w - vx,
            {
                vrow.push(CellVisibility::Hidden);
                vx = vx + 1;
            }
            proof {
                assert(vrow@ =~= all_hidden(w as int, h as int)[vy as int]);
            }
            vrows.push(vrow);
            vy = vy + 1;
        }
        let mut m = GridMap { config, cells: rows, visibility: vrows };
        proof {
            assert(m.grid() =~~= g0);
            assert(m.vis() =~~= all_hidden(w as int, h as int));
        }
        let mut rng = SeedRng::new(config.seed);
        m.generate_terrain(&mut rng);
        m.clear_base_area();
        m.place_resources(&mut rng);
        let cx: usize = w / 2;
        let cy: usize = h / 2;
        m.update_visibility(cx, cy, 3);
        m
    }

    /// False outside the map or on an obstacle; true anywhere else, seen or
    /// unseen.
    pub fn is_walkable(&self, x: usize, y: usize) -> (r: bool)
        requires
            dims_ok(self.grid(), self.width(), self.height()),
        ensures
            r == walkable_at(self.grid(), self.width(), self.height(), x as int, y as int),
    {
        if x >= self.config.width || y >= self.config.height {
            return false;
        }
        let c: CellType = self.cell(x, y);
        c != CellType::Obstacle
    }

    /// Disclose every cell within Euclidean distance `radius` of `(x, y)` as
    /// Visible. No cell is ever downgraded, so nothing returns to Hidden.
    #[verifier::loop_isolation(false)]
    pub fn update_visibility(&mut self, x: usize, y: usize, radius: i32)
        requires
            old(self).wf(),
            x < old(self).width(),
            y < old(self).height(),
            0 <= radius,
        ensures
            final(self).wf(),
            final(self).config == old(self).config,
            final(self).grid() == old(self).grid(),
            final(self).vis() =~~= disclosed(
                old(self).vis(),
                old(self).width(),
                old(self).height(),
                x as int,
                y as int,
                radius as int,
            ),
            forall|a: int, b: int|
                in_bounds(old(self).width(), old(self).height(), a, b) && !(old(self).vis()[b][a]
                    is Hidden) ==> !(final(self).vis()[b][a] is Hidden),
    {
        let w: usize = self.config.width;
        let h: usize = self.config.height;
        let r: i64 = radius as i64;
        let cx: i64 = x as i64;
        let cy: i64 = y as i64;
        proof {
            assert forall|a: int, b: int|
                within_radius(cx as int, cy as int, r as int, a, b) implies -r <= a - cx <= r && -r
                <= b - cy <= r by {
                lemma_radius_box(cx as int, cy as int, r as int, a, b);
            }
        }
        let mut dy: i64 = -r;
        while dy <= r
            invariant
                -r <= dy <= r + 1,
                self.config == old(self).config,
                self.cells == old(self).cells,
                dims_ok(self.vis(), w as int, h as int),
                forall|a: int, b: int|
                    in_bounds(w as int, h as int, a, b) ==> #[trigger] self.vis()[b][a] == (
                    if within_radius(cx as int, cy as int, r as int, a, b) && b - cy < dy {
                        CellVisibility::Visible
                    } else {
                        old(self).vis()[b][a]
                    }),
            decreases r - dy + 1,
        {
            let mut dx: i64 = -r;
            while dx <= r
                invariant
                    -r <= dx <= r + 1,
                    self.config == old(self).config,
                    self.cells == old(self).cells,
                    dims_ok(self.vis(), w as int, h as int),
                    forall|a: int, b: int|
                        in_bounds(w as int, h as int, a, b) ==> #[trigger] self.vis()[b][a] == (
                        if within_radius(cx as int, cy as int, r as int, a, b) && (b - cy < dy || (b
                            - cy == dy && a - cx < dx)) {
                            CellVisibility::Visible
                        } else {
                            old(self).vis()[b][a]
                        }),
                decreases r - dx + 1,
            {
                let nxi: i64 = cx + dx;
                let nyi: i64 = cy + dy;
                if nxi >= 0 && nxi < w as i64 && nyi >= 0 && nyi < h as i64 {
                    proof {
                        lemma_square_range(dx as int);
                        lemma_square_range(dy as int);
                        lemma_square_range(r as int);
                    }
                    if dx * dx + dy * dy <= r * r {
                        let nx: usize = nxi as usize;
                        let ny: usize = nyi as usize;
                        self.vis_set(nx, ny, CellVisibility::Visible);
                    }
                }
                dx = dx + 1;
            }
            dy = dy + 1;
        }
        proof {
            assert(self.grid() =~~= old(self).grid());
        }
    }

    /// One fade step: every Visible cell becomes Explored. Hidden stays
    /// Hidden, Explored stays Explored, and nothing returns to Hidden.
    #[verifier::loop_isolation(false)]
    pub fn fade_visibility(&mut self)
        requires
            old(self).wf(),
        ensures
            final(self).wf(),
            final(self).config == old(self).config,
            final(self).grid() == old(self).grid(),
            final(self).vis() =~~= faded(old(self).vis(), old(self).width(), old(self).height()),
            forall|a: int, b: int|
                in_bounds(old(self).width(), old(self).height(), a, b) && !(old(self).vis()[b][a]
                    is Hidden) ==> !(final(self).vis()[b][a] is Hidden),
    {
        let w: usize = self.config.width;
        let h: usize = self.config.height;
        let mut y: usize = 0;
        while y < h
            invariant
                y <= h,
                self.config == old(self).config,
                self.cells == old(self).cells,
                dims_ok(self.vis(), w as int, h as int),
                forall|a: int, b: int|
                    in_bounds(w as int, h as int, a, b) ==> #[trigger] self.vis()[b][a] == (
                    if b < y && old(self).vis()[b][a] is Visible {
                        CellVisibility::Explored
                    } else {
                        old(self).vis()[b][a]
                    }),
            decreases h - y,
        {
            let mut x: usize = 0;
            while x < w
                invariant
                    x <= w,
                    self.config == old(self).config,
                    self.cells == old(self).cells,
                    dims_ok(self.vis(), w as int, h as int),
                    forall|a: int, b: int|
                        in_bounds(w as int, h as int, a, b) ==> #[trigger] self.vis()[b][a] == (
                        if (b < y || (b == y && a < x)) && old(self).vis()[b][a] is Visible {
                            CellVisibility::Explored
                        } else {
                            old(self).vis()[b][a]
                        }),
                decreases w - x,
            {
                if self.visibility_at(x, y) == CellVisibility::Visible {
                    self.vis_set(x, y, CellVisibility::Explored);
                }
                x = x + 1;
            }
            y = y + 1;
        }
        proof {
            assert(self.grid() =~~= old(self).grid());
        }
    }
}

/// Determinism of generation: identical width, height and seed — and an
/// identical rough field, itself a pure function of the seed in the driver —
/// give bit-identical terrain and visibility grids.
pub proof fn lemma_generation_deterministic(
    c1: MapConfig,
    r1: Seq<Seq<bool>>,
    c2: MapConfig,
    r2: Seq<Seq<bool>>,
)
    requires
        c1 == c2,
        r1 == r2,
    ensures
        generated_grid(c1, r1) == generated_grid(c2, r2),
        generated_vis(c1) == generated_vis(c2),
{
}

/// Visibility monotonicity: neither disclosure nor fading ever sends a cell
/// back to Hidden, so under any sequence of the two operations a cell that
/// has reached Visible or Explored never becomes Hidden again.
pub proof fn lemma_visibility_monotone(
    v: Seq<Seq<CellVisibility>>,
    w: int,
    h: int,
    cx: int,
    cy: int,
    r: int,
    x: int,
    y: int,
)
    requires
        in_bounds(w, h, x, y),
        !(v[y][x] is Hidden),
    ensures
        !(disclosed(v, w, h, cx, cy, r)[y][x] is Hidden),
        !(faded(v, w, h)[y][x] is Hidden),
{
}

/// Every in-bounds cell within Chebyshev distance 1 of the base is Empty.
pub open spec fn base_clear(g: Seq<Seq<CellType>>, cfg: MapConfig) -> bool {
    forall|x: int, y: int|
        in_bounds(cfg.width as int, cfg.height as int, x, y) && dist1(x, center_x(cfg)) <= 1
            && dist1(y, center_y(cfg)) <= 1 ==> (#[trigger] g[y][x]) is Empty
}

proof fn lemma_place_one_base(g: Seq<Seq<CellType>>, cfg: MapConfig, s: u64, c: CellType, t: nat)
    requires
        config_ok(cfg),
        dims_ok(g, cfg.width as int, cfg.height as int),
        base_clear(g, cfg),
    ensures
        dims_ok(place_one(g, cfg, s, c, t).0, cfg.width as int, cfg.height as int),
        base_clear(place_one(g, cfg, s, c, t).0, cfg),
    decreases t,
{
    if t > 0 {
        let x = draw(s, cfg.width);
        let s1 = next_state(s);
        let y = draw(s1, cfg.height);
        let s2 = next_state(s1);
        if placement_ok(g, cfg, x, y) {
            let g2 = set_cell(g, x, y, c);
            assert forall|a: int, b: int|
                in_bounds(cfg.width as int, cfg.height as int, a, b) && dist1(a, center_x(cfg))
                    <= 1 && dist1(b, center_y(cfg)) <= 1 implies (#[trigger] g2[b][a])
                is Empty by {
                assert(!(a == x && b == y));
            }
        } else {
            lemma_place_one_base(g, cfg, s2, c, (t - 1) as nat);
        }
    }
}

proof fn lemma_place_many_base(g: Seq<Seq<CellType>>, cfg: MapConfig, s: u64, c: CellType, n: nat)
    requires
        config_ok(cfg),
        dims_ok(g, cfg.width as int, cfg.height as int),
        base_clear(g, cfg),
    ensures
        dims_ok(place_many(g, cfg, s, c, n).0, cfg.width as int, cfg.height as int),
        base_clear(place_many(g, cfg, s, c, n).0, cfg),
    decreases n,
{
    if n > 0 {
        let r = place_one(g, cfg, s, c, 10);
        lemma_place_one_base(g, cfg, s, c, 10);
        lemma_place_many_base(r.0, cfg, r.1, c, (n - 1) as nat);
    }
}

/// Traversability at the base: in every generated map, every cell within
/// Chebyshev distance 1 of the map center is Empty — the clearing stage makes
/// it so, and resource placement never targets the base ring.
pub proof fn lemma_base_area_clear(cfg: MapConfig, rough: Seq<Seq<bool>>)
    requires
        config_ok(cfg),
    ensures
        base_clear(generated_grid(cfg, rough), cfg),
{
    let w = cfg.width as int;
    let h = cfg.height as int;
    let g0 = rough_cells(rough, w, h);
    let g1 = smoothed_n(g0, w, h, 4);
    let r2 = carve_paths(g1, cfg, SeedRng::seeded(cfg.seed), 3);
    let g3 = clear_box(r2.0, w, h, center_x(cfg), center_y(cfg));
    lemma_smoothed_n_dims(g0, w, h, 4);
    lemma_carve_paths_dims(g1, cfg, SeedRng::seeded(cfg.seed), 3);
    let rr1 = place_many(g3, cfg, r2.1, CellType::Energy, 20);
    lemma_place_many_base(g3, cfg, r2.1, CellType::Energy, 20);
    let rr2 = place_many(rr1.0, cfg, rr1.1, CellType::Mineral, 20);
    lemma_place_many_base(rr1.0, cfg, rr1.1, CellType::Mineral, 20);
    lemma_place_many_base(rr2.0, cfg, rr2.1, CellType::ScientificSite, 5);
}

proof fn lemma_smoothed_n_dims(g: Seq<Seq<CellType>>, w: int, h: int, n: nat)
    requires
        dims_ok(g, w, h),
        0 <= w,
        0 <= h,
    ensures
        dims_ok(smoothed_n(g, w, h, n), w, h),
    decreases n,
{
    if n > 0 {
        lemma_smoothed_n_dims(g, w, h, (n - 1) as nat);
    }
}

proof fn lemma_carve_walk_dims(
    g: Seq<Seq<CellType>>,
    w: int,
    h: int,
    x: int,
    y: int,
    tx: int,
    ty: int,
)
    requires
        dims_ok(g, w, h),
        in_bounds(w, h, x, y),
        in_bounds(w, h, tx, ty),
    ensures
        dims_ok(carve_walk(g, w, h, x, y, tx, ty), w, h),
    decreases dist1(x, tx) + dist1(y, ty),
{
    if !(x == tx && y == ty) {
        let g1 = set_cell(g, x, y, CellType::Empty);
        let nx = step_toward(x, tx);
        let ny = step_toward(y, ty);
        let g2 = clear_box(g1, w, h, nx, ny);
        lemma_carve_walk_dims(g2, w, h, nx, ny, tx, ty);
    }
}

proof fn lemma_carve_paths_dims(g: Seq<Seq<CellType>>, cfg: MapConfig, s: u64, k: nat)
    requires
        config_ok(cfg),
        dims_ok(g, cfg.width as int, cfg.height as int),
    ensures
        dims_ok(carve_paths(g, cfg, s, k).0, cfg.width as int, cfg.height as int),
    decreases k,
{
    if k > 0 {
        let sx = draw(s, cfg.width);
        let s1 = next_state(s);
        let sy = draw(s1, cfg.height);
        let s2 = next_state(s1);
        let ex = draw(s2, cfg.width);
        let s3 = next_state(s2);
        let ey = draw(s3, cfg.height);
        let s4 = next_state(s3);
        let g1 = carve_walk(g, cfg.width as int, cfg.height as int, sx, sy, ex, ey);
        lemma_carve_walk_dims(g, cfg.width as int, cfg.height as int, sx, sy, ex, ey);
        lemma_carve_paths_dims(g1, cfg, s4, (k - 1) as nat);
    }
}

/// The positions a corridor walk passes through, start and target included.
pub open spec fn walk_cells(x: int, y: int, tx: int, ty: int) -> Seq<(int, int)>
    decreases dist1(x, tx) + dist1(y, ty),
{
    if x == tx && y == ty {
        seq![(x, y)]
    } else {
        seq![(x, y)] + walk_cells(step_toward(x, tx), step_toward(y, ty), tx, ty)
    }
}

/// Carving only ever writes Empty, so an Empty cell stays Empty through it.
proof fn lemma_carve_walk_empty_mono(
    g: Seq<Seq<CellType>>,
    w: int,
    h: int,
    x: int,
    y: int,
    tx: int,
    ty: int,
    a: int,
    b: int,
)
    requires
        dims_ok(g, w, h),
        in_bounds(w, h, x, y),
        in_bounds(w, h, tx, ty),
        in_bounds(w, h, a, b),
        g[b][a] is Empty,
    ensures
        carve_walk(g, w, h, x, y, tx, ty)[b][a] is Empty,
    decreases dist1(x, tx) + dist1(y, ty),
{
    if !(x == tx && y == ty) {
        let g1 = set_cell(g, x, y, CellType::Empty);
        let nx = step_toward(x, tx);
        let ny = step_toward(y, ty);
        let g2 = clear_box(g1, w, h, nx, ny);
        lemma_carve_walk_empty_mono(g2, w, h, nx, ny, tx, ty, a, b);
    }
}

/// Every cell of a non-degenerate corridor walk is in bounds and Empty once
/// the walk has been carved.
proof fn lemma_carve_walk_clears(
    g: Seq<Seq<CellType>>,
    w: int,
    h: int,
    x: int,
    y: int,
    tx: int,
    ty: int,
    i: int,
)
    requires
        dims_ok(g, w, h),
        in_bounds(w, h, x, y),
        in_bounds(w, h, tx, ty),
        !(x == tx && y == ty),
        0 <= i < walk_cells(x, y, tx, ty).len(),
    ensures
        in_bounds(w, h, walk_cells(x, y, tx, ty)[i].0, walk_cells(x, y, tx, ty)[i].1),
        carve_walk(g, w, h, x, y, tx, ty)[walk_cells(x, y, tx, ty)[i].1][walk_cells(
            x,
            y,
            tx,
            ty,
        )[i].0] is Empty,
    decreases dist1(x, tx) + dist1(y, ty),
{
    let g1 = set_cell(g, x, y, CellType::Empty);
    let nx = step_toward(x, tx);
    let ny = step_toward(y, ty);
    let g2 = clear_box(g1, w, h, nx, ny);
    let cells = walk_cells(x, y, tx, ty);
    if i == 0 {
        assert(cells[0] == (x, y));
        assert(g2[y][x] is Empty);
        if nx == tx && ny == ty {
            assert(carve_walk(g2, w, h, nx, ny, tx, ty) == g2);
        } else {
            lemma_carve_walk_empty_mono(g2, w, h, nx, ny, tx, ty, x, y);
        }
    } else {
        let tail = walk_cells(nx, ny, tx, ty);
        assert(cells[i] == tail[i - 1]);
        if nx == tx && ny == ty {
            assert(tail =~= seq![(nx, ny)]);
            assert(cells[i] == (nx, ny));
            assert(g2[ny][nx] is Empty);
            assert(carve_walk(g2, w, h, nx, ny, tx, ty) == g2);
        } else {
            lemma_carve_walk_clears(g2, w, h, nx, ny, tx, ty, i - 1);
        }
    }
}

/// The state of the deterministic stream after `n` draws.
pub open spec fn state_n(s: u64, n: nat) -> u64
    decreases n,
{
    if n == 0 {
        s
    } else {
        next_state(state_n(s, (n - 1) as nat))
    }
}

proof fn lemma_state_n_add(s: u64, a: nat, b: nat)
    ensures
        state_n(s, a + b) == state_n(state_n(s, a), b),
    decreases b,
{
    if b > 0 {
        lemma_state_n_add(s, a, (b - 1) as nat);
        assert(a + b - 1 == a + (b - 1) as nat);
    }
}

/// The endpoints the `k`-th carved corridor is drawn with.
pub open spec fn carve_sx(cfg: MapConfig, k: nat) -> int {
    draw(state_n(SeedRng::seeded(cfg.seed), 4 * k), cfg.width)
}

pub open spec fn carve_sy(cfg: MapConfig, k: nat) -> int {
    draw(state_n(SeedRng::seeded(cfg.seed), 4 * k + 1), cfg.height)
}

pub open spec fn carve_ex(cfg: MapConfig, k: nat) -> int {
    draw(state_n(SeedRng::seeded(cfg.seed), 4 * k + 2), cfg.width)
}

pub open spec fn carve_ey(cfg: MapConfig, k: nat) -> int {
    draw(state_n(SeedRng::seeded(cfg.seed), 4 * k + 3), cfg.height)
}

/// Carving later corridors and both later stages keep a cell free of
/// obstacles: carving writes only Empty, clearing writes only Empty, and
/// placement writes only resources onto Empty cells.
proof fn lemma_carve_walk_nonobstacle_mono(
    g: Seq<Seq<CellType>>,
    w: int,
    h: int,
    x: int,
    y: int,
    tx: int,
    ty: int,
    a: int,
    b: int,
)
    requires
        dims_ok(g, w, h),
        in_bounds(w, h, x, y),
        in_bounds(w, h, tx, ty),
        in_bounds(w, h, a, b),
        !(g[b][a] is Obstacle),
    ensures
        !(carve_walk(g, w, h, x, y, tx, ty)[b][a] is Obstacle),
    decreases dist1(x, tx) + dist1(y, ty),
{
    if !(x == tx && y == ty) {
        let g1 = set_cell(g, x, y, CellType::Empty);
        let nx = step_toward(x, tx);
        let ny = step_toward(y, ty);
        let g2 = clear_box(g1, w, h, nx, ny);
        lemma_carve_walk_nonobstacle_mono(g2, w, h, nx, ny, tx, ty, a, b);
    }
}

proof fn lemma_carve_paths_nonobstacle_mono(
    g: Seq<Seq<CellType>>,
    cfg: MapConfig,
    s: u64,
    k: nat,
    a: int,
    b: int,
)
    requires
        config_ok(cfg),
        dims_ok(g, cfg.width as int, cfg.height as int),
        in_bounds(cfg.width as int, cfg.height as int, a, b),
        !(g[b][a] is Obstacle),
    ensures
        !(carve_paths(g, cfg, s, k).0[b][a] is Obstacle),
    decreases k,
{
    if k > 0 {
        let w = cfg.width as int;
        let h = cfg.height as int;
        let sx = draw(s, cfg.width);
        let s1 = next_state(s);
        let sy = draw(s1, cfg.height);
        let s2 = next_state(s1);
        let ex = draw(s2, cfg.width);
        let s3 = next_state(s2);
        let ey = draw(s3, cfg.height);
        let s4 = next_state(s3);
        let g1 = carve_walk(g, w, h, sx, sy, ex, ey);
        lemma_carve_walk_nonobstacle_mono(g, w, h, sx, sy, ex, ey, a, b);
        lemma_carve_walk_dims(g, w, h, sx, sy, ex, ey);
        lemma_carve_paths_nonobstacle_mono(g1, cfg, s4, (k - 1) as nat, a, b);
    }
}

proof fn lemma_place_one_nonobstacle_mono(
    g: Seq<Seq<CellType>>,
    cfg: MapConfig,
    s: u64,
    c: CellType,
    t: nat,
    a: int,
    b: int,
)
    requires
        config_ok(cfg),
        dims_ok(g, cfg.width as int, cfg.height as int),
        !(c is Obstacle),
        in_bounds(cfg.width as int, cfg.height as int, a, b),
        !(g[b][a] is Obstacle),
    ensures
        dims_ok(place_one(g, cfg, s, c, t).0, cfg.width as int, cfg.height as int),
        !(place_one(g, cfg, s, c, t).0[b][a] is Obstacle),
    decreases t,
{
    if t > 0 {
        let s1 = next_state(s);
        let s2 = next_state(s1);
        if !placement_ok(g, cfg, draw(s, cfg.width), draw(s1, cfg.height)) {
            lemma_place_one_nonobstacle_mono(g, cfg, s2, c, (t - 1) as nat, a, b);
        }
    }
}

proof fn lemma_place_many_nonobstacle_mono(
    g: Seq<Seq<CellType>>,
    cfg: MapConfig,
    s: u64,
    c: CellType,
    n: nat,
    a: int,
    b: int,
)
    requires
        config_ok(cfg),
        dims_ok(g, cfg.width as int, cfg.height as int),
        !(c is Obstacle),
        in_bounds(cfg.width as int, cfg.height as int, a, b),
        !(g[b][a] is Obstacle),
    ensures
        dims_ok(place_many(g, cfg, s, c, n).0, cfg.width as int, cfg.height as int),
        !(place_many(g, cfg, s, c, n).0[b][a] is Obstacle),
    decreases n,
{
    if n > 0 {
        let r = place_one(g, cfg, s, c, 10);
        lemma_place_one_nonobstacle_mono(g, cfg, s, c, 10, a, b);
        lemma_place_many_nonobstacle_mono(r.0, cfg, r.1, c, (n - 1) as nat, a, b);
    }
}

/// Traversability along the carved corridors: every cell that the `k`-th
/// corridor walk passes through is walkable in the final generated map. The
/// carving forces those cells Empty, and no later stage ever writes an
/// obstacle. (A degenerate walk whose random endpoints coincide touches only
/// its start cell and carves nothing, so it is excluded.)
pub proof fn lemma_carved_corridor_walkable(cfg: MapConfig, rough: Seq<Seq<bool>>, k: nat, i: int)
    requires
        config_ok(cfg),
        k < 3,
        !(carve_sx(cfg, k) == carve_ex(cfg, k) && carve_sy(cfg, k) == carve_ey(cfg, k)),
        0 <= i < walk_cells(carve_sx(cfg, k), carve_sy(cfg, k), carve_ex(cfg, k), carve_ey(cfg, k)).len(),
    ensures
        ({
            let p = walk_cells(
                carve_sx(cfg, k),
                carve_sy(cfg, k),
                carve_ex(cfg, k),
                carve_ey(cfg, k),
            )[i];
            walkable_at(generated_grid(cfg, rough), cfg.width as int, cfg.height as int, p.0, p.1)
        }),
{
    let w = cfg.width as int;
    let h = cfg.height as int;
    let g0 = rough_cells(rough, w, h);
    let g1 = smoothed_n(g0, w, h, 4);
    lemma_smoothed_n_dims(g0, w, h, 4);
    let s0 = SeedRng::seeded(cfg.seed);
    lemma_carve_paths_clears(g1, cfg, s0, 3, k, i);
    let r2 = carve_paths(g1, cfg, s0, 3);
    lemma_carve_paths_dims(g1, cfg, s0, 3);
    let p = walk_cells(carve_sx(cfg, k), carve_sy(cfg, k), carve_ex(cfg, k), carve_ey(cfg, k))[i];
    let g3 = clear_box(r2.0, w, h, center_x(cfg), center_y(cfg));
    assert(!(g3[p.1][p.0] is Obstacle));
    let rr1 = place_many(g3, cfg, r2.1, CellType::Energy, 20);
    lemma_place_many_nonobstacle_mono(g3, cfg, r2.1, CellType::Energy, 20, p.0, p.1);
    let rr2 = place_many(rr1.0, cfg, rr1.1, CellType::Mineral, 20);
    lemma_place_many_nonobstacle_mono(rr1.0, cfg, rr1.1, CellType::Mineral, 20, p.0, p.1);
    lemma_place_many_nonobstacle_mono(rr2.0, cfg, rr2.1, CellType::ScientificSite, 5, p.0, p.1);
}

/// Within `carve_paths`, the `k`-th walk's cells end up Empty: the walk
/// carves them and later walks only write Empty.
proof fn lemma_carve_paths_clears(
    g: Seq<Seq<CellType>>,
    cfg: MapConfig,
    s: u64,
    m: nat,
    k: nat,
    i: int,
)
    requires
        config_ok(cfg),
        dims_ok(g, cfg.width as int, cfg.height as int),
        k < m,
        ({
            let sx = draw(state_n(s, 4 * k), cfg.width);
            let sy = draw(state_n(s, 4 * k + 1), cfg.height);
            let ex = draw(state_n(s, 4 * k + 2), cfg.width);
            let ey = draw(state_n(s, 4 * k + 3), cfg.height);
            &&& !(sx == ex && sy == ey)
            &&& 0 <= i < walk_cells(sx, sy, ex, ey).len()
        }),
    ensures
        ({
            let sx = draw(state_n(s, 4 * k), cfg.width);
            let sy = draw(state_n(s, 4 * k + 1), cfg.height);
            let ex = draw(state_n(s, 4 * k + 2), cfg.width);
            let ey = draw(state_n(s, 4 * k + 3), cfg.height);
            let p = walk_cells(sx, sy, ex, ey)[i];
            &&& in_bounds(cfg.width as int, cfg.height as int, p.0, p.1)
            &&& carve_paths(g, cfg, s, m).0[p.1][p.0] is Empty
        }),
    decreases k,
{
    let w = cfg.width as int;
    let h = cfg.height as int;
    let sx0 = draw(s, cfg.width);
    let s1 = next_state(s);
    let sy0 = draw(s1, cfg.height);
    let s2 = next_state(s1);
    let ex0 = draw(s2, cfg.width);
    let s3 = next_state(s2);
    let ey0 = draw(s3, cfg.height);
    let s4 = next_state(s3);
    let g1 = carve_walk(g, w, h, sx0, sy0, ex0, ey0);
    lemma_carve_walk_dims(g, w, h, sx0, sy0, ex0, ey0);
    assert(state_n(s, 0) == s);
    assert(state_n(s, 1) == s1);
    assert(state_n(s, 2) == s2);
    assert(state_n(s, 3) == s3);
    assert(state_n(s, 4) == s4);
    if k == 0 {
        let p = walk_cells(sx0, sy0, ex0, ey0)[i];
        lemma_carve_walk_clears(g, w, h, sx0, sy0, ex0, ey0, i);
        lemma_carve_paths_empty_mono(g1, cfg, s4, (m - 1) as nat, p.0, p.1);
    } else {
        lemma_state_n_add(s, 4, 4 * (k - 1) as nat);
        lemma_state_n_add(s, 4, 4 * (k - 1) as nat + 1);
        lemma_state_n_add(s, 4, 4 * (k - 1) as nat + 2);
        lemma_state_n_add(s, 4, 4 * (k - 1) as nat + 3);
        assert(4 * k == 4 + 4 * (k - 1) as nat);
        assert(4 * k + 1 == 4 + (4 * (k - 1) as nat + 1));
        assert(4 * k + 2 == 4 + (4 * (k - 1) as nat + 2));
        assert(4 * k + 3 == 4 + (4 * (k - 1) as nat + 3));
        lemma_carve_paths_clears(g1, cfg, s4, (m - 1) as nat, (k - 1) as nat, i);
    }
}

proof fn lemma_carve_paths_empty_mono(
    g: Seq<Seq<CellType>>,
    cfg: MapConfig,
    s: u64,
    k: nat,
    a: int,
    b: int,
)
    requires
        config_ok(cfg),
        dims_ok(g, cfg.width as int, cfg.height as int),
        in_bounds(cfg.width as int, cfg.height as int, a, b),
        g[b][a] is Empty,
    ensures
        carve_paths(g, cfg, s, k).0[b][a] is Empty,
    decreases k,
{
    if k > 0 {
        let w = cfg.width as int;
        let h = cfg.height as int;
        let sx = draw(s, cfg.width);
        let s1 = next_state(s);
        let sy = draw(s1, cfg.height);
        let s2 = next_state(s1);
        let ex = draw(s2, cfg.width);
        let s3 = next_state(s2);
        let ey = draw(s3, cfg.height);
        let s4 = next_state(s3);
        let g1 = carve_walk(g, w, h, sx, sy, ex, ey);
        lemma_carve_walk_empty_mono(g, w, h, sx, sy, ex, ey, a, b);
        lemma_carve_walk_dims(g, w, h, sx, sy, ex, ey);
        lemma_carve_paths_empty_mono(g1, cfg, s4, (k - 1) as nat, a, b);
    }
}

} // verus!
