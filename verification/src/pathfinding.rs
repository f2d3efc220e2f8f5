//! Grid pathfinding: A* over 4-connected neighbors with unit step cost and a
//! Manhattan-distance heuristic.
//!
//! The search keeps a parent forest rooted at the start whose depths strictly
//! decrease toward the root; a returned path is proved valid and shortest: it
//! begins at the start, ends at the goal, moves one cardinal step at a time,
//! stays on walkable cells, and no valid route is shorter. A route is found
//! exactly when one exists.

use vstd::prelude::*;

use crate::map::{
    dims_ok, dist1, in_bounds, vec2_view, walkable_at, CellType, GridMap,
};

verus! {

/// One cardinal step apart.
pub open spec fn adjacent4(ax: int, ay: int, bx: int, by: int) -> bool {
    dist1(ax, bx) + dist1(ay, by) == 1
}

/// Manhattan distance, the heuristic the queue is ordered by.
pub open spec fn manh(ax: int, ay: int, bx: int, by: int) -> int {
    dist1(ax, bx) + dist1(ay, by)
}

/// What `find_path` promises of a returned route: it runs from `s` to `t` in
/// single cardinal steps, and every position after the first is walkable.
pub open spec fn path_ok(
    g: Seq<Seq<CellType>>,
    w: int,
    h: int,
    p: Seq<(usize, usize)>,
    s: (usize, usize),
    t: (usize, usize),
) -> bool {
    &&& p.len() >= 1
    &&& p[0] == s
    &&& p[p.len() - 1] == t
    &&& forall|i: int|
        0 < i < p.len() ==> adjacent4(
            (#[trigger] p[i]).0 as int,
            p[i].1 as int,
            p[i - 1].0 as int,
            p[i - 1].1 as int,
        )
    &&& forall|i: int|
        0 < i < p.len() ==> walkable_at(g, w, h, (#[trigger] p[i]).0 as int, p[i].1 as int)
}

/// The parent forest the search grows. Every cell with a parent is walkable
/// and one step from it, its score is its parent's plus one, and the start is
/// the only reached cell without a parent (`inf` marks unreached cells).
pub open spec fn forest_inv(
    grid: Seq<Seq<CellType>>,
    w: int,
    h: int,
    inf: int,
    gs: Seq<Seq<usize>>,
    par: Seq<Seq<Option<(usize, usize)>>>,
    start: (usize, usize),
) -> bool {
    &&& dims_ok(gs, w, h)
    &&& dims_ok(par, w, h)
    &&& in_bounds(w, h, start.0 as int, start.1 as int)
    &&& gs[start.1 as int][start.0 as int] == 0
    &&& par[start.1 as int][start.0 as int] is None
    &&& forall|x: int, y: int| in_bounds(w, h, x, y) ==> #[trigger] gs[y][x] <= inf
    &&& forall|x: int, y: int|
        in_bounds(w, h, x, y) && !(x == start.0 as int && y == start.1 as int) && (
        #[trigger] par[y][x]) is None ==> gs[y][x] == inf
    &&& forall|x: int, y: int|
        in_bounds(w, h, x, y) ==> ((#[trigger] par[y][x]) matches Some(p) ==> {
            &&& in_bounds(w, h, p.0 as int, p.1 as int)
            &&& adjacent4(p.0 as int, p.1 as int, x, y)
            &&& walkable_at(grid, w, h, x, y)
            &&& gs[y][x] == gs[p.1 as int][p.0 as int] + 1
        })
}

/// Every recorded parent has already been expanded, so its score is frozen.
pub open spec fn parents_closed(
    w: int,
    h: int,
    par: Seq<Seq<Option<(usize, usize)>>>,
    seen: Seq<Seq<bool>>,
) -> bool {
    forall|x: int, y: int|
        in_bounds(w, h, x, y) ==> ((#[trigger] par[y][x]) matches Some(p) ==> seen[p.1 as int][p.0
            as int])
}

/// Every queued node is in bounds and reached; its recorded score is no
/// better than the cell's current one (scores only improve after a push), and
/// its priority is exactly that score plus the heuristic to the goal.
spec fn open_inv(
    w: int,
    h: int,
    inf: int,
    gs: Seq<Seq<usize>>,
    open: Seq<Node>,
    goal: (usize, usize),
) -> bool {
    forall|i: int|
        0 <= i < open.len() ==> {
            let n = #[trigger] open[i];
            &&& in_bounds(w, h, n.x as int, n.y as int)
            &&& gs[n.y as int][n.x as int] < inf
            &&& n.g >= gs[n.y as int][n.x as int]
            &&& n.f == n.g + manh(n.x as int, n.y as int, goal.0 as int, goal.1 as int)
        }
}

/// Some valid route runs from `s` to `t`.
pub open spec fn reachable(
    g: Seq<Seq<CellType>>,
    w: int,
    h: int,
    s: (usize, usize),
    t: (usize, usize),
) -> bool {
    exists|p: Seq<(usize, usize)>| path_ok(g, w, h, p, s, t)
}

/// Every walkable 4-neighbor of the cell has been reached by the search, at a
/// score at most one above the cell's own.
pub open spec fn closed_cell(
    grid: Seq<Seq<CellType>>,
    w: int,
    h: int,
    gs: Seq<Seq<usize>>,
    inf: int,
    x: int,
    y: int,
) -> bool {
    &&& (walkable_at(grid, w, h, x + 1, y) ==> gs[y][x + 1] < inf && gs[y][x + 1] <= gs[y][x] + 1)
    &&& (walkable_at(grid, w, h, x - 1, y) ==> gs[y][x - 1] < inf && gs[y][x - 1] <= gs[y][x] + 1)
    &&& (walkable_at(grid, w, h, x, y + 1) ==> gs[y + 1][x] < inf && gs[y + 1][x] <= gs[y][x] + 1)
    &&& (walkable_at(grid, w, h, x, y - 1) ==> gs[y - 1][x] < inf && gs[y - 1][x] <= gs[y][x] + 1)
}

/// An entry for this position is waiting in the queue with exactly this
/// recorded score: every reached, unexpanded cell keeps such a fresh entry.
spec fn queued_at(open: Seq<Node>, x: int, y: int, g: int) -> bool {
    exists|i: int|
        0 <= i < open.len() && (#[trigger] open[i]).x == x && open[i].y == y && open[i].g == g
}

/// One step across an expanded cell's closure: a walkable cardinal neighbor
/// of an expanded cell is reached, at a score at most one higher.
proof fn lemma_closed_step(
    grid: Seq<Seq<CellType>>,
    w: int,
    h: int,
    gs: Seq<Seq<usize>>,
    inf: int,
    a: (usize, usize),
    b: (usize, usize),
)
    requires
        closed_cell(grid, w, h, gs, inf, a.0 as int, a.1 as int),
        adjacent4(b.0 as int, b.1 as int, a.0 as int, a.1 as int),
        walkable_at(grid, w, h, b.0 as int, b.1 as int),
    ensures
        gs[b.1 as int][b.0 as int] < inf,
        gs[b.1 as int][b.0 as int] <= gs[a.1 as int][a.0 as int] + 1,
{
    if b.0 as int == a.0 as int + 1 && b.1 as int == a.1 as int {
    } else if b.0 as int == a.0 as int - 1 && b.1 as int == a.1 as int {
    } else if b.0 as int == a.0 as int && b.1 as int == a.1 as int + 1 {
    } else {
        assert(b.0 as int == a.0 as int && b.1 as int == a.1 as int - 1);
    }
}

/// Along a valid path into a search state where every reached cell is
/// expanded and every expanded cell has reached neighbors, every position has
/// been reached — so an exhausted search refutes the path.
proof fn lemma_path_cells_reached(
    grid: Seq<Seq<CellType>>,
    w: int,
    h: int,
    inf: int,
    gs: Seq<Seq<usize>>,
    seen: Seq<Seq<bool>>,
    start: (usize, usize),
    t: (usize, usize),
    p: Seq<(usize, usize)>,
    j: int,
)
    requires
        path_ok(grid, w, h, p, start, t),
        0 <= j < p.len(),
        in_bounds(w, h, start.0 as int, start.1 as int),
        gs[start.1 as int][start.0 as int] < inf,
        forall|x: int, y: int|
            in_bounds(w, h, x, y) && (#[trigger] gs[y][x]) < inf ==> seen[y][x],
        forall|x: int, y: int|
            in_bounds(w, h, x, y) && (#[trigger] seen[y][x]) ==> closed_cell(
                grid,
                w,
                h,
                gs,
                inf,
                x,
                y,
            ),
    ensures
        in_bounds(w, h, p[j].0 as int, p[j].1 as int),
        gs[p[j].1 as int][p[j].0 as int] < inf,
    decreases j,
{
    if j == 0 {
        assert(p[0] == start);
    } else {
        lemma_path_cells_reached(grid, w, h, inf, gs, seen, start, t, p, j - 1);
        let a = p[j - 1];
        let b = p[j];
        assert(walkable_at(grid, w, h, b.0 as int, b.1 as int));
        assert(adjacent4(b.0 as int, b.1 as int, a.0 as int, a.1 as int));
        assert(seen[a.1 as int][a.0 as int]);
        assert(closed_cell(grid, w, h, gs, inf, a.0 as int, a.1 as int));
        lemma_closed_step(grid, w, h, gs, inf, a, b);
    }
}

/// The heuristic is consistent: along a valid path it changes by at most one
/// per cardinal step, so from any position it is bounded by the steps still
/// to take plus its value at the path's end.
proof fn lemma_manh_path_bound(
    grid: Seq<Seq<CellType>>,
    w: int,
    h: int,
    s: (usize, usize),
    t: (usize, usize),
    goal: (usize, usize),
    p: Seq<(usize, usize)>,
    j: int,
)
    requires
        path_ok(grid, w, h, p, s, t),
        0 <= j < p.len(),
    ensures
        manh(p[j].0 as int, p[j].1 as int, goal.0 as int, goal.1 as int) <= p.len() - 1 - j + manh(
            t.0 as int,
            t.1 as int,
            goal.0 as int,
            goal.1 as int,
        ),
    decreases p.len() - j,
{
    if j == p.len() - 1 {
        assert(p[j] == t);
    } else {
        lemma_manh_path_bound(grid, w, h, s, t, goal, p, j + 1);
        assert(adjacent4(p[j + 1].0 as int, p[j + 1].1 as int, p[j].0 as int, p[j].1 as int));
    }
}

/// A valid path grows by one adjacent walkable position.
proof fn lemma_path_extend(
    grid: Seq<Seq<CellType>>,
    w: int,
    h: int,
    s: (usize, usize),
    a: (usize, usize),
    b: (usize, usize),
    p: Seq<(usize, usize)>,
)
    requires
        path_ok(grid, w, h, p, s, a),
        adjacent4(b.0 as int, b.1 as int, a.0 as int, a.1 as int),
        walkable_at(grid, w, h, b.0 as int, b.1 as int),
    ensures
        path_ok(grid, w, h, p.push(b), s, b),
{
    let p2 = p.push(b);
    assert(p2[p2.len() - 1] == b);
    assert(p2[0] == p[0]);
    assert forall|i: int| 0 < i < p2.len() implies adjacent4(
        (#[trigger] p2[i]).0 as int,
        p2[i].1 as int,
        p2[i - 1].0 as int,
        p2[i - 1].1 as int,
    ) && walkable_at(grid, w, h, p2[i].0 as int, p2[i].1 as int) by {
        if i < p.len() {
            assert(p2[i] == p[i]);
            assert(p2[i - 1] == p[i - 1]);
        } else {
            assert(p2[i] == b);
            assert(p2[i - 1] == p[p.len() - 1]);
        }
    }
}

/// The parent forest materializes a concrete valid path to every reached
/// cell, of exactly its score's length.
proof fn lemma_forest_path(
    grid: Seq<Seq<CellType>>,
    w: int,
    h: int,
    inf: int,
    gs: Seq<Seq<usize>>,
    par: Seq<Seq<Option<(usize, usize)>>>,
    start: (usize, usize),
    c: (usize, usize),
)
    requires
        forest_inv(grid, w, h, inf, gs, par, start),
        in_bounds(w, h, c.0 as int, c.1 as int),
        gs[c.1 as int][c.0 as int] < inf,
    ensures
        exists|p: Seq<(usize, usize)>|
            #[trigger] path_ok(grid, w, h, p, start, c) && p.len() == gs[c.1 as int][c.0 as int]
                + 1,
    decreases gs[c.1 as int][c.0 as int],
{
    match par[c.1 as int][c.0 as int] {
        None => {
            assert(c == start);
            let p = seq![c];
            assert(path_ok(grid, w, h, p, start, c));
            assert(p.len() == gs[c.1 as int][c.0 as int] + 1);
        },
        Some(a) => {
            assert(gs[c.1 as int][c.0 as int] == gs[a.1 as int][a.0 as int] + 1);
            lemma_forest_path(grid, w, h, inf, gs, par, start, a);
            let p0 = choose|p: Seq<(usize, usize)>|
                #[trigger] path_ok(grid, w, h, p, start, a) && p.len() == gs[a.1 as int][a.0
                    as int] + 1;
            assert(adjacent4(c.0 as int, c.1 as int, a.0 as int, a.1 as int));
            lemma_path_extend(grid, w, h, start, a, c, p0);
            assert(path_ok(grid, w, h, p0.push(c), start, c) && p0.push(c).len() == gs[c.1
                as int][c.0 as int] + 1);
        },
    }
}

/// At the moment a position is popped with the queue's least priority, any
/// valid route to any still-unexpanded position bounds that priority: walking
/// the route from the start, the expanded prefix keeps scores no larger than
/// the step index, so the first unexpanded position still holds a fresh queue
/// entry, whose priority the consistent heuristic bounds by the route's
/// length plus the heuristic at its end.
#[verifier::rlimit(50)]
proof fn lemma_min_priority_bound(
    grid: Seq<Seq<CellType>>,
    w: int,
    h: int,
    inf: int,
    gs: Seq<Seq<usize>>,
    seen: Seq<Seq<bool>>,
    open: Seq<Node>,
    start: (usize, usize),
    goal: (usize, usize),
    t: (usize, usize),
    p: Seq<(usize, usize)>,
    j: int,
    fmin: int,
)
    requires
        path_ok(grid, w, h, p, start, t),
        0 <= j < p.len(),
        in_bounds(w, h, p[j].0 as int, p[j].1 as int),
        gs[p[j].1 as int][p[j].0 as int] <= j,
        gs[p[j].1 as int][p[j].0 as int] < inf,
        !seen[t.1 as int][t.0 as int],
        forall|x: int, y: int|
            in_bounds(w, h, x, y) && (#[trigger] seen[y][x]) ==> closed_cell(
                grid,
                w,
                h,
                gs,
                inf,
                x,
                y,
            ),
        forall|x: int, y: int|
            in_bounds(w, h, x, y) && (#[trigger] gs[y][x]) < inf && !seen[y][x] ==> queued_at(
                open,
                x,
                y,
                gs[y][x] as int,
            ),
        forall|i: int|
            0 <= i < open.len() ==> (#[trigger] open[i]).f == open[i].g + manh(
                open[i].x as int,
                open[i].y as int,
                goal.0 as int,
                goal.1 as int,
            ),
        forall|i: int| 0 <= i < open.len() ==> fmin <= (#[trigger] open[i]).f,
    ensures
        fmin <= p.len() - 1 + manh(t.0 as int, t.1 as int, goal.0 as int, goal.1 as int),
    decreases p.len() - j,
{
    let c = p[j];
    if !seen[c.1 as int][c.0 as int] {
        assert(queued_at(open, c.0 as int, c.1 as int, gs[c.1 as int][c.0 as int] as int));
        let i = choose|i: int|
            0 <= i < open.len() && (#[trigger] open[i]).x == c.0 as int && open[i].y == c.1 as int
                && open[i].g == gs[c.1 as int][c.0 as int] as int;
        lemma_manh_path_bound(grid, w, h, start, t, goal, p, j);
        assert(fmin <= open[i].f);
    } else {
        assert(j < p.len() - 1) by {
            assert(p[p.len() - 1] == t);
        }
        let b = p[j + 1];
        assert(walkable_at(grid, w, h, b.0 as int, b.1 as int));
        assert(adjacent4(b.0 as int, b.1 as int, c.0 as int, c.1 as int));
        assert(closed_cell(grid, w, h, gs, inf, c.0 as int, c.1 as int));
        lemma_closed_step(grid, w, h, gs, inf, c, b);
        lemma_min_priority_bound(grid, w, h, inf, gs, seen, open, start, goal, t, p, j + 1, fmin);
    }
}

/// An exhausted search refutes reachability.
proof fn lemma_exhausted_unreachable(
    grid: Seq<Seq<CellType>>,
    w: int,
    h: int,
    inf: int,
    gs: Seq<Seq<usize>>,
    seen: Seq<Seq<bool>>,
    start: (usize, usize),
    goal: (usize, usize),
)
    requires
        in_bounds(w, h, start.0 as int, start.1 as int),
        in_bounds(w, h, goal.0 as int, goal.1 as int),
        gs[start.1 as int][start.0 as int] < inf,
        !seen[goal.1 as int][goal.0 as int],
        forall|x: int, y: int|
            in_bounds(w, h, x, y) && (#[trigger] gs[y][x]) < inf ==> seen[y][x],
        forall|x: int, y: int|
            in_bounds(w, h, x, y) && (#[trigger] seen[y][x]) ==> closed_cell(
                grid,
                w,
                h,
                gs,
                inf,
                x,
                y,
            ),
    ensures
        !reachable(grid, w, h, start, goal),
{
    if reachable(grid, w, h, start, goal) {
        let p = choose|p: Seq<(usize, usize)>| path_ok(grid, w, h, p, start, goal);
        lemma_path_cells_reached(grid, w, h, inf, gs, seen, start, goal, p, p.len() - 1);
        assert(seen[goal.1 as int][goal.0 as int]);
    }
}

/// Unvisited cells of one row.
pub open spec fn row_unvisited(r: Seq<bool>) -> nat
    decreases r.len(),
{
    if r.len() == 0 {
        0nat
    } else {
        row_unvisited(r.drop_last()) + (if r.last() {
            0nat
        } else {
            1nat
        })
    }
}

/// Unvisited cells of the whole grid: the search's termination measure.
pub open spec fn grid_unvisited(g: Seq<Seq<bool>>) -> nat
    decreases g.len(),
{
    if g.len() == 0 {
        0nat
    } else {
        grid_unvisited(g.drop_last()) + row_unvisited(g.last())
    }
}

proof fn lemma_row_unvisited_update(r: Seq<bool>, i: int)
    requires
        0 <= i < r.len(),
        !r[i],
    ensures
        row_unvisited(r.update(i, true)) + 1 == row_unvisited(r),
    decreases r.len(),
{
    let r2 = r.update(i, true);
    if i == r.len() - 1 {
        assert(r2.drop_last() =~= r.drop_last());
    } else {
        assert(r2.drop_last() =~= r.drop_last().update(i, true));
        lemma_row_unvisited_update(r.drop_last(), i);
        assert(r2.last() == r.last());
    }
}

proof fn lemma_row_unvisited_full(r: Seq<bool>)
    requires
        forall|i: int| 0 <= i < r.len() ==> !r[i],
    ensures
        row_unvisited(r) == r.len(),
    decreases r.len(),
{
    if r.len() > 0 {
        lemma_row_unvisited_full(r.drop_last());
    }
}

proof fn lemma_grid_unvisited_full(g: Seq<Seq<bool>>, w: int, h: int)
    requires
        dims_ok(g, w, h),
        0 <= w,
        0 <= h,
        forall|x: int, y: int| in_bounds(w, h, x, y) ==> !(#[trigger] g[y][x]),
    ensures
        grid_unvisited(g) == w * h,
    decreases g.len(),
{
    if g.len() == 0 {
        assert(w * h == 0) by (nonlinear_arith)
            requires
                h == 0,
        ;
    } else {
        let gd = g.drop_last();
        assert(dims_ok(gd, w, h - 1));
        assert forall|x: int, y: int| in_bounds(w, h - 1, x, y) implies !(#[trigger] gd[y][x]) by {
            assert(gd[y] == g[y]);
        }
        lemma_grid_unvisited_full(gd, w, h - 1);
        assert(g.last() == g[h - 1]);
        assert forall|i: int| 0 <= i < g.last().len() implies !g.last()[i] by {
            assert(in_bounds(w, h, i, h - 1));
        }
        lemma_row_unvisited_full(g.last());
        assert((h - 1) * w + w == h * w) by (nonlinear_arith);
    }
}

proof fn lemma_grid_unvisited_update(g: Seq<Seq<bool>>, x: int, y: int)
    requires
        0 <= y < g.len(),
        0 <= x < g[y].len(),
        !g[y][x],
    ensures
        grid_unvisited(g.update(y, g[y].update(x, true))) + 1 == grid_unvisited(g),
    decreases g.len(),
{
    let g2 = g.update(y, g[y].update(x, true));
    if y == g.len() - 1 {
        assert(g2.drop_last() =~= g.drop_last());
        assert(g2.last() == g[y].update(x, true));
        lemma_row_unvisited_update(g[y], x);
    } else {
        assert(g2.drop_last() =~= g.drop_last().update(y, g[y].update(x, true)));
        assert(g.drop_last()[y] == g[y]);
        lemma_grid_unvisited_update(g.drop_last(), x, y);
        assert(g2.last() == g.last());
    }
}

/// A queued search position with its scores; ordered by ascending `f`.
#[derive(Clone, Copy, Debug)]
struct Node {
    x: usize,
    y: usize,
    f: usize,
    g: usize,
}

/// A `h`-by-`w` matrix filled with one value.
fn mat_fill<T: Copy>(w: usize, h: usize, v: T) -> (m: Vec<Vec<T>>)
    ensures
        dims_ok(vec2_view(m), w as int, h as int),
        forall|a: int, b: int|
            in_bounds(w as int, h as int, a, b) ==> #[trigger] vec2_view(m)[b][a] == v,
{
    let mut rows: Vec<Vec<T>> = Vec::new();
    let mut y: usize = 0;
    while y < h
        invariant
            y <= h,
            rows@.len() == y,
            forall|b: int| 0 <= b < y ==> (#[trigger] rows@[b])@.len() == w,
            forall|a: int, b: int| 0 <= b < y && 0 <= a < w ==> rows@[b]@[a] == v,
        decreases h - y,
    {
        let mut row: Vec<T> = Vec::new();
        let mut x: usize = 0;
        while x < w
            invariant
                x <= w,
                row@.len() == x,
                forall|a: int| 0 <= a < x ==> row@[a] == v,
            decreases w - x,
        {
            row.push(v);
            x = x + 1;
        }
        rows.push(row);
        y = y + 1;
    }
    proof {
        assert forall|b: int| 0 <= b < h implies (#[trigger] vec2_view(rows)[b]).len() == w by {
            assert(vec2_view(rows)[b] == rows@[b]@);
        }
        assert forall|a: int, b: int| in_bounds(w as int, h as int, a, b) implies #[trigger] vec2_view(
            rows,
        )[b][a] == v by {
            assert(vec2_view(rows)[b] == rows@[b]@);
        }
    }
    rows
}

/// Read one matrix entry.
fn mat_get<T: Copy>(m: &Vec<Vec<T>>, x: usize, y: usize) -> (r: T)
    requires
        y < vec2_view(*m).len(),
        x < vec2_view(*m)[y as int].len(),
    ensures
        r == vec2_view(*m)[y as int][x as int],
{
    proof {
        assert(vec2_view(*m)[y as int] == m@[y as int]@);
    }
    m[y][x]
}

/// Overwrite one matrix entry.
fn mat_set<T: Copy>(m: &mut Vec<Vec<T>>, x: usize, y: usize, v: T)
    requires
        y < vec2_view(*old(m)).len(),
        x < vec2_view(*old(m))[y as int].len(),
    ensures
        vec2_view(*final(m)) == vec2_view(*old(m)).update(
            y as int,
            vec2_view(*old(m))[y as int].update(x as int, v),
        ),
{
    proof {
        assert(vec2_view(*m)[y as int] == m@[y as int]@);
    }
    m[y][x] = v;
    proof {
        assert(vec2_view(*m) =~~= vec2_view(*old(m)).update(
            y as int,
            vec2_view(*old(m))[y as int].update(x as int, v),
        ));
    }
}

/// Manhattan distance, the search's admissible heuristic.
pub fn manhattan_distance(a: (usize, usize), b: (usize, usize)) -> (d: usize)
    requires
        dist1(a.0 as int, b.0 as int) + dist1(a.1 as int, b.1 as int) <= usize::MAX,
    ensures
        d == dist1(a.0 as int, b.0 as int) + dist1(a.1 as int, b.1 as int),
{
    let dx: usize = if a.0 >= b.0 {
        a.0 - b.0
    } else {
        b.0 - a.0
    };
    let dy: usize = if a.1 >= b.1 {
        a.1 - b.1
    } else {
        b.1 - a.1
    };
    dx + dy
}

/// The exact neighbor list the scan builds, in the fixed direction order
/// down, right, up, left: each direction's cell appears exactly when it is
/// walkable.
pub open spec fn neighbor_seq(
    g: Seq<Seq<CellType>>,
    w: int,
    h: int,
    pos: (usize, usize),
) -> Seq<(usize, usize)> {
    let s0 = Seq::<(usize, usize)>::empty();
    let s1 = if walkable_at(g, w, h, pos.0 as int, pos.1 + 1) {
        s0.push((pos.0, (pos.1 + 1) as usize))
    } else {
        s0
    };
    let s2 = if walkable_at(g, w, h, pos.0 + 1, pos.1 as int) {
        s1.push(((pos.0 + 1) as usize, pos.1))
    } else {
        s1
    };
    let s3 = if pos.1 >= 1 && walkable_at(g, w, h, pos.0 as int, pos.1 - 1) {
        s2.push((pos.0, (pos.1 - 1) as usize))
    } else {
        s2
    };
    if pos.0 >= 1 && walkable_at(g, w, h, pos.0 - 1, pos.1 as int) {
        s3.push(((pos.0 - 1) as usize, pos.1))
    } else {
        s3
    }
}

/// The walkable 4-neighbors of a position, in the fixed scan order down,
/// right, up, left: exactly `neighbor_seq`, so at most 4 positions, without
/// duplicates, every one a walkable cardinal neighbor, and every walkable
/// cardinal neighbor among them.
pub fn get_neighbors(map: &GridMap, pos: (usize, usize)) -> (r: Vec<(usize, usize)>)
    requires
        map.wf(),
        pos.0 < map.width(),
        pos.1 < map.height(),
    ensures
        r@ == neighbor_seq(map.grid(), map.width(), map.height(), pos),
        forall|i: int|
            0 <= i < r@.len() ==> {
                let q = #[trigger] r@[i];
                &&& walkable_at(map.grid(), map.width(), map.height(), q.0 as int, q.1 as int)
                &&& adjacent4(q.0 as int, q.1 as int, pos.0 as int, pos.1 as int)
            },
        r@.len() <= 4,
        forall|i: int, j: int| 0 <= i < j < r@.len() ==> r@[i] != r@[j],
        walkable_at(map.grid(), map.width(), map.height(), pos.0 + 1, pos.1 as int) ==> r@.contains(
            ((pos.0 + 1) as usize, pos.1),
        ),
        pos.0 >= 1 && walkable_at(map.grid(), map.width(), map.height(), pos.0 - 1, pos.1 as int)
            ==> r@.contains(((pos.0 - 1) as usize, pos.1)),
        walkable_at(map.grid(), map.width(), map.height(), pos.0 as int, pos.1 + 1) ==> r@.contains(
            (pos.0, (pos.1 + 1) as usize),
        ),
        pos.1 >= 1 && walkable_at(map.grid(), map.width(), map.height(), pos.0 as int, pos.1 - 1)
            ==> r@.contains((pos.0, (pos.1 - 1) as usize)),
{
    let mut v: Vec<(usize, usize)> = Vec::new();
    let x: usize = pos.0;
    let y: usize = pos.1;
    let ghost mut i_down: int = -1;
    let ghost mut i_right: int = -1;
    let ghost mut i_up: int = -1;
    let ghost mut i_left: int = -1;
    if y + 1 < map.config.height {
        if map.is_walkable(x, y + 1) {
            proof {
                i_down = v@.len() as int;
            }
            v.push((x, y + 1));
        }
    }
    proof {
        assert(v@ =~= (if walkable_at(map.grid(), map.width(), map.height(), x as int, y + 1) {
            Seq::<(usize, usize)>::empty().push((x, (y + 1) as usize))
        } else {
            Seq::<(usize, usize)>::empty()
        }));
    }
    let ghost v1 = v@;
    if x + 1 < map.config.width {
        if map.is_walkable(x + 1, y) {
            proof {
                i_right = v@.len() as int;
            }
            v.push((x + 1, y));
        }
    }
    proof {
        assert(v@ =~= (if walkable_at(map.grid(), map.width(), map.height(), x + 1, y as int) {
            v1.push(((x + 1) as usize, y))
        } else {
            v1
        }));
    }
    let ghost v2 = v@;
    if y >= 1 {
        if map.is_walkable(x, y - 1) {
            proof {
                i_up = v@.len() as int;
            }
            v.push((x, y - 1));
        }
    }
    proof {
        assert(v@ =~= (if y >= 1 && walkable_at(
            map.grid(),
            map.width(),
            map.height(),
            x as int,
            y - 1,
        ) {
            v2.push((x, (y - 1) as usize))
        } else {
            v2
        }));
    }
    let ghost v3 = v@;
    if x >= 1 {
        if map.is_walkable(x - 1, y) {
            proof {
                i_left = v@.len() as int;
            }
            v.push((x - 1, y));
        }
    }
    proof {
        assert(v@ =~= (if x >= 1 && walkable_at(
            map.grid(),
            map.width(),
            map.height(),
            x - 1,
            y as int,
        ) {
            v3.push(((x - 1) as usize, y))
        } else {
            v3
        }));
        assert(v@ == neighbor_seq(map.grid(), map.width(), map.height(), pos));
        if walkable_at(map.grid(), map.width(), map.height(), x as int, y + 1) {
            assert(v@[i_down] == (x, (y + 1) as usize));
        }
        if walkable_at(map.grid(), map.width(), map.height(), x + 1, y as int) {
            assert(v@[i_right] == ((x + 1) as usize, y));
        }
        if y >= 1 && walkable_at(map.grid(), map.width(), map.height(), x as int, y - 1) {
            assert(v@[i_up] == (x, (y - 1) as usize));
        }
        if x >= 1 && walkable_at(map.grid(), map.width(), map.height(), x - 1, y as int) {
            assert(v@[i_left] == ((x - 1) as usize, y));
        }
    }
    v
}

/// Walk the parent forest from the goal back to the start and return the
/// route in start-to-goal order.
#[verifier::loop_isolation(false)]
fn reconstruct_path(
    map: &GridMap,
    g_scores: &Vec<Vec<usize>>,
    came_from: &Vec<Vec<Option<(usize, usize)>>>,
    start: (usize, usize),
    goal: (usize, usize),
    inf: usize,
) -> (r: Vec<(usize, usize)>)
    requires
        map.wf(),
        forest_inv(
            map.grid(),
            map.width(),
            map.height(),
            inf as int,
            vec2_view(*g_scores),
            vec2_view(*came_from),
            start,
        ),
        in_bounds(map.width(), map.height(), goal.0 as int, goal.1 as int),
        vec2_view(*g_scores)[goal.1 as int][goal.0 as int] < inf,
    ensures
        path_ok(map.grid(), map.width(), map.height(), r@, start, goal),
        r@.len() == vec2_view(*g_scores)[goal.1 as int][goal.0 as int] + 1,
        start == goal ==> r@.len() == 1,
        forall|j: int|
            1 <= j < r@.len() ==> vec2_view(*came_from)[(#[trigger] r@[j]).1 as int][r@[j].0
                as int] == Some(r@[j - 1]),
{
    let ghost w = map.width();
    let ghost h = map.height();
    let ghost gs = vec2_view(*g_scores);
    let ghost par = vec2_view(*came_from);
    let mut rev: Vec<(usize, usize)> = Vec::new();
    rev.push(goal);
    let mut cur: (usize, usize) = goal;
    let mut po: Option<(usize, usize)> = mat_get(came_from, cur.0, cur.1);
    while po.is_some()
        invariant
            in_bounds(w, h, cur.0 as int, cur.1 as int),
            gs[cur.1 as int][cur.0 as int] < inf,
            po == par[cur.1 as int][cur.0 as int],
            rev@.len() >= 1,
            rev@[0] == goal,
            rev@[rev@.len() - 1] == cur,
            rev@.len() - 1 + gs[cur.1 as int][cur.0 as int] == gs[goal.1 as int][goal.0 as int],
            forall|i: int|
                0 <= i < rev@.len() - 1 ==> {
                    let q = #[trigger] rev@[i];
                    &&& adjacent4(q.0 as int, q.1 as int, rev@[i + 1].0 as int, rev@[i + 1].1 as int)
                    &&& walkable_at(map.grid(), w, h, q.0 as int, q.1 as int)
                    &&& par[q.1 as int][q.0 as int] == Some(rev@[i + 1])
                },
        decreases gs[cur.1 as int][cur.0 as int],
    {
        let p: (usize, usize) = po.unwrap();
        rev.push(p);
        cur = p;
        po = mat_get(came_from, cur.0, cur.1);
    }
    proof {
        assert(cur == start);
    }
    let mut out: Vec<(usize, usize)> = Vec::new();
    let n: usize = rev.len();
    let mut i: usize = n;
    while i > 0
        invariant
            i <= n,
            n == rev@.len(),
            out@.len() == n - i,
            forall|j: int| 0 <= j < out@.len() ==> #[trigger] out@[j] == rev@[n - 1 - j],
        decreases i,
    {
        i = i - 1;
        let q: (usize, usize) = rev[i];
        out.push(q);
    }
    proof {
        assert(out@[0] == rev@[n - 1]);
        assert(out@[out@.len() - 1] == rev@[0]);
        assert forall|j: int| 0 < j < out@.len() implies adjacent4(
            (#[trigger] out@[j]).0 as int,
            out@[j].1 as int,
            out@[j - 1].0 as int,
            out@[j - 1].1 as int,
        ) && walkable_at(map.grid(), w, h, out@[j].0 as int, out@[j].1 as int) by {
            assert(out@[j] == rev@[n - 1 - j]);
            assert(out@[j - 1] == rev@[n - j]);
            assert(rev@[n - 1 - j] == rev@[(n - 1 - j) as int]);
        }
        assert forall|j: int| 1 <= j < out@.len() implies par[(#[trigger] out@[j]).1 as int][out@[j].0
            as int] == Some(out@[j - 1]) by {
            assert(out@[j] == rev@[n - 1 - j]);
            assert(out@[j - 1] == rev@[n - j]);
            assert(rev@[n - 1 - j] == rev@[(n - 1 - j) as int]);
            assert(par[rev@[n - 1 - j].1 as int][rev@[n - 1 - j].0 as int] == Some(
                rev@[n - 1 - j + 1],
            ));
        }
    }
    out
}

/// A* search from `start` to `goal`. A route is returned exactly when one
/// exists; a returned route is a valid walkable path from start to goal, and
/// no valid route is shorter (the Manhattan heuristic is consistent, so the
/// least-priority pop of the goal carries its optimal score). The map itself
/// is never changed.
#[verifier::loop_isolation(false)]
#[verifier::rlimit(100)]
pub fn find_path(map: &GridMap, start: (usize, usize), goal: (usize, usize)) -> (r: Option<
    Vec<(usize, usize)>,
>)
    requires
        map.wf(),
        start.0 < map.width(),
        start.1 < map.height(),
        goal.0 < map.width(),
        goal.1 < map.height(),
    ensures
        r matches Some(p) ==> path_ok(map.grid(), map.width(), map.height(), p@, start, goal),
        r matches Some(p) ==> forall|q: Seq<(usize, usize)>|
            #[trigger] path_ok(map.grid(), map.width(), map.height(), q, start, goal)
                ==> p@.len() <= q.len(),
        r is Some <==> reachable(map.grid(), map.width(), map.height(), start, goal),
        start == goal ==> (r matches Some(p) ==> p@.len() == 1),
{
    let w: usize = map.config.width;
    let h: usize = map.config.height;
    let inf: usize = w * h;
    let mut g_scores: Vec<Vec<usize>> = mat_fill(w, h, inf);
    let mut came_from: Vec<Vec<Option<(usize, usize)>>> = mat_fill(w, h, None);
    let mut seen: Vec<Vec<bool>> = mat_fill(w, h, false);
    let mut reached: Vec<Vec<bool>> = mat_fill(w, h, false);
    proof {
        assert(1 <= inf) by (nonlinear_arith)
            requires
                1 <= w,
                1 <= h,
                inf == w * h,
        ;
        lemma_grid_unvisited_full(vec2_view(reached), w as int, h as int);
    }
    mat_set(&mut g_scores, start.0, start.1, 0);
    let ghost reached0 = vec2_view(reached);
    mat_set(&mut reached, start.0, start.1, true);
    proof {
        lemma_grid_unvisited_update(reached0, start.0 as int, start.1 as int);
    }
    let mut rc: usize = 1;
    let hstart: usize = manhattan_distance(start, goal);
    let mut open: Vec<Node> = Vec::new();
    open.push(Node { x: start.0, y: start.1, f: hstart, g: 0 });
    proof {
        assert forall|x: int, y: int|
            in_bounds(w as int, h as int, x, y) && (#[trigger] vec2_view(g_scores)[y][x]) < inf
                && !vec2_view(seen)[y][x] implies queued_at(
            open@,
            x,
            y,
            vec2_view(g_scores)[y][x] as int,
        ) by {
            assert(x == start.0 as int && y == start.1 as int);
            assert((#[trigger] open@[0]).x == x && open@[0].y == y && open@[0].g == vec2_view(
                g_scores,
            )[y][x] as int);
        }
    }
    #[verifier::loop_isolation(true)]
    while open.len() > 0
        invariant
            map.wf(),
            w == map.config.width,
            h == map.config.height,
            inf == w * h,
            in_bounds(w as int, h as int, start.0 as int, start.1 as int),
            in_bounds(w as int, h as int, goal.0 as int, goal.1 as int),
            forest_inv(
                map.grid(),
                w as int,
                h as int,
                inf as int,
                vec2_view(g_scores),
                vec2_view(came_from),
                start,
            ),
            parents_closed(w as int, h as int, vec2_view(came_from), vec2_view(seen)),
            dims_ok(vec2_view(seen), w as int, h as int),
            dims_ok(vec2_view(reached), w as int, h as int),
            open_inv(w as int, h as int, inf as int, vec2_view(g_scores), open@, goal),
            rc as int + grid_unvisited(vec2_view(reached)) == (w as int) * (h as int),
            rc <= inf,
            forall|x: int, y: int|
                in_bounds(w as int, h as int, x, y) ==> ((#[trigger] vec2_view(reached)[y][x])
                    <==> vec2_view(g_scores)[y][x] < inf),
            forall|x: int, y: int|
                in_bounds(w as int, h as int, x, y) && (#[trigger] vec2_view(g_scores)[y][x]) < inf
                    ==> vec2_view(g_scores)[y][x] < rc,
            forall|x: int, y: int|
                in_bounds(w as int, h as int, x, y) && (#[trigger] vec2_view(seen)[y][x])
                    ==> vec2_view(g_scores)[y][x] < inf,
            forall|x: int, y: int|
                in_bounds(w as int, h as int, x, y) && (#[trigger] vec2_view(seen)[y][x])
                    ==> closed_cell(
                    map.grid(),
                    w as int,
                    h as int,
                    vec2_view(g_scores),
                    inf as int,
                    x,
                    y,
                ),
            forall|x: int, y: int|
                in_bounds(w as int, h as int, x, y) && (#[trigger] vec2_view(g_scores)[y][x]) < inf
                    && !vec2_view(seen)[y][x] ==> queued_at(
                    open@,
                    x,
                    y,
                    vec2_view(g_scores)[y][x] as int,
                ),
            forall|r: Seq<(usize, usize)>, c: (usize, usize)|
                in_bounds(w as int, h as int, c.0 as int, c.1 as int) && vec2_view(seen)[c.1
                    as int][c.0 as int] && #[trigger] path_ok(
                    map.grid(),
                    w as int,
                    h as int,
                    r,
                    start,
                    c,
                ) ==> vec2_view(g_scores)[c.1 as int][c.0 as int] <= r.len() - 1,
            !vec2_view(seen)[goal.1 as int][goal.0 as int],
        decreases grid_unvisited(vec2_view(seen)), open@.len(),
    {
        let mut best: usize = 0;
        let mut j: usize = 1;
        while j < open.len()
            invariant
                1 <= j <= open@.len(),
                best < j,
                forall|k: int| 0 <= k < j ==> open@[best as int].f <= (#[trigger] open@[k]).f,
            decreases open@.len() - j,
        {
            if open[j].f < open[best].f {
                best = j;
            }
            j = j + 1;
        }
        let ghost open_pre = open@;
        let node: Node = open.swap_remove(best);
        proof {
            assert(open_pre[best as int] == node);
            assert forall|i: int| 0 <= i < open@.len() implies {
                let n = #[trigger] open@[i];
                &&& in_bounds(w as int, h as int, n.x as int, n.y as int)
                &&& vec2_view(g_scores)[n.y as int][n.x as int] < inf
            } by {
                assert(open@[i] == open_pre.update(best as int, open_pre.last())[i]);
            }
            assert forall|x: int, y: int|
                in_bounds(w as int, h as int, x, y) && (#[trigger] vec2_view(g_scores)[y][x]) < inf
                    && !vec2_view(seen)[y][x] && !(x == node.x as int && y == node.y
                    as int) implies queued_at(open@, x, y, vec2_view(g_scores)[y][x] as int) by {
                let i0 = choose|i: int|
                    0 <= i < open_pre.len() && (#[trigger] open_pre[i]).x == x && open_pre[i].y
                        == y && open_pre[i].g == vec2_view(g_scores)[y][x] as int;
                if i0 == best as int {
                    assert(false);
                } else if i0 == open_pre.len() - 1 {
                    assert(open@[best as int] == open_pre.last());
                } else {
                    assert(open@[i0] == open_pre[i0]);
                }
            }
        }
        if node.x == goal.0 && node.y == goal.1 {
            let p: Vec<(usize, usize)> = reconstruct_path(
                map,
                &g_scores,
                &came_from,
                start,
                goal,
                inf,
            );
            proof {
                assert(reachable(map.grid(), map.width(), map.height(), start, goal)) by {
                    assert(path_ok(map.grid(), map.width(), map.height(), p@, start, goal));
                }
                assert forall|q: Seq<(usize, usize)>| #[trigger] path_ok(
                    map.grid(),
                    map.width(),
                    map.height(),
                    q,
                    start,
                    goal,
                ) implies p@.len() <= q.len() by {
                    assert forall|i: int| 0 <= i < open_pre.len() implies (#[trigger] open_pre[i]).f
                        == open_pre[i].g + manh(
                        open_pre[i].x as int,
                        open_pre[i].y as int,
                        goal.0 as int,
                        goal.1 as int,
                    ) by {}
                    assert(q[0] == start);
                    lemma_min_priority_bound(
                        map.grid(),
                        w as int,
                        h as int,
                        inf as int,
                        vec2_view(g_scores),
                        vec2_view(seen),
                        open_pre,
                        start,
                        goal,
                        goal,
                        q,
                        0,
                        node.f as int,
                    );
                    assert(manh(goal.0 as int, goal.1 as int, goal.0 as int, goal.1 as int) == 0);
                    assert(node.f == node.g + manh(
                        node.x as int,
                        node.y as int,
                        goal.0 as int,
                        goal.1 as int,
                    ));
                    assert(vec2_view(g_scores)[goal.1 as int][goal.0 as int] <= node.g);
                    assert(p@.len() == vec2_view(g_scores)[goal.1 as int][goal.0 as int] + 1);
                }
            }
            return Some(p);
        }
        let already: bool = mat_get(&seen, node.x, node.y);
        if !already {
            let ghost cur_t = (node.x, node.y);
            proof {
                assert forall|i: int| 0 <= i < open_pre.len() implies (#[trigger] open_pre[i]).f
                    == open_pre[i].g + manh(
                    open_pre[i].x as int,
                    open_pre[i].y as int,
                    goal.0 as int,
                    goal.1 as int,
                ) by {}
                assert forall|r: Seq<(usize, usize)>| #[trigger] path_ok(
                    map.grid(),
                    w as int,
                    h as int,
                    r,
                    start,
                    cur_t,
                ) implies vec2_view(g_scores)[node.y as int][node.x as int] <= r.len() - 1 by {
                    assert(r[0] == start);
                    lemma_min_priority_bound(
                        map.grid(),
                        w as int,
                        h as int,
                        inf as int,
                        vec2_view(g_scores),
                        vec2_view(seen),
                        open_pre,
                        start,
                        goal,
                        cur_t,
                        r,
                        0,
                        node.f as int,
                    );
                    assert(node.f == node.g + manh(
                        node.x as int,
                        node.y as int,
                        goal.0 as int,
                        goal.1 as int,
                    ));
                    assert(vec2_view(g_scores)[node.y as int][node.x as int] <= node.g);
                }
            }
            let ghost seen_pre = vec2_view(seen);
            mat_set(&mut seen, node.x, node.y, true);
            proof {
                lemma_grid_unvisited_update(seen_pre, node.x as int, node.y as int);
            }
            let cur_g: usize = mat_get(&g_scores, node.x, node.y);
            let nbs: Vec<(usize, usize)> = get_neighbors(map, (node.x, node.y));
            let mut k: usize = 0;
            #[verifier::loop_isolation(true)]
            while k < nbs.len()
                invariant
                    map.wf(),
                    w == map.config.width,
                    h == map.config.height,
                    inf == w * h,
                    in_bounds(w as int, h as int, node.x as int, node.y as int),
                    in_bounds(w as int, h as int, goal.0 as int, goal.1 as int),
                    !(node.x == goal.0 && node.y == goal.1),
                    dims_ok(vec2_view(seen), w as int, h as int),
                    forall|kk: int|
                        0 <= kk < nbs@.len() ==> {
                            let q = #[trigger] nbs@[kk];
                            &&& walkable_at(map.grid(), w as int, h as int, q.0 as int, q.1 as int)
                            &&& adjacent4(q.0 as int, q.1 as int, node.x as int, node.y as int)
                        },
                    k <= nbs@.len(),
                    forest_inv(
                        map.grid(),
                        w as int,
                        h as int,
                        inf as int,
                        vec2_view(g_scores),
                        vec2_view(came_from),
                        start,
                    ),
                    parents_closed(w as int, h as int, vec2_view(came_from), vec2_view(seen)),
                    dims_ok(vec2_view(reached), w as int, h as int),
                    open_inv(w as int, h as int, inf as int, vec2_view(g_scores), open@, goal),
                    rc as int + grid_unvisited(vec2_view(reached)) == (w as int) * (h as int),
                    rc <= inf,
                    forall|x: int, y: int|
                        in_bounds(w as int, h as int, x, y) ==> ((#[trigger] vec2_view(
                            reached,
                        )[y][x]) <==> vec2_view(g_scores)[y][x] < inf),
                    forall|x: int, y: int|
                        in_bounds(w as int, h as int, x, y) && (#[trigger] vec2_view(
                            g_scores,
                        )[y][x]) < inf ==> vec2_view(g_scores)[y][x] < rc,
                    forall|x: int, y: int|
                        in_bounds(w as int, h as int, x, y) && (#[trigger] vec2_view(seen)[y][x])
                            ==> vec2_view(g_scores)[y][x] < inf,
                    forall|x: int, y: int|
                        in_bounds(w as int, h as int, x, y) && (#[trigger] vec2_view(seen)[y][x])
                            && !(x == node.x as int && y == node.y as int) ==> closed_cell(
                            map.grid(),
                            w as int,
                            h as int,
                            vec2_view(g_scores),
                            inf as int,
                            x,
                            y,
                        ),
                    forall|x: int, y: int|
                        in_bounds(w as int, h as int, x, y) && (#[trigger] vec2_view(
                            g_scores,
                        )[y][x]) < inf && !vec2_view(seen)[y][x] ==> queued_at(
                        open@,
                        x,
                        y,
                        vec2_view(g_scores)[y][x] as int,
                    ),
                    forall|r: Seq<(usize, usize)>, c: (usize, usize)|
                        in_bounds(w as int, h as int, c.0 as int, c.1 as int) && vec2_view(seen)[c.1
                            as int][c.0 as int] && #[trigger] path_ok(
                            map.grid(),
                            w as int,
                            h as int,
                            r,
                            start,
                            c,
                        ) ==> vec2_view(g_scores)[c.1 as int][c.0 as int] <= r.len() - 1,
                    !vec2_view(seen)[goal.1 as int][goal.0 as int],
                    vec2_view(seen)[node.y as int][node.x as int],
                    vec2_view(g_scores)[node.y as int][node.x as int] == cur_g,
                    cur_g < inf,
                    cur_g < rc,
                    forall|kk: int|
                        0 <= kk < k ==> {
                            let q = #[trigger] nbs@[kk];
                            &&& vec2_view(g_scores)[q.1 as int][q.0 as int] < inf
                            &&& vec2_view(g_scores)[q.1 as int][q.0 as int] <= cur_g + 1
                        },
                decreases nbs@.len() - k,
            {
                let nb: (usize, usize) = nbs[k];
                let tentative: usize = cur_g + 1;
                let nb_seen: bool = mat_get(&seen, nb.0, nb.1);
                let nb_reached: bool = mat_get(&reached, nb.0, nb.1);
                let nb_g: usize = mat_get(&g_scores, nb.0, nb.1);
                proof {
                    if !nb_reached {
                        lemma_grid_unvisited_update(vec2_view(reached), nb.0 as int, nb.1 as int);
                    }
                    if nb_seen {
                        lemma_forest_path(
                            map.grid(),
                            w as int,
                            h as int,
                            inf as int,
                            vec2_view(g_scores),
                            vec2_view(came_from),
                            start,
                            (node.x, node.y),
                        );
                        let p0 = choose|p: Seq<(usize, usize)>|
                            #[trigger] path_ok(
                                map.grid(),
                                w as int,
                                h as int,
                                p,
                                start,
                                (node.x, node.y),
                            ) && p.len() == vec2_view(g_scores)[node.y as int][node.x as int] + 1;
                        lemma_path_extend(
                            map.grid(),
                            w as int,
                            h as int,
                            start,
                            (node.x, node.y),
                            nb,
                            p0,
                        );
                        assert(vec2_view(g_scores)[nb.1 as int][nb.0 as int] <= p0.push(nb).len()
                            - 1);
                        assert(vec2_view(g_scores)[nb.1 as int][nb.0 as int] <= cur_g + 1);
                    }
                }
                if !nb_seen && tentative < nb_g {
                    let ghost open_mid = open@;
                    mat_set(&mut came_from, nb.0, nb.1, Some((node.x, node.y)));
                    mat_set(&mut g_scores, nb.0, nb.1, tentative);
                    if !nb_reached {
                        let ghost reached_pre = vec2_view(reached);
                        mat_set(&mut reached, nb.0, nb.1, true);
                        proof {
                            lemma_grid_unvisited_update(reached_pre, nb.0 as int, nb.1 as int);
                        }
                        rc = rc + 1;
                    }
                    let hd: usize = manhattan_distance(nb, goal);
                    let fs: usize = tentative + hd;
                    open.push(Node { x: nb.0, y: nb.1, f: fs, g: tentative });
                    proof {
                        assert forall|x: int, y: int|
                            in_bounds(w as int, h as int, x, y) && (#[trigger] vec2_view(
                                g_scores,
                            )[y][x]) < inf && !vec2_view(seen)[y][x] implies queued_at(
                            open@,
                            x,
                            y,
                            vec2_view(g_scores)[y][x] as int,
                        ) by {
                            if x == nb.0 as int && y == nb.1 as int {
                                assert(open@[open@.len() - 1].x == x && open@[open@.len() - 1].y
                                    == y && open@[open@.len() - 1].g == vec2_view(
                                    g_scores,
                                )[y][x] as int);
                            } else {
                                let i0 = choose|i: int|
                                    0 <= i < open_mid.len() && (#[trigger] open_mid[i]).x == x
                                        && open_mid[i].y == y && open_mid[i].g == vec2_view(
                                        g_scores,
                                    )[y][x] as int;
                                assert(open@[i0] == open_mid[i0]);
                            }
                        }
                    }
                }
                k = k + 1;
            }
            proof {
                assert(closed_cell(
                    map.grid(),
                    w as int,
                    h as int,
                    vec2_view(g_scores),
                    inf as int,
                    node.x as int,
                    node.y as int,
                )) by {
                    let grid = map.grid();
                    let wi = w as int;
                    let hi = h as int;
                    if walkable_at(grid, wi, hi, node.x + 1, node.y as int) {
                        let q = ((node.x + 1) as usize, node.y);
                        let kk = choose|kk: int| 0 <= kk < nbs@.len() && nbs@[kk] == q;
                        assert(vec2_view(g_scores)[q.1 as int][q.0 as int] < inf && vec2_view(
                            g_scores,
                        )[q.1 as int][q.0 as int] <= cur_g + 1);
                    }
                    if node.x >= 1 && walkable_at(grid, wi, hi, node.x - 1, node.y as int) {
                        let q = ((node.x - 1) as usize, node.y);
                        let kk = choose|kk: int| 0 <= kk < nbs@.len() && nbs@[kk] == q;
                        assert(vec2_view(g_scores)[q.1 as int][q.0 as int] < inf && vec2_view(
                            g_scores,
                        )[q.1 as int][q.0 as int] <= cur_g + 1);
                    }
                    if walkable_at(grid, wi, hi, node.x as int, node.y + 1) {
                        let q = (node.x, (node.y + 1) as usize);
                        let kk = choose|kk: int| 0 <= kk < nbs@.len() && nbs@[kk] == q;
                        assert(vec2_view(g_scores)[q.1 as int][q.0 as int] < inf && vec2_view(
                            g_scores,
                        )[q.1 as int][q.0 as int] <= cur_g + 1);
                    }
                    if node.y >= 1 && walkable_at(grid, wi, hi, node.x as int, node.y - 1) {
                        let q = (node.x, (node.y - 1) as usize);
                        let kk = choose|kk: int| 0 <= kk < nbs@.len() && nbs@[kk] == q;
                        assert(vec2_view(g_scores)[q.1 as int][q.0 as int] < inf && vec2_view(
                            g_scores,
                        )[q.1 as int][q.0 as int] <= cur_g + 1);
                    }
                }
            }
        }
    }
    proof {
        assert forall|x: int, y: int|
            in_bounds(w as int, h as int, x, y) && (#[trigger] vec2_view(g_scores)[y][x])
                < inf implies vec2_view(seen)[y][x] by {
            if !vec2_view(seen)[y][x] {
                assert(queued_at(open@, x, y, vec2_view(g_scores)[y][x] as int));
                assert(false);
            }
        }
        lemma_exhausted_unreachable(
            map.grid(),
            w as int,
            h as int,
            inf as int,
            vec2_view(g_scores),
            vec2_view(seen),
            start,
            goal,
        );
    }
    None
}

} // verus!
