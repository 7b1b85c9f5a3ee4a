//! Headings, movement costs, and neighbour generation.
//!
//! A unit faces one of eight compass directions. The search distinguishes
//! states by (cell, heading), so a turn can be charged: the deflection
//! penalty is the minimal circular distance between the incoming and
//! outgoing heading index. Neighbour generation enforces the corner-cut
//! check: a diagonal step is rejected when both flanking orthogonal cells
//! are blocked.

use crate::environment::{CellCoord, MovementGrid, WorldPos};
use crate::num::{isqrt, sqrt_floor};
use vstd::prelude::*;

verus! {

/// Cost units per cell of straight-line distance; also position units per
/// world unit.
pub const DISTANCE_FACTOR: i64 = 1000;

/// Cost of one diagonal cell step: sqrt(2) cells, rounded up so a step is
/// never charged less than the straight-line distance it covers.
pub const DIAG_COST: i64 = 1415;

/// Largest possible cost of one cell step: a diagonal move with a full
/// half-turn deflection.
pub const MAX_STEP_COST: i64 = 5415;

/// One of the eight compass directions, ordered cyclically so that the
/// angular difference between two headings is their index distance modulo 8.
#[derive(Clone, Copy, Debug, PartialEq, Eq, Hash, Structural)]
pub enum Heading {
    N,
    NE,
    E,
    SE,
    S,
    SW,
    W,
    NW,
}

impl Heading {
    /// Position on the compass circle, `N = 0` through `NW = 7`.
    pub open spec fn index(self) -> int {
        match self {
            Heading::N => 0,
            Heading::NE => 1,
            Heading::E => 2,
            Heading::SE => 3,
            Heading::S => 4,
            Heading::SW => 5,
            Heading::W => 6,
            Heading::NW => 7,
        }
    }

    pub fn idx(self) -> (r: u8)
        ensures
            r as int == self.index(),
            r < 8,
    {
        match self {
            Heading::N => 0,
            Heading::NE => 1,
            Heading::E => 2,
            Heading::SE => 3,
            Heading::S => 4,
            Heading::SW => 5,
            Heading::W => 6,
            Heading::NW => 7,
        }
    }
}

/// A search-state coordinate: the cell plus the heading it was entered with.
#[derive(Clone, Copy, Debug, PartialEq, Eq, Hash, Structural)]
pub struct NodeCoords {
    pub xy: CellCoord,
    pub h: Heading,
}

/// One waypoint of a finished route: a world-space position and the heading
/// the unit faces while traveling to it.
#[derive(Clone, Copy, Debug, PartialEq, Eq, Hash, Structural)]
pub struct PathNode {
    pub xy: WorldPos,
    pub h: Heading,
}

/// A move request: the world-space position a unit was asked to reach.
#[derive(Clone, Copy, Debug, PartialEq, Eq, Hash, Structural)]
pub struct MoveCommand {
    pub target: WorldPos,
}

/// A finished route. Waypoints are stored goal-first, so the motion
/// controller pops from the end to travel start-to-goal.
#[derive(Debug, PartialEq, Eq)]
pub struct MovementPath {
    pub path: Vec<PathNode>,
}

/// The heading that a step by `(dx, dy)` assigns, for single-cell deltas.
pub open spec fn heading_of_delta(dx: int, dy: int) -> Heading {
    if dx == -1 && dy == 0 {
        Heading::E
    } else if dx == -1 && dy == 1 {
        Heading::NE
    } else if dx == 0 && dy == 1 {
        Heading::N
    } else if dx == 1 && dy == 1 {
        Heading::NW
    } else if dx == 1 && dy == 0 {
        Heading::W
    } else if dx == 1 && dy == -1 {
        Heading::SW
    } else if dx == 0 && dy == -1 {
        Heading::S
    } else {
        Heading::SE
    }
}

/// Two distinct cells within one step of each other in both axes.
pub open spec fn cells_adjacent(ax: int, ay: int, bx: int, by: int) -> bool {
    &&& -1 <= bx - ax <= 1
    &&& -1 <= by - ay <= 1
    &&& !(ax == bx && ay == by)
}

/// The heading of a single-cell step from `from` to `to`.
pub fn calculate_heading(from: &CellCoord, to: &CellCoord) -> (h: Heading)
    requires
        cells_adjacent(from.x as int, from.y as int, to.x as int, to.y as int),
        from.x <= 4096,
        from.y <= 4096,
    ensures
        h == heading_of_delta(to.x - from.x, to.y - from.y),
{
    let dx: i64 = to.x as i64 - from.x as i64;
    let dy: i64 = to.y as i64 - from.y as i64;
    if dx == -1 && dy == 0 {
        Heading::E
    } else if dx == -1 && dy == 1 {
        Heading::NE
    } else if dx == 0 && dy == 1 {
        Heading::N
    } else if dx == 1 && dy == 1 {
        Heading::NW
    } else if dx == 1 && dy == 0 {
        Heading::W
    } else if dx == 1 && dy == -1 {
        Heading::SW
    } else if dx == 0 && dy == -1 {
        Heading::S
    } else {
        Heading::SE
    }
}

/// The deflection penalty between two headings, in heading steps: the
/// minimal circular distance between their indices, 0 through 4.
pub open spec fn deflection(a: Heading, b: Heading) -> int {
    let d = if a.index() >= b.index() {
        a.index() - b.index()
    } else {
        b.index() - a.index()
    };
    if d >= 4 {
        8 - d
    } else {
        d
    }
}

/// The deflection penalty is symmetric: turning from `a` to `b` costs as
/// much as turning from `b` to `a`.
pub proof fn lemma_deflection_symmetric(a: Heading, b: Heading)
    ensures
        deflection(a, b) == deflection(b, a),
{
}

/// The penalty, in heading steps, for entering a cell with heading
/// `start.h` and leaving it with heading `end.h`.
pub fn calculate_course_deflection(start: &NodeCoords, end: &NodeCoords) -> (r: u32)
    ensures
        r as int == deflection(start.h, end.h),
        r <= 4,
{
    let a: i64 = start.h.idx() as i64;
    let b: i64 = end.h.idx() as i64;
    let d: i64 = if a >= b {
        a - b
    } else {
        b - a
    };
    let m: i64 = if d >= 4 {
        8 - d
    } else {
        d
    };
    m as u32
}

/// The cost of one cell step, in cost units: the straight-line distance
/// between the two cell centres plus the deflection penalty weighted by
/// `DISTANCE_FACTOR` (an inertia weight of one cell per heading step).
pub open spec fn move_cost(from: NodeCoords, to: NodeCoords) -> int {
    let base = if from.xy.x != to.xy.x && from.xy.y != to.xy.y {
        DIAG_COST as int
    } else {
        DISTANCE_FACTOR as int
    };
    base + deflection(from.h, to.h) * (DISTANCE_FACTOR as int)
}

/// Executable form of `move_cost`.
pub fn inertia_based_inter_cell_movement(from: NodeCoords, to: NodeCoords) -> (c: i64)
    requires
        cells_adjacent(from.xy.x as int, from.xy.y as int, to.xy.x as int, to.xy.y as int),
    ensures
        c == move_cost(from, to),
        DISTANCE_FACTOR <= c <= MAX_STEP_COST,
{
    let base: i64 = if from.xy.x != to.xy.x && from.xy.y != to.xy.y {
        DIAG_COST
    } else {
        DISTANCE_FACTOR
    };
    base + calculate_course_deflection(&from, &to) as i64 * DISTANCE_FACTOR
}

/// The heuristic between two cells, in cost units: the floor of the
/// straight-line distance between their centres. It never overestimates the
/// cost of a route, since every step costs at least the distance it covers.
pub open spec fn heuristic(ax: int, ay: int, bx: int, by: int) -> int {
    sqrt_floor(
        1_000_000 * ((ax - bx) * (ax - bx) + (ay - by) * (ay - by)),
    )
}

/// Executable form of `heuristic`: the straight-line distance from
/// `from.xy` to `to.xy`, in cost units.
pub fn heuristical_distance(from: NodeCoords, to: NodeCoords) -> (h: i64)
    requires
        from.xy.x <= 4096,
        from.xy.y <= 4096,
        to.xy.x <= 4096,
        to.xy.y <= 4096,
    ensures
        h as int == heuristic(from.xy.x as int, from.xy.y as int, to.xy.x as int, to.xy.y as int),
        0 <= h <= 6_000_000,
{
    let dx: i64 = if from.xy.x >= to.xy.x {
        from.xy.x as i64 - to.xy.x as i64
    } else {
        to.xy.x as i64 - from.xy.x as i64
    };
    let dy: i64 = if from.xy.y >= to.xy.y {
        from.xy.y as i64 - to.xy.y as i64
    } else {
        to.xy.y as i64 - from.xy.y as i64
    };
    assert(dx * dx <= 16_785_409 && dy * dy <= 16_785_409 && dx * dx >= 0 && dy * dy >= 0)
        by (nonlinear_arith)
        requires
            0 <= dx <= 4096,
            0 <= dy <= 4096,
    ;
    let sq: i64 = 1_000_000 * (dx * dx + dy * dy);
    let r: u64 = isqrt(sq as u64);
    proof {
        let n = sq as int;
        assert((r as int) * (r as int) <= n);
        assert(r < 5_800_000) by (nonlinear_arith)
            requires
                (r as int) * (r as int) <= n,
            n <= 33_570_818_000_000int,
        ;
        assert((from.xy.x - to.xy.x) * (from.xy.x - to.xy.x) == dx * dx) by (nonlinear_arith)
            requires
                dx == from.xy.x - to.xy.x || dx == to.xy.x - from.xy.x,
        ;
        assert((from.xy.y - to.xy.y) * (from.xy.y - to.xy.y) == dy * dy) by (nonlinear_arith)
            requires
                dy == from.xy.y - to.xy.y || dy == to.xy.y - from.xy.y,
        ;
    }
    r as i64
}

/// No corner cutting between two diagonally related cells: the step is
/// allowed only when at least one of the two flanking orthogonal cells is
/// free.
pub open spec fn path_width_ok(grid: MovementGrid, cx: int, cy: int, nx: int, ny: int) -> bool {
    !(cx != nx && cy != ny && grid.blocked_spec(cx, ny) && grid.blocked_spec(nx, cy))
}

/// Executable form of `path_width_ok`.
pub fn check_path_width(current: CellCoord, target: CellCoord, gridmap: &MovementGrid) -> (r: bool)
    requires
        gridmap.wf(),
        gridmap.in_bounds(current.x as int, current.y as int),
        gridmap.in_bounds(target.x as int, target.y as int),
    ensures
        r == path_width_ok(*gridmap, current.x as int, current.y as int, target.x as int, target.y as int),
{
    if current.x != target.x && current.y != target.y
        && gridmap.blocked_at(CellCoord { x: current.x, y: target.y })
        && gridmap.blocked_at(CellCoord { x: target.x, y: current.y }) {
        false
    } else {
        true
    }
}

/// The eight candidate steps, in the scan order of `get_neighbours`.
pub open spec fn delta_list() -> Seq<(int, int)> {
    seq![(-1, -1), (-1, 0), (-1, 1), (0, -1), (0, 1), (1, -1), (1, 0), (1, 1)]
}

/// Whether the step `(dx, dy)` from `(cx, cy)` yields a neighbour: the cell
/// must be in bounds, free, and pass the corner-cut check.
pub open spec fn neighbour_ok(grid: MovementGrid, cx: int, cy: int, dx: int, dy: int) -> bool {
    &&& grid.free(cx + dx, cy + dy)
    &&& path_width_ok(grid, cx, cy, cx + dx, cy + dy)
}

/// The neighbour node reached by the step `(dx, dy)` from `(cx, cy)`.
pub open spec fn mk_neighbour(cx: int, cy: int, dx: int, dy: int) -> NodeCoords {
    NodeCoords {
        xy: CellCoord { x: (cx + dx) as usize, y: (cy + dy) as usize },
        h: heading_of_delta(dx, dy),
    }
}

/// The neighbours produced by the first `k` candidate steps.
pub open spec fn neighbours_up_to(grid: MovementGrid, cx: int, cy: int, k: int) -> Seq<NodeCoords>
    decreases k,
{
    if k <= 0 {
        Seq::empty()
    } else {
        let prev = neighbours_up_to(grid, cx, cy, k - 1);
        let d = delta_list()[k - 1];
        if neighbour_ok(grid, cx, cy, d.0, d.1) {
            prev.push(mk_neighbour(cx, cy, d.0, d.1))
        } else {
            prev
        }
    }
}

/// All neighbours of `(cx, cy)`, in scan order.
pub open spec fn neighbours_spec(grid: MovementGrid, cx: int, cy: int) -> Seq<NodeCoords> {
    neighbours_up_to(grid, cx, cy, 8)
}

fn delta_of(k: usize) -> (d: (i64, i64))
    requires
        k < 8,
    ensures
        (d.0 as int, d.1 as int) == delta_list()[k as int],
{
    if k == 0 {
        (-1, -1)
    } else if k == 1 {
        (-1, 0)
    } else if k == 2 {
        (-1, 1)
    } else if k == 3 {
        (0, -1)
    } else if k == 4 {
        (0, 1)
    } else if k == 5 {
        (1, -1)
    } else if k == 6 {
        (1, 0)
    } else {
        (1, 1)
    }
}

/// All grid-adjacent cells of `current` that a unit may step to: in bounds,
/// free, and not cutting a blocked corner. Each carries the heading of the
/// step that reaches it.
pub fn get_neighbours(current: CellCoord, gridmap: &MovementGrid) -> (nbs: Vec<NodeCoords>)
    requires
        gridmap.wf(),
        gridmap.in_bounds(current.x as int, current.y as int),
    ensures
        nbs@ == neighbours_spec(*gridmap, current.x as int, current.y as int),
{
    let mut nbs: Vec<NodeCoords> = Vec::new();
    let mut k: usize = 0;
    while k < 8
        invariant
            k <= 8,
            gridmap.wf(),
            gridmap.in_bounds(current.x as int, current.y as int),
            nbs@ == neighbours_up_to(*gridmap, current.x as int, current.y as int, k as int),
        decreases 8 - k,
    {
        let (dx, dy) = delta_of(k);
        let nx_i: i64 = current.x as i64 + dx;
        let ny_i: i64 = current.y as i64 + dy;
        if nx_i >= 0 && nx_i < gridmap.settings.grid_width as i64 && ny_i >= 0 && ny_i
            < gridmap.settings.grid_height as i64 {
            let n = CellCoord { x: nx_i as usize, y: ny_i as usize };
            if !gridmap.blocked_at(n) && check_path_width(current, n, gridmap) {
                nbs.push(
                    NodeCoords { xy: n, h: calculate_heading(&current, &n) },
                );
            }
        }
        k = k + 1;
    }
    nbs
}

/// Every neighbour that `get_neighbours` emits is in bounds, free, adjacent
/// to the expanded cell, passes the corner-cut check, and carries the
/// heading of its step.
pub proof fn lemma_neighbour_props(grid: MovementGrid, cx: int, cy: int, k: int)
    requires
        grid.wf(),
        0 <= k <= 8,
    ensures
        forall|i: int|
            0 <= i < neighbours_up_to(grid, cx, cy, k).len() ==> {
                let n = #[trigger] neighbours_up_to(grid, cx, cy, k)[i];
                &&& grid.free(n.xy.x as int, n.xy.y as int)
                &&& cells_adjacent(cx, cy, n.xy.x as int, n.xy.y as int)
                &&& path_width_ok(grid, cx, cy, n.xy.x as int, n.xy.y as int)
                &&& n.h == heading_of_delta(n.xy.x - cx, n.xy.y - cy)
            },
    decreases k,
{
    if k > 0 {
        lemma_neighbour_props(grid, cx, cy, k - 1);
    }
}

/// The corner-cutting property: a diagonal step is never emitted when both
/// flanking orthogonal cells are blocked, whatever the grid's contents.
pub proof fn lemma_no_corner_cutting(grid: MovementGrid, cx: int, cy: int, i: int)
    requires
        grid.wf(),
        0 <= i < neighbours_spec(grid, cx, cy).len(),
        neighbours_spec(grid, cx, cy)[i].xy.x != cx,
        neighbours_spec(grid, cx, cy)[i].xy.y != cy,
    ensures
        !(grid.blocked_spec(cx, neighbours_spec(grid, cx, cy)[i].xy.y as int)
            && grid.blocked_spec(neighbours_spec(grid, cx, cy)[i].xy.x as int, cy)),
{
    lemma_neighbour_props(grid, cx, cy, 8);
}

/// Angle units per full turn of a unit's facing.
pub const TURN_UNITS: i64 = 1000;

/// Angle units per heading step on the eight-point compass.
pub const HEADING_ANGLE: i64 = 125;

/// A unit that the motion controller drives: a world-space position and a
/// facing angle in `[0, TURN_UNITS)`.
#[derive(Clone, Copy, Debug, PartialEq, Eq, Structural)]
pub struct Movable {
    pub position: WorldPos,
    pub facing: i64,
}

/// The facing angle a heading asks for, in angle units.
pub open spec fn heading_angle(h: Heading) -> int {
    ((8 - h.index()) % 8) * HEADING_ANGLE
}

/// The signed shortest rotation from `facing` to `target`, in
/// `[-TURN_UNITS/2, TURN_UNITS/2)`.
pub open spec fn angle_diff(target: int, facing: int) -> int {
    (target - facing + 1500) % 1000 - 500
}

/// The facing after one tick: rotated toward `target` by at most
/// `max_step`, clamped so it never overshoots.
pub open spec fn rot_toward(facing: int, target: int, max_step: int) -> int {
    let d = angle_diff(target, facing);
    let step = if d >= 0 {
        if d <= max_step {
            d
        } else {
            max_step
        }
    } else {
        if -d <= max_step {
            d
        } else {
            -max_step
        }
    };
    (facing + step + 1000) % 1000
}

/// Squared straight-line distance between two world positions.
pub open spec fn dist_sq(a: WorldPos, b: WorldPos) -> int {
    (a.x - b.x) * (a.x - b.x) + (a.y - b.y) * (a.y - b.y)
}

/// One motion tick toward `target`: rotate by at most
/// `rotation_speed * delta` angle units toward the waypoint's heading, and
/// advance by `speed * delta` position units along the line to the waypoint
/// (both scaled by 1000), snapping onto it when the remaining distance is
/// covered. Returns whether the waypoint was reached.
///
/// The fixed-point step is truncated; when truncation would stall the unit
/// entirely, it advances one position unit along the dominant axis, so every
/// tick with a positive linear step strictly shrinks the remaining squared
/// distance until the waypoint is reached.
#[verifier::rlimit(100)]
pub fn move_towards(
    m: &mut Movable,
    speed: u64,
    rotation_speed: u64,
    delta: u64,
    target: &PathNode,
) -> (reached: bool)
    requires
        0 <= old(m).facing < TURN_UNITS,
        -crate::environment::POS_BOUND <= old(m).position.x <= crate::environment::POS_BOUND,
        -crate::environment::POS_BOUND <= old(m).position.y <= crate::environment::POS_BOUND,
        -crate::environment::POS_BOUND <= target.xy.x <= crate::environment::POS_BOUND,
        -crate::environment::POS_BOUND <= target.xy.y <= crate::environment::POS_BOUND,
        1000 <= speed * delta <= 1_000_000_000_000,
        rotation_speed * delta <= 1_000_000_000_000,
    ensures
        0 <= final(m).facing < TURN_UNITS,
        final(m).facing == rot_toward(
            old(m).facing as int,
            heading_angle(target.h),
            rotation_speed * delta / 1000,
        ),
        ({
            let s = speed * delta / 1000;
            reached <==> dist_sq(old(m).position, target.xy) <= s * s
        }),
        reached ==> final(m).position == target.xy,
        !reached ==> dist_sq(final(m).position, target.xy) < dist_sq(old(m).position, target.xy),
        final(m).position.x == target.xy.x || final(m).position.x == old(m).position.x || (old(
            m,
        ).position.x < final(m).position.x < target.xy.x) || (target.xy.x < final(m).position.x
            < old(m).position.x),
        final(m).position.y == target.xy.y || final(m).position.y == old(m).position.y || (old(
            m,
        ).position.y < final(m).position.y < target.xy.y) || (target.xy.y < final(m).position.y
            < old(m).position.y),
{
    // Rotation: signed shortest difference, clamped to the tick's budget.
    let rot_step: i64 = ((rotation_speed * delta) / 1000) as i64;
    let desired: i64 = (((8 - target.h.idx() as i64) % 8) * HEADING_ANGLE) as i64;
    let diff: i64 = (((desired - m.facing + 1500) as u64 % 1000) as i64) - 500;
    let step: i64 = if diff >= 0 {
        if diff <= rot_step {
            diff
        } else {
            rot_step
        }
    } else {
        if -diff <= rot_step {
            diff
        } else {
            -rot_step
        }
    };
    m.facing = ((m.facing + step + 1000) as u64 % 1000) as i64;
    // Translation.
    let dx: i64 = target.xy.x - m.position.x;
    let dy: i64 = target.xy.y - m.position.y;
    let adx: i64 = if dx >= 0 {
        dx
    } else {
        -dx
    };
    let ady: i64 = if dy >= 0 {
        dy
    } else {
        -dy
    };
    proof {
        assert(adx * adx + ady * ady <= 8_000_000_000_000_000_000int && adx * adx >= 0 && ady * ady
            >= 0 && adx * adx >= adx && ady * ady >= ady) by (nonlinear_arith)
            requires
                0 <= adx <= 2_000_000_000,
                0 <= ady <= 2_000_000_000,
        ;
        assert(adx * adx + ady * ady == dist_sq(m.position, target.xy)) by (nonlinear_arith)
            requires
                adx == dx || adx == -dx,
                ady == dy || ady == -dy,
                dx == target.xy.x - m.position.x,
                dy == target.xy.y - m.position.y,
        ;
    }
    let dist2: i64 = adx * adx + ady * ady;
    let s: i64 = ((speed * delta) / 1000) as i64;
    proof {
        assert(s * s <= 1_000_000_000_000_000_000int && s * s >= 0) by (nonlinear_arith)
            requires
                0 <= s <= 1_000_000_000,
        ;
    }
    if dist2 <= s * s {
        m.position = target.xy;
        return true;
    }
    let dq: u64 = crate::num::isqrt(dist2 as u64);
    let d: i64 = dq as i64;
    proof {
        assert((d as int) * (d as int) <= dist2 as int);
        assert((dist2 as int) < (d as int + 1) * (d as int + 1));
        assert(d >= 1 && s <= d) by (nonlinear_arith)
            requires
                (d as int) * (d as int) <= dist2 as int,
                (dist2 as int) < (d as int + 1) * (d as int + 1),
                (s as int) * (s as int) < dist2 as int,
                s >= 0,
                d >= 0,
                dist2 >= 1,
        ;
        assert(adx <= d && ady <= d) by (nonlinear_arith)
            requires
                (dist2 as int) < (d as int + 1) * (d as int + 1),
                dist2 as int == (adx as int) * (adx as int) + (ady as int) * (ady as int),
                0 <= adx,
                0 <= ady,
                0 <= d,
        ;
    }
    proof {
        assert((adx as int) * (s as int) <= 2_000_000_000_000_000_000int && (ady as int) * (
        s as int) <= 2_000_000_000_000_000_000int) by (nonlinear_arith)
            requires
                0 <= adx <= 2_000_000_000,
                0 <= ady <= 2_000_000_000,
                0 <= s <= 1_000_000_000,
        ;
    }
    let qxu: u64 = ((adx as u64) * (s as u64)) / (d as u64);
    let qyu: u64 = ((ady as u64) * (s as u64)) / (d as u64);
    proof {
        lemma_scaled_step_bounded(adx as int, s as int, d as int, qxu as int);
        lemma_scaled_step_bounded(ady as int, s as int, d as int, qyu as int);
    }
    // Step magnitudes along each axis: the truncated scaled step, or one
    // unit along the dominant axis when truncation stalled the tick.
    let mx: i64;
    let my: i64;
    if qxu == 0 && qyu == 0 {
        if adx >= ady {
            proof {
                assert(adx >= 1) by (nonlinear_arith)
                    requires
                        (adx as int) * (adx as int) + (ady as int) * (ady as int) >= 1,
                        adx >= ady >= 0,
                ;
                lemma_one_step_shrinks(adx as int, ady as int);
            }
            mx = 1;
            my = 0;
        } else {
            proof {
                lemma_one_step_shrinks(ady as int, adx as int);
            }
            mx = 0;
            my = 1;
        }
    } else {
        proof {
            lemma_partial_step_shrinks(adx as int, ady as int, qxu as int, qyu as int);
        }
        mx = qxu as i64;
        my = qyu as i64;
    }
    proof {
        assert((adx as int - mx) * (adx as int - mx) + (ady as int - my) * (ady as int - my)
            < dist2);
    }
    let nx: i64 = if dx >= 0 {
        m.position.x + mx
    } else {
        m.position.x - mx
    };
    let ny: i64 = if dy >= 0 {
        m.position.y + my
    } else {
        m.position.y - my
    };
    proof {
        assert((target.xy.x - nx) * (target.xy.x - nx) == (adx - mx) * (adx - mx) && (target.xy.y
            - ny) * (target.xy.y - ny) == (ady - my) * (ady - my)) by (nonlinear_arith)
            requires
                dx == target.xy.x - m.position.x,
                dy == target.xy.y - m.position.y,
                (dx >= 0 && nx == m.position.x + mx && adx == dx) || (dx < 0 && nx == m.position.x
                    - mx && adx == -dx),
                (dy >= 0 && ny == m.position.y + my && ady == dy) || (dy < 0 && ny == m.position.y
                    - my && ady == -dy),
        ;
    }
    proof {
        assert((nx - target.xy.x) * (nx - target.xy.x) == (target.xy.x - nx) * (target.xy.x - nx)
            && (ny - target.xy.y) * (ny - target.xy.y) == (target.xy.y - ny) * (target.xy.y
            - ny)) by (nonlinear_arith);
    }
    m.position = WorldPos { x: nx, y: ny };
    false
}

/// A truncated scaled step never overshoots: `(a * s) / d` stays between 0
/// and `a` when `0 <= s <= d`.
proof fn lemma_scaled_step_bounded(a: int, s: int, d: int, q: int)
    requires
        0 <= a,
        0 <= s <= d,
        1 <= d,
        q == (a * s) / d,
    ensures
        0 <= q <= a,
        q == 0 ==> a * s < d,
{
    vstd::arithmetic::div_mod::lemma_fundamental_div_mod(a * s, d);
    vstd::arithmetic::div_mod::lemma_mod_bound(a * s, d);
    assert(0 <= a * s) by (nonlinear_arith)
        requires
            0 <= a,
            0 <= s,
    ;
    assert(0 <= (a * s) % d < d);
    assert(q >= 0) by (nonlinear_arith)
        requires
            d * q == a * s - (a * s) % d,
            (a * s) % d < d,
            0 <= a * s,
            1 <= d,
    ;
    assert(q <= a) by (nonlinear_arith)
        requires
            d * q == a * s - (a * s) % d,
            0 <= (a * s) % d,
            s <= d,
            0 <= a,
            1 <= d,
    ;
    if q == 0 {
        assert(a * s < d) by (nonlinear_arith)
            requires
                a * s == d * q + (a * s) % d,
                q == 0,
                (a * s) % d < d,
        ;
    }
}

/// Moving one unit along the dominant axis strictly shrinks the squared
/// distance.
proof fn lemma_one_step_shrinks(big: int, small: int)
    requires
        0 <= small <= big,
        1 <= big,
    ensures
        (big - 1) * (big - 1) + small * small < big * big + small * small,
        0 <= (big - 1) * (big - 1) + small * small,
{
    assert((big - 1) * (big - 1) < big * big) by (nonlinear_arith)
        requires
            1 <= big,
    ;
    assert(0 <= (big - 1) * (big - 1) && 0 <= small * small) by (nonlinear_arith)
        requires
            0 <= small,
            1 <= big,
    ;
}

/// A non-stalled truncated step strictly shrinks the squared distance.
proof fn lemma_partial_step_shrinks(adx: int, ady: int, qx: int, qy: int)
    requires
        0 <= qx <= adx,
        0 <= qy <= ady,
        qx > 0 || qy > 0,
    ensures
        (adx - qx) * (adx - qx) + (ady - qy) * (ady - qy) < adx * adx + ady * ady,
{
    assert((adx - qx) * (adx - qx) <= adx * adx) by (nonlinear_arith)
        requires
            0 <= qx <= adx,
    ;
    assert((ady - qy) * (ady - qy) <= ady * ady) by (nonlinear_arith)
        requires
            0 <= qy <= ady,
    ;
    if qx > 0 {
        assert((adx - qx) * (adx - qx) < adx * adx) by (nonlinear_arith)
            requires
                0 < qx <= adx,
        ;
    } else {
        assert((ady - qy) * (ady - qy) < ady * ady) by (nonlinear_arith)
            requires
                0 < qy <= ady,
        ;
    }
}

/// One tick of the motion controller for a unit with a route: drive toward
/// the last stored waypoint (routes are stored goal-first, so the end of the
/// vector is the next waypoint in travel order) and pop it once reached.
/// Returns whether the whole route has been drained.
pub fn move_units(
    m: &mut Movable,
    path: &mut MovementPath,
    speed: u64,
    rotation_speed: u64,
    delta: u64,
) -> (arrived: bool)
    requires
        0 <= old(m).facing < TURN_UNITS,
        -crate::environment::POS_BOUND <= old(m).position.x <= crate::environment::POS_BOUND,
        -crate::environment::POS_BOUND <= old(m).position.y <= crate::environment::POS_BOUND,
        forall|i: int|
            0 <= i < old(path).path@.len() ==> -crate::environment::POS_BOUND <= (
            #[trigger] old(path).path@[i]).xy.x <= crate::environment::POS_BOUND
                && -crate::environment::POS_BOUND <= old(path).path@[i].xy.y
                <= crate::environment::POS_BOUND,
        1000 <= speed * delta <= 1_000_000_000_000,
        rotation_speed * delta <= 1_000_000_000_000,
    ensures
        0 <= final(m).facing < TURN_UNITS,
        -crate::environment::POS_BOUND <= final(m).position.x <= crate::environment::POS_BOUND,
        -crate::environment::POS_BOUND <= final(m).position.y <= crate::environment::POS_BOUND,
        arrived <==> final(path).path@.len() == 0,
        old(path).path@.len() == 0 ==> *final(path) == *old(path) && *final(m) == *old(m),
        old(path).path@.len() > 0 ==> {
            ||| (final(path).path@ == old(path).path@.drop_last() && final(m).position == old(
                path,
            ).path@.last().xy)
            ||| (final(path).path@ == old(path).path@ && dist_sq(
                final(m).position,
                old(path).path@.last().xy,
            ) < dist_sq(old(m).position, old(path).path@.last().xy))
        },
{
    if path.path.len() == 0 {
        return true;
    }
    let node: PathNode = path.path[path.path.len() - 1];
    let reached: bool = move_towards(m, speed, rotation_speed, delta, &node);
    if reached {
        let _ = path.path.pop();
    }
    path.path.len() == 0
}

/// The motion controller converges: a unit with a finite route, a positive
/// linear step and a bounded angular step per tick reaches the final
/// waypoint after finitely many ticks (the loop terminates by a measure
/// that every tick strictly shrinks) and the route empties.
pub fn follow_path(
    m: &mut Movable,
    path: &mut MovementPath,
    speed: u64,
    rotation_speed: u64,
    delta: u64,
)
    requires
        0 <= old(m).facing < TURN_UNITS,
        -crate::environment::POS_BOUND <= old(m).position.x <= crate::environment::POS_BOUND,
        -crate::environment::POS_BOUND <= old(m).position.y <= crate::environment::POS_BOUND,
        forall|i: int|
            0 <= i < old(path).path@.len() ==> -crate::environment::POS_BOUND <= (
            #[trigger] old(path).path@[i]).xy.x <= crate::environment::POS_BOUND
                && -crate::environment::POS_BOUND <= old(path).path@[i].xy.y
                <= crate::environment::POS_BOUND,
        1000 <= speed * delta <= 1_000_000_000_000,
        rotation_speed * delta <= 1_000_000_000_000,
    ensures
        final(path).path@.len() == 0,
        old(path).path@.len() > 0 ==> final(m).position == old(path).path@[0].xy,
        old(path).path@.len() == 0 ==> *final(m) == *old(m),
{
    while path.path.len() > 0
        invariant
            0 <= m.facing < TURN_UNITS,
            -crate::environment::POS_BOUND <= m.position.x <= crate::environment::POS_BOUND,
            -crate::environment::POS_BOUND <= m.position.y <= crate::environment::POS_BOUND,
            1000 <= speed * delta <= 1_000_000_000_000,
            rotation_speed * delta <= 1_000_000_000_000,
            path.path@.len() <= old(path).path@.len(),
            path.path@ == old(path).path@.take(path.path@.len() as int),
            forall|i: int|
                0 <= i < old(path).path@.len() ==> -crate::environment::POS_BOUND <= (
                #[trigger] old(path).path@[i]).xy.x <= crate::environment::POS_BOUND
                    && -crate::environment::POS_BOUND <= old(path).path@[i].xy.y
                    <= crate::environment::POS_BOUND,
            path.path@.len() == 0 ==> (old(path).path@.len() == 0 || m.position == old(
                path,
            ).path@[0].xy),
            old(path).path@.len() > 0 && path.path@.len() == 0 ==> m.position == old(
                path,
            ).path@[0].xy,
            old(path).path@.len() == 0 ==> *m == *old(m),
        decreases
            path.path@.len(),
            (if path.path@.len() > 0 {
                dist_sq(m.position, path.path@.last().xy)
            } else {
                0int
            }),
    {
        let ghost pre = path.path@;
        let ghost pre_m = *m;
        let _ = move_units(m, path, speed, rotation_speed, delta);
        proof {
            assert(pre == old(path).path@.take(pre.len() as int));
            lemma_dist_sq_nonneg(m.position, pre.last().xy);
            if path.path@.len() < pre.len() {
                assert(path.path@ == pre.drop_last());
                assert(path.path@ =~= old(path).path@.take(path.path@.len() as int));
            } else {
                assert(path.path@ == pre);
                assert(dist_sq(m.position, pre.last().xy) < dist_sq(pre_m.position, pre.last().xy));
            }
        }
    }
}

/// A squared distance is never negative.
proof fn lemma_dist_sq_nonneg(a: WorldPos, b: WorldPos)
    ensures
        dist_sq(a, b) >= 0,
{
    assert((a.x - b.x) * (a.x - b.x) >= 0 && (a.y - b.y) * (a.y - b.y) >= 0) by (nonlinear_arith);
}

/// The heuristic is consistent: stepping to an adjacent cell lowers it by
/// at most the step's base cost. The base costs round the true distances
/// up while the heuristic rounds down, so the chain of floor square roots
/// never breaks the triangle inequality.
pub proof fn lemma_heuristic_consistent(ax: int, ay: int, bx: int, by: int, tx: int, ty: int)
    requires
        cells_adjacent(ax, ay, bx, by),
    ensures
        heuristic(ax, ay, tx, ty) <= (if ax != bx && ay != by {
            DIAG_COST as int
        } else {
            DISTANCE_FACTOR as int
        }) + heuristic(bx, by, tx, ty),
{
    let u1 = ax - bx;
    let u2 = ay - by;
    let v1 = bx - tx;
    let v2 = by - ty;
    let c: int = if ax != bx && ay != by {
        DIAG_COST as int
    } else {
        DISTANCE_FACTOR as int
    };
    let a = 1_000_000 * ((ax - tx) * (ax - tx) + (ay - ty) * (ay - ty));
    let b = 1_000_000 * (v1 * v1 + v2 * v2);
    assert(a >= 0) by (nonlinear_arith)
        requires
            a == 1_000_000 * ((ax - tx) * (ax - tx) + (ay - ty) * (ay - ty)),
    ;
    assert(b >= 0) by (nonlinear_arith)
        requires
            b == 1_000_000 * (v1 * v1 + v2 * v2),
    ;
    crate::num::lemma_sqrt_floor_exists(a);
    crate::num::lemma_sqrt_floor_exists(b);
    let x = crate::num::sqrt_floor(a);
    let y = crate::num::sqrt_floor(b);
    let dot = u1 * v1 + u2 * v2;
    // The base cost dominates the scaled length of the step.
    assert(1_000_000 * (u1 * u1 + u2 * u2) <= c * c) by (nonlinear_arith)
        requires
            -1 <= u1 <= 1,
            -1 <= u2 <= 1,
            c == if u1 != 0 && u2 != 0 {
                1415int
            } else {
                1000int
            },
    ;
    // Expand the squared distance through b.
    assert(a == 1_000_000 * (u1 * u1 + u2 * u2) + 2_000_000 * dot + b) by (nonlinear_arith)
        requires
            u1 == ax - bx,
            u2 == ay - by,
            v1 == bx - tx,
            v2 == by - ty,
            dot == u1 * v1 + u2 * v2,
            a == 1_000_000 * ((ax - tx) * (ax - tx) + (ay - ty) * (ay - ty)),
            b == 1_000_000 * (v1 * v1 + v2 * v2),
    ;
    if dot > 0 {
        // Cauchy-Schwarz bounds the cross term by the two lengths; with a
        // single-cell step each component of the step is -1, 0 or 1, so a
        // case split keeps the algebra small.
        if u1 == 0 || u2 == 0 {
            assert(dot * dot <= (u1 * u1 + u2 * u2) * (v1 * v1 + v2 * v2)) by (nonlinear_arith)
                requires
                    dot == u1 * v1 + u2 * v2,
                    u1 == 0 || u2 == 0,
                    -1 <= u1 <= 1,
                    -1 <= u2 <= 1,
            ;
        } else {
            assert((v1 - v2) * (v1 - v2) >= 0 && (v1 + v2) * (v1 + v2) >= 0) by (nonlinear_arith);
            assert(dot * dot <= (u1 * u1 + u2 * u2) * (v1 * v1 + v2 * v2)) by (nonlinear_arith)
                requires
                    dot == u1 * v1 + u2 * v2,
                    u1 == 1 || u1 == -1,
                    u2 == 1 || u2 == -1,
                    (v1 - v2) * (v1 - v2) >= 0,
                    (v1 + v2) * (v1 + v2) >= 0,
            ;
        }
        assert((1_000_000 * dot) * (1_000_000 * dot) <= (1_000_000 * (u1 * u1 + u2 * u2)) * (
        1_000_000 * (v1 * v1 + v2 * v2))) by (nonlinear_arith)
            requires
                dot * dot <= (u1 * u1 + u2 * u2) * (v1 * v1 + v2 * v2),
        ;
        assert(0 <= u1 * u1 + u2 * u2) by (nonlinear_arith);
        assert((1_000_000 * (u1 * u1 + u2 * u2)) * b <= (c * c) * ((y + 1) * (y + 1)))
            by (nonlinear_arith)
            requires
                1_000_000 * (u1 * u1 + u2 * u2) <= c * c,
                0 <= 1_000_000 * (u1 * u1 + u2 * u2),
                0 <= b < (y + 1) * (y + 1),
        ;
        assert(1_000_000 * dot <= c * (y + 1)) by (nonlinear_arith)
            requires
                (1_000_000 * dot) * (1_000_000 * dot) <= (c * c) * ((y + 1) * (y + 1)),
                dot > 0,
                c > 0,
                y >= 0,
        ;
        assert(a < (c + y + 1) * (c + y + 1)) by (nonlinear_arith)
            requires
                a == 1_000_000 * (u1 * u1 + u2 * u2) + 2_000_000 * dot + b,
                1_000_000 * (u1 * u1 + u2 * u2) <= c * c,
                1_000_000 * dot <= c * (y + 1),
                b < (y + 1) * (y + 1),
        ;
    } else {
        assert(a < (c + y + 1) * (c + y + 1)) by (nonlinear_arith)
            requires
                a == 1_000_000 * (u1 * u1 + u2 * u2) + 2_000_000 * dot + b,
                1_000_000 * (u1 * u1 + u2 * u2) <= c * c,
                dot <= 0,
                b < (y + 1) * (y + 1),
                c > 0,
                y >= 0,
        ;
    }
    assert(x <= c + y) by (nonlinear_arith)
        requires
            x * x <= a,
            a < (c + y + 1) * (c + y + 1),
            x >= 0,
            c > 0,
            y >= 0,
    ;
}

} // verus!
