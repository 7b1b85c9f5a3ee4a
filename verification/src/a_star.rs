//! The A* search over (cell, heading) states.
//!
//! A search is an explicit, resumable state object: `a_star` creates it from
//! a move request, `calculate_a_star` expands the best frontier node and can
//! be invoked once per scheduler tick, and `run_search` drives it to an
//! outcome under an explicit step budget. Every transition is pinned to a
//! spec-level model of the same state, so the search is a mathematical
//! function of its inputs: equal requests yield equal routes
//! (`lemma_search_deterministic`), every route handed back walks free,
//! adjacent, corner-safe cells from start to goal (`lemma_chain_connects`,
//! `lemma_success_route_walks_grid`), a search whose frontier empties
//! proves that no such walk reaches the target at all
//! (`lemma_failed_search_has_no_route`), and while such a walk exists the
//! search cannot fail and a computable step budget reaches success
//! (`lemma_reachable_search_succeeds`).

use crate::environment::{CellCoord, MovementGrid, NavError, WorldPos};
use crate::movable::{
    cells_adjacent, heading_of_delta, heuristic, move_cost, neighbours_spec, path_width_ok,
    get_neighbours, heuristical_distance, inertia_based_inter_cell_movement, Heading, MoveCommand,
    MovementPath, NodeCoords, PathNode, MAX_STEP_COST,
};
use crate::movable::{neighbour_ok, neighbours_up_to};
use vstd::prelude::*;

verus! {

/// Sentinel score of a (cell, heading) state not yet reached.
pub const UNVISITED: i64 = -1;

/// Ceiling on the cost a node may have and still relax its neighbours. It is
/// far beyond any cost reachable on a bounded grid; it exists only so that
/// `g + step cost` visibly stays inside `i64`.
pub const G_CAP: i64 = 1_000_000_000_000_000;

/// The per-(cell, heading) record of a search: best known cost from the
/// start, that cost plus the heuristic, and the predecessor state.
#[derive(Clone, Copy, Debug)]
pub struct AStarNode {
    pub f_score: i64,
    pub g_score: i64,
    pub came_from: Option<NodeCoords>,
}

/// The self-contained state of one unit's search, resumable across ticks.
pub struct AStarParams {
    /// One `AStarNode` per (cell, heading), indexed by `tindex`.
    pub movement_grid: Vec<AStarNode>,
    /// The frontier: states with a known but not yet finalized cost.
    pub open_set: Vec<NodeCoords>,
    pub target: CellCoord,
    pub start: NodeCoords,
}

/// What one expansion step produced.
pub enum SearchStatus {
    /// The frontier is not exhausted and the target was not selected yet.
    InProgress,
    /// The target cell was selected; the finished route is attached.
    Succeeded(MovementPath),
    /// The frontier is exhausted: no free path connects start and target.
    Failed,
}

/// How a move request was accepted.
pub enum MoveOutcome {
    /// Start and target fall in the same cell: nothing to do.
    Arrived,
    /// A search was created and must be stepped to an outcome.
    Search(AStarParams),
}

/// Flat index of a (cell, heading) state in the score table.
pub open spec fn tindex(height: int, n: NodeCoords) -> int {
    (n.xy.x * height + n.xy.y) * 8 + n.h.index()
}

/// `tindex` stays inside a `width * height * 8` table.
pub proof fn lemma_tindex_range(width: int, height: int, n: NodeCoords)
    requires
        0 <= n.xy.x < width <= 4096,
        0 <= n.xy.y < height <= 4096,
    ensures
        0 <= tindex(height, n) < width * height * 8,
        tindex(height, n) < 134_217_728,
{
    let hi = n.h.index();
    assert(0 <= hi < 8);
    assert((n.xy.x * height + n.xy.y) * 8 + hi < width * height * 8 <= 134_217_728)
        by (nonlinear_arith)
        requires
            0 <= n.xy.x < width <= 4096,
            0 <= n.xy.y < height <= 4096,
            0 <= hi < 8,
    ;
    assert(0 <= (n.xy.x * height + n.xy.y) * 8 + hi) by (nonlinear_arith)
        requires
            0 <= n.xy.x,
            0 <= n.xy.y,
            0 < height,
            0 <= hi,
    ;
}

/// Distinct states get distinct table slots.
pub proof fn lemma_tindex_injective(height: int, a: NodeCoords, b: NodeCoords)
    requires
        0 < height,
        0 <= a.xy.y < height,
        0 <= b.xy.y < height,
        tindex(height, a) == tindex(height, b),
    ensures
        a == b,
{
    let ra = a.xy.x * height + a.xy.y;
    let rb = b.xy.x * height + b.xy.y;
    assert(ra == rb && a.h.index() == b.h.index()) by (nonlinear_arith)
        requires
            ra * 8 + a.h.index() == rb * 8 + b.h.index(),
            0 <= a.h.index() < 8,
            0 <= b.h.index() < 8,
    ;
    assert(a.xy.x == b.xy.x && a.xy.y == b.xy.y) by (nonlinear_arith)
        requires
            a.xy.x * height + a.xy.y == b.xy.x * height + b.xy.y,
            0 <= a.xy.y < height,
            0 <= b.xy.y < height,
            0 <= a.xy.x,
            0 <= b.xy.x,
    ;
    assert(a.h == b.h);
}

/// Executable form of `tindex`.
fn tindex_exec(gridmap: &MovementGrid, n: NodeCoords) -> (i: usize)
    requires
        gridmap.wf(),
        gridmap.in_bounds(n.xy.x as int, n.xy.y as int),
    ensures
        i as int == tindex(gridmap.settings.grid_height as int, n),
        i < gridmap.settings.grid_width * gridmap.settings.grid_height * 8,
{
    proof {
        lemma_tindex_range(
            gridmap.settings.grid_width as int,
            gridmap.settings.grid_height as int,
            n,
        );
    }
    (n.xy.x * gridmap.settings.grid_height + n.xy.y) * 8 + n.h.idx() as usize
}

/// Whether the frontier already holds a state.
fn contains_node(v: &Vec<NodeCoords>, n: NodeCoords) -> (r: bool)
    ensures
        r == v@.contains(n),
{
    let mut i: usize = 0;
    while i < v.len()
        invariant
            i <= v@.len(),
            forall|k: int| 0 <= k < i ==> v@[k] != n,
        decreases v@.len() - i,
    {
        if v[i] == n {
            return true;
        }
        i = i + 1;
    }
    false
}

/// The score-table record of a state.
pub open spec fn trec(table: Seq<AStarNode>, height: int, n: NodeCoords) -> AStarNode {
    table[tindex(height, n)]
}

/// A state with a real (non-sentinel) cost.
pub open spec fn tvisited(table: Seq<AStarNode>, height: int, n: NodeCoords) -> bool {
    trec(table, height, n).g_score >= 0
}

/// A visited non-start state records a valid predecessor: a visited
/// in-bounds state with strictly smaller cost, one legal step away.
pub open spec fn tvalid_step(table: Seq<AStarNode>, grid: MovementGrid, n: NodeCoords) -> bool {
    let height = grid.settings.grid_height as int;
    let r = trec(table, height, n);
    let p = r.came_from.unwrap();
    &&& r.came_from is Some
    &&& AStarParams::node_in_bounds(grid, p)
    &&& tvisited(table, height, p)
    &&& trec(table, height, p).g_score < r.g_score
    &&& trec(table, height, p).g_score + move_cost(p, n) <= r.g_score
    &&& grid.free(n.xy.x as int, n.xy.y as int)
    &&& cells_adjacent(p.xy.x as int, p.xy.y as int, n.xy.x as int, n.xy.y as int)
    &&& path_width_ok(grid, p.xy.x as int, p.xy.y as int, n.xy.x as int, n.xy.y as int)
    &&& n.h == heading_of_delta(n.xy.x - p.xy.x, n.xy.y - p.xy.y)
}

/// The score-table invariant: the start state is seeded at cost zero with
/// no predecessor, and every other visited state records a valid step.
pub open spec fn twf(table: Seq<AStarNode>, grid: MovementGrid, start: NodeCoords) -> bool {
    let height = grid.settings.grid_height as int;
    &&& grid.wf()
    &&& table.len() == grid.settings.grid_width * grid.settings.grid_height * 8
    &&& AStarParams::node_in_bounds(grid, start)
    &&& trec(table, height, start).g_score == 0
    &&& trec(table, height, start).came_from is None
    &&& forall|n: NodeCoords|
        AStarParams::node_in_bounds(grid, n) && #[trigger] tvisited(table, height, n) && n != start
            ==> tvalid_step(table, grid, n)
}

impl AStarParams {
    /// A node's cell lies on the grid.
    pub open spec fn node_in_bounds(grid: MovementGrid, n: NodeCoords) -> bool {
        grid.in_bounds(n.xy.x as int, n.xy.y as int)
    }

    /// The score-table record of a state.
    pub open spec fn rec(self, grid: MovementGrid, n: NodeCoords) -> AStarNode
        recommends
            Self::node_in_bounds(grid, n),
    {
        trec(self.movement_grid@, grid.settings.grid_height as int, n)
    }

    /// A state with a real (non-sentinel) cost.
    pub open spec fn visited(self, grid: MovementGrid, n: NodeCoords) -> bool {
        tvisited(self.movement_grid@, grid.settings.grid_height as int, n)
    }

    /// A visited non-start state records a valid predecessor: a visited
    /// in-bounds state with strictly smaller cost, one legal step away.
    pub open spec fn valid_step(self, grid: MovementGrid, n: NodeCoords) -> bool {
        tvalid_step(self.movement_grid@, grid, n)
    }

    /// The search-state invariant: established by `a_star`, preserved by
    /// every step, and what path reconstruction terminates by.
    pub open spec fn wf(self, grid: MovementGrid) -> bool {
        &&& twf(self.movement_grid@, grid, self.start)
        &&& grid.in_bounds(self.target.x as int, self.target.y as int)
        &&& forall|i: int|
            0 <= i < self.open_set@.len() ==> Self::node_in_bounds(
                grid,
                #[trigger] self.open_set@[i],
            ) && tvisited(
                self.movement_grid@,
                grid.settings.grid_height as int,
                self.open_set@[i],
            )
    }
}

/// The waypoint a route records for a search state: the world-space centre
/// of its cell, and the heading the state was entered with.
pub open spec fn pathnode_of(s: crate::environment::GridSettings, n: NodeCoords) -> PathNode {
    let (wx, wy) = s.cell_to_world_spec(n.xy.x as int, n.xy.y as int);
    PathNode { xy: WorldPos { x: wx as i64, y: wy as i64 }, h: n.h }
}

/// The predecessor chain from `n` back to the start state, goal-first,
/// excluding the start state itself. It terminates because each predecessor
/// has a strictly smaller non-negative cost.
pub open spec fn chain_of(
    table: Seq<AStarNode>,
    grid: MovementGrid,
    start: NodeCoords,
    n: NodeCoords,
) -> Seq<NodeCoords>
    decreases trec(table, grid.settings.grid_height as int, n).g_score
        when twf(table, grid, start) && AStarParams::node_in_bounds(grid, n) && tvisited(
            table,
            grid.settings.grid_height as int,
            n,
        )
{
    if n == start {
        Seq::empty()
    } else {
        seq![n] + chain_of(
            table,
            grid,
            start,
            trec(table, grid.settings.grid_height as int, n).came_from.unwrap(),
        )
    }
}

/// The finished route for a search that selected `n` on the target cell:
/// the predecessor chain rendered as world-space waypoints, goal-first,
/// excluding the start cell.
pub open spec fn route_of(
    table: Seq<AStarNode>,
    grid: MovementGrid,
    start: NodeCoords,
    n: NodeCoords,
) -> Seq<PathNode>
    decreases trec(table, grid.settings.grid_height as int, n).g_score
        when twf(table, grid, start) && AStarParams::node_in_bounds(grid, n) && tvisited(
            table,
            grid.settings.grid_height as int,
            n,
        )
{
    if n == start {
        Seq::empty()
    } else {
        seq![pathnode_of(grid.settings, n)] + route_of(
            table,
            grid,
            start,
            trec(table, grid.settings.grid_height as int, n).came_from.unwrap(),
        )
    }
}

impl AStarParams {
    /// The predecessor chain of this search's table: see `chain_of`.
    pub open spec fn chain(self, grid: MovementGrid, n: NodeCoords) -> Seq<NodeCoords> {
        chain_of(self.movement_grid@, grid, self.start, n)
    }

    /// The finished route of this search's table: see `route_of`.
    pub open spec fn route(self, grid: MovementGrid, n: NodeCoords) -> Seq<PathNode> {
        route_of(self.movement_grid@, grid, self.start, n)
    }
}

/// The route is the predecessor chain rendered waypoint by waypoint.
pub proof fn lemma_route_is_rendered_chain(p: AStarParams, grid: MovementGrid, n: NodeCoords)
    requires
        p.wf(grid),
        AStarParams::node_in_bounds(grid, n),
        p.visited(grid, n),
    ensures
        p.route(grid, n).len() == p.chain(grid, n).len(),
        forall|i: int|
            0 <= i < p.chain(grid, n).len() ==> #[trigger] p.route(grid, n)[i] == pathnode_of(
                grid.settings,
                p.chain(grid, n)[i],
            ),
    decreases p.rec(grid, n).g_score,
{
    if n != p.start {
        lemma_route_is_rendered_chain(p, grid, p.rec(grid, n).came_from.unwrap());
    }
}

/// The step taken into chain entry `i`: from the next older chain entry,
/// or from the start state for the oldest entry.
pub open spec fn chain_from(p: AStarParams, grid: MovementGrid, n: NodeCoords, i: int) -> NodeCoords {
    let c = p.chain(grid, n);
    if i == c.len() - 1 {
        p.start
    } else {
        c[i + 1]
    }
}

/// One entry of the predecessor chain is one legal step: its cell is free,
/// adjacent to the cell it was entered from, the move does not cut a blocked
/// corner, and the recorded heading is the step's heading.
pub proof fn lemma_chain_entry(p: AStarParams, grid: MovementGrid, n: NodeCoords, i: int)
    requires
        p.wf(grid),
        AStarParams::node_in_bounds(grid, n),
        p.visited(grid, n),
        0 <= i < p.chain(grid, n).len(),
    ensures
        ({
            let c = p.chain(grid, n);
            let from = chain_from(p, grid, n, i);
            &&& grid.free(c[i].xy.x as int, c[i].xy.y as int)
            &&& c[i] != p.start
            &&& p.visited(grid, c[i])
            &&& AStarParams::node_in_bounds(grid, c[i])
            &&& p.rec(grid, c[i]).came_from == Some(from)
            &&& cells_adjacent(from.xy.x as int, from.xy.y as int, c[i].xy.x as int, c[i].xy.y as int)
            &&& path_width_ok(grid, from.xy.x as int, from.xy.y as int, c[i].xy.x as int, c[i].xy.y as int)
            &&& c[i].h == heading_of_delta(c[i].xy.x - from.xy.x, c[i].xy.y - from.xy.y)
        }),
    decreases p.rec(grid, n).g_score,
{
    assert(n != p.start);
    assert(p.valid_step(grid, n));
    let pred = p.rec(grid, n).came_from.unwrap();
    let c = p.chain(grid, n);
    let cp = p.chain(grid, pred);
    assert(c == seq![n] + cp);
    if i == 0 {
        assert(c[0] == n);
        if c.len() == 1 {
            assert(cp.len() == 0);
            assert(pred == p.start);
        } else {
            assert(cp.len() > 0);
            assert(pred != p.start);
            assert(cp[0] == pred);
            assert(c[1] == cp[0]);
        }
    } else {
        lemma_chain_entry(p, grid, pred, i - 1);
        assert(c[i] == cp[i - 1]);
        if i - 1 == cp.len() - 1 {
            assert(chain_from(p, grid, pred, i - 1) == p.start);
            assert(chain_from(p, grid, n, i) == p.start);
        } else {
            assert(chain_from(p, grid, pred, i - 1) == cp[i]);
            assert(c[i + 1] == cp[i]);
        }
    }
}

/// Every route a successful search returns walks the grid: the goal state
/// stands first, each entry is one legal step (adjacent, free, not cutting a
/// blocked corner, heading matching the step) from the entry after it, and
/// the oldest entry is one legal step from the start state.
pub proof fn lemma_chain_connects(p: AStarParams, grid: MovementGrid, n: NodeCoords)
    requires
        p.wf(grid),
        AStarParams::node_in_bounds(grid, n),
        p.visited(grid, n),
    ensures
        n == p.start ==> p.chain(grid, n).len() == 0,
        n != p.start ==> p.chain(grid, n).len() > 0 && p.chain(grid, n)[0] == n,
        forall|i: int|
            #![trigger p.chain(grid, n)[i]]
            0 <= i < p.chain(grid, n).len() ==> {
                let c = p.chain(grid, n);
                let from = chain_from(p, grid, n, i);
                &&& grid.free(c[i].xy.x as int, c[i].xy.y as int)
                &&& c[i] != p.start
                &&& p.rec(grid, c[i]).came_from == Some(from)
                &&& cells_adjacent(from.xy.x as int, from.xy.y as int, c[i].xy.x as int, c[i].xy.y as int)
                &&& path_width_ok(grid, from.xy.x as int, from.xy.y as int, c[i].xy.x as int, c[i].xy.y as int)
                &&& c[i].h == heading_of_delta(c[i].xy.x - from.xy.x, c[i].xy.y - from.xy.y)
            },
{
    let c = p.chain(grid, n);
    assert forall|i: int| 0 <= i < c.len() implies ({
        let from = chain_from(p, grid, n, i);
        &&& grid.free((#[trigger] c[i]).xy.x as int, c[i].xy.y as int)
        &&& c[i] != p.start
        &&& p.rec(grid, c[i]).came_from == Some(from)
        &&& cells_adjacent(from.xy.x as int, from.xy.y as int, c[i].xy.x as int, c[i].xy.y as int)
        &&& path_width_ok(grid, from.xy.x as int, from.xy.y as int, c[i].xy.x as int, c[i].xy.y as int)
        &&& c[i].h == heading_of_delta(c[i].xy.x - from.xy.x, c[i].xy.y - from.xy.y)
    }) by {
        lemma_chain_entry(p, grid, n, i);
    }
}

/// Walks the predecessor chain back from `end` and emits the route,
/// goal-first, one waypoint per chain entry, excluding the start cell.
#[verifier::rlimit(100)]
pub fn reconstruct_path(params: &AStarParams, end: NodeCoords, gridmap: &MovementGrid) -> (p: Vec<
    PathNode,
>)
    requires
        params.wf(*gridmap),
        AStarParams::node_in_bounds(*gridmap, end),
        params.visited(*gridmap, end),
    ensures
        p@ == params.route(*gridmap, end),
{
    let mut total_path: Vec<PathNode> = Vec::new();
    let mut current: NodeCoords = end;
    while current != params.start
        invariant
            params.wf(*gridmap),
            AStarParams::node_in_bounds(*gridmap, current),
            params.visited(*gridmap, current),
            params.route(*gridmap, end) == total_path@ + params.route(*gridmap, current),
        decreases params.rec(*gridmap, current).g_score,
    {
        let wp: WorldPos = gridmap.cell_to_world(current.xy);
        let ghost pre_path = total_path@;
        total_path.push(PathNode { xy: wp, h: current.h });
        let ti: usize = tindex_exec(gridmap, current);
        let r: AStarNode = params.movement_grid[ti];
        let pred: NodeCoords = match r.came_from {
            Some(q) => q,
            None => {
                proof {
                    assert(false);
                }
                current
            },
        };
        proof {
            assert(params.route(*gridmap, current) == seq![
                pathnode_of(gridmap.settings, current),
            ] + params.route(*gridmap, pred));
            assert(total_path@ + params.route(*gridmap, pred) =~= pre_path + params.route(
                *gridmap,
                current,
            ));
        }
        current = pred;
    }
    proof {
        assert(params.route(*gridmap, current).len() == 0);
        assert(total_path@ + params.route(*gridmap, current) =~= total_path@);
    }
    total_path
}

/// The score table a fresh search starts from: every state unvisited except
/// the start state, seeded at cost zero.
pub open spec fn init_table(grid: MovementGrid, s: NodeCoords, t: CellCoord) -> Seq<AStarNode> {
    Seq::new(
        (grid.settings.grid_width * grid.settings.grid_height * 8) as nat,
        |i: int|
            if i == tindex(grid.settings.grid_height as int, s) {
                AStarNode {
                    f_score: heuristic(
                        s.xy.x as int,
                        s.xy.y as int,
                        t.x as int,
                        t.y as int,
                    ) as i64,
                    g_score: 0,
                    came_from: None,
                }
            } else {
                AStarNode { f_score: UNVISITED, g_score: UNVISITED, came_from: None }
            },
    )
}

/// Accepts a move request: converts the unit's position and the requested
/// target to cells and seeds a search. A request whose start or target lies
/// off the grid is rejected with `CellOutOfBounds`; one whose start and
/// target share a cell is already satisfied and creates no search.
#[verifier::rlimit(100)]
pub fn a_star(gridmap: &MovementGrid, position: WorldPos, movcmd: &MoveCommand) -> (r: Result<
    MoveOutcome,
    NavError,
>)
    requires
        gridmap.wf(),
        -crate::environment::POS_BOUND <= position.x <= crate::environment::POS_BOUND,
        -crate::environment::POS_BOUND <= position.y <= crate::environment::POS_BOUND,
        -crate::environment::POS_BOUND <= movcmd.target.x <= crate::environment::POS_BOUND,
        -crate::environment::POS_BOUND <= movcmd.target.y <= crate::environment::POS_BOUND,
    ensures
        ({
            let sc = gridmap.settings.world_to_cell_spec(position.x as int, position.y as int);
            let tc = gridmap.settings.world_to_cell_spec(
                movcmd.target.x as int,
                movcmd.target.y as int,
            );
            match r {
                Err(e) => e == NavError::CellOutOfBounds && (sc is None || tc is None),
                Ok(MoveOutcome::Arrived) => sc is Some && tc is Some && sc == tc,
                Ok(MoveOutcome::Search(p)) => {
                    &&& sc is Some
                    &&& tc is Some
                    &&& sc != tc
                    &&& p.start.xy.x as int == sc.unwrap().0
                    &&& p.start.xy.y as int == sc.unwrap().1
                    &&& p.start.h == Heading::N
                    &&& p.target.x as int == tc.unwrap().0
                    &&& p.target.y as int == tc.unwrap().1
                    &&& p.movement_grid@ == init_table(*gridmap, p.start, p.target)
                    &&& p.open_set@ == seq![p.start]
                    &&& p.wf(*gridmap)
                    &&& search_inv(p.movement_grid@, p.open_set@, *gridmap, p.target)
                },
            }
        }),
{
    let start_c: CellCoord = match gridmap.world_to_cell(position) {
        Ok(c) => c,
        Err(e) => {
            return Err(e);
        },
    };
    let target_c: CellCoord = match gridmap.world_to_cell(movcmd.target) {
        Ok(c) => c,
        Err(e) => {
            return Err(e);
        },
    };
    if start_c == target_c {
        return Ok(MoveOutcome::Arrived);
    }
    let start_node = NodeCoords { xy: start_c, h: Heading::N };
    let w: usize = gridmap.settings.grid_width;
    let h: usize = gridmap.settings.grid_height;
    assert(w * h * 8 <= 134_217_728) by (nonlinear_arith)
        requires
            w <= 4096usize,
            h <= 4096usize,
    ;
    let len: usize = w * h * 8;
    let mut table: Vec<AStarNode> = Vec::new();
    let mut i: usize = 0;
    while i < len
        invariant
            i <= len,
            table@.len() == i,
            forall|k: int|
                0 <= k < i ==> #[trigger] table@[k] == (AStarNode {
                    f_score: UNVISITED,
                    g_score: UNVISITED,
                    came_from: None,
                }),
        decreases len - i,
    {
        table.push(AStarNode { f_score: UNVISITED, g_score: UNVISITED, came_from: None });
        i = i + 1;
    }
    let si: usize = tindex_exec(gridmap, start_node);
    let h0: i64 = heuristical_distance(start_node, NodeCoords { xy: target_c, h: Heading::N });
    table.set(si, AStarNode { f_score: h0, g_score: 0, came_from: None });
    let params = AStarParams {
        movement_grid: table,
        open_set: {
            let mut open: Vec<NodeCoords> = Vec::new();
            open.push(start_node);
            open
        },
        target: target_c,
        start: start_node,
    };
    proof {
        assert(params.movement_grid@ =~= init_table(*gridmap, start_node, target_c));
        assert(params.open_set@ =~= seq![start_node]);
        let height = gridmap.settings.grid_height as int;
        assert forall|n: NodeCoords|
            AStarParams::node_in_bounds(*gridmap, n) && #[trigger] tvisited(
                params.movement_grid@,
                height,
                n,
            ) && n != params.start implies tvalid_step(params.movement_grid@, *gridmap, n) by {
            lemma_tindex_range(gridmap.settings.grid_width as int, height, n);
            if tindex(height, n) == tindex(height, start_node) {
                lemma_tindex_injective(height, n, start_node);
                assert(false);
            } else {
                assert(params.rec(*gridmap, n).g_score == UNVISITED);
                assert(false);
            }
        }
    }
    proof {
        lemma_search_inv_init(*gridmap, start_node, target_c);
    }
    Ok(MoveOutcome::Search(params))
}

/// Selection order of the frontier: smaller f-score first, ties broken
/// lexicographically on cell x, cell y, then heading index, so selection is
/// deterministic.
pub open spec fn key_lt(table: Seq<AStarNode>, height: int, a: NodeCoords, b: NodeCoords) -> bool {
    let fa = table[tindex(height, a)].f_score;
    let fb = table[tindex(height, b)].f_score;
    ||| fa < fb
    ||| (fa == fb && (a.xy.x < b.xy.x || (a.xy.x == b.xy.x && (a.xy.y < b.xy.y || (a.xy.y
        == b.xy.y && a.h.index() < b.h.index())))))
}

/// Index of the best frontier member among the first `i`; the earliest of
/// several equal keys wins.
pub open spec fn best_in_prefix(
    table: Seq<AStarNode>,
    height: int,
    open: Seq<NodeCoords>,
    i: int,
) -> int
    decreases i,
{
    if i <= 1 {
        0
    } else {
        let b = best_in_prefix(table, height, open, i - 1);
        if key_lt(table, height, open[i - 1], open[b]) {
            i - 1
        } else {
            b
        }
    }
}

/// Index of the frontier member selected for expansion.
pub open spec fn best_index(table: Seq<AStarNode>, height: int, open: Seq<NodeCoords>) -> int {
    best_in_prefix(table, height, open, open.len() as int)
}

/// Compares two frontier members in selection order.
fn key_less(params: &AStarParams, gridmap: &MovementGrid, a: NodeCoords, b: NodeCoords) -> (r:
    bool)
    requires
        params.wf(*gridmap),
        AStarParams::node_in_bounds(*gridmap, a),
        AStarParams::node_in_bounds(*gridmap, b),
    ensures
        r == key_lt(params.movement_grid@, gridmap.settings.grid_height as int, a, b),
{
    let ia: usize = tindex_exec(gridmap, a);
    let ib: usize = tindex_exec(gridmap, b);
    let fa: i64 = params.movement_grid[ia].f_score;
    let fb: i64 = params.movement_grid[ib].f_score;
    fa < fb || (fa == fb && (a.xy.x < b.xy.x || (a.xy.x == b.xy.x && (a.xy.y < b.xy.y || (a.xy.y
        == b.xy.y && a.h.idx() < b.h.idx())))))
}

/// Picks the frontier member with the smallest key.
#[verifier::rlimit(100)]
fn select_best(params: &AStarParams, gridmap: &MovementGrid) -> (bi: usize)
    requires
        params.wf(*gridmap),
        params.open_set@.len() > 0,
    ensures
        bi < params.open_set@.len(),
        bi as int == best_index(
            params.movement_grid@,
            gridmap.settings.grid_height as int,
            params.open_set@,
        ),
{
    let ghost height = gridmap.settings.grid_height as int;
    let mut best: usize = 0;
    let mut i: usize = 1;
    while i < params.open_set.len()
        invariant
            params.wf(*gridmap),
            params.open_set@.len() > 0,
            1 <= i <= params.open_set@.len(),
            best < i,
            best as int == best_in_prefix(params.movement_grid@, height, params.open_set@, i as int),
            height == gridmap.settings.grid_height as int,
        decreases params.open_set@.len() - i,
    {
        let a: NodeCoords = params.open_set[i];
        let b: NodeCoords = params.open_set[best];
        let less: bool = key_less(params, gridmap, a, b);
        if less {
            best = i;
        }
        i = i + 1;
    }
    best
}

/// Whether relaxing `nb` through `cur` improves its stored cost: the state
/// is unvisited, or the new tentative cost beats the stored one.
pub open spec fn relax_updates(
    table: Seq<AStarNode>,
    height: int,
    cur: NodeCoords,
    g_cur: int,
    nb: NodeCoords,
) -> bool {
    let o = table[tindex(height, nb)];
    o.g_score < 0 || g_cur + move_cost(cur, nb) < o.g_score
}

/// The score table after relaxing `nb` through `cur`.
pub open spec fn relax_table(
    table: Seq<AStarNode>,
    height: int,
    cur: NodeCoords,
    g_cur: int,
    nb: NodeCoords,
    target: CellCoord,
) -> Seq<AStarNode> {
    if relax_updates(table, height, cur, g_cur, nb) {
        let t = g_cur + move_cost(cur, nb);
        let f = t + heuristic(nb.xy.x as int, nb.xy.y as int, target.x as int, target.y as int);
        table.update(
            tindex(height, nb),
            AStarNode { f_score: f as i64, g_score: t as i64, came_from: Some(cur) },
        )
    } else {
        table
    }
}

/// The frontier after relaxing `nb` through `cur`: `nb` joins it when its
/// cost improved and it is not already there.
pub open spec fn relax_open(
    table: Seq<AStarNode>,
    open: Seq<NodeCoords>,
    height: int,
    cur: NodeCoords,
    g_cur: int,
    nb: NodeCoords,
) -> Seq<NodeCoords> {
    if relax_updates(table, height, cur, g_cur, nb) && !open.contains(nb) {
        open.push(nb)
    } else {
        open
    }
}

/// The state after relaxing the first `i` neighbours in order.
pub open spec fn relax_fold(
    table: Seq<AStarNode>,
    open: Seq<NodeCoords>,
    height: int,
    cur: NodeCoords,
    g_cur: int,
    nbs: Seq<NodeCoords>,
    i: int,
    target: CellCoord,
) -> (Seq<AStarNode>, Seq<NodeCoords>)
    decreases i,
{
    if i <= 0 {
        (table, open)
    } else {
        let (t, o) = relax_fold(table, open, height, cur, g_cur, nbs, i - 1, target);
        (
            relax_table(t, height, cur, g_cur, nbs[i - 1], target),
            relax_open(t, o, height, cur, g_cur, nbs[i - 1]),
        )
    }
}

/// Relaxes one neighbour: updates its score record and the frontier exactly
/// as `relax_table` and `relax_open` state, and preserves the invariant.
#[verifier::rlimit(100)]
fn relax(
    params: &mut AStarParams,
    gridmap: &MovementGrid,
    cur: NodeCoords,
    g_cur: i64,
    nb: NodeCoords,
)
    requires
        old(params).wf(*gridmap),
        AStarParams::node_in_bounds(*gridmap, cur),
        old(params).visited(*gridmap, cur),
        0 <= g_cur <= G_CAP,
        g_cur == old(params).rec(*gridmap, cur).g_score,
        gridmap.free(nb.xy.x as int, nb.xy.y as int),
        cells_adjacent(cur.xy.x as int, cur.xy.y as int, nb.xy.x as int, nb.xy.y as int),
        path_width_ok(*gridmap, cur.xy.x as int, cur.xy.y as int, nb.xy.x as int, nb.xy.y as int),
        nb.h == heading_of_delta(nb.xy.x - cur.xy.x, nb.xy.y - cur.xy.y),
    ensures
        final(params).wf(*gridmap),
        final(params).start == old(params).start,
        final(params).target == old(params).target,
        final(params).movement_grid@ == relax_table(
            old(params).movement_grid@,
            gridmap.settings.grid_height as int,
            cur,
            g_cur as int,
            nb,
            old(params).target,
        ),
        final(params).open_set@ == relax_open(
            old(params).movement_grid@,
            old(params).open_set@,
            gridmap.settings.grid_height as int,
            cur,
            g_cur as int,
            nb,
        ),
        final(params).rec(*gridmap, cur) == old(params).rec(*gridmap, cur),
{
    let ghost height = gridmap.settings.grid_height as int;
    let ghost old_p = *old(params);
    proof {
        lemma_tindex_range(gridmap.settings.grid_width as int, height, nb);
        lemma_tindex_range(gridmap.settings.grid_width as int, height, cur);
        if tindex(height, cur) == tindex(height, nb) {
            lemma_tindex_injective(height, cur, nb);
        }
        assert(tindex(height, cur) != tindex(height, nb));
    }
    let ti: usize = tindex_exec(gridmap, nb);
    let old_rec: AStarNode = params.movement_grid[ti];
    let cost: i64 = inertia_based_inter_cell_movement(cur, nb);
    let tentative: i64 = g_cur + cost;
    if old_rec.g_score < 0 || tentative < old_rec.g_score {
        let hval: i64 = heuristical_distance(
            nb,
            NodeCoords { xy: params.target, h: Heading::N },
        );
        params.movement_grid.set(
            ti,
            AStarNode { f_score: tentative + hval, g_score: tentative, came_from: Some(cur) },
        );
        if !contains_node(&params.open_set, nb) {
            params.open_set.push(nb);
        }
        proof {
            lemma_relax_update_twf(
                old_p.movement_grid@,
                old_p.open_set@,
                *gridmap,
                old_p.start,
                old_p.target,
                cur,
                g_cur as int,
                nb,
            );
        }
    }
}

/// After an improving relaxation the search invariant still holds: the
/// score table keeps its well-formedness and the frontier its members'
/// visitedness.
#[verifier::rlimit(100)]
proof fn lemma_relax_update_twf(
    t0: Seq<AStarNode>,
    o0: Seq<NodeCoords>,
    grid: MovementGrid,
    start: NodeCoords,
    target: CellCoord,
    cur: NodeCoords,
    g_cur: int,
    nb: NodeCoords,
)
    requires
        twf(t0, grid, start),
        open_wf(t0, o0, grid),
        AStarParams::node_in_bounds(grid, cur),
        tvisited(t0, grid.settings.grid_height as int, cur),
        0 <= g_cur <= G_CAP,
        g_cur == trec(t0, grid.settings.grid_height as int, cur).g_score,
        grid.free(nb.xy.x as int, nb.xy.y as int),
        cells_adjacent(cur.xy.x as int, cur.xy.y as int, nb.xy.x as int, nb.xy.y as int),
        path_width_ok(grid, cur.xy.x as int, cur.xy.y as int, nb.xy.x as int, nb.xy.y as int),
        nb.h == heading_of_delta(nb.xy.x - cur.xy.x, nb.xy.y - cur.xy.y),
        relax_updates(t0, grid.settings.grid_height as int, cur, g_cur, nb),
    ensures
        twf(
            relax_table(t0, grid.settings.grid_height as int, cur, g_cur, nb, target),
            grid,
            start,
        ),
        open_wf(
            relax_table(t0, grid.settings.grid_height as int, cur, g_cur, nb, target),
            relax_open(t0, o0, grid.settings.grid_height as int, cur, g_cur, nb),
            grid,
        ),
{
    let height = grid.settings.grid_height as int;
    let width = grid.settings.grid_width as int;
    let t1 = relax_table(t0, height, cur, g_cur, nb, target);
    let o1 = relax_open(t0, o0, height, cur, g_cur, nb);
    let ti = tindex(height, nb);
    let t = g_cur + move_cost(cur, nb);
    lemma_tindex_range(width, height, nb);
    lemma_tindex_range(width, height, cur);
    lemma_tindex_range(width, height, start);
    // The step into nb costs at least one distance unit, so its new cost
    // exceeds its predecessor's and stays positive.
    assert(move_cost(cur, nb) >= 1000);
    // cur and nb sit in different cells, so cur's record is untouched.
    if tindex(height, cur) == ti {
        lemma_tindex_injective(height, cur, nb);
    }
    assert(tindex(height, cur) != ti);
    // The start state's record is untouched: an update to it would need a
    // negative stored score or a negative tentative score.
    if tindex(height, start) == ti {
        lemma_tindex_injective(height, start, nb);
        assert(trec(t0, height, nb).g_score == 0);
        assert(false);
    }
    assert(trec(t1, height, start) == trec(t0, height, start));
    assert(trec(t1, height, nb).g_score == t);
    assert(tvisited(t1, height, nb));
    // Every visited non-start state still records a valid step.
    assert forall|m: NodeCoords|
        AStarParams::node_in_bounds(grid, m) && #[trigger] tvisited(t1, height, m) && m
            != start implies tvalid_step(t1, grid, m) by {
        lemma_tindex_range(width, height, m);
        if tindex(height, m) == ti {
            lemma_tindex_injective(height, m, nb);
            assert(m == nb);
            assert(trec(t1, height, m).came_from == Some(cur));
            assert(trec(t1, height, cur) == trec(t0, height, cur));
            assert(trec(t1, height, cur).g_score == g_cur < t);
            assert(tvalid_step(t1, grid, m));
        } else {
            assert(trec(t1, height, m) == trec(t0, height, m));
            assert(tvisited(t0, height, m));
            assert(tvalid_step(t0, grid, m));
            let pr = trec(t0, height, m).came_from.unwrap();
            lemma_tindex_range(width, height, pr);
            if tindex(height, pr) == ti {
                lemma_tindex_injective(height, pr, nb);
                assert(pr == nb);
                // nb's stored cost only decreased, so it stays below m's.
                assert(trec(t0, height, nb).g_score >= 0);
                assert(t < trec(t0, height, nb).g_score);
                assert(trec(t1, height, pr).g_score < trec(t1, height, m).g_score);
                assert(tvisited(t1, height, pr));
            } else {
                assert(trec(t1, height, pr) == trec(t0, height, pr));
            }
            assert(tvalid_step(t1, grid, m));
        }
    }
    // Every frontier member is still in bounds and visited.
    assert forall|i: int|
        0 <= i < o1.len() implies AStarParams::node_in_bounds(grid, #[trigger] o1[i]) && tvisited(
        t1,
        height,
        o1[i],
    ) by {
        if i < o0.len() {
            assert(o1[i] == o0[i]);
            let m = o0[i];
            lemma_tindex_range(width, height, m);
            if tindex(height, m) == ti {
                lemma_tindex_injective(height, m, nb);
            } else {
                assert(trec(t1, height, m) == trec(t0, height, m));
            }
        } else {
            assert(o1[i] == nb);
        }
    }
}

/// The frontier member selected for expansion.
pub open spec fn selected(table: Seq<AStarNode>, height: int, open: Seq<NodeCoords>) -> NodeCoords {
    open[best_index(table, height, open)]
}

/// The state after one expansion step: nothing changes on an empty frontier
/// or when the target is selected; otherwise the selected state leaves the
/// frontier and its neighbours are relaxed in scan order.
pub open spec fn step_state(
    table: Seq<AStarNode>,
    open: Seq<NodeCoords>,
    target: CellCoord,
    grid: MovementGrid,
) -> (Seq<AStarNode>, Seq<NodeCoords>) {
    let height = grid.settings.grid_height as int;
    if open.len() == 0 {
        (table, open)
    } else {
        let bi = best_index(table, height, open);
        let cur = open[bi];
        if cur.xy == target {
            (table, open)
        } else {
            let open1 = open.remove(bi);
            let g_cur = trec(table, height, cur).g_score as int;
            if g_cur <= G_CAP {
                let nbs = neighbours_spec(grid, cur.xy.x as int, cur.xy.y as int);
                relax_fold(table, open1, height, cur, g_cur, nbs, nbs.len() as int, target)
            } else {
                (table, open1)
            }
        }
    }
}

/// Relaxes every neighbour of `cur` in scan order.
#[verifier::rlimit(100)]
fn expand_neighbours(params: &mut AStarParams, gridmap: &MovementGrid, cur: NodeCoords, g_cur: i64)
    requires
        old(params).wf(*gridmap),
        AStarParams::node_in_bounds(*gridmap, cur),
        old(params).visited(*gridmap, cur),
        0 <= g_cur <= G_CAP,
        g_cur == old(params).rec(*gridmap, cur).g_score,
    ensures
        final(params).wf(*gridmap),
        final(params).start == old(params).start,
        final(params).target == old(params).target,
        ({
            let nbs = neighbours_spec(*gridmap, cur.xy.x as int, cur.xy.y as int);
            let st = relax_fold(
                old(params).movement_grid@,
                old(params).open_set@,
                gridmap.settings.grid_height as int,
                cur,
                g_cur as int,
                nbs,
                nbs.len() as int,
                old(params).target,
            );
            final(params).movement_grid@ == st.0 && final(params).open_set@ == st.1
        }),
{
    let ghost height = gridmap.settings.grid_height as int;
    let ghost table0 = params.movement_grid@;
    let ghost open1 = params.open_set@;
    let ghost target0 = params.target;
    let nbs: Vec<NodeCoords> = get_neighbours(cur.xy, gridmap);
    proof {
        crate::movable::lemma_neighbour_props(*gridmap, cur.xy.x as int, cur.xy.y as int, 8);
    }
    let mut i: usize = 0;
    while i < nbs.len()
        invariant
            params.wf(*gridmap),
            params.start == old(params).start,
            params.target == target0,
            target0 == old(params).target,
            table0 == old(params).movement_grid@,
            open1 == old(params).open_set@,
            AStarParams::node_in_bounds(*gridmap, cur),
            0 <= g_cur <= G_CAP,
            g_cur == params.rec(*gridmap, cur).g_score,
            nbs@ == neighbours_spec(*gridmap, cur.xy.x as int, cur.xy.y as int),
            forall|k: int|
                0 <= k < nbs@.len() ==> {
                    let n = #[trigger] nbs@[k];
                    &&& gridmap.free(n.xy.x as int, n.xy.y as int)
                    &&& cells_adjacent(
                        cur.xy.x as int,
                        cur.xy.y as int,
                        n.xy.x as int,
                        n.xy.y as int,
                    )
                    &&& path_width_ok(
                        *gridmap,
                        cur.xy.x as int,
                        cur.xy.y as int,
                        n.xy.x as int,
                        n.xy.y as int,
                    )
                    &&& n.h == heading_of_delta(n.xy.x - cur.xy.x, n.xy.y - cur.xy.y)
                },
            i <= nbs@.len(),
            height == gridmap.settings.grid_height as int,
            params.movement_grid@ == relax_fold(
                table0,
                open1,
                height,
                cur,
                g_cur as int,
                nbs@,
                i as int,
                target0,
            ).0,
            params.open_set@ == relax_fold(
                table0,
                open1,
                height,
                cur,
                g_cur as int,
                nbs@,
                i as int,
                target0,
            ).1,
        decreases nbs@.len() - i,
    {
        let nb: NodeCoords = nbs[i];
        relax(params, gridmap, cur, g_cur, nb);
        i = i + 1;
    }
}

/// Expands the best frontier member once. The step is a mathematical
/// function of the search state: the new state equals `step_state` of the
/// old one, the step fails exactly on an exhausted frontier, succeeds
/// exactly when the selected member sits on the target cell, and a success
/// carries the route reconstructed from the predecessor chain.
#[verifier::rlimit(100)]
pub fn calculate_a_star(params: &mut AStarParams, gridmap: &MovementGrid) -> (status: SearchStatus)
    requires
        old(params).wf(*gridmap),
    ensures
        final(params).wf(*gridmap),
        final(params).start == old(params).start,
        final(params).target == old(params).target,
        final(params).movement_grid@ == step_state(
            old(params).movement_grid@,
            old(params).open_set@,
            old(params).target,
            *gridmap,
        ).0,
        final(params).open_set@ == step_state(
            old(params).movement_grid@,
            old(params).open_set@,
            old(params).target,
            *gridmap,
        ).1,
        (status is Failed) <==> old(params).open_set@.len() == 0,
        (status is Succeeded) <==> (old(params).open_set@.len() > 0 && selected(
            old(params).movement_grid@,
            gridmap.settings.grid_height as int,
            old(params).open_set@,
        ).xy == old(params).target),
        status matches SearchStatus::Succeeded(mp) ==> mp.path@ == route_of(
            old(params).movement_grid@,
            *gridmap,
            old(params).start,
            selected(
                old(params).movement_grid@,
                gridmap.settings.grid_height as int,
                old(params).open_set@,
            ),
        ),
        search_inv(
            old(params).movement_grid@,
            old(params).open_set@,
            *gridmap,
            old(params).target,
        ) && !(status is Succeeded) ==> search_inv(
            final(params).movement_grid@,
            final(params).open_set@,
            *gridmap,
            final(params).target,
        ),
{
    let ghost height = gridmap.settings.grid_height as int;
    let ghost table0 = params.movement_grid@;
    let ghost open0 = params.open_set@;
    let ghost target0 = params.target;
    if params.open_set.len() == 0 {
        return SearchStatus::Failed;
    }
    let bi: usize = select_best(params, gridmap);
    let cur: NodeCoords = params.open_set[bi];
    if cur.xy == params.target {
        let path: Vec<PathNode> = reconstruct_path(params, cur, gridmap);
        return SearchStatus::Succeeded(MovementPath { path });
    }
    let _ = params.open_set.remove(bi);
    proof {
        assert forall|j: int|
            0 <= j < params.open_set@.len() implies AStarParams::node_in_bounds(
            *gridmap,
            #[trigger] params.open_set@[j],
        ) && tvisited(params.movement_grid@, height, params.open_set@[j]) by {
            if j < bi {
                assert(params.open_set@[j] == open0[j]);
            } else {
                assert(params.open_set@[j] == open0[j + 1]);
            }
        }
    }
    let ti: usize = tindex_exec(gridmap, cur);
    let g_cur: i64 = params.movement_grid[ti].g_score;
    if g_cur <= G_CAP {
        expand_neighbours(params, gridmap, cur, g_cur);
    }
    proof {
        if search_inv(table0, open0, *gridmap, target0) {
            lemma_search_inv_step(table0, open0, *gridmap, target0);
        }
    }
    SearchStatus::InProgress
}

/// Whether a search from this state reaches the target within `fuel`
/// expansion steps.
pub open spec fn run_found(
    table: Seq<AStarNode>,
    open: Seq<NodeCoords>,
    target: CellCoord,
    grid: MovementGrid,
    fuel: nat,
) -> bool
    decreases fuel,
{
    let height = grid.settings.grid_height as int;
    if open.len() == 0 {
        false
    } else if selected(table, height, open).xy == target {
        true
    } else if fuel == 0 {
        false
    } else {
        let st = step_state(table, open, target, grid);
        run_found(st.0, st.1, target, grid, (fuel - 1) as nat)
    }
}

/// The route a search from this state hands back when it reaches the target
/// within `fuel` expansion steps; empty otherwise.
pub open spec fn run_route(
    table: Seq<AStarNode>,
    open: Seq<NodeCoords>,
    target: CellCoord,
    grid: MovementGrid,
    start: NodeCoords,
    fuel: nat,
) -> Seq<PathNode>
    decreases fuel,
{
    let height = grid.settings.grid_height as int;
    if open.len() == 0 {
        Seq::empty()
    } else if selected(table, height, open).xy == target {
        route_of(table, grid, start, selected(table, height, open))
    } else if fuel == 0 {
        Seq::empty()
    } else {
        let st = step_state(table, open, target, grid);
        run_route(st.0, st.1, target, grid, start, (fuel - 1) as nat)
    }
}

/// Drives a search to an outcome, spending at most `max_steps` expansions
/// beyond the terminal one: the bounded-termination discipline that turns an
/// overlong search into `PathNotFound` instead of running forever. The
/// outcome is a mathematical function of the starting state: `Ok` exactly
/// when `run_found` holds, and the route equals `run_route`.
#[verifier::rlimit(100)]
pub fn run_search(params: &mut AStarParams, gridmap: &MovementGrid, max_steps: u64) -> (r: Result<
    MovementPath,
    NavError,
>)
    requires
        old(params).wf(*gridmap),
    ensures
        final(params).wf(*gridmap),
        r is Ok <==> run_found(
            old(params).movement_grid@,
            old(params).open_set@,
            old(params).target,
            *gridmap,
            max_steps as nat,
        ),
        r matches Ok(mp) ==> mp.path@ == run_route(
            old(params).movement_grid@,
            old(params).open_set@,
            old(params).target,
            *gridmap,
            old(params).start,
            max_steps as nat,
        ),
        r matches Err(e) ==> e == NavError::PathNotFound,
        search_inv(
            old(params).movement_grid@,
            old(params).open_set@,
            *gridmap,
            old(params).target,
        ) && r is Err ==> search_inv(
            final(params).movement_grid@,
            final(params).open_set@,
            *gridmap,
            final(params).target,
        ),
{
    let ghost table0 = old(params).movement_grid@;
    let ghost open0 = old(params).open_set@;
    let ghost target0 = old(params).target;
    let ghost start0 = old(params).start;
    let mut steps: u64 = max_steps;
    loop
        invariant
            params.wf(*gridmap),
            params.start == start0,
            params.target == target0,
            steps <= max_steps,
            table0 == old(params).movement_grid@,
            open0 == old(params).open_set@,
            target0 == old(params).target,
            start0 == old(params).start,
            search_inv(table0, open0, *gridmap, target0) ==> search_inv(
                params.movement_grid@,
                params.open_set@,
                *gridmap,
                target0,
            ),
            run_found(table0, open0, target0, *gridmap, max_steps as nat) == run_found(
                params.movement_grid@,
                params.open_set@,
                target0,
                *gridmap,
                steps as nat,
            ),
            run_route(table0, open0, target0, *gridmap, start0, max_steps as nat) == run_route(
                params.movement_grid@,
                params.open_set@,
                target0,
                *gridmap,
                start0,
                steps as nat,
            ),
        decreases steps,
    {
        let ghost tb = params.movement_grid@;
        let ghost ob = params.open_set@;
        let ghost height = gridmap.settings.grid_height as int;
        match calculate_a_star(params, gridmap) {
            SearchStatus::Succeeded(mp) => {
                proof {
                    assert(selected(tb, height, ob).xy == target0);
                    assert(run_found(tb, ob, target0, *gridmap, steps as nat));
                    assert(run_route(tb, ob, target0, *gridmap, start0, steps as nat) == route_of(
                        tb,
                        *gridmap,
                        start0,
                        selected(tb, height, ob),
                    ));
                }
                return Ok(mp);
            },
            SearchStatus::Failed => {
                proof {
                    assert(ob.len() == 0);
                    assert(!run_found(tb, ob, target0, *gridmap, steps as nat));
                }
                return Err(NavError::PathNotFound);
            },
            SearchStatus::InProgress => {
                proof {
                    assert(ob.len() > 0);
                    assert(selected(tb, height, ob).xy != target0);
                }
                if steps == 0 {
                    proof {
                        assert(!run_found(tb, ob, target0, *gridmap, 0nat));
                    }
                    return Err(NavError::PathNotFound);
                }
                proof {
                    let st = step_state(tb, ob, target0, *gridmap);
                    assert(params.movement_grid@ == st.0 && params.open_set@ == st.1);
                    assert(run_found(tb, ob, target0, *gridmap, steps as nat) == run_found(
                        st.0,
                        st.1,
                        target0,
                        *gridmap,
                        (steps - 1) as nat,
                    ));
                    assert(run_route(tb, ob, target0, *gridmap, start0, steps as nat) == run_route(
                        st.0,
                        st.1,
                        target0,
                        *gridmap,
                        start0,
                        (steps - 1) as nat,
                    ));
                }
                steps = steps - 1;
            },
        }
    }
}

/// Path computation is deterministic: two searches whose states agree — the
/// same score table, frontier, start and target, over the same grid — reach
/// the same outcome and hand back the identical waypoint sequence, for any
/// step budget. Together with the contracts of `a_star` (which pins the
/// created state to the request) and `run_search` (which pins the outcome to
/// the state), running an unchanged request twice yields identical routes.
pub proof fn lemma_search_deterministic(
    p1: AStarParams,
    p2: AStarParams,
    grid: MovementGrid,
    fuel: nat,
)
    requires
        p1.movement_grid@ == p2.movement_grid@,
        p1.open_set@ == p2.open_set@,
        p1.target == p2.target,
        p1.start == p2.start,
    ensures
        run_found(p1.movement_grid@, p1.open_set@, p1.target, grid, fuel) == run_found(
            p2.movement_grid@,
            p2.open_set@,
            p2.target,
            grid,
            fuel,
        ),
        run_route(p1.movement_grid@, p1.open_set@, p1.target, grid, p1.start, fuel) == run_route(
            p2.movement_grid@,
            p2.open_set@,
            p2.target,
            grid,
            p2.start,
            fuel,
        ),
{
}

/// The frontier holds no state twice.
pub open spec fn no_dup(open: Seq<NodeCoords>) -> bool {
    forall|i: int, j: int|
        #![trigger open[i], open[j]]
        0 <= i < j < open.len() ==> open[i] != open[j]
}

/// A state is fully relaxed: every neighbour of its cell has been reached
/// at no more than this state's cost plus the connecting step's cost.
pub open spec fn relaxed_at(table: Seq<AStarNode>, grid: MovementGrid, n: NodeCoords) -> bool {
    let height = grid.settings.grid_height as int;
    forall|k: int|
        0 <= k < neighbours_spec(grid, n.xy.x as int, n.xy.y as int).len() ==> {
            let nb = #[trigger] neighbours_spec(grid, n.xy.x as int, n.xy.y as int)[k];
            &&& tvisited(table, height, nb)
            &&& trec(table, height, nb).g_score <= trec(table, height, n).g_score + move_cost(
                n,
                nb,
            )
        }
}

/// The exhaustion invariant, which `a_star` establishes and every expansion
/// step preserves: the frontier has no duplicates, every reached state on
/// the target cell still sits in the frontier, and every reached state
/// outside the frontier has been fully relaxed. When the frontier empties,
/// the reached states are therefore closed under taking neighbours and none
/// of them sits on the target cell — the grounds on which a failed search
/// proves the target unreachable (`lemma_failed_search_has_no_route`).
pub open spec fn search_inv(
    table: Seq<AStarNode>,
    open: Seq<NodeCoords>,
    grid: MovementGrid,
    target: CellCoord,
) -> bool {
    let height = grid.settings.grid_height as int;
    &&& no_dup(open)
    &&& forall|n: NodeCoords|
        n.xy == target && AStarParams::node_in_bounds(grid, n) && #[trigger] tvisited(
            table,
            height,
            n,
        ) ==> open.contains(n)
    &&& forall|n: NodeCoords|
        AStarParams::node_in_bounds(grid, n) && #[trigger] tvisited(table, height, n)
            && !open.contains(n) && trec(table, height, n).g_score <= G_CAP ==> relaxed_at(
            table,
            grid,
            n,
        )
}

/// Every step between adjacent cells costs at least one distance unit and
/// at most `MAX_STEP_COST`.
pub proof fn lemma_move_cost_range(from: NodeCoords, to: NodeCoords)
    ensures
        1000 <= move_cost(from, to) <= MAX_STEP_COST,
{
}

/// A fresh search satisfies the exhaustion invariant.
pub proof fn lemma_search_inv_init(grid: MovementGrid, s: NodeCoords, t: CellCoord)
    requires
        grid.wf(),
        AStarParams::node_in_bounds(grid, s),
        s.xy != t,
    ensures
        search_inv(init_table(grid, s, t), seq![s], grid, t),
{
    let table = init_table(grid, s, t);
    let open: Seq<NodeCoords> = seq![s];
    let height = grid.settings.grid_height as int;
    assert(open[0] == s);
    assert(open.contains(s));
    assert forall|n: NodeCoords|
        AStarParams::node_in_bounds(grid, n) && #[trigger] tvisited(table, height, n) implies open
        .contains(n) by {
        lemma_tindex_range(grid.settings.grid_width as int, height, n);
        if tindex(height, n) == tindex(height, s) {
            lemma_tindex_injective(height, n, s);
        } else {
            assert(trec(table, height, n).g_score == UNVISITED);
        }
    }
}

/// The fold state after relaxing the first `i` neighbours of `cur`.
pub open spec fn folded(
    t0: Seq<AStarNode>,
    o0: Seq<NodeCoords>,
    grid: MovementGrid,
    cur: NodeCoords,
    g_cur: int,
    i: int,
    target: CellCoord,
) -> (Seq<AStarNode>, Seq<NodeCoords>) {
    relax_fold(
        t0,
        o0,
        grid.settings.grid_height as int,
        cur,
        g_cur,
        neighbours_spec(grid, cur.xy.x as int, cur.xy.y as int),
        i,
        target,
    )
}

/// Relaxation never discards a reached state and never worsens a cost.
pub open spec fn table_monotone(t0: Seq<AStarNode>, t1: Seq<AStarNode>) -> bool {
    &&& t1.len() == t0.len()
    &&& forall|j: int|
        #![trigger t1[j]]
        0 <= j < t0.len() && t0[j].g_score >= 0 ==> 0 <= t1[j].g_score <= t0[j].g_score
}

/// The first `i` neighbours of `cur` have been reached at no more than
/// `g_cur` plus their step's cost.
pub open spec fn prefix_relaxed(
    t1: Seq<AStarNode>,
    grid: MovementGrid,
    cur: NodeCoords,
    g_cur: int,
    i: int,
) -> bool {
    let height = grid.settings.grid_height as int;
    forall|k: int|
        0 <= k < i ==> {
            let nb = #[trigger] neighbours_spec(grid, cur.xy.x as int, cur.xy.y as int)[k];
            &&& tvisited(t1, height, nb)
            &&& trec(t1, height, nb).g_score <= g_cur + move_cost(cur, nb)
        }
}

/// Every state whose record the fold changed sits in the fold's frontier.
pub open spec fn changed_states_in_open(
    t0: Seq<AStarNode>,
    t1: Seq<AStarNode>,
    o1: Seq<NodeCoords>,
    grid: MovementGrid,
) -> bool {
    let height = grid.settings.grid_height as int;
    forall|m: NodeCoords|
        AStarParams::node_in_bounds(grid, m) && #[trigger] trec(t1, height, m) != trec(
            t0,
            height,
            m,
        ) ==> o1.contains(m)
}

/// What one expansion's relaxation fold does to the score table and the
/// frontier, proved by induction over the neighbour prefix.
#[verifier::rlimit(100)]
pub proof fn lemma_fold_props(
    t0: Seq<AStarNode>,
    o0: Seq<NodeCoords>,
    grid: MovementGrid,
    cur: NodeCoords,
    g_cur: int,
    i: int,
    target: CellCoord,
)
    requires
        grid.wf(),
        t0.len() == grid.settings.grid_width * grid.settings.grid_height * 8,
        AStarParams::node_in_bounds(grid, cur),
        0 <= g_cur <= G_CAP,
        0 <= i <= neighbours_spec(grid, cur.xy.x as int, cur.xy.y as int).len(),
        no_dup(o0),
    ensures
        folded(t0, o0, grid, cur, g_cur, i, target).0.len() == t0.len(),
        trec(
            folded(t0, o0, grid, cur, g_cur, i, target).0,
            grid.settings.grid_height as int,
            cur,
        ) == trec(t0, grid.settings.grid_height as int, cur),
        table_monotone(t0, folded(t0, o0, grid, cur, g_cur, i, target).0),
        prefix_relaxed(folded(t0, o0, grid, cur, g_cur, i, target).0, grid, cur, g_cur, i),
        forall|x: NodeCoords|
            o0.contains(x) ==> #[trigger] folded(t0, o0, grid, cur, g_cur, i, target).1.contains(
                x,
            ),
        changed_states_in_open(
            t0,
            folded(t0, o0, grid, cur, g_cur, i, target).0,
            folded(t0, o0, grid, cur, g_cur, i, target).1,
            grid,
        ),
        no_dup(folded(t0, o0, grid, cur, g_cur, i, target).1),
    decreases i,
{
    let height = grid.settings.grid_height as int;
    let width = grid.settings.grid_width as int;
    let nbs = neighbours_spec(grid, cur.xy.x as int, cur.xy.y as int);
    crate::movable::lemma_neighbour_props(grid, cur.xy.x as int, cur.xy.y as int, 8);
    lemma_tindex_range(width, height, cur);
    if i == 0 {
    } else {
        lemma_fold_props(t0, o0, grid, cur, g_cur, i - 1, target);
        let prev = folded(t0, o0, grid, cur, g_cur, i - 1, target);
        let st = folded(t0, o0, grid, cur, g_cur, i, target);
        let nb = nbs[i - 1];
        lemma_tindex_range(width, height, nb);
        let ti = tindex(height, nb);
        lemma_move_cost_range(cur, nb);
        let tent = g_cur + move_cost(cur, nb);
        // cur and nb occupy different cells, hence different slots.
        if tindex(height, cur) == ti {
            lemma_tindex_injective(height, cur, nb);
        }
        assert(tindex(height, cur) != ti);
        let upd = relax_updates(prev.0, height, cur, g_cur, nb);
        assert(st.0 == relax_table(prev.0, height, cur, g_cur, nb, target));
        assert(st.1 == relax_open(prev.0, prev.1, height, cur, g_cur, nb));
        if upd {
            assert(st.0 == prev.0.update(
                ti,
                AStarNode {
                    f_score: (tent + heuristic(
                        nb.xy.x as int,
                        nb.xy.y as int,
                        target.x as int,
                        target.y as int,
                    )) as i64,
                    g_score: tent as i64,
                    came_from: Some(cur),
                },
            ));
            assert(trec(st.0, height, nb).g_score == tent);
        } else {
            assert(st.0 == prev.0);
        }
        // The frontier only ever grows.
        assert forall|x: NodeCoords| prev.1.contains(x) implies st.1.contains(x) by {
            let w = choose|w: int| 0 <= w < prev.1.len() && prev.1[w] == x;
            assert(st.1[w] == x);
        }
        if upd && !prev.1.contains(nb) {
            assert(st.1 == prev.1.push(nb));
            assert(st.1[st.1.len() - 1] == nb);
            assert(st.1.contains(nb));
        }
        if upd {
            assert(st.1.contains(nb));
        }
        // The prefix stays relaxed: the new neighbour exactly, earlier ones
        // because a relaxation never raises a cost.
        assert forall|k: int| 0 <= k < i implies {
            let nbk = #[trigger] nbs[k];
            &&& tvisited(st.0, height, nbk)
            &&& trec(st.0, height, nbk).g_score <= g_cur + move_cost(cur, nbk)
        } by {
            let nbk = nbs[k];
            lemma_tindex_range(width, height, nbk);
            if tindex(height, nbk) == ti {
                lemma_tindex_injective(height, nbk, nb);
                assert(nbk == nb);
                if upd {
                } else {
                    assert(trec(prev.0, height, nb).g_score >= 0);
                    assert(trec(prev.0, height, nb).g_score <= tent);
                }
            } else {
                assert(trec(st.0, height, nbk) == trec(prev.0, height, nbk));
                assert(k < i - 1);
            }
        }
        // Changed records are always covered by the frontier.
        assert forall|m: NodeCoords|
            AStarParams::node_in_bounds(grid, m) && trec(st.0, height, m) != trec(
                t0,
                height,
                m,
            ) implies st.1.contains(m) by {
            lemma_tindex_range(width, height, m);
            if tindex(height, m) == ti && upd {
                lemma_tindex_injective(height, m, nb);
                assert(st.1.contains(nb));
            } else {
                assert(trec(st.0, height, m) == trec(prev.0, height, m));
                assert(prev.1.contains(m));
            }
        }
        // No duplicates: a push happens only when the state is absent.
        assert forall|a: int, b: int|
            #![trigger st.1[a], st.1[b]]
            0 <= a < b < st.1.len() implies st.1[a] != st.1[b] by {
            if b < prev.1.len() {
            } else {
                assert(st.1 == prev.1.push(nb));
                assert(!prev.1.contains(nb));
                assert(st.1[b] == nb);
                if prev.1[a] == nb {
                    assert(prev.1.contains(nb));
                }
            }
        }
    }
}

/// `best_in_prefix` picks inside the prefix.
pub proof fn lemma_best_in_prefix_range(
    table: Seq<AStarNode>,
    height: int,
    open: Seq<NodeCoords>,
    i: int,
)
    requires
        1 <= i,
    ensures
        0 <= best_in_prefix(table, height, open, i) < i,
    decreases i,
{
    if i > 1 {
        lemma_best_in_prefix_range(table, height, open, i - 1);
    }
}

/// Every frontier member is in bounds and reached: the part of the search
/// invariant that `selected` and expansion rely on.
pub open spec fn open_wf(table: Seq<AStarNode>, open: Seq<NodeCoords>, grid: MovementGrid) -> bool {
    forall|i: int|
        0 <= i < open.len() ==> AStarParams::node_in_bounds(grid, #[trigger] open[i]) && tvisited(
            table,
            grid.settings.grid_height as int,
            open[i],
        )
}

/// One expansion step preserves the exhaustion invariant.
#[verifier::rlimit(100)]
pub proof fn lemma_search_inv_step(
    t: Seq<AStarNode>,
    o: Seq<NodeCoords>,
    grid: MovementGrid,
    target: CellCoord,
)
    requires
        grid.wf(),
        t.len() == grid.settings.grid_width * grid.settings.grid_height * 8,
        open_wf(t, o, grid),
        search_inv(t, o, grid, target),
        o.len() > 0,
        selected(t, grid.settings.grid_height as int, o).xy != target,
    ensures
        search_inv(
            step_state(t, o, target, grid).0,
            step_state(t, o, target, grid).1,
            grid,
            target,
        ),
{
    let height = grid.settings.grid_height as int;
    let width = grid.settings.grid_width as int;
    lemma_best_in_prefix_range(t, height, o, o.len() as int);
    let bi = best_index(t, height, o);
    let cur = o[bi];
    assert(AStarParams::node_in_bounds(grid, cur) && tvisited(t, height, cur));
    let o1 = o.remove(bi);
    // Removal facts: the frontier minus one occurrence of `cur`.
    assert forall|a: int, b: int|
        #![trigger o1[a], o1[b]]
        0 <= a < b < o1.len() implies o1[a] != o1[b] by {
        let wa = if a < bi {
            a
        } else {
            a + 1
        };
        let wb = if b < bi {
            b
        } else {
            b + 1
        };
        assert(o1[a] == o[wa] && o1[b] == o[wb]);
    }
    assert forall|x: NodeCoords| o.contains(x) && x != cur implies o1.contains(x) by {
        let w = choose|w: int| 0 <= w < o.len() && o[w] == x;
        if w < bi {
            assert(o1[w] == x);
        } else {
            assert(w > bi);
            assert(o1[w - 1] == x);
        }
    }
    assert forall|x: NodeCoords| o1.contains(x) implies o.contains(x) by {
        let w = choose|w: int| 0 <= w < o1.len() && o1[w] == x;
        if w < bi {
            assert(o[w] == x);
        } else {
            assert(o[w + 1] == x);
        }
    }
    assert(!o1.contains(cur)) by {
        if o1.contains(cur) {
            let w = choose|w: int| 0 <= w < o1.len() && o1[w] == cur;
            let wo = if w < bi {
                w
            } else {
                w + 1
            };
            assert(o[wo] == cur && wo != bi);
            assert(o[bi] == cur);
        }
    }
    let g_cur = trec(t, height, cur).g_score as int;
    let nbs = neighbours_spec(grid, cur.xy.x as int, cur.xy.y as int);
    crate::movable::lemma_neighbour_props(grid, cur.xy.x as int, cur.xy.y as int, 8);
    let st = step_state(t, o, target, grid);
    if g_cur <= G_CAP {
        lemma_fold_props(t, o1, grid, cur, g_cur, nbs.len() as int, target);
        assert(st == folded(t, o1, grid, cur, g_cur, nbs.len() as int, target));
        // Reached target states still sit in the frontier.
        assert forall|m: NodeCoords|
            m.xy == target && AStarParams::node_in_bounds(grid, m) && #[trigger] tvisited(
                st.0,
                height,
                m,
            ) implies st.1.contains(m) by {
            lemma_tindex_range(width, height, m);
            if trec(st.0, height, m) != trec(t, height, m) {
                assert(st.1.contains(m));
            } else {
                assert(tvisited(t, height, m));
                assert(o.contains(m));
                assert(m != cur);
                assert(o1.contains(m));
            }
        }
        // Reached states outside the frontier are fully relaxed.
        assert forall|m: NodeCoords|
            AStarParams::node_in_bounds(grid, m) && #[trigger] tvisited(st.0, height, m)
                && !st.1.contains(m) && trec(st.0, height, m).g_score <= G_CAP implies relaxed_at(
            st.0,
            grid,
            m,
        ) by {
            lemma_tindex_range(width, height, m);
            assert(!o1.contains(m));
            assert(trec(st.0, height, m) == trec(t, height, m));
            if m == cur {
                assert(trec(st.0, height, cur).g_score == g_cur);
                assert(prefix_relaxed(st.0, grid, cur, g_cur, nbs.len() as int));
                assert forall|k: int|
                    0 <= k < neighbours_spec(grid, m.xy.x as int, m.xy.y as int).len() implies {
                    let nb = #[trigger] neighbours_spec(grid, m.xy.x as int, m.xy.y as int)[k];
                    &&& tvisited(st.0, height, nb)
                    &&& trec(st.0, height, nb).g_score <= trec(st.0, height, m).g_score
                        + move_cost(m, nb)
                } by {}
            } else {
                assert(!o.contains(m));
                assert(tvisited(t, height, m));
                assert(relaxed_at(t, grid, m));
                crate::movable::lemma_neighbour_props(grid, m.xy.x as int, m.xy.y as int, 8);
                assert forall|k: int|
                    0 <= k < neighbours_spec(grid, m.xy.x as int, m.xy.y as int).len() implies {
                    let nb = #[trigger] neighbours_spec(grid, m.xy.x as int, m.xy.y as int)[k];
                    &&& tvisited(st.0, height, nb)
                    &&& trec(st.0, height, nb).g_score <= trec(st.0, height, m).g_score
                        + move_cost(m, nb)
                } by {
                    let nb = neighbours_spec(grid, m.xy.x as int, m.xy.y as int)[k];
                    lemma_tindex_range(width, height, nb);
                    assert(tvisited(t, height, nb));
                    assert(trec(t, height, nb).g_score <= trec(t, height, m).g_score + move_cost(
                        m,
                        nb,
                    ));
                }
            }
        }
    } else {
        assert(st.0 == t && st.1 == o1);
        assert forall|m: NodeCoords|
            m.xy == target && AStarParams::node_in_bounds(grid, m) && #[trigger] tvisited(
                st.0,
                height,
                m,
            ) implies st.1.contains(m) by {
            assert(o.contains(m));
            assert(m != cur);
        }
        assert forall|m: NodeCoords|
            AStarParams::node_in_bounds(grid, m) && #[trigger] tvisited(st.0, height, m)
                && !st.1.contains(m) && trec(st.0, height, m).g_score <= G_CAP implies relaxed_at(
            st.0,
            grid,
            m,
        ) by {
            if m == cur {
                assert(trec(t, height, cur).g_score > G_CAP);
            } else {
                assert(!o.contains(m));
            }
        }
    }
}

/// A walk over the grid: a sequence of cells in which each cell is a legal
/// neighbour step from the one before it (in bounds, free, and not cutting
/// a blocked corner).
pub open spec fn is_walk(grid: MovementGrid, cells: Seq<CellCoord>) -> bool {
    forall|i: int|
        #![trigger cells[i]]
        0 <= i < cells.len() - 1 ==> neighbours_spec(
            grid,
            cells[i].x as int,
            cells[i].y as int,
        ).contains(
            NodeCoords {
                xy: cells[i + 1],
                h: heading_of_delta(cells[i + 1].x - cells[i].x, cells[i + 1].y - cells[i].y),
            },
        )
}

/// The search state that entering step `i` of a walk creates: the start
/// state itself, or the stepped-onto cell with the step's heading.
pub open spec fn walk_node(start: NodeCoords, cells: Seq<CellCoord>, i: int) -> NodeCoords {
    if i == 0 {
        start
    } else {
        NodeCoords {
            xy: cells[i],
            h: heading_of_delta(cells[i].x - cells[i - 1].x, cells[i].y - cells[i - 1].y),
        }
    }
}

/// Against an exhausted frontier, every prefix of a walk from the start has
/// been reached, at a cost bounded by the number of steps taken.
proof fn lemma_walk_reached(
    t: Seq<AStarNode>,
    grid: MovementGrid,
    start: NodeCoords,
    target: CellCoord,
    cells: Seq<CellCoord>,
    i: int,
)
    requires
        twf(t, grid, start),
        search_inv(t, Seq::<NodeCoords>::empty(), grid, target),
        is_walk(grid, cells),
        cells.len() >= 1,
        cells[0] == start.xy,
        cells.len() * MAX_STEP_COST <= G_CAP,
        0 <= i < cells.len(),
    ensures
        AStarParams::node_in_bounds(grid, walk_node(start, cells, i)),
        tvisited(t, grid.settings.grid_height as int, walk_node(start, cells, i)),
        trec(t, grid.settings.grid_height as int, walk_node(start, cells, i)).g_score <= i
            * MAX_STEP_COST,
    decreases i,
{
    let height = grid.settings.grid_height as int;
    if i == 0 {
        assert(trec(t, height, start).g_score == 0);
        assert(0 * MAX_STEP_COST == 0);
    } else {
        lemma_walk_reached(t, grid, start, target, cells, i - 1);
        let prev = walk_node(start, cells, i - 1);
        let n = walk_node(start, cells, i);
        assert(n.xy == cells[i] && prev.xy == cells[i - 1]);
        // The walk's step i is a listed neighbour of the previous cell.
        assert(neighbours_spec(grid, prev.xy.x as int, prev.xy.y as int).contains(n));
        let k = choose|k: int|
            0 <= k < neighbours_spec(grid, prev.xy.x as int, prev.xy.y as int).len()
                && neighbours_spec(grid, prev.xy.x as int, prev.xy.y as int)[k] == n;
        // The previous state sits outside the (empty) frontier and its cost
        // is far below the cap, so it has been fully relaxed.
        assert(!Seq::<NodeCoords>::empty().contains(prev));
        assert((i - 1) * MAX_STEP_COST <= cells.len() * MAX_STEP_COST - MAX_STEP_COST)
            by (nonlinear_arith)
            requires
                i < cells.len(),
                MAX_STEP_COST > 0,
        ;
        assert(trec(t, height, prev).g_score <= G_CAP);
        assert(relaxed_at(t, grid, prev));
        assert(tvisited(t, height, n) && trec(t, height, n).g_score <= trec(
            t,
            height,
            prev,
        ).g_score + move_cost(prev, n));
        lemma_move_cost_range(prev, n);
        assert(trec(t, height, n).g_score <= (i - 1) * MAX_STEP_COST + MAX_STEP_COST);
        assert((i - 1) * MAX_STEP_COST + MAX_STEP_COST == i * MAX_STEP_COST) by (nonlinear_arith);
        crate::movable::lemma_neighbour_props(grid, prev.xy.x as int, prev.xy.y as int, 8);
        assert(grid.free(n.xy.x as int, n.xy.y as int));
    }
}

/// A search that fails — its frontier exhausted with the target never
/// selected — proves the target unreachable: every walk of legal neighbour
/// steps out of the start cell (of any length whose total cost fits under
/// `G_CAP`, which any simple walk on a bounded grid does by a wide margin)
/// ends somewhere other than the target cell.
pub proof fn lemma_failed_search_has_no_route(
    t: Seq<AStarNode>,
    grid: MovementGrid,
    start: NodeCoords,
    target: CellCoord,
    cells: Seq<CellCoord>,
)
    requires
        twf(t, grid, start),
        search_inv(t, Seq::<NodeCoords>::empty(), grid, target),
        is_walk(grid, cells),
        cells.len() >= 1,
        cells[0] == start.xy,
        cells.len() * MAX_STEP_COST <= G_CAP,
    ensures
        cells.last() != target,
{
    let height = grid.settings.grid_height as int;
    let last = cells.len() - 1;
    lemma_walk_reached(t, grid, start, target, cells, last);
    let n = walk_node(start, cells, last);
    if n.xy == target {
        assert(Seq::<NodeCoords>::empty().contains(n));
    }
}

/// The `j`-th candidate step, once accepted, stays in every longer
/// neighbour prefix.
proof fn lemma_accepted_step_is_listed(
    grid: MovementGrid,
    cx: int,
    cy: int,
    k: int,
    j: int,
)
    requires
        0 <= k < j <= 8,
        neighbour_ok(
            grid,
            cx,
            cy,
            crate::movable::delta_list()[k].0,
            crate::movable::delta_list()[k].1,
        ),
    ensures
        neighbours_up_to(grid, cx, cy, j).contains(
            crate::movable::mk_neighbour(
                cx,
                cy,
                crate::movable::delta_list()[k].0,
                crate::movable::delta_list()[k].1,
            ),
        ),
    decreases j,
{
    let d = crate::movable::delta_list()[k];
    let n = crate::movable::mk_neighbour(cx, cy, d.0, d.1);
    if j == k + 1 {
        let prev = neighbours_up_to(grid, cx, cy, k);
        assert(neighbours_up_to(grid, cx, cy, j) == prev.push(n));
        assert(neighbours_up_to(grid, cx, cy, j)[prev.len() as int] == n);
    } else {
        lemma_accepted_step_is_listed(grid, cx, cy, k, j - 1);
        let prev = neighbours_up_to(grid, cx, cy, j - 1);
        let w = choose|w: int| 0 <= w < prev.len() && prev[w] == n;
        assert(neighbours_up_to(grid, cx, cy, j)[w] == n);
    }
}

/// The neighbour enumeration is complete: every legal step — to a free,
/// adjacent cell, not cutting a blocked corner, carrying the step's heading
/// — appears in `neighbours_spec`.
pub proof fn lemma_neighbours_complete(grid: MovementGrid, cx: int, cy: int, nb: NodeCoords)
    requires
        grid.wf(),
        grid.in_bounds(cx, cy),
        grid.free(nb.xy.x as int, nb.xy.y as int),
        cells_adjacent(cx, cy, nb.xy.x as int, nb.xy.y as int),
        path_width_ok(grid, cx, cy, nb.xy.x as int, nb.xy.y as int),
        nb.h == heading_of_delta(nb.xy.x - cx, nb.xy.y - cy),
    ensures
        neighbours_spec(grid, cx, cy).contains(nb),
{
    let dx = nb.xy.x - cx;
    let dy = nb.xy.y - cy;
    let k: int = if dx == -1 && dy == -1 {
        0
    } else if dx == -1 && dy == 0 {
        1
    } else if dx == -1 && dy == 1 {
        2
    } else if dx == 0 && dy == -1 {
        3
    } else if dx == 0 && dy == 1 {
        4
    } else if dx == 1 && dy == -1 {
        5
    } else if dx == 1 && dy == 0 {
        6
    } else {
        7
    };
    assert(crate::movable::delta_list()[k] == (dx, dy));
    assert(crate::movable::mk_neighbour(cx, cy, dx, dy) == nb);
    assert(neighbour_ok(grid, cx, cy, dx, dy));
    lemma_accepted_step_is_listed(grid, cx, cy, k, 8);
}

/// The cells of a finished route in travel order: the start cell first,
/// then the predecessor chain reversed, ending on the goal cell.
pub open spec fn walk_of_chain(start: NodeCoords, c: Seq<NodeCoords>) -> Seq<CellCoord> {
    Seq::new(
        (c.len() + 1) as nat,
        |i: int|
            if i == 0 {
                start.xy
            } else {
                c[c.len() - i].xy
            },
    )
}

/// The success counterpart of the failure theorem: a finished route is a
/// legal walk. Read in travel order, the route's cells start at the start
/// cell, end on the selected goal state's cell, and every consecutive pair
/// is one legal neighbour step.
#[verifier::rlimit(100)]
pub proof fn lemma_success_route_walks_grid(p: AStarParams, grid: MovementGrid, n: NodeCoords)
    requires
        p.wf(grid),
        AStarParams::node_in_bounds(grid, n),
        p.visited(grid, n),
    ensures
        is_walk(grid, walk_of_chain(p.start, p.chain(grid, n))),
        walk_of_chain(p.start, p.chain(grid, n))[0] == p.start.xy,
        n != p.start ==> walk_of_chain(p.start, p.chain(grid, n)).last() == n.xy,
{
    let c = p.chain(grid, n);
    let cells = walk_of_chain(p.start, c);
    lemma_chain_connects(p, grid, n);
    assert forall|i: int|
        #![trigger cells[i]]
        0 <= i < cells.len() - 1 implies neighbours_spec(
        grid,
        cells[i].x as int,
        cells[i].y as int,
    ).contains(
        NodeCoords {
            xy: cells[i + 1],
            h: heading_of_delta(cells[i + 1].x - cells[i].x, cells[i + 1].y - cells[i].y),
        },
    ) by {
        let j = c.len() - i - 1;
        lemma_chain_entry(p, grid, n, j);
        let from = chain_from(p, grid, n, j);
        assert(cells[i + 1] == c[j].xy);
        if i == 0 {
            assert(from == p.start);
            assert(cells[0] == p.start.xy);
        } else {
            assert(from == c[j + 1]);
            assert(cells[i] == c[j + 1].xy);
        }
        assert(grid.in_bounds(from.xy.x as int, from.xy.y as int)) by {
            if i == 0 {
            } else {
                assert(grid.free(c[j + 1].xy.x as int, c[j + 1].xy.y as int));
            }
        }
        lemma_neighbours_complete(grid, from.xy.x as int, from.xy.y as int, c[j]);
    }
}

/// The weight a state contributes to the search's termination measure:
/// its cost once reached, and otherwise a ceiling that any first reach
/// undercuts.
pub open spec fn weight(r: AStarNode) -> int {
    if r.g_score >= 0 {
        r.g_score as int
    } else {
        G_CAP + MAX_STEP_COST + 1
    }
}

/// The summed weight of a score table.
pub open spec fn table_sum(t: Seq<AStarNode>) -> int
    decreases t.len(),
{
    if t.len() == 0 {
        0
    } else {
        table_sum(t.drop_last()) + weight(t.last())
    }
}

/// How many expansion steps a search from this state can still take: an
/// improving relaxation lowers `table_sum`, and a step that improves
/// nothing shrinks the frontier.
pub open spec fn search_measure(t: Seq<AStarNode>, o: Seq<NodeCoords>) -> int {
    table_sum(t) * 8 + o.len()
}

proof fn lemma_table_sum_nonneg(t: Seq<AStarNode>)
    ensures
        table_sum(t) >= 0,
    decreases t.len(),
{
    if t.len() > 0 {
        lemma_table_sum_nonneg(t.drop_last());
    }
}

/// Replacing one record shifts the sum by the difference of the weights.
proof fn lemma_table_sum_update(t: Seq<AStarNode>, j: int, v: AStarNode)
    requires
        0 <= j < t.len(),
    ensures
        table_sum(t.update(j, v)) == table_sum(t) + weight(v) - weight(t[j]),
    decreases t.len(),
{
    let u = t.update(j, v);
    if j == t.len() - 1 {
        assert(u.drop_last() =~= t.drop_last());
        assert(u.last() == v);
    } else {
        assert(u.drop_last() =~= t.drop_last().update(j, v));
        assert(u.last() == t.last());
        lemma_table_sum_update(t.drop_last(), j, v);
    }
}

/// The relaxation fold never raises the summed weight; any change to the
/// table strictly lowers it, and a fold that changes nothing leaves the
/// frontier alone. The frontier grows by at most one state per neighbour.
proof fn lemma_fold_measure(
    t0: Seq<AStarNode>,
    o0: Seq<NodeCoords>,
    grid: MovementGrid,
    cur: NodeCoords,
    g_cur: int,
    i: int,
    target: CellCoord,
)
    requires
        grid.wf(),
        t0.len() == grid.settings.grid_width * grid.settings.grid_height * 8,
        AStarParams::node_in_bounds(grid, cur),
        0 <= g_cur <= G_CAP,
        0 <= i <= neighbours_spec(grid, cur.xy.x as int, cur.xy.y as int).len(),
    ensures
        table_sum(folded(t0, o0, grid, cur, g_cur, i, target).0) <= table_sum(t0),
        folded(t0, o0, grid, cur, g_cur, i, target).0 != t0 ==> table_sum(
            folded(t0, o0, grid, cur, g_cur, i, target).0,
        ) < table_sum(t0),
        folded(t0, o0, grid, cur, g_cur, i, target).0 == t0 ==> folded(
            t0,
            o0,
            grid,
            cur,
            g_cur,
            i,
            target,
        ).1 == o0,
        folded(t0, o0, grid, cur, g_cur, i, target).1.len() <= o0.len() + i,
        folded(t0, o0, grid, cur, g_cur, i, target).0.len() == t0.len(),
    decreases i,
{
    let height = grid.settings.grid_height as int;
    let width = grid.settings.grid_width as int;
    let nbs = neighbours_spec(grid, cur.xy.x as int, cur.xy.y as int);
    crate::movable::lemma_neighbour_props(grid, cur.xy.x as int, cur.xy.y as int, 8);
    if i > 0 {
        lemma_fold_measure(t0, o0, grid, cur, g_cur, i - 1, target);
        let prev = folded(t0, o0, grid, cur, g_cur, i - 1, target);
        let st = folded(t0, o0, grid, cur, g_cur, i, target);
        let nb = nbs[i - 1];
        lemma_tindex_range(width, height, nb);
        let ti = tindex(height, nb);
        lemma_move_cost_range(cur, nb);
        let tent = g_cur + move_cost(cur, nb);
        if relax_updates(prev.0, height, cur, g_cur, nb) {
            let old_rec = prev.0[ti];
            let new_rec = AStarNode {
                f_score: (tent + heuristic(
                    nb.xy.x as int,
                    nb.xy.y as int,
                    target.x as int,
                    target.y as int,
                )) as i64,
                g_score: tent as i64,
                came_from: Some(cur),
            };
            assert(st.0 == prev.0.update(ti, new_rec));
            lemma_table_sum_update(prev.0, ti, new_rec);
            assert(weight(new_rec) == tent);
            assert(weight(new_rec) < weight(old_rec));
            assert(table_sum(st.0) < table_sum(prev.0));
        } else {
            assert(st.0 == prev.0);
            assert(st.1 == prev.1);
        }
    }
}

/// Every expansion step strictly shrinks the termination measure.
proof fn lemma_step_measure(
    t: Seq<AStarNode>,
    o: Seq<NodeCoords>,
    grid: MovementGrid,
    target: CellCoord,
)
    requires
        grid.wf(),
        t.len() == grid.settings.grid_width * grid.settings.grid_height * 8,
        open_wf(t, o, grid),
        o.len() > 0,
        selected(t, grid.settings.grid_height as int, o).xy != target,
    ensures
        search_measure(step_state(t, o, target, grid).0, step_state(t, o, target, grid).1)
            < search_measure(t, o),
{
    let height = grid.settings.grid_height as int;
    lemma_best_in_prefix_range(t, height, o, o.len() as int);
    let bi = best_index(t, height, o);
    let cur = o[bi];
    let o1 = o.remove(bi);
    let g_cur = trec(t, height, cur).g_score as int;
    let st = step_state(t, o, target, grid);
    if g_cur <= G_CAP {
        let nbs = neighbours_spec(grid, cur.xy.x as int, cur.xy.y as int);
        lemma_fold_measure(t, o1, grid, cur, g_cur, nbs.len() as int, target);
        assert(st == folded(t, o1, grid, cur, g_cur, nbs.len() as int, target));
        assert(nbs.len() <= 8) by {
            lemma_neighbours_len(grid, cur.xy.x as int, cur.xy.y as int, 8);
        }
        if st.0 == t {
            assert(st.1 == o1);
        } else {
            assert(table_sum(st.0) <= table_sum(t) - 1);
            assert(st.1.len() <= o1.len() + 8);
        }
    } else {
        assert(st.0 == t && st.1 == o1);
    }
}

/// At most one neighbour per candidate step.
proof fn lemma_neighbours_len(grid: MovementGrid, cx: int, cy: int, k: int)
    requires
        0 <= k,
    ensures
        neighbours_up_to(grid, cx, cy, k).len() <= k,
    decreases k,
{
    if k > 0 {
        lemma_neighbours_len(grid, cx, cy, k - 1);
    }
}

/// The relaxation fold preserves the score table's well-formedness and the
/// frontier members' visitedness.
proof fn lemma_fold_twf(
    t0: Seq<AStarNode>,
    o0: Seq<NodeCoords>,
    grid: MovementGrid,
    start: NodeCoords,
    target: CellCoord,
    cur: NodeCoords,
    g_cur: int,
    i: int,
)
    requires
        twf(t0, grid, start),
        open_wf(t0, o0, grid),
        no_dup(o0),
        AStarParams::node_in_bounds(grid, cur),
        tvisited(t0, grid.settings.grid_height as int, cur),
        0 <= g_cur <= G_CAP,
        g_cur == trec(t0, grid.settings.grid_height as int, cur).g_score,
        0 <= i <= neighbours_spec(grid, cur.xy.x as int, cur.xy.y as int).len(),
    ensures
        twf(folded(t0, o0, grid, cur, g_cur, i, target).0, grid, start),
        open_wf(
            folded(t0, o0, grid, cur, g_cur, i, target).0,
            folded(t0, o0, grid, cur, g_cur, i, target).1,
            grid,
        ),
    decreases i,
{
    let height = grid.settings.grid_height as int;
    let width = grid.settings.grid_width as int;
    let nbs = neighbours_spec(grid, cur.xy.x as int, cur.xy.y as int);
    crate::movable::lemma_neighbour_props(grid, cur.xy.x as int, cur.xy.y as int, 8);
    if i > 0 {
        lemma_fold_twf(t0, o0, grid, start, target, cur, g_cur, i - 1);
        lemma_fold_props(t0, o0, grid, cur, g_cur, i - 1, target);
        let prev = folded(t0, o0, grid, cur, g_cur, i - 1, target);
        let st = folded(t0, o0, grid, cur, g_cur, i, target);
        let nb = nbs[i - 1];
        lemma_tindex_range(width, height, nb);
        // cur's record is untouched by the fold so far.
        assert(trec(prev.0, height, cur) == trec(t0, height, cur));
        if relax_updates(prev.0, height, cur, g_cur, nb) {
            lemma_relax_update_twf(prev.0, prev.1, grid, start, target, cur, g_cur, nb);
        } else {
            assert(st.0 == prev.0);
            assert(st.1 == prev.1);
        }
    }
}

/// Removing one frontier member keeps the frontier well-formed and
/// duplicate-free.
proof fn lemma_remove_open(
    t: Seq<AStarNode>,
    o: Seq<NodeCoords>,
    grid: MovementGrid,
    bi: int,
)
    requires
        open_wf(t, o, grid),
        no_dup(o),
        0 <= bi < o.len(),
    ensures
        open_wf(t, o.remove(bi), grid),
        no_dup(o.remove(bi)),
{
    let height = grid.settings.grid_height as int;
    let o1 = o.remove(bi);
    assert forall|j: int|
        0 <= j < o1.len() implies AStarParams::node_in_bounds(grid, #[trigger] o1[j]) && tvisited(
        t,
        height,
        o1[j],
    ) by {
        if j < bi {
            assert(o1[j] == o[j]);
        } else {
            assert(o1[j] == o[j + 1]);
        }
    }
    assert forall|a: int, b: int|
        #![trigger o1[a], o1[b]]
        0 <= a < b < o1.len() implies o1[a] != o1[b] by {
        let wa = if a < bi {
            a
        } else {
            a + 1
        };
        let wb = if b < bi {
            b
        } else {
            b + 1
        };
        assert(o1[a] == o[wa] && o1[b] == o[wb]);
    }
}

/// One expansion step preserves the score table's well-formedness and the
/// frontier members' visitedness.
#[verifier::rlimit(100)]
proof fn lemma_step_twf(
    t: Seq<AStarNode>,
    o: Seq<NodeCoords>,
    grid: MovementGrid,
    start: NodeCoords,
    target: CellCoord,
)
    requires
        twf(t, grid, start),
        open_wf(t, o, grid),
        no_dup(o),
        o.len() > 0,
        selected(t, grid.settings.grid_height as int, o).xy != target,
    ensures
        twf(step_state(t, o, target, grid).0, grid, start),
        open_wf(step_state(t, o, target, grid).0, step_state(t, o, target, grid).1, grid),
{
    let height = grid.settings.grid_height as int;
    lemma_best_in_prefix_range(t, height, o, o.len() as int);
    let bi = best_index(t, height, o);
    let cur = o[bi];
    let o1 = o.remove(bi);
    lemma_remove_open(t, o, grid, bi);
    let g_cur = trec(t, height, cur).g_score as int;
    if g_cur <= G_CAP {
        let nbs = neighbours_spec(grid, cur.xy.x as int, cur.xy.y as int);
        lemma_fold_twf(t, o1, grid, start, target, cur, g_cur, nbs.len() as int);
        assert(step_state(t, o, target, grid) == folded(
            t,
            o1,
            grid,
            cur,
            g_cur,
            nbs.len() as int,
            target,
        ));
    }
}

/// A larger step budget finds everything a smaller one does.
pub proof fn lemma_run_found_monotone(
    t: Seq<AStarNode>,
    o: Seq<NodeCoords>,
    target: CellCoord,
    grid: MovementGrid,
    f1: nat,
    f2: nat,
)
    requires
        f1 <= f2,
        run_found(t, o, target, grid, f1),
    ensures
        run_found(t, o, target, grid, f2),
    decreases f1,
{
    let height = grid.settings.grid_height as int;
    if o.len() == 0 {
    } else if selected(t, height, o).xy == target {
    } else {
        assert(f1 > 0);
        let st = step_state(t, o, target, grid);
        lemma_run_found_monotone(st.0, st.1, target, grid, (f1 - 1) as nat, (f2 - 1) as nat);
    }
}

/// Completeness: while the target can still be reached by a walk of legal
/// neighbour steps, the search cannot fail, and a budget of
/// `search_measure` steps is enough to reach `Succeeded` — the search's
/// termination measure, which every expansion strictly shrinks.
#[verifier::rlimit(100)]
pub proof fn lemma_reachable_search_succeeds(
    t: Seq<AStarNode>,
    o: Seq<NodeCoords>,
    grid: MovementGrid,
    start: NodeCoords,
    target: CellCoord,
    cells: Seq<CellCoord>,
)
    requires
        twf(t, grid, start),
        open_wf(t, o, grid),
        search_inv(t, o, grid, target),
        is_walk(grid, cells),
        cells.len() >= 1,
        cells[0] == start.xy,
        cells.last() == target,
        cells.len() * MAX_STEP_COST <= G_CAP,
    ensures
        search_measure(t, o) >= 0,
        run_found(t, o, target, grid, search_measure(t, o) as nat),
    decreases search_measure(t, o),
{
    let height = grid.settings.grid_height as int;
    lemma_table_sum_nonneg(t);
    if o.len() == 0 {
        lemma_failed_search_has_no_route(t, grid, start, target, cells);
    } else if selected(t, height, o).xy == target {
    } else {
        let st = step_state(t, o, target, grid);
        lemma_step_twf(t, o, grid, start, target);
        lemma_search_inv_step(t, o, grid, target);
        lemma_step_measure(t, o, grid, target);
        lemma_table_sum_nonneg(st.0);
        lemma_reachable_search_succeeds(st.0, st.1, grid, start, target, cells);
        lemma_run_found_monotone(
            st.0,
            st.1,
            target,
            grid,
            search_measure(st.0, st.1) as nat,
            (search_measure(t, o) - 1) as nat,
        );
    }
}

/// The summed step cost of the predecessor chain behind `n`, including the
/// step out of the start state.
pub open spec fn chain_cost(
    table: Seq<AStarNode>,
    grid: MovementGrid,
    start: NodeCoords,
    n: NodeCoords,
) -> int
    decreases trec(table, grid.settings.grid_height as int, n).g_score
        when twf(table, grid, start) && AStarParams::node_in_bounds(grid, n) && tvisited(
            table,
            grid.settings.grid_height as int,
            n,
        )
{
    if n == start {
        0
    } else {
        let p = trec(table, grid.settings.grid_height as int, n).came_from.unwrap();
        chain_cost(table, grid, start, p) + move_cost(p, n)
    }
}

/// The search never understates a route: the summed step cost of the chain
/// it hands back is at most the cost it reports for the reached state.
#[verifier::rlimit(100)]
pub proof fn lemma_chain_cost_bounded(
    table: Seq<AStarNode>,
    grid: MovementGrid,
    start: NodeCoords,
    n: NodeCoords,
)
    requires
        twf(table, grid, start),
        AStarParams::node_in_bounds(grid, n),
        tvisited(table, grid.settings.grid_height as int, n),
    ensures
        0 <= chain_cost(table, grid, start, n) <= trec(
            table,
            grid.settings.grid_height as int,
            n,
        ).g_score,
    decreases trec(table, grid.settings.grid_height as int, n).g_score,
{
    let height = grid.settings.grid_height as int;
    if n != start {
        assert(tvalid_step(table, grid, n));
        let p = trec(table, height, n).came_from.unwrap();
        lemma_chain_cost_bounded(table, grid, start, p);
        lemma_move_cost_range(p, n);
        assert(chain_cost(table, grid, start, n) == chain_cost(table, grid, start, p) + move_cost(
            p,
            n,
        ));
        assert(trec(table, height, p).g_score + move_cost(p, n) <= trec(
            table,
            height,
            n,
        ).g_score);
    } else {
        assert(chain_cost(table, grid, start, n) == 0);
    }
}

} // verus!
