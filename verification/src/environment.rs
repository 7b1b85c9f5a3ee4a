//! The occupancy grid and its geometry.
//!
//! The grid is built once by world generation and is read-only during a
//! search. `world_to_cell` and `cell_to_world` convert between world-space
//! positions (fixed-point integers) and cell coordinates; they are exact
//! inverses modulo the floor rounding of `world_to_cell`
//! (`lemma_cell_world_round_trip`). Out-of-range coordinates are rejected
//! with `NavError::CellOutOfBounds`, never silently clamped.

use vstd::arithmetic::div_mod::lemma_div_multiples_vanish;
use vstd::prelude::*;

verus! {

/// A cell index into the occupancy grid.
#[derive(Clone, Copy, Debug, PartialEq, Eq, Hash, Structural)]
pub struct CellCoord {
    pub x: usize,
    pub y: usize,
}

/// A world-space position in fixed-point units: `DISTANCE_FACTOR` units per
/// world unit.
#[derive(Clone, Copy, Debug, PartialEq, Eq, Hash, Structural)]
pub struct WorldPos {
    pub x: i64,
    pub y: i64,
}

/// A request rejected before any search work is done.
#[derive(Clone, Copy, Debug, PartialEq, Eq, Structural)]
pub enum NavError {
    /// Start or target lies outside the grid: a programming error on the
    /// caller's side, surfaced as a typed failure instead of a panic.
    CellOutOfBounds,
    /// The frontier was exhausted, or the step budget ran out, before the
    /// target was reached: a normal, recoverable outcome.
    PathNotFound,
}

/// Largest grid edge, in cells.
pub const MAX_GRID_DIM: usize = 4096;

/// Largest cell edge, in position units.
pub const MAX_CELL_SIZE: i64 = 100_000;

/// Largest magnitude of the world-to-cell offset, in cells.
pub const MAX_OFFSET: i64 = 4096;

/// Every world position handled by the library fits in this bound, which
/// keeps all squared distances inside `i64`.
pub const POS_BOUND: i64 = 1_000_000_000;

/// Geometric settings of the grid, immutable after initialization.
pub struct GridSettings {
    /// Position units per cell edge.
    pub cell_size: i64,
    pub grid_width: usize,
    pub grid_height: usize,
    /// World-to-cell translation, in cells.
    pub xy_offset_x: i64,
    pub xy_offset_y: i64,
    /// Obstacle density in permille: a generation-time parameter, never read
    /// by the search.
    pub density_permille: u32,
}

impl GridSettings {
    /// Machine limits under which every conversion below stays inside `i64`.
    pub open spec fn valid(self) -> bool {
        &&& 1 <= self.grid_width <= MAX_GRID_DIM
        &&& 1 <= self.grid_height <= MAX_GRID_DIM
        &&& 1 <= self.cell_size <= MAX_CELL_SIZE
        &&& -MAX_OFFSET <= self.xy_offset_x <= MAX_OFFSET
        &&& -MAX_OFFSET <= self.xy_offset_y <= MAX_OFFSET
    }

    /// Centre of cell `(cx, cy)` in world space: `(c - offset) * cell_size`.
    pub open spec fn cell_to_world_spec(self, cx: int, cy: int) -> (int, int) {
        (
            (cx - self.xy_offset_x) * self.cell_size,
            (cy - self.xy_offset_y) * self.cell_size,
        )
    }

    /// The cell containing world position `(px, py)`:
    /// `floor(p / cell_size) + offset`, or `None` when that falls outside the
    /// grid.
    pub open spec fn world_to_cell_spec(self, px: int, py: int) -> Option<(int, int)> {
        let sx = px + self.xy_offset_x * self.cell_size;
        let sy = py + self.xy_offset_y * self.cell_size;
        if sx < 0 || sy < 0 {
            None
        } else {
            let qx = sx / (self.cell_size as int);
            let qy = sy / (self.cell_size as int);
            if qx < self.grid_width && qy < self.grid_height {
                Some((qx, qy))
            } else {
                None
            }
        }
    }
}

/// The occupancy grid: geometric settings plus one occupancy byte per cell
/// (0 = free, anything else = blocked), stored row-major by `x`.
pub struct MovementGrid {
    pub settings: GridSettings,
    pub grid: Vec<u8>,
}

impl MovementGrid {
    /// Well-formed: valid settings and one entry per cell.
    pub open spec fn wf(self) -> bool {
        &&& self.settings.valid()
        &&& self.grid@.len() == self.settings.grid_width * self.settings.grid_height
    }

    pub open spec fn in_bounds(self, x: int, y: int) -> bool {
        0 <= x < self.settings.grid_width && 0 <= y < self.settings.grid_height
    }

    /// Occupancy of an in-bounds cell.
    pub open spec fn blocked_spec(self, x: int, y: int) -> bool
        recommends
            self.wf(),
            self.in_bounds(x, y),
    {
        self.grid@[x * self.settings.grid_height + y] != 0
    }

    /// In bounds and free.
    pub open spec fn free(self, x: int, y: int) -> bool {
        self.in_bounds(x, y) && !self.blocked_spec(x, y)
    }

    /// A fully free grid with the given settings.
    pub fn new(settings: GridSettings) -> (g: MovementGrid)
        requires
            settings.valid(),
        ensures
            g.wf(),
            g.settings == settings,
            forall|x: int, y: int| g.in_bounds(x, y) ==> !g.blocked_spec(x, y),
    {
        assert(settings.grid_width * settings.grid_height <= 16_777_216) by (nonlinear_arith)
            requires
                settings.grid_width <= 4096usize,
                settings.grid_height <= 4096usize,
        ;
        let len: usize = settings.grid_width * settings.grid_height;
        let mut grid: Vec<u8> = Vec::new();
        let mut i: usize = 0;
        while i < len
            invariant
                i <= len,
                grid@.len() == i,
                forall|k: int| 0 <= k < i ==> grid@[k] == 0u8,
            decreases len - i,
        {
            grid.push(0u8);
            i = i + 1;
        }
        let g = MovementGrid { settings, grid };
        proof {
            assert forall|x: int, y: int| g.in_bounds(x, y) implies !g.blocked_spec(x, y) by {
                lemma_flat_index_in_range(
                    settings.grid_width as int,
                    settings.grid_height as int,
                    x,
                    y,
                );
            }
        }
        g
    }

    /// Marks one cell blocked or free; used by world generation only.
    pub fn set_blocked(&mut self, c: CellCoord, blocked: bool) -> (r: Result<(), NavError>)
        requires
            old(self).wf(),
        ensures
            final(self).wf(),
            final(self).settings == old(self).settings,
            r is Ok <==> old(self).in_bounds(c.x as int, c.y as int),
            r is Err ==> *final(self) == *old(self),
            r is Ok ==> final(self).grid@ == old(self).grid@.update(
                c.x * old(self).settings.grid_height + c.y,
                if blocked { 1u8 } else { 0u8 },
            ),
    {
        if c.x < self.settings.grid_width && c.y < self.settings.grid_height {
            proof {
                lemma_flat_index_in_range(
                    self.settings.grid_width as int,
                    self.settings.grid_height as int,
                    c.x as int,
                    c.y as int,
                );
            }
            let idx: usize = c.x * self.settings.grid_height + c.y;
            self.grid.set(idx, if blocked { 1u8 } else { 0u8 });
            Ok(())
        } else {
            Err(NavError::CellOutOfBounds)
        }
    }

    /// Occupancy of a cell already known to be in bounds.
    pub fn blocked_at(&self, c: CellCoord) -> (b: bool)
        requires
            self.wf(),
            self.in_bounds(c.x as int, c.y as int),
        ensures
            b == self.blocked_spec(c.x as int, c.y as int),
    {
        proof {
            lemma_flat_index_in_range(
                self.settings.grid_width as int,
                self.settings.grid_height as int,
                c.x as int,
                c.y as int,
            );
        }
        self.grid[c.x * self.settings.grid_height + c.y] != 0
    }

    /// Whether a cell is blocked; `CellOutOfBounds` for out-of-range
    /// coordinates, never a panic.
    pub fn is_blocked(&self, c: CellCoord) -> (r: Result<bool, NavError>)
        requires
            self.wf(),
        ensures
            match r {
                Ok(b) => self.in_bounds(c.x as int, c.y as int) && b == self.blocked_spec(
                    c.x as int,
                    c.y as int,
                ),
                Err(e) => e == NavError::CellOutOfBounds && !self.in_bounds(
                    c.x as int,
                    c.y as int,
                ),
            },
    {
        if c.x < self.settings.grid_width && c.y < self.settings.grid_height {
            Ok(self.blocked_at(c))
        } else {
            Err(NavError::CellOutOfBounds)
        }
    }

    /// The cell containing a world position, or `CellOutOfBounds`.
    pub fn world_to_cell(&self, p: WorldPos) -> (r: Result<CellCoord, NavError>)
        requires
            self.wf(),
            -POS_BOUND <= p.x <= POS_BOUND,
            -POS_BOUND <= p.y <= POS_BOUND,
        ensures
            match r {
                Ok(c) => self.settings.world_to_cell_spec(p.x as int, p.y as int) == Some(
                    (c.x as int, c.y as int),
                ) && self.in_bounds(c.x as int, c.y as int),
                Err(e) => e == NavError::CellOutOfBounds
                    && self.settings.world_to_cell_spec(p.x as int, p.y as int) is None,
            },
    {
        let cs: i64 = self.settings.cell_size;
        proof {
            lemma_offset_product_bound(self.settings);
        }
        let sx: i64 = p.x + self.settings.xy_offset_x * cs;
        let sy: i64 = p.y + self.settings.xy_offset_y * cs;
        if sx < 0 || sy < 0 {
            return Err(NavError::CellOutOfBounds);
        }
        let qx: u64 = (sx as u64) / (cs as u64);
        let qy: u64 = (sy as u64) / (cs as u64);
        if qx < self.settings.grid_width as u64 && qy < self.settings.grid_height as u64 {
            Ok(CellCoord { x: qx as usize, y: qy as usize })
        } else {
            Err(NavError::CellOutOfBounds)
        }
    }

    /// The world-space centre of an in-bounds cell.
    pub fn cell_to_world(&self, c: CellCoord) -> (w: WorldPos)
        requires
            self.wf(),
            self.in_bounds(c.x as int, c.y as int),
        ensures
            (w.x as int, w.y as int) == self.settings.cell_to_world_spec(c.x as int, c.y as int),
            -POS_BOUND <= w.x <= POS_BOUND,
            -POS_BOUND <= w.y <= POS_BOUND,
    {
        proof {
            lemma_cell_world_bound(self.settings, c.x as int);
            lemma_cell_world_bound(self.settings, c.y as int);
        }
        let wx: i64 = (c.x as i64 - self.settings.xy_offset_x) * self.settings.cell_size;
        let wy: i64 = (c.y as i64 - self.settings.xy_offset_y) * self.settings.cell_size;
        WorldPos { x: wx, y: wy }
    }
}

/// A flat row-major index stays inside a `width * height` table.
pub proof fn lemma_flat_index_in_range(width: int, height: int, x: int, y: int)
    requires
        0 <= x < width <= MAX_GRID_DIM,
        0 <= y < height <= MAX_GRID_DIM,
    ensures
        0 <= x * height + y < width * height,
        x * height + y < 16_777_216,
{
    assert(x * height + y < width * height <= 16_777_216) by (nonlinear_arith)
        requires
            0 <= x < width <= 4096,
            0 <= y < height <= 4096,
    ;
    assert(0 <= x * height) by (nonlinear_arith)
        requires
            0 <= x,
            0 < height,
    ;
}

/// The offset-times-cell-size product stays far inside `i64` under the
/// grid's machine limits.
proof fn lemma_offset_product_bound(s: GridSettings)
    requires
        s.valid(),
    ensures
        -410_000_000 <= s.xy_offset_x * s.cell_size <= 410_000_000,
        -410_000_000 <= s.xy_offset_y * s.cell_size <= 410_000_000,
{
    assert(-410_000_000 <= s.xy_offset_x * s.cell_size <= 410_000_000) by (nonlinear_arith)
        requires
            -MAX_OFFSET <= s.xy_offset_x <= MAX_OFFSET,
            1 <= s.cell_size <= MAX_CELL_SIZE,
    ;
    assert(-410_000_000 <= s.xy_offset_y * s.cell_size <= 410_000_000) by (nonlinear_arith)
        requires
            -MAX_OFFSET <= s.xy_offset_y <= MAX_OFFSET,
            1 <= s.cell_size <= MAX_CELL_SIZE,
    ;
}

/// The product `(c - offset) * cell_size` stays inside `POS_BOUND` under the
/// grid's machine limits.
proof fn lemma_cell_world_bound(s: GridSettings, c: int)
    requires
        s.valid(),
        0 <= c <= MAX_GRID_DIM,
    ensures
        -POS_BOUND <= (c - s.xy_offset_x) * s.cell_size <= POS_BOUND,
        -POS_BOUND <= (c - s.xy_offset_y) * s.cell_size <= POS_BOUND,
{
    assert(-POS_BOUND <= (c - s.xy_offset_x) * s.cell_size <= POS_BOUND) by (nonlinear_arith)
        requires
            -MAX_OFFSET <= s.xy_offset_x <= MAX_OFFSET,
            1 <= s.cell_size <= MAX_CELL_SIZE,
            0 <= c <= MAX_GRID_DIM,
    ;
    assert(-POS_BOUND <= (c - s.xy_offset_y) * s.cell_size <= POS_BOUND) by (nonlinear_arith)
        requires
            -MAX_OFFSET <= s.xy_offset_y <= MAX_OFFSET,
            1 <= s.cell_size <= MAX_CELL_SIZE,
            0 <= c <= MAX_GRID_DIM,
    ;
}

/// `world_to_cell` inverts `cell_to_world` exactly: converting a cell to its
/// world-space centre and back yields the same cell.
pub proof fn lemma_cell_world_round_trip(s: GridSettings, cx: int, cy: int)
    requires
        s.valid(),
        0 <= cx < s.grid_width,
        0 <= cy < s.grid_height,
    ensures
        ({
            let (wx, wy) = s.cell_to_world_spec(cx, cy);
            s.world_to_cell_spec(wx, wy) == Some((cx, cy))
        }),
{
    let (wx, wy) = s.cell_to_world_spec(cx, cy);
    assert(wx + s.xy_offset_x * s.cell_size == s.cell_size * cx) by (nonlinear_arith)
        requires
            wx == (cx - s.xy_offset_x) * s.cell_size,
    ;
    assert(wy + s.xy_offset_y * s.cell_size == s.cell_size * cy) by (nonlinear_arith)
        requires
            wy == (cy - s.xy_offset_y) * s.cell_size,
    ;
    assert(s.cell_size * cx >= 0) by (nonlinear_arith)
        requires
            s.cell_size >= 1,
            cx >= 0,
    ;
    assert(s.cell_size * cy >= 0) by (nonlinear_arith)
        requires
            s.cell_size >= 1,
            cy >= 0,
    ;
    lemma_div_multiples_vanish(cx, s.cell_size as int);
    lemma_div_multiples_vanish(cy, s.cell_size as int);
}

} // verus!
