//! The navigation service: owns the grid and both fields, rebuilds them
//! wholesale, and answers queries.
//!
//! The world is a `window_width` by `window_height` rectangle of world
//! units, discretized into `CELL_SIZE`-sized cells (the last row and column
//! may hang over the edge: the dimensions round up). A rebuild rasterizes
//! the obstacles, propagates the cost field from the sources and derives
//! the flow field, replacing all of it at once; on a rejected input the
//! previous state stays untouched.

use crate::cost::{zero_cost, Cost};
use crate::flow::{flow_at, flow_field_spec, zero_flow, FlowVec};
use crate::grid::{adjacent, idx_of, in_bounds_spec, GridPos};
use crate::heat::{heat_field, reachable};
use crate::obstacle::{blocked_at_spec, blocked_seq, BoxObstacle};
use crate::{CELL_SIZE, MAX_WORLD_UNITS};
use vstd::prelude::*;

verus! {

broadcast use crate::grid::lemma_in_bounds_idx;

/// Why a rebuild input was rejected. The previous field, if any, stays in
/// effect.
#[derive(PartialEq, Eq, Structural, Clone, Copy, Debug)]
pub enum NavError {
    /// A world dimension was zero.
    ZeroDimension,
    /// A world dimension was beyond `MAX_WORLD_UNITS`.
    WorldTooLarge,
    /// A rebuild was asked for with no source cell at all.
    NoSources,
    /// A source cell lies outside the grid.
    SourceOutOfBounds,
}

/// A continuous world position in thousandths of a world unit, so that
/// consumers can hand over fractional positions exactly.
#[derive(PartialEq, Eq, Structural, Clone, Copy, Debug)]
pub struct WorldPoint {
    pub x_milli: i64,
    pub y_milli: i64,
}

/// Number of cells that cover `w` world units: `w / CELL_SIZE` rounded up.
pub open spec fn grid_dim(w: int) -> int {
    (w + CELL_SIZE as int - 1) / (CELL_SIZE as int)
}

/// The cell coordinate of a continuous coordinate:
/// `floor(position * grid_size / world_size)`, with the position given in
/// thousandths of a unit.
pub open spec fn cell_coord(milli: int, size: int, world: int) -> int {
    (milli * size) / (1000 * world)
}

/// A world dimension in range yields between 1 and 4000 cells.
pub proof fn lemma_grid_dim_bounds(w: int)
    requires
        1 <= w <= MAX_WORLD_UNITS,
    ensures
        1 <= grid_dim(w) <= 4000,
{
}

/// The grid of a well-formed engine is at most 4000 cells on a side, and
/// its flat fields hold at most 16000000 entries.
pub proof fn lemma_wf_sizes(f: FlowField)
    requires
        f.wf(),
    ensures
        1 <= f.size_x <= 4000,
        1 <= f.size_y <= 4000,
        f.size_x * f.size_y <= 16000000,
{
    lemma_grid_dim_bounds(f.window_width as int);
    lemma_grid_dim_bounds(f.window_height as int);
    assert(f.size_x * f.size_y <= 16000000) by (nonlinear_arith)
        requires
            f.size_x <= 4000,
            f.size_y <= 4000,
    ;
}

/// The flow-field engine: world dimensions, grid dimensions, and the two
/// per-cell fields, flat and row-major.
pub struct FlowField {
    pub window_width: usize,
    pub window_height: usize,
    pub size_x: usize,
    pub size_y: usize,
    pub heat_grid: Vec<Option<Cost>>,
    pub flow_grid: Vec<FlowVec>,
}

impl FlowField {
    /// Well-formedness: dimensions are in range, the grid dimensions are
    /// derived from the world dimensions, and both fields cover the grid
    /// exactly.
    pub open spec fn wf(self) -> bool {
        &&& 1 <= self.window_width <= MAX_WORLD_UNITS
        &&& 1 <= self.window_height <= MAX_WORLD_UNITS
        &&& self.size_x == grid_dim(self.window_width as int)
        &&& self.size_y == grid_dim(self.window_height as int)
        &&& self.heat_grid@.len() == self.size_x * self.size_y
        &&& self.flow_grid@.len() == self.size_x * self.size_y
    }

    /// The cost field as a mathematical sequence.
    pub open spec fn heat(self) -> Seq<Option<Cost>> {
        self.heat_grid@
    }

    /// The flow field as a mathematical sequence.
    pub open spec fn flow(self) -> Seq<FlowVec> {
        self.flow_grid@
    }

    /// Whether `p` addresses a cell of this grid.
    pub open spec fn in_bounds(self, p: GridPos) -> bool {
        in_bounds_spec(p, self.size_x as int, self.size_y as int)
    }

    /// Whether both fields are exactly what a completed rebuild from these
    /// sources and obstacles produces.
    pub open spec fn built_from(self, sources: Seq<GridPos>, obstacles: Seq<BoxObstacle>) -> bool {
        &&& self.heat() == heat_field(
            self.size_x as int,
            self.size_y as int,
            blocked_seq(obstacles, self.size_x as int, self.size_y as int),
            sources,
        )
        &&& self.flow() == flow_field_spec(self.heat(), self.size_x as int, self.size_y as int)
    }

    /// Creates the engine for a `window_width` by `window_height` world,
    /// with every cell unreached and every steering offset zero, or rejects
    /// a zero or oversized dimension.
    pub fn new(window_width: usize, window_height: usize) -> (r: Result<FlowField, NavError>)
        ensures
            (window_width == 0 || window_height == 0) ==> r == Err::<FlowField, NavError>(
                NavError::ZeroDimension,
            ),
            (window_width >= 1 && window_height >= 1 && (window_width > MAX_WORLD_UNITS
                || window_height > MAX_WORLD_UNITS)) ==> r == Err::<FlowField, NavError>(
                NavError::WorldTooLarge,
            ),
            r is Ok <==> (1 <= window_width <= MAX_WORLD_UNITS && 1 <= window_height
                <= MAX_WORLD_UNITS),
            r matches Ok(f) ==> {
                &&& f.wf()
                &&& f.window_width == window_width
                &&& f.window_height == window_height
                &&& f.size_x == grid_dim(window_width as int)
                &&& f.size_y == grid_dim(window_height as int)
                &&& forall|i: int| 0 <= i < f.heat().len() ==> f.heat()[i] is None
                &&& forall|i: int| 0 <= i < f.flow().len() ==> f.flow()[i] == zero_flow()
            },
    {
        if window_width == 0 || window_height == 0 {
            return Err(NavError::ZeroDimension);
        }
        if window_width > MAX_WORLD_UNITS || window_height > MAX_WORLD_UNITS {
            return Err(NavError::WorldTooLarge);
        }
        let size_x = (window_width + (CELL_SIZE - 1)) / CELL_SIZE;
        let size_y = (window_height + (CELL_SIZE - 1)) / CELL_SIZE;
        assert(size_x * size_y <= 16000000) by (nonlinear_arith)
            requires
                size_x <= 4000,
                size_y <= 4000,
        ;
        let n: usize = size_x * size_y;
        let mut heat_grid: Vec<Option<Cost>> = Vec::new();
        while heat_grid.len() < n
            invariant
                heat_grid@.len() <= n,
                forall|i: int| 0 <= i < heat_grid@.len() ==> heat_grid@[i] is None,
            decreases n - heat_grid@.len(),
        {
            heat_grid.push(None);
        }
        let mut flow_grid: Vec<FlowVec> = Vec::new();
        while flow_grid.len() < n
            invariant
                flow_grid@.len() <= n,
                forall|i: int| 0 <= i < flow_grid@.len() ==> flow_grid@[i] == zero_flow(),
            decreases n - flow_grid@.len(),
        {
            flow_grid.push(FlowVec { dx: 0, dy: 0 });
        }
        Ok(FlowField { window_width, window_height, size_x, size_y, heat_grid, flow_grid })
    }

    /// Replaces the world dimensions and clears both fields, or rejects the
    /// dimensions and leaves the engine untouched.
    pub fn reset(&mut self, window_width: usize, window_height: usize) -> (r: Result<
        (),
        NavError,
    >)
        ensures
            r is Ok <==> (1 <= window_width <= MAX_WORLD_UNITS && 1 <= window_height
                <= MAX_WORLD_UNITS),
            r matches Err(e) ==> {
                &&& *final(self) == *old(self)
                &&& ((window_width == 0 || window_height == 0) ==> e == NavError::ZeroDimension)
                &&& ((window_width >= 1 && window_height >= 1) ==> e == NavError::WorldTooLarge)
            },
            r is Ok ==> {
                &&& final(self).wf()
                &&& final(self).window_width == window_width
                &&& final(self).window_height == window_height
                &&& final(self).size_x == grid_dim(window_width as int)
                &&& final(self).size_y == grid_dim(window_height as int)
                &&& forall|i: int| 0 <= i < final(self).heat().len() ==> final(self).heat()[i] is None
                &&& forall|i: int|
                    0 <= i < final(self).flow().len() ==> final(self).flow()[i] == zero_flow()
            },
    {
        match Self::new(window_width, window_height) {
            Ok(f) => {
                *self = f;
                Ok(())
            },
            Err(e) => Err(e),
        }
    }

    /// The grid width, in cells.
    pub fn size_x(&self) -> (r: usize)
        ensures
            r == self.size_x,
    {
        self.size_x
    }

    /// The grid height, in cells.
    pub fn size_y(&self) -> (r: usize)
        ensures
            r == self.size_y,
    {
        self.size_y
    }

    /// Bounds test for a cell address.
    pub fn in_bound(&self, pos: &GridPos) -> (r: bool)
        ensures
            r == self.in_bounds(*pos),
    {
        pos.x < self.size_x && pos.y < self.size_y
    }

    /// The steering offset stored for a cell. Callers must bounds-check
    /// first; an out-of-range cell address is a caller error, not a
    /// recoverable condition.
    pub fn sample(&self, pos: &GridPos) -> (r: FlowVec)
        requires
            self.wf(),
            self.in_bounds(*pos),
        ensures
            r == self.flow()[idx_of(self.size_y as int, *pos)],
    {
        proof {
            lemma_wf_sizes(*self);
            crate::grid::lemma_idx_bounds(
                pos.x as int,
                pos.y as int,
                self.size_x as int,
                self.size_y as int,
            );
        }
        self.flow_grid[pos.x * self.size_y + pos.y]
    }

    /// The cost stored for a cell; `None` is the unreached sentinel.
    pub fn cost_at(&self, pos: &GridPos) -> (r: Option<Cost>)
        requires
            self.wf(),
            self.in_bounds(*pos),
        ensures
            r == self.heat()[idx_of(self.size_y as int, *pos)],
    {
        proof {
            lemma_wf_sizes(*self);
            crate::grid::lemma_idx_bounds(
                pos.x as int,
                pos.y as int,
                self.size_x as int,
                self.size_y as int,
            );
        }
        self.heat_grid[pos.x * self.size_y + pos.y]
    }

    /// Maps a continuous world position to its containing cell, or `None`
    /// for a position outside the `[0, window)` rectangle.
    pub fn trans_to_grid(&self, point: &WorldPoint) -> (r: Option<GridPos>)
        requires
            self.wf(),
        ensures
            r is Some <==> (0 <= point.x_milli < 1000 * self.window_width && 0 <= point.y_milli
                < 1000 * self.window_height),
            r matches Some(p) ==> {
                &&& p.x == cell_coord(
                    point.x_milli as int,
                    self.size_x as int,
                    self.window_width as int,
                )
                &&& p.y == cell_coord(
                    point.y_milli as int,
                    self.size_y as int,
                    self.window_height as int,
                )
                &&& self.in_bounds(p)
            },
    {
        proof {
            lemma_wf_sizes(*self);
        }
        let wx: i64 = 1000 * self.window_width as i64;
        let wy: i64 = 1000 * self.window_height as i64;
        if point.x_milli < 0 || point.x_milli >= wx || point.y_milli < 0 || point.y_milli >= wy {
            return None;
        }
        assert(0 <= point.x_milli as int * self.size_x as int <= 0x1000_0000_0000
            && 0 <= point.y_milli as int * self.size_y as int
            <= 0x1000_0000_0000) by (nonlinear_arith)
            requires
                0 <= point.x_milli < 20000001,
                0 <= point.y_milli < 20000001,
                0 <= self.size_x <= 4000,
                0 <= self.size_y <= 4000,
        ;
        let px: i64 = (point.x_milli * self.size_x as i64) / wx;
        let py: i64 = (point.y_milli * self.size_y as i64) / wy;
        assert(0 <= px < self.size_x && 0 <= py < self.size_y) by (nonlinear_arith)
            requires
                0 <= point.x_milli < wx,
                0 <= point.y_milli < wy,
                px == (point.x_milli as int * self.size_x as int) / (wx as int),
                py == (point.y_milli as int * self.size_y as int) / (wy as int),
                0 < wx,
                0 < wy,
                1 <= self.size_x,
                1 <= self.size_y,
        ;
        Some(GridPos { x: px as usize, y: py as usize })
    }

    /// The up-to-eight grid-adjacent cells of `pos` that lie inside the
    /// grid, each listed once.
    pub fn neighbors(&self, pos: &GridPos) -> (r: Vec<GridPos>)
        requires
            self.wf(),
            self.in_bounds(*pos),
        ensures
            forall|q: GridPos| r@.contains(q) <==> (adjacent(*pos, q) && self.in_bounds(q)),
            r@.no_duplicates(),
    {
        proof {
            lemma_wf_sizes(*self);
        }
        let ghost gsx = self.size_x as int;
        let ghost gsy = self.size_y as int;
        let mut r: Vec<GridPos> = Vec::new();
        let mut k: usize = 0;
        while k < 8
            invariant
                k <= 8,
                in_bounds_spec(*pos, gsx, gsy),
                gsx == self.size_x as int,
                gsy == self.size_y as int,
                self.size_x <= 4000,
                self.size_y <= 4000,
                r@.no_duplicates(),
                forall|q: GridPos|
                    r@.contains(q) <==> exists|m: int|
                        0 <= m < k && q.x == pos.x + crate::heat::offset_dx(m) && q.y == pos.y
                            + #[trigger] crate::heat::offset_dy(m) && in_bounds_spec(q, gsx, gsy),
            decreases 8 - k,
        {
            let (dx, dy) = crate::heat::offset_delta(k);
            let nxi: i64 = pos.x as i64 + dx as i64;
            let nyi: i64 = pos.y as i64 + dy as i64;
            let ghost r_old = r@;
            if 0 <= nxi && nxi < self.size_x as i64 && 0 <= nyi && nyi < self.size_y as i64 {
                let g = GridPos { x: nxi as usize, y: nyi as usize };
                proof {
                    assert(!r_old.contains(g)) by {
                        if r_old.contains(g) {
                            let m = choose|m: int|
                                0 <= m < k as int - 1 && g.x == pos.x + crate::heat::offset_dx(m)
                                    && g.y == pos.y + #[trigger] crate::heat::offset_dy(m)
                                    && in_bounds_spec(g, gsx, gsy);
                            assert(crate::heat::offset_dx(m) == crate::heat::offset_dx(k as int)
                                && crate::heat::offset_dy(m) == crate::heat::offset_dy(k as int));
                            assert(false);
                        }
                    }
                }
                r.push(g);
                proof {
                    assert forall|a: int, b: int|
                        0 <= a < r@.len() && 0 <= b < r@.len() && a != b implies r@[a]
                        != r@[b] by {
                        if a < r@.len() - 1 && b < r@.len() - 1 {
                        }
                    }
                    assert(r@.no_duplicates());
                }
            }
            k = k + 1;
            assert forall|q: GridPos| r@.contains(q) implies exists|m: int|
                0 <= m < k && q.x == pos.x + crate::heat::offset_dx(m) && q.y == pos.y
                    + #[trigger] crate::heat::offset_dy(m) && in_bounds_spec(q, gsx, gsy) by {
                if r_old.contains(q) {
                } else {
                    assert(q == r@[r@.len() - 1]);
                    assert(q.x == pos.x + crate::heat::offset_dx(k - 1) && q.y == pos.y
                        + crate::heat::offset_dy(k - 1) && in_bounds_spec(q, gsx, gsy));
                }
            }
            assert forall|q: GridPos|
                (exists|m: int|
                    0 <= m < k && q.x == pos.x + crate::heat::offset_dx(m) && q.y == pos.y
                        + #[trigger] crate::heat::offset_dy(m) && in_bounds_spec(
                        q,
                        gsx,
                        gsy,
                    )) implies r@.contains(q) by {
                let m = choose|m: int|
                    0 <= m < k && q.x == pos.x + crate::heat::offset_dx(m) && q.y == pos.y
                        + #[trigger] crate::heat::offset_dy(m) && in_bounds_spec(q, gsx, gsy);
                if m < k - 1 {
                    assert(r_old.contains(q));
                    let i = choose|i: int| 0 <= i < r_old.len() && r_old[i] == q;
                    assert(r@[i] == q);
                } else {
                    assert(r@[r@.len() - 1] == q);
                }
            }
        }
        proof {
            assert forall|q: GridPos|
                r@.contains(q) implies (adjacent(*pos, q) && self.in_bounds(q)) by {}
            assert forall|q: GridPos|
                (adjacent(*pos, q) && self.in_bounds(q)) implies r@.contains(q) by {
                let dx = q.x - pos.x;
                let dy = q.y - pos.y;
                if dx == -1 && dy == -1 {
                    assert(q.x == pos.x + crate::heat::offset_dx(0) && q.y == pos.y
                        + crate::heat::offset_dy(0));
                } else if dx == 0 && dy == -1 {
                    assert(q.x == pos.x + crate::heat::offset_dx(1) && q.y == pos.y
                        + crate::heat::offset_dy(1));
                } else if dx == 1 && dy == -1 {
                    assert(q.x == pos.x + crate::heat::offset_dx(2) && q.y == pos.y
                        + crate::heat::offset_dy(2));
                } else if dx == -1 && dy == 0 {
                    assert(q.x == pos.x + crate::heat::offset_dx(3) && q.y == pos.y
                        + crate::heat::offset_dy(3));
                } else if dx == 1 && dy == 0 {
                    assert(q.x == pos.x + crate::heat::offset_dx(4) && q.y == pos.y
                        + crate::heat::offset_dy(4));
                } else if dx == -1 && dy == 1 {
                    assert(q.x == pos.x + crate::heat::offset_dx(5) && q.y == pos.y
                        + crate::heat::offset_dy(5));
                } else if dx == 0 && dy == 1 {
                    assert(q.x == pos.x + crate::heat::offset_dx(6) && q.y == pos.y
                        + crate::heat::offset_dy(6));
                } else {
                    assert(dx == 1 && dy == 1);
                    assert(q.x == pos.x + crate::heat::offset_dx(7) && q.y == pos.y
                        + crate::heat::offset_dy(7));
                }
            }
        }
        r
    }

    /// Rebuilds both fields from the given source cells and obstacles.
    ///
    /// On success the engine holds exactly the cost field of the wavefront
    /// propagation and the flow field derived from it: source cells read
    /// cost zero; a costed cell is reachable from some source; an
    /// unreachable unblocked cell keeps the sentinel and the zero offset;
    /// every steering component is `-1`, `0` or `1`. An empty source list
    /// or an out-of-bounds source is rejected and the engine is left
    /// untouched.
    pub fn build(&mut self, sources: &Vec<GridPos>, obstacles: &Vec<BoxObstacle>) -> (r: Result<
        (),
        NavError,
    >)
        requires
            old(self).wf(),
        ensures
            final(self).wf(),
            final(self).window_width == old(self).window_width,
            final(self).window_height == old(self).window_height,
            final(self).size_x == old(self).size_x,
            final(self).size_y == old(self).size_y,
            r is Ok <==> (sources@.len() > 0 && forall|k: int|
                0 <= k < sources@.len() ==> old(self).in_bounds(#[trigger] sources@[k])),
            sources@.len() == 0 ==> r == Err::<(), NavError>(NavError::NoSources) && *final(self)
                == *old(self),
            (sources@.len() > 0 && !(forall|k: int|
                0 <= k < sources@.len() ==> old(self).in_bounds(#[trigger] sources@[k]))) ==> r
                == Err::<(), NavError>(NavError::SourceOutOfBounds) && *final(self) == *old(self),
            r is Ok ==> final(self).built_from(sources@, obstacles@),
            r is Ok ==> forall|k: int|
                0 <= k < sources@.len() ==> final(self).heat()[idx_of(
                    final(self).size_y as int,
                    #[trigger] sources@[k],
                )] == Some(zero_cost()),
            r is Ok ==> forall|q: GridPos|
                final(self).in_bounds(q) && final(self).heat()[#[trigger] idx_of(
                    final(self).size_y as int,
                    q,
                )] is Some ==> reachable(
                    sources@,
                    blocked_seq(obstacles@, final(self).size_x as int, final(self).size_y as int),
                    final(self).size_x as int,
                    final(self).size_y as int,
                    q,
                ),
            r is Ok ==> forall|q: GridPos|
                final(self).in_bounds(q) && reachable(
                    sources@,
                    blocked_seq(obstacles@, final(self).size_x as int, final(self).size_y as int),
                    final(self).size_x as int,
                    final(self).size_y as int,
                    q,
                ) ==> final(self).heat()[#[trigger] idx_of(final(self).size_y as int, q)] is Some,
            r is Ok ==> forall|q: GridPos|
                final(self).in_bounds(q) && !blocked_at_spec(obstacles@, q.x as int, q.y as int)
                    && !reachable(
                    sources@,
                    blocked_seq(obstacles@, final(self).size_x as int, final(self).size_y as int),
                    final(self).size_x as int,
                    final(self).size_y as int,
                    q,
                ) ==> final(self).heat()[#[trigger] idx_of(final(self).size_y as int, q)] is None
                    && final(self).flow()[idx_of(final(self).size_y as int, q)] == zero_flow(),
            r is Ok ==> forall|i: int|
                0 <= i < final(self).flow().len() ==> -1 <= #[trigger] final(self).flow()[i].dx
                    <= 1 && -1 <= final(self).flow()[i].dy <= 1,
    {
        let ghost gsx = self.size_x as int;
        let ghost gsy = self.size_y as int;
        if sources.len() == 0 {
            return Err(NavError::NoSources);
        }
        let mut k: usize = 0;
        let mut all_in: bool = true;
        while k < sources.len()
            invariant
                k <= sources@.len(),
                gsx == self.size_x as int,
                gsy == self.size_y as int,
                all_in == forall|j: int|
                    0 <= j < k ==> in_bounds_spec(#[trigger] sources@[j], gsx, gsy),
            decreases sources@.len() - k,
        {
            let s = sources[k];
            if !(s.x < self.size_x && s.y < self.size_y) {
                all_in = false;
            }
            k = k + 1;
        }
        if !all_in {
            return Err(NavError::SourceOutOfBounds);
        }
        proof {
            lemma_wf_sizes(*old(self));
        }
        let blocked = crate::obstacle::rasterize(self.size_x, self.size_y, obstacles);
        let heat = crate::heat::propagate(self.size_x, self.size_y, &blocked, sources);
        let flow = crate::flow::derive_flow(self.size_x, self.size_y, &heat);
        assert forall|i: int| 0 <= i < flow@.len() implies -1 <= #[trigger] flow@[i].dx <= 1 && -1
            <= flow@[i].dy <= 1 by {
            crate::grid::lemma_flat_decompose(i, gsx, gsy);
            crate::flow::lemma_flow_at_range(heat@, gsx, gsy, i / gsy, i % gsy);
        }
        assert forall|q: GridPos|
            in_bounds_spec(q, gsx, gsy) && !blocked_at_spec(obstacles@, q.x as int, q.y as int)
                && !reachable(
                sources@,
                blocked_seq(obstacles@, gsx, gsy),
                gsx,
                gsy,
                q,
            ) implies heat@[#[trigger] idx_of(gsy, q)] is None && flow@[idx_of(gsy, q)]
            == zero_flow() by {
            assert(heat@[idx_of(gsy, q)] is None);
            assert forall|m: int|
                0 <= m < 6 implies crate::flow::offset_cost(
                heat@,
                gsx,
                gsy,
                q.x as int,
                q.y as int,
                m,
            ) is None by {
                let nx = q.x + crate::flow::flow_dx(m);
                let ny = q.y + crate::flow::flow_dy(m);
                if 0 <= nx < gsx && 0 <= ny < gsy {
                    let g = GridPos { x: nx as usize, y: ny as usize };
                    assert(in_bounds_spec(g, gsx, gsy));
                    assert(idx_of(gsy, g) == nx * gsy + ny);
                    if heat@[nx * gsy + ny] is Some {
                        assert(reachable(
                            sources@,
                            blocked_seq(obstacles@, gsx, gsy),
                            gsx,
                            gsy,
                            g,
                        ));
                        crate::obstacle::lemma_blocked_seq_at(
                            obstacles@,
                            gsx,
                            gsy,
                            q.x as int,
                            q.y as int,
                        );
                        crate::heat::lemma_reachable_step(
                            sources@,
                            blocked_seq(obstacles@, gsx, gsy),
                            gsx,
                            gsy,
                            g,
                            q,
                        );
                        assert(false);
                    }
                }
            }
            crate::flow::lemma_flow_at_isolated(heat@, gsx, gsy, q.x as int, q.y as int);
            assert(flow@[idx_of(gsy, q)] == flow_at(heat@, gsx, gsy, q.x as int, q.y as int));
        }
        self.heat_grid = heat;
        self.flow_grid = flow;
        Ok(())
    }
}

/// Rebuilding is idempotent: two engines of the same grid dimensions built
/// from the same sources and obstacles hold identical cost and flow fields.
pub proof fn lemma_build_idempotent(
    f1: FlowField,
    f2: FlowField,
    sources: Seq<GridPos>,
    obstacles: Seq<BoxObstacle>,
)
    requires
        f1.size_x == f2.size_x,
        f1.size_y == f2.size_y,
        f1.built_from(sources, obstacles),
        f2.built_from(sources, obstacles),
    ensures
        f1.heat() == f2.heat(),
        f1.flow() == f2.flow(),
{
}

} // verus!
