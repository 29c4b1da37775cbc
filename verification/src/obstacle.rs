//! Obstacle rasterization: marking every grid cell that a static obstacle
//! overlaps.
//!
//! An obstacle is an axis-aligned box in world units. A cell is blocked as
//! soon as its own world-space footprint (a `CELL_SIZE` by `CELL_SIZE` box
//! centered on `(CELL_SIZE * x, CELL_SIZE * y)`) meets the obstacle box,
//! however small the overlap; touching edges count. Doubling both sides of
//! the interval test keeps the cell's half extent (`CELL_SIZE / 2`, which is
//! not a whole number of units) exact.

use crate::CELL_SIZE;
use vstd::prelude::*;

verus! {

/// An axis-aligned static obstacle, in world units.
#[derive(PartialEq, Eq, Structural, Clone, Copy, Debug)]
pub struct BoxObstacle {
    /// World x coordinate of the box center.
    pub center_x: i64,
    /// World y coordinate of the box center.
    pub center_y: i64,
    /// Half of the box width.
    pub half_width: u32,
    /// Half of the box height.
    pub half_height: u32,
}

/// Absolute value of a mathematical integer.
pub open spec fn abs_int(i: int) -> int {
    if i < 0 {
        -i
    } else {
        i
    }
}

/// Whether obstacle `o` overlaps the footprint of cell `(x, y)`.
///
/// On each axis the centers may be at most the sum of the two half extents
/// apart; both sides are doubled so that the cell's half extent stays an
/// integer.
pub open spec fn overlaps_spec(o: BoxObstacle, x: int, y: int) -> bool {
    &&& 2 * abs_int(CELL_SIZE * x - o.center_x) <= CELL_SIZE + 2 * o.half_width
    &&& 2 * abs_int(CELL_SIZE * y - o.center_y) <= CELL_SIZE + 2 * o.half_height
}

/// Whether any obstacle of `obs` overlaps cell `(x, y)`.
pub open spec fn blocked_at_spec(obs: Seq<BoxObstacle>, x: int, y: int) -> bool {
    exists|i: int| 0 <= i < obs.len() && overlaps_spec(obs[i], x, y)
}

/// The flat row-major blocked map of a whole grid.
pub open spec fn blocked_seq(obs: Seq<BoxObstacle>, size_x: int, size_y: int) -> Seq<bool> {
    Seq::new(
        (size_x * size_y) as nat,
        |i: int| blocked_at_spec(obs, i / size_y, i % size_y),
    )
}

/// The blocked map holds, at the flat index of an in-bounds cell, exactly
/// the blocked test of that cell.
pub proof fn lemma_blocked_seq_at(obs: Seq<BoxObstacle>, size_x: int, size_y: int, x: int, y: int)
    requires
        0 <= x < size_x,
        0 <= y < size_y,
    ensures
        blocked_seq(obs, size_x, size_y)[x * size_y + y] == blocked_at_spec(obs, x, y),
{
    crate::grid::lemma_idx_bounds(x, y, size_x, size_y);
    let i = x * size_y + y;
    crate::grid::lemma_flat_decompose(i, size_x, size_y);
    crate::grid::lemma_idx_injective(i / size_y, i % size_y, x, y, size_y);
}

/// Overlap test between one obstacle and the footprint of cell `(x, y)`.
pub fn cell_overlaps(o: &BoxObstacle, x: usize, y: usize) -> (r: bool)
    requires
        x <= 100000,
        y <= 100000,
    ensures
        r == overlaps_spec(*o, x as int, y as int),
{
    let cell_x: i128 = CELL_SIZE as i128 * x as i128;
    let cell_y: i128 = CELL_SIZE as i128 * y as i128;
    let dx: i128 = cell_x - o.center_x as i128;
    let dy: i128 = cell_y - o.center_y as i128;
    let adx: i128 = if dx < 0 { -dx } else { dx };
    let ady: i128 = if dy < 0 { -dy } else { dy };
    2 * adx <= CELL_SIZE as i128 + 2 * o.half_width as i128
        && 2 * ady <= CELL_SIZE as i128 + 2 * o.half_height as i128
}

/// Rasterizes the obstacles onto a `size_x` by `size_y` grid.
///
/// The result is a flat row-major array: entry `x * size_y + y` says whether
/// cell `(x, y)` is blocked by some obstacle.
pub fn rasterize(size_x: usize, size_y: usize, obstacles: &Vec<BoxObstacle>) -> (b: Vec<bool>)
    requires
        size_x <= 4000,
        size_y <= 4000,
    ensures
        b@.len() == size_x * size_y,
        b@ == blocked_seq(obstacles@, size_x as int, size_y as int),
        forall|x: int, y: int|
            0 <= x < size_x && 0 <= y < size_y
                ==> b@[x * size_y + y] == #[trigger] blocked_at_spec(obstacles@, x, y),
{
    let mut b: Vec<bool> = Vec::new();
    let mut x: usize = 0;
    while x < size_x
        invariant
            x <= size_x,
            size_x <= 4000,
            size_y <= 4000,
            b@.len() == x * size_y,
            forall|xx: int, yy: int|
                0 <= xx < x && 0 <= yy < size_y
                    ==> b@[xx * size_y + yy] == #[trigger] blocked_at_spec(obstacles@, xx, yy),
        decreases size_x - x,
    {
        let mut y: usize = 0;
        while y < size_y
            invariant
                x < size_x,
                y <= size_y,
                size_x <= 4000,
                size_y <= 4000,
                b@.len() == x * size_y + y,
                forall|xx: int, yy: int|
                    0 <= xx < x && 0 <= yy < size_y
                        ==> b@[xx * size_y + yy] == #[trigger] blocked_at_spec(obstacles@, xx, yy),
                forall|yy: int|
                    0 <= yy < y
                        ==> b@[x * size_y + yy] == #[trigger] blocked_at_spec(obstacles@, x as int, yy),
            decreases size_y - y,
        {
            let mut hit: bool = false;
            let mut i: usize = 0;
            while i < obstacles.len()
                invariant
                    i <= obstacles.len(),
                    x < size_x,
                    y < size_y,
                    size_x <= 4000,
                    size_y <= 4000,
                    hit == exists|j: int|
                        0 <= j < i && overlaps_spec(#[trigger] obstacles@[j], x as int, y as int),
                decreases obstacles.len() - i,
            {
                if cell_overlaps(&obstacles[i], x, y) {
                    hit = true;
                }
                i = i + 1;
            }
            proof {
                crate::grid::lemma_idx_bounds(x as int, y as int, size_x as int, size_y as int);
            }
            b.push(hit);
            y = y + 1;
            assert(forall|xx: int, yy: int|
                0 <= xx < x && 0 <= yy < size_y
                    ==> b@[xx * size_y + yy] == #[trigger] blocked_at_spec(obstacles@, xx, yy))
                by {
                assert forall|xx: int, yy: int|
                    0 <= xx < x && 0 <= yy < size_y
                        implies b@[xx * size_y + yy] == #[trigger] blocked_at_spec(
                        obstacles@,
                        xx,
                        yy,
                    ) by {
                    assert((xx * size_y + yy) < x * size_y) by (nonlinear_arith)
                        requires
                            0 <= xx < x,
                            0 <= yy < size_y,
                    ;
                }
            }
        }
        x = x + 1;
        assert(b@.len() == x * size_y) by (nonlinear_arith)
            requires
                b@.len() == (x - 1) * size_y + size_y,
        ;
        assert(forall|xx: int, yy: int|
            0 <= xx < x && 0 <= yy < size_y
                ==> b@[xx * size_y + yy] == #[trigger] blocked_at_spec(obstacles@, xx, yy));
    }
    proof {
        let gsx = size_x as int;
        let gsy = size_y as int;
        assert forall|i: int| 0 <= i < b@.len() implies b@[i] == blocked_seq(obstacles@, gsx, gsy)[i] by {
            crate::grid::lemma_flat_decompose(i, gsx, gsy);
        }
        assert(b@ =~= blocked_seq(obstacles@, gsx, gsy));
    }
    b
}

} // verus!
