//! Grid coordinates: cell addresses, bounds, adjacency and distance.

use vstd::prelude::*;

verus! {

/// Address of one cell of the discretized world.
///
/// Equality and hashing are by value. A position is only meaningful for a
/// given grid once it satisfies `in_bounds`.
#[derive(PartialEq, Eq, Structural, Clone, Copy, Debug, Hash)]
pub struct GridPos {
    pub x: usize,
    pub y: usize,
}

/// Whether `p` addresses a cell of a grid with `size_x * size_y` cells.
pub open spec fn in_bounds_spec(p: GridPos, size_x: int, size_y: int) -> bool {
    p.x < size_x && p.y < size_y
}

/// Index of cell `p` in a flat row-major array of a grid `size_y` cells tall.
pub open spec fn idx_of(size_y: int, p: GridPos) -> int {
    p.x * size_y + p.y
}

/// Moore adjacency: `a` and `b` are distinct cells whose coordinates differ
/// by at most one in each axis (8-neighborhood).
pub open spec fn adjacent(a: GridPos, b: GridPos) -> bool {
    &&& a != b
    &&& -1 <= b.x - a.x <= 1
    &&& -1 <= b.y - a.y <= 1
}

/// Square of the Euclidean distance between two cell addresses.
pub open spec fn distance_sq_spec(a: GridPos, b: GridPos) -> int {
    (a.x - b.x) * (a.x - b.x) + (a.y - b.y) * (a.y - b.y)
}

/// Ambient form of the index bound: any in-bounds cell has its flat index
/// inside the array.
pub broadcast proof fn lemma_in_bounds_idx(p: GridPos, size_x: int, size_y: int)
    requires
        #[trigger] in_bounds_spec(p, size_x, size_y),
    ensures
        0 <= idx_of(size_y, p) < size_x * size_y,
{
    lemma_idx_bounds(p.x as int, p.y as int, size_x, size_y);
}

/// A cell inside the bounds has its flat index inside the array.
pub proof fn lemma_idx_bounds(x: int, y: int, size_x: int, size_y: int)
    requires
        0 <= x < size_x,
        0 <= y < size_y,
    ensures
        0 <= x * size_y + y < size_x * size_y,
{
    assert(0 <= x * size_y + y && x * size_y + y < size_x * size_y) by (nonlinear_arith)
        requires
            0 <= x < size_x,
            0 <= y < size_y,
    ;
}

/// A flat row-major index decomposes into its cell coordinates.
pub proof fn lemma_flat_decompose(i: int, size_x: int, size_y: int)
    requires
        0 <= size_x,
        0 <= i < size_x * size_y,
    ensures
        0 < size_y,
        0 <= i / size_y < size_x,
        0 <= i % size_y < size_y,
        (i / size_y) * size_y + i % size_y == i,
{
    assert(0 < size_y) by (nonlinear_arith)
        requires
            0 <= size_x,
            0 <= i < size_x * size_y,
    ;
    assert(0 <= i / size_y < size_x && 0 <= i % size_y < size_y && (i / size_y) * size_y + i
        % size_y == i) by (nonlinear_arith)
        requires
            0 <= i < size_x * size_y,
            0 < size_y,
    ;
}

/// Distinct in-bounds cells have distinct flat indices.
pub proof fn lemma_idx_injective(x1: int, y1: int, x2: int, y2: int, size_y: int)
    requires
        0 <= y1 < size_y,
        0 <= y2 < size_y,
        0 <= x1,
        0 <= x2,
        x1 * size_y + y1 == x2 * size_y + y2,
    ensures
        x1 == x2 && y1 == y2,
{
    assert(x1 == x2 && y1 == y2) by (nonlinear_arith)
        requires
            0 <= y1 < size_y,
            0 <= y2 < size_y,
            0 <= x1,
            0 <= x2,
            x1 * size_y + y1 == x2 * size_y + y2,
    ;
}

impl From<(usize, usize)> for GridPos {
    /// A cell address from its coordinate pair.
    fn from(pair: (usize, usize)) -> (r: GridPos)
        ensures
            r == (GridPos { x: pair.0, y: pair.1 }),
    {
        GridPos { x: pair.0, y: pair.1 }
    }
}

impl vstd::std_specs::convert::FromSpecImpl<(usize, usize)> for GridPos {
    open spec fn obeys_from_spec() -> bool {
        true
    }

    open spec fn from_spec(pair: (usize, usize)) -> GridPos {
        GridPos { x: pair.0, y: pair.1 }
    }
}

impl GridPos {
    /// Square of the Euclidean distance between the centers of `self` and
    /// `other`, in cell units. For adjacent cells this is `1` (orthogonal)
    /// or `2` (diagonal).
    pub fn distance_sq(&self, other: &GridPos) -> (r: u128)
        requires
            self.x <= u32::MAX as usize,
            self.y <= u32::MAX as usize,
            other.x <= u32::MAX as usize,
            other.y <= u32::MAX as usize,
        ensures
            r == distance_sq_spec(*self, *other),
    {
        let dx: u64 = if self.x >= other.x {
            (self.x - other.x) as u64
        } else {
            (other.x - self.x) as u64
        };
        let dy: u64 = if self.y >= other.y {
            (self.y - other.y) as u64
        } else {
            (other.y - self.y) as u64
        };
        assert(dx as int * dx as int == (self.x - other.x) * (self.x - other.x)
            && dx as int * dx as int <= 0xffff_ffff_ffff_ffff) by (nonlinear_arith)
            requires
                dx <= 0xffff_ffff,
                dx == self.x - other.x || dx == other.x - self.x,
        ;
        assert(dy as int * dy as int == (self.y - other.y) * (self.y - other.y)
            && dy as int * dy as int <= 0xffff_ffff_ffff_ffff) by (nonlinear_arith)
            requires
                dy <= 0xffff_ffff,
                dy == self.y - other.y || dy == other.y - self.y,
        ;
        dx as u128 * dx as u128 + dy as u128 * dy as u128
    }
}

} // verus!
