//! Flow-field derivation: a steering offset per cell, toward falling cost.
//!
//! For every cell, six of the eight surrounding offsets are examined in a
//! fixed order — the pairs `(i, j)` with `i, j` in `{-1, 0, 1}` and
//! `i != j`, which leaves out `(0, 0)` and the two diagonals `(-1, -1)` and
//! `(1, 1)`. Among the in-bounds offsets whose target cell holds a strictly
//! positive cost, the one with the least cost wins (the earliest in the
//! order on a tie), and its offset becomes the cell's steering vector. A
//! cell with no such neighbor keeps the zero vector: no guidance.
//!
//! The steering vector is kept as the raw offset; its components are `-1`,
//! `0` or `1`, so a consumer can normalize a non-zero offset to unit length.

use crate::cost::{cost_lt, cost_lt_spec, Cost};
use crate::grid::GridPos;
use vstd::prelude::*;

verus! {

broadcast use crate::grid::lemma_in_bounds_idx;

/// A per-cell steering offset: each component is `-1`, `0` or `1`.
#[derive(PartialEq, Eq, Structural, Clone, Copy, Debug)]
pub struct FlowVec {
    pub dx: i8,
    pub dy: i8,
}

/// The zero offset: no directional information.
pub open spec fn zero_flow() -> FlowVec {
    FlowVec { dx: 0, dy: 0 }
}

/// Whether a cost is strictly positive, i.e. at least one step long.
pub open spec fn is_positive_cost(c: Cost) -> bool {
    c.ortho > 0 || c.diag > 0
}

/// x component of the `k`-th flow offset, `k` in `0..6`.
///
/// The fixed order of the six examined offsets:
/// `(-1,0), (-1,1), (0,-1), (0,1), (1,-1), (1,0)`.
pub open spec fn flow_dx(k: int) -> int {
    if k == 0 || k == 1 {
        -1
    } else if k == 2 || k == 3 {
        0
    } else {
        1
    }
}

/// y component of the `k`-th flow offset, `k` in `0..6`.
pub open spec fn flow_dy(k: int) -> int {
    if k == 2 || k == 4 {
        -1
    } else if k == 0 || k == 5 {
        0
    } else {
        1
    }
}

/// The cost that offset `k` of cell `(x, y)` exposes: the target cell's
/// cost if the target is in bounds and strictly positive, nothing
/// otherwise.
pub open spec fn offset_cost(
    heat: Seq<Option<Cost>>,
    size_x: int,
    size_y: int,
    x: int,
    y: int,
    k: int,
) -> Option<Cost> {
    let nx = x + flow_dx(k);
    let ny = y + flow_dy(k);
    if 0 <= nx < size_x && 0 <= ny < size_y {
        match heat[nx * size_y + ny] {
            Some(c) => if is_positive_cost(c) {
                Some(c)
            } else {
                None
            },
            None => None,
        }
    } else {
        None
    }
}

/// The scan of offsets `k..6`, carrying the best offset and cost seen so
/// far; a later offset replaces the carried one only with a strictly lower
/// cost.
pub open spec fn scan_flow(
    heat: Seq<Option<Cost>>,
    size_x: int,
    size_y: int,
    x: int,
    y: int,
    k: int,
    best: FlowVec,
    best_cost: Option<Cost>,
) -> (FlowVec, Option<Cost>)
    decreases 6 - k,
{
    if k < 0 || k >= 6 {
        (best, best_cost)
    } else {
        let taken = match (offset_cost(heat, size_x, size_y, x, y, k), best_cost) {
            (Some(c), None) => true,
            (Some(c), Some(b)) => cost_lt_spec(c, b),
            _ => false,
        };
        if taken {
            scan_flow(
                heat,
                size_x,
                size_y,
                x,
                y,
                k + 1,
                FlowVec { dx: flow_dx(k) as i8, dy: flow_dy(k) as i8 },
                offset_cost(heat, size_x, size_y, x, y, k),
            )
        } else {
            scan_flow(heat, size_x, size_y, x, y, k + 1, best, best_cost)
        }
    }
}

/// The steering offset of cell `(x, y)` for a given cost field.
pub open spec fn flow_at(
    heat: Seq<Option<Cost>>,
    size_x: int,
    size_y: int,
    x: int,
    y: int,
) -> FlowVec {
    scan_flow(heat, size_x, size_y, x, y, 0, zero_flow(), None).0
}

/// The whole flow field derived from a cost field, flat and row-major like
/// the cost field itself.
pub open spec fn flow_field_spec(heat: Seq<Option<Cost>>, size_x: int, size_y: int) -> Seq<
    FlowVec,
> {
    Seq::new((size_x * size_y) as nat, |i: int| flow_at(heat, size_x, size_y, i / size_y, i % size_y))
}

/// A scan that finds nothing to take leaves its carried value alone.
pub proof fn lemma_scan_flow_ineligible(
    heat: Seq<Option<Cost>>,
    size_x: int,
    size_y: int,
    x: int,
    y: int,
    k: int,
    best: FlowVec,
    best_cost: Option<Cost>,
)
    requires
        forall|m: int| k <= m < 6 ==> offset_cost(heat, size_x, size_y, x, y, m) is None,
    ensures
        scan_flow(heat, size_x, size_y, x, y, k, best, best_cost) == (best, best_cost),
    decreases 6 - k,
{
    if 0 <= k < 6 {
        assert(offset_cost(heat, size_x, size_y, x, y, k) is None);
        lemma_scan_flow_ineligible(heat, size_x, size_y, x, y, k + 1, best, best_cost);
    }
}

/// A cell none of whose six offsets exposes a positive cost keeps the zero
/// offset.
pub proof fn lemma_flow_at_isolated(
    heat: Seq<Option<Cost>>,
    size_x: int,
    size_y: int,
    x: int,
    y: int,
)
    requires
        forall|m: int| 0 <= m < 6 ==> offset_cost(heat, size_x, size_y, x, y, m) is None,
    ensures
        flow_at(heat, size_x, size_y, x, y) == zero_flow(),
{
    lemma_scan_flow_ineligible(heat, size_x, size_y, x, y, 0, zero_flow(), None);
}

/// The scan only ever carries offsets whose components are `-1`, `0` or
/// `1`, and returns the zero offset exactly as long as it has found no
/// positive-cost neighbor.
pub proof fn lemma_scan_flow_range(
    heat: Seq<Option<Cost>>,
    size_x: int,
    size_y: int,
    x: int,
    y: int,
    k: int,
    best: FlowVec,
    best_cost: Option<Cost>,
)
    requires
        -1 <= best.dx <= 1,
        -1 <= best.dy <= 1,
        best_cost is None ==> best == zero_flow(),
        best_cost is Some ==> !(best.dx == 0 && best.dy == 0),
    ensures
        ({
            let r = scan_flow(heat, size_x, size_y, x, y, k, best, best_cost);
            &&& -1 <= r.0.dx <= 1
            &&& -1 <= r.0.dy <= 1
            &&& r.1 is None ==> r.0 == zero_flow()
            &&& r.1 is Some ==> !(r.0.dx == 0 && r.0.dy == 0)
        }),
    decreases 6 - k,
{
    if 0 <= k < 6 {
        let taken = match (offset_cost(heat, size_x, size_y, x, y, k), best_cost) {
            (Some(c), None) => true,
            (Some(c), Some(b)) => cost_lt_spec(c, b),
            _ => false,
        };
        if taken {
            lemma_scan_flow_range(
                heat,
                size_x,
                size_y,
                x,
                y,
                k + 1,
                FlowVec { dx: flow_dx(k) as i8, dy: flow_dy(k) as i8 },
                offset_cost(heat, size_x, size_y, x, y, k),
            );
        } else {
            lemma_scan_flow_range(heat, size_x, size_y, x, y, k + 1, best, best_cost);
        }
    }
}

/// Every steering offset the scan can produce has components `-1`, `0` or
/// `1`.
pub proof fn lemma_flow_at_range(heat: Seq<Option<Cost>>, size_x: int, size_y: int, x: int, y: int)
    ensures
        -1 <= flow_at(heat, size_x, size_y, x, y).dx <= 1,
        -1 <= flow_at(heat, size_x, size_y, x, y).dy <= 1,
{
    lemma_scan_flow_range(heat, size_x, size_y, x, y, 0, zero_flow(), None);
}

/// The `k`-th flow offset as machine integers.
fn flow_delta(k: usize) -> (r: (i8, i8))
    requires
        k < 6,
    ensures
        r.0 as int == flow_dx(k as int),
        r.1 as int == flow_dy(k as int),
{
    if k == 0 {
        (-1, 0)
    } else if k == 1 {
        (-1, 1)
    } else if k == 2 {
        (0, -1)
    } else if k == 3 {
        (0, 1)
    } else if k == 4 {
        (1, -1)
    } else {
        (1, 0)
    }
}

/// Derives the whole flow field from a cost field.
///
/// Every entry is exactly the steering offset `flow_at` describes; its
/// components are `-1`, `0` or `1`, and it is the zero offset whenever the
/// cell has no in-bounds neighbor (under the six-offset rule) with strictly
/// positive cost.
pub fn derive_flow(size_x: usize, size_y: usize, heat: &Vec<Option<Cost>>) -> (flow: Vec<FlowVec>)
    requires
        size_x <= 4000,
        size_y <= 4000,
        heat@.len() == size_x * size_y,
    ensures
        flow@.len() == size_x * size_y,
        flow@ == flow_field_spec(heat@, size_x as int, size_y as int),
        forall|x: int, y: int|
            0 <= x < size_x && 0 <= y < size_y ==> flow@[x * size_y + y] == #[trigger] flow_at(
                heat@,
                size_x as int,
                size_y as int,
                x,
                y,
            ),
{
    let ghost gsx = size_x as int;
    let ghost gsy = size_y as int;
    assert(size_x * size_y <= 16000000) by (nonlinear_arith)
        requires
            size_x <= 4000,
            size_y <= 4000,
    ;
    let n: usize = size_x * size_y;
    let mut flow: Vec<FlowVec> = Vec::new();
    let mut x: usize = 0;
    while x < size_x
        invariant
            x <= size_x,
            size_x <= 4000,
            size_y <= 4000,
            n == size_x * size_y,
            gsx == size_x as int,
            gsy == size_y as int,
            heat@.len() == n,
            flow@.len() == x * size_y,
            forall|xx: int, yy: int|
                0 <= xx < x && 0 <= yy < size_y ==> flow@[xx * size_y + yy] == #[trigger] flow_at(
                    heat@,
                    gsx,
                    gsy,
                    xx,
                    yy,
                ),
        decreases size_x - x,
    {
        let mut y: usize = 0;
        while y < size_y
            invariant
                x < size_x,
                y <= size_y,
                size_x <= 4000,
                size_y <= 4000,
                n == size_x * size_y,
                gsx == size_x as int,
                gsy == size_y as int,
                heat@.len() == n,
                flow@.len() == x * size_y + y,
                forall|xx: int, yy: int|
                    0 <= xx < x && 0 <= yy < size_y ==> flow@[xx * size_y + yy]
                        == #[trigger] flow_at(heat@, gsx, gsy, xx, yy),
                forall|yy: int|
                    0 <= yy < y ==> flow@[x * size_y + yy] == #[trigger] flow_at(
                        heat@,
                        gsx,
                        gsy,
                        x as int,
                        yy,
                    ),
            decreases size_y - y,
        {
            let mut best = FlowVec { dx: 0, dy: 0 };
            let mut best_cost: Option<Cost> = None;
            let mut k: usize = 0;
            while k < 6
                invariant
                    k <= 6,
                    x < size_x,
                    y < size_y,
                    size_x <= 4000,
                    size_y <= 4000,
                    n == size_x * size_y,
                    gsx == size_x as int,
                    gsy == size_y as int,
                    heat@.len() == n,
                    scan_flow(heat@, gsx, gsy, x as int, y as int, k as int, best, best_cost)
                        == scan_flow(
                        heat@,
                        gsx,
                        gsy,
                        x as int,
                        y as int,
                        0,
                        zero_flow(),
                        None,
                    ),
                decreases 6 - k,
            {
                let (dx, dy) = flow_delta(k);
                let nxi: i64 = x as i64 + dx as i64;
                let nyi: i64 = y as i64 + dy as i64;
                let mut cell: Option<Cost> = None;
                if 0 <= nxi && nxi < size_x as i64 && 0 <= nyi && nyi < size_y as i64 {
                    let nx = nxi as usize;
                    let ny = nyi as usize;
                    proof {
                        crate::grid::lemma_idx_bounds(nx as int, ny as int, gsx, gsy);
                    }
                    let ni = nx * size_y + ny;
                    match heat[ni] {
                        Some(c) => {
                            if c.ortho > 0 || c.diag > 0 {
                                cell = Some(c);
                            }
                        },
                        None => {},
                    }
                }
                proof {
                    assert(cell == offset_cost(heat@, gsx, gsy, x as int, y as int, k as int));
                }
                let taken: bool = match (cell, best_cost) {
                    (Some(c), None) => true,
                    (Some(c), Some(b)) => cost_lt(&c, &b),
                    _ => false,
                };
                if taken {
                    best = FlowVec { dx, dy };
                    best_cost = cell;
                }
                k = k + 1;
            }
            proof {
                crate::grid::lemma_idx_bounds(x as int, y as int, gsx, gsy);
            }
            flow.push(best);
            y = y + 1;
            assert(forall|xx: int, yy: int|
                0 <= xx < x && 0 <= yy < size_y ==> flow@[xx * size_y + yy] == #[trigger] flow_at(
                    heat@,
                    gsx,
                    gsy,
                    xx,
                    yy,
                )) by {
                assert forall|xx: int, yy: int|
                    0 <= xx < x && 0 <= yy < size_y implies flow@[xx * size_y + yy]
                        == #[trigger] flow_at(heat@, gsx, gsy, xx, yy) by {
                    assert((xx * size_y + yy) < x * size_y) by (nonlinear_arith)
                        requires
                            0 <= xx < x,
                            0 <= yy < size_y,
                    ;
                }
            }
        }
        x = x + 1;
        assert(flow@.len() == x * size_y) by (nonlinear_arith)
            requires
                flow@.len() == (x - 1) * size_y + size_y,
        ;
        assert(forall|xx: int, yy: int|
            0 <= xx < x && 0 <= yy < size_y ==> flow@[xx * size_y + yy] == #[trigger] flow_at(
                heat@,
                gsx,
                gsy,
                xx,
                yy,
            ));
    }
    proof {
        assert forall|i: int| 0 <= i < n implies flow@[i] == flow_field_spec(heat@, gsx, gsy)[i] by {
            crate::grid::lemma_flat_decompose(i, gsx, gsy);
        }
        assert(flow@ =~= flow_field_spec(heat@, gsx, gsy));
    }
    flow
}

} // verus!
