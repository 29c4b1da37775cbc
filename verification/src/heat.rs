//! Cost-field construction: multi-source wavefront propagation.
//!
//! Sources are seeded at cost zero and put on a first-in-first-out queue.
//! Each dequeued cell examines its eight Moore neighbors in a fixed order;
//! a neighbor that is in bounds and not blocked receives the dequeued cell's
//! cost plus the edge length (`1` orthogonally, `sqrt(2)` diagonally). A
//! neighbor seen for the first time is assigned and enqueued; one already
//! holding a cost is overwritten when the new cost is strictly lower, but is
//! not re-enqueued, so propagation does not continue from the improved value.
//! Cells never reached keep no cost at all (the sentinel).
//!
//! The whole construction is specified operationally by the spec functions
//! below, so the resulting field is a mathematical function of the grid
//! size, the blocked set and the source list: rebuilding from equal inputs
//! gives an equal field.

use crate::cost::{cost_lt, cost_lt_spec, cost_step, cost_step_spec, zero_cost, Cost};
use crate::grid::{idx_of, in_bounds_spec, GridPos};
use vstd::prelude::*;

verus! {

broadcast use crate::grid::lemma_in_bounds_idx;

/// State of the propagation: the cost of every cell (`None` = unreached)
/// and the still-unprocessed tail of the queue.
#[verifier::ext_equal]
pub ghost struct HeatState {
    pub heat: Seq<Option<Cost>>,
    pub queue: Seq<GridPos>,
}

/// x component of the `k`-th neighbor offset, `k` in `0..8`.
///
/// The fixed processing order of the eight Moore offsets, row by row:
/// `(-1,-1), (0,-1), (1,-1), (-1,0), (1,0), (-1,1), (0,1), (1,1)`.
pub open spec fn offset_dx(k: int) -> int {
    if k == 0 || k == 3 || k == 5 {
        -1
    } else if k == 1 || k == 6 {
        0
    } else {
        1
    }
}

/// y component of the `k`-th neighbor offset, `k` in `0..8`.
pub open spec fn offset_dy(k: int) -> int {
    if k == 0 || k == 1 || k == 2 {
        -1
    } else if k == 3 || k == 4 {
        0
    } else {
        1
    }
}

/// One relaxation: cell `p` offers its cost plus one step to the neighbor at
/// offset `k`. Out-of-bounds or blocked neighbors are left alone; a fresh
/// neighbor is assigned and enqueued; an already-costed neighbor is only
/// overwritten (not enqueued) when the offer is strictly lower.
pub open spec fn relax_one(
    size_x: int,
    size_y: int,
    blocked: Seq<bool>,
    s: HeatState,
    p: GridPos,
    k: int,
) -> HeatState {
    let nx = p.x + offset_dx(k);
    let ny = p.y + offset_dy(k);
    let ni = nx * size_y + ny;
    if 0 <= nx < size_x && 0 <= ny < size_y && !blocked[ni] {
        match s.heat[idx_of(size_y, p)] {
            Some(c) => {
                let cand = cost_step_spec(c, offset_dx(k) != 0 && offset_dy(k) != 0);
                match s.heat[ni] {
                    None => HeatState {
                        heat: s.heat.update(ni, Some(cand)),
                        queue: s.queue.push(GridPos { x: nx as usize, y: ny as usize }),
                    },
                    Some(cur) => if cost_lt_spec(cand, cur) {
                        HeatState { heat: s.heat.update(ni, Some(cand)), queue: s.queue }
                    } else {
                        s
                    },
                }
            },
            None => s,
        }
    } else {
        s
    }
}

/// Relaxations of cell `p` toward the offsets `k..8`, in order.
pub open spec fn relax_upto(
    size_x: int,
    size_y: int,
    blocked: Seq<bool>,
    s: HeatState,
    p: GridPos,
    k: int,
) -> HeatState
    decreases 8 - k,
{
    if k < 0 || k >= 8 {
        s
    } else {
        relax_upto(size_x, size_y, blocked, relax_one(size_x, size_y, blocked, s, p, k), p, k + 1)
    }
}

/// One round of the propagation: dequeue the front cell and relax all eight
/// of its offsets.
pub open spec fn heat_step(size_x: int, size_y: int, blocked: Seq<bool>, s: HeatState) -> HeatState {
    let p = s.queue[0];
    let popped = HeatState { heat: s.heat, queue: s.queue.drop_first() };
    relax_upto(size_x, size_y, blocked, popped, p, 0)
}

/// The propagation run to completion: rounds until the queue is empty.
///
/// `fuel` bounds the number of rounds; a run started with fuel equal to the
/// cell count always drains its queue, because every enqueue turns an
/// unreached cell into a reached one.
pub open spec fn heat_run(
    size_x: int,
    size_y: int,
    blocked: Seq<bool>,
    s: HeatState,
    fuel: nat,
) -> HeatState
    decreases fuel,
{
    if fuel == 0 || s.queue.len() == 0 {
        s
    } else {
        heat_run(size_x, size_y, blocked, heat_step(size_x, size_y, blocked, s), (fuel - 1) as nat)
    }
}

/// Seeding of the sources `k..` in order: each source cell not yet seeded is
/// set to cost zero and enqueued; a repeated source is left as it is.
pub open spec fn seed_upto(
    size_y: int,
    sources: Seq<GridPos>,
    s: HeatState,
    k: int,
) -> HeatState
    decreases sources.len() - k,
{
    if k < 0 || k >= sources.len() {
        s
    } else {
        let p = sources[k];
        let i = idx_of(size_y, p);
        let s2 = if s.heat[i] is None {
            HeatState { heat: s.heat.update(i, Some(zero_cost())), queue: s.queue.push(p) }
        } else {
            s
        };
        seed_upto(size_y, sources, s2, k + 1)
    }
}

/// The state before seeding: every cell unreached, nothing queued.
pub open spec fn init_state(size_x: int, size_y: int) -> HeatState {
    HeatState { heat: Seq::new((size_x * size_y) as nat, |i: int| None), queue: Seq::empty() }
}

/// The cost field itself: the exact per-cell costs that seeding the sources
/// and running the wavefront to completion produces on a `size_x` by
/// `size_y` grid with the given blocked cells.
pub open spec fn heat_field(
    size_x: int,
    size_y: int,
    blocked: Seq<bool>,
    sources: Seq<GridPos>,
) -> Seq<Option<Cost>> {
    heat_run(
        size_x,
        size_y,
        blocked,
        seed_upto(size_y, sources, init_state(size_x, size_y), 0),
        (size_x * size_y) as nat,
    ).heat
}

/// A walk from a source to `dest`: it starts on a source cell, stays inside
/// the grid, and after the first cell moves only between Moore-adjacent
/// unblocked cells.
pub open spec fn is_path(
    path: Seq<GridPos>,
    sources: Seq<GridPos>,
    blocked: Seq<bool>,
    size_x: int,
    size_y: int,
) -> bool {
    &&& path.len() >= 1
    &&& sources.contains(path[0])
    &&& forall|i: int| 0 <= i < path.len() ==> in_bounds_spec(#[trigger] path[i], size_x, size_y)
    &&& forall|i: int|
        1 <= i < path.len() ==> !blocked[idx_of(size_y, #[trigger] path[i])] && crate::grid::adjacent(
            path[i - 1],
            path[i],
        )
}

/// Whether the wavefront can reach `dest` at all: some walk from a source
/// ends there.
pub open spec fn reachable(
    sources: Seq<GridPos>,
    blocked: Seq<bool>,
    size_x: int,
    size_y: int,
    dest: GridPos,
) -> bool {
    exists|path: Seq<GridPos>|
        is_path(path, sources, blocked, size_x, size_y) && path.last() == dest
}

/// Every in-bounds source cell is reachable, by the one-cell walk.
pub proof fn lemma_source_reachable(
    sources: Seq<GridPos>,
    blocked: Seq<bool>,
    size_x: int,
    size_y: int,
    k: int,
)
    requires
        0 <= k < sources.len(),
        in_bounds_spec(sources[k], size_x, size_y),
    ensures
        reachable(sources, blocked, size_x, size_y, sources[k]),
{
    let path = seq![sources[k]];
    assert(sources.contains(path[0]));
    assert(is_path(path, sources, blocked, size_x, size_y));
    assert(path.last() == sources[k]);
}

/// Reachability extends across one step to an adjacent, in-bounds,
/// unblocked cell.
pub proof fn lemma_reachable_step(
    sources: Seq<GridPos>,
    blocked: Seq<bool>,
    size_x: int,
    size_y: int,
    p: GridPos,
    q: GridPos,
)
    requires
        reachable(sources, blocked, size_x, size_y, p),
        in_bounds_spec(q, size_x, size_y),
        !blocked[idx_of(size_y, q)],
        crate::grid::adjacent(p, q),
    ensures
        reachable(sources, blocked, size_x, size_y, q),
{
    let path = choose|path: Seq<GridPos>|
        is_path(path, sources, blocked, size_x, size_y) && path.last() == p;
    let path2 = path.push(q);
    assert(path2[0] == path[0]);
    assert forall|i: int| 1 <= i < path2.len() implies !blocked[idx_of(
        size_y,
        #[trigger] path2[i],
    )] && crate::grid::adjacent(path2[i - 1], path2[i]) by {
        if i < path.len() {
            assert(path2[i] == path[i]);
            assert(path2[i - 1] == path[i - 1]);
        } else {
            assert(path2[i] == q);
            assert(path2[i - 1] == path[path.len() - 1]);
        }
    }
    assert(is_path(path2, sources, blocked, size_x, size_y));
    assert(path2.last() == q);
}

/// Whether the neighbor of `p` at offset `k`, if it is in bounds and not
/// blocked, already holds a cost.
pub open spec fn neighbor_assigned(
    heat: Seq<Option<Cost>>,
    blocked: Seq<bool>,
    size_x: int,
    size_y: int,
    p: GridPos,
    k: int,
) -> bool {
    let nx = p.x + offset_dx(k);
    let ny = p.y + offset_dy(k);
    (0 <= nx < size_x && 0 <= ny < size_y && !blocked[nx * size_y + ny]) ==> heat[nx * size_y
        + ny] is Some
}

/// Whether every unblocked in-bounds neighbor of `p` under the offsets
/// `0..upto` already holds a cost.
pub open spec fn settled_upto(
    heat: Seq<Option<Cost>>,
    blocked: Seq<bool>,
    size_x: int,
    size_y: int,
    p: GridPos,
    upto: int,
) -> bool {
    forall|k: int|
        0 <= k < upto ==> #[trigger] neighbor_assigned(heat, blocked, size_x, size_y, p, k)
}

/// A fully processed cell: all eight of its unblocked in-bounds neighbors
/// hold a cost.
pub open spec fn settled(
    heat: Seq<Option<Cost>>,
    blocked: Seq<bool>,
    size_x: int,
    size_y: int,
    p: GridPos,
) -> bool {
    settled_upto(heat, blocked, size_x, size_y, p, 8)
}

/// Any Moore-adjacent cell sits at one of the eight offsets.
pub proof fn lemma_adjacent_offset(a: GridPos, b: GridPos)
    requires
        crate::grid::adjacent(a, b),
    ensures
        exists|k: int|
            0 <= k < 8 && b.x == a.x + #[trigger] offset_dx(k) && b.y == a.y + offset_dy(k),
{
    let dx = b.x - a.x;
    let dy = b.y - a.y;
    if dx == -1 && dy == -1 {
        assert(b.x == a.x + offset_dx(0) && b.y == a.y + offset_dy(0));
    } else if dx == 0 && dy == -1 {
        assert(b.x == a.x + offset_dx(1) && b.y == a.y + offset_dy(1));
    } else if dx == 1 && dy == -1 {
        assert(b.x == a.x + offset_dx(2) && b.y == a.y + offset_dy(2));
    } else if dx == -1 && dy == 0 {
        assert(b.x == a.x + offset_dx(3) && b.y == a.y + offset_dy(3));
    } else if dx == 1 && dy == 0 {
        assert(b.x == a.x + offset_dx(4) && b.y == a.y + offset_dy(4));
    } else if dx == -1 && dy == 1 {
        assert(b.x == a.x + offset_dx(5) && b.y == a.y + offset_dy(5));
    } else if dx == 0 && dy == 1 {
        assert(b.x == a.x + offset_dx(6) && b.y == a.y + offset_dy(6));
    } else {
        assert(dx == 1 && dy == 1);
        assert(b.x == a.x + offset_dx(7) && b.y == a.y + offset_dy(7));
    }
}

/// In a cost array where every costed cell is settled and every source
/// holds a cost, the end of any walk from a source holds a cost: each
/// step's target is an unblocked in-bounds neighbor of a costed cell.
pub proof fn lemma_closure_reachable(
    heat: Seq<Option<Cost>>,
    sources: Seq<GridPos>,
    blocked: Seq<bool>,
    size_x: int,
    size_y: int,
    path: Seq<GridPos>,
)
    requires
        is_path(path, sources, blocked, size_x, size_y),
        forall|j: int|
            0 <= j < sources.len() ==> heat[idx_of(size_y, #[trigger] sources[j])] is Some,
        forall|q: GridPos|
            in_bounds_spec(q, size_x, size_y) && heat[#[trigger] idx_of(size_y, q)] is Some
                ==> settled(heat, blocked, size_x, size_y, q),
    ensures
        heat[idx_of(size_y, path.last())] is Some,
    decreases path.len(),
{
    if path.len() == 1 {
        let j = choose|j: int| 0 <= j < sources.len() && sources[j] == path[0];
        assert(heat[idx_of(size_y, sources[j])] is Some);
    } else {
        let path2 = path.drop_last();
        assert(path2[0] == path[0]);
        assert forall|i: int| 0 <= i < path2.len() implies in_bounds_spec(
            #[trigger] path2[i],
            size_x,
            size_y,
        ) by {
            assert(path2[i] == path[i]);
        }
        assert forall|i: int| 1 <= i < path2.len() implies !blocked[idx_of(
            size_y,
            #[trigger] path2[i],
        )] && crate::grid::adjacent(path2[i - 1], path2[i]) by {
            assert(path2[i] == path[i]);
            assert(path2[i - 1] == path[i - 1]);
        }
        assert(is_path(path2, sources, blocked, size_x, size_y));
        lemma_closure_reachable(heat, sources, blocked, size_x, size_y, path2);
        let a = path[path.len() - 2];
        let b = path[path.len() - 1];
        assert(path2.last() == a);
        assert(heat[idx_of(size_y, a)] is Some);
        assert(settled(heat, blocked, size_x, size_y, a));
        lemma_adjacent_offset(a, b);
        let k = choose|k: int|
            0 <= k < 8 && b.x == a.x + #[trigger] offset_dx(k) && b.y == a.y + offset_dy(k);
        assert(neighbor_assigned(heat, blocked, size_x, size_y, a, k));
        assert(idx_of(size_y, b) == b.x * size_y + b.y);
    }
}

/// A settled prefix stays settled when costs are only ever added.
pub proof fn lemma_settled_upto_monotone(
    h1: Seq<Option<Cost>>,
    h2: Seq<Option<Cost>>,
    blocked: Seq<bool>,
    size_x: int,
    size_y: int,
    p: GridPos,
    upto: int,
)
    requires
        h1.len() == size_x * size_y,
        h2.len() == h1.len(),
        forall|i: int| 0 <= i < h1.len() ==> ((#[trigger] h1[i]) is Some ==> h2[i] is Some),
        settled_upto(h1, blocked, size_x, size_y, p, upto),
    ensures
        settled_upto(h2, blocked, size_x, size_y, p, upto),
{
    assert forall|k: int| 0 <= k < upto implies #[trigger] neighbor_assigned(
        h2,
        blocked,
        size_x,
        size_y,
        p,
        k,
    ) by {
        assert(neighbor_assigned(h1, blocked, size_x, size_y, p, k));
        let nx = p.x + offset_dx(k);
        let ny = p.y + offset_dy(k);
        if 0 <= nx < size_x && 0 <= ny < size_y && !blocked[nx * size_y + ny] {
            crate::grid::lemma_idx_bounds(nx, ny, size_x, size_y);
        }
    }
}

/// Number of unreached cells among the first `k` entries of a cost array.
pub open spec fn count_none_upto(heat: Seq<Option<Cost>>, k: int) -> int
    decreases k,
{
    if k <= 0 {
        0
    } else {
        count_none_upto(heat, k - 1) + if heat[k - 1] is None {
            1int
        } else {
            0int
        }
    }
}

/// The unreached count over a prefix lies between `0` and the prefix length.
pub proof fn lemma_count_none_bounds(heat: Seq<Option<Cost>>, k: int)
    ensures
        0 <= count_none_upto(heat, k) <= if k < 0 {
            0
        } else {
            k
        },
    decreases k,
{
    if k > 0 {
        lemma_count_none_bounds(heat, k - 1);
    }
}

/// Over an all-unreached prefix the count is the prefix length.
pub proof fn lemma_count_none_full(heat: Seq<Option<Cost>>, k: int)
    requires
        forall|i: int| 0 <= i < k ==> heat[i] is None,
        k >= 0,
    ensures
        count_none_upto(heat, k) == k,
    decreases k,
{
    if k > 0 {
        lemma_count_none_full(heat, k - 1);
    }
}

/// Effect of one cell update on the unreached count of a prefix.
pub proof fn lemma_count_none_update(heat: Seq<Option<Cost>>, i: int, v: Option<Cost>, k: int)
    requires
        0 <= i < heat.len(),
        k <= heat.len(),
    ensures
        count_none_upto(heat.update(i, v), k) == count_none_upto(heat, k) - (if i < k
            && heat[i] is None {
            1int
        } else {
            0int
        }) + (if i < k && v is None {
            1int
        } else {
            0int
        }),
    decreases k,
{
    if k > 0 {
        lemma_count_none_update(heat, i, v, k - 1);
    }
}

/// The `k`-th neighbor offset as machine integers.
pub fn offset_delta(k: usize) -> (r: (i8, i8))
    requires
        k < 8,
    ensures
        r.0 as int == offset_dx(k as int),
        r.1 as int == offset_dy(k as int),
{
    if k == 0 {
        (-1, -1)
    } else if k == 1 {
        (0, -1)
    } else if k == 2 {
        (1, -1)
    } else if k == 3 {
        (-1, 0)
    } else if k == 4 {
        (1, 0)
    } else if k == 5 {
        (-1, 1)
    } else if k == 6 {
        (0, 1)
    } else {
        (1, 1)
    }
}

/// Seeds the sources: an all-sentinel cost field with each in-bounds
/// source set to cost zero and enqueued once, exactly the state `seed_upto`
/// describes.
fn seed_sources(size_x: usize, size_y: usize, blocked: &Vec<bool>, sources: &Vec<GridPos>) -> (r: (
    Vec<Option<Cost>>,
    Vec<GridPos>,
))
    requires
        size_x <= 4000,
        size_y <= 4000,
        blocked@.len() == size_x * size_y,
        forall|k: int|
            0 <= k < sources@.len() ==> in_bounds_spec(
                #[trigger] sources@[k],
                size_x as int,
                size_y as int,
            ),
    ensures
        r.0@.len() == size_x * size_y,
        r.1@.len() == size_x * size_y - count_none_upto(r.0@, (size_x * size_y) as int),
        (HeatState { heat: r.0@, queue: r.1@ } == seed_upto(
            size_y as int,
            sources@,
            init_state(size_x as int, size_y as int),
            0,
        )),
        forall|i: int|
            0 <= i < r.1@.len() ==> in_bounds_spec(#[trigger] r.1@[i], size_x as int, size_y as int)
                && r.0@[idx_of(size_y as int, r.1@[i])] is Some,
        forall|j: int|
            0 <= j < sources@.len() ==> r.0@[idx_of(size_y as int, #[trigger] sources@[j])]
                == Some(zero_cost()),
        forall|q: GridPos|
            in_bounds_spec(q, size_x as int, size_y as int) && r.0@[#[trigger] idx_of(
                size_y as int,
                q,
            )] is Some ==> reachable(sources@, blocked@, size_x as int, size_y as int, q),
        forall|q: GridPos|
            in_bounds_spec(q, size_x as int, size_y as int) && r.0@[#[trigger] idx_of(
                size_y as int,
                q,
            )] is Some ==> (exists|i: int| 0 <= i < r.1@.len() && r.1@[i] == q),
        forall|i: int|
            0 <= i < size_x * size_y ==> (#[trigger] r.0@[i] matches Some(c) ==> c.ortho + c.diag
                == 0),
{
    let ghost gsx = size_x as int;
    let ghost gsy = size_y as int;
    assert(size_x * size_y <= 16000000) by (nonlinear_arith)
        requires
            size_x <= 4000,
            size_y <= 4000,
    ;
    let n: usize = size_x * size_y;
    let mut heat: Vec<Option<Cost>> = Vec::new();
    while heat.len() < n
        invariant
            heat@.len() <= n,
            forall|i: int| 0 <= i < heat@.len() ==> heat@[i] is None,
        decreases n - heat@.len(),
    {
        heat.push(None);
    }
    proof {
        assert(heat@ =~= init_state(gsx, gsy).heat);
        lemma_count_none_full(heat@, n as int);
    }

    let mut queue: Vec<GridPos> = Vec::new();
    let mut k: usize = 0;
    while k < sources.len()
        invariant
            k <= sources@.len(),
            size_x <= 4000,
            size_y <= 4000,
            n == size_x * size_y,
            n <= 16000000,
            gsx == size_x as int,
            gsy == size_y as int,
            blocked@.len() == n,
            forall|j: int|
                0 <= j < sources@.len() ==> in_bounds_spec(#[trigger] sources@[j], gsx, gsy),
            heat@.len() == n,
            queue@.len() == n - count_none_upto(heat@, n as int),
            seed_upto(gsy, sources@, HeatState { heat: heat@, queue: queue@ }, k as int)
                == seed_upto(gsy, sources@, init_state(gsx, gsy), 0),
            forall|i: int|
                0 <= i < queue@.len() ==> in_bounds_spec(#[trigger] queue@[i], gsx, gsy)
                    && heat@[idx_of(gsy, queue@[i])] is Some,
            forall|j: int|
                0 <= j < k ==> heat@[idx_of(gsy, #[trigger] sources@[j])] == Some(zero_cost()),
            forall|q: GridPos|
                in_bounds_spec(q, gsx, gsy) && heat@[#[trigger] idx_of(gsy, q)] is Some
                    ==> reachable(sources@, blocked@, gsx, gsy, q),
            forall|q: GridPos|
                in_bounds_spec(q, gsx, gsy) && heat@[#[trigger] idx_of(gsy, q)] is Some
                    ==> (exists|i: int| 0 <= i < queue@.len() && queue@[i] == q),
            forall|i: int|
                0 <= i < n ==> (#[trigger] heat@[i] matches Some(c) ==> c.ortho + c.diag == 0),
        decreases sources@.len() - k,
    {
        let p = sources[k];
        proof {
            crate::grid::lemma_idx_bounds(p.x as int, p.y as int, gsx, gsy);
        }
        let i = p.x * size_y + p.y;
        let ghost s_before = HeatState { heat: heat@, queue: queue@ };
        if heat[i].is_none() {
            heat.set(i, Some(Cost { ortho: 0, diag: 0 }));
            queue.push(p);
            proof {
                lemma_count_none_update(
                    s_before.heat,
                    i as int,
                    Some(zero_cost()),
                    n as int,
                );
            }
        }
        k = k + 1;
        proof {
            let s_after = HeatState { heat: heat@, queue: queue@ };
            assert(seed_upto(gsy, sources@, s_before, k - 1) == seed_upto(
                gsy,
                sources@,
                s_after,
                k as int,
            ));
            assert forall|q: GridPos|
                in_bounds_spec(q, gsx, gsy) && heat@[#[trigger] idx_of(gsy, q)] is Some
                    implies reachable(sources@, blocked@, gsx, gsy, q) by {
                if s_before.heat[idx_of(gsy, q)] is Some {
                } else {
                    crate::grid::lemma_idx_injective(q.x as int, q.y as int, p.x as int, p.y as int, gsy);
                    assert(q == p);
                    lemma_source_reachable(sources@, blocked@, gsx, gsy, k - 1);
                }
            }
            assert forall|q: GridPos|
                in_bounds_spec(q, gsx, gsy) && heat@[#[trigger] idx_of(gsy, q)] is Some
                    implies exists|i: int| 0 <= i < queue@.len() && queue@[i] == q by {
                if s_before.heat[idx_of(gsy, q)] is Some {
                    let i = choose|i: int|
                        0 <= i < s_before.queue.len() && s_before.queue[i] == q;
                    assert(queue@[i] == q);
                } else {
                    crate::grid::lemma_idx_injective(q.x as int, q.y as int, p.x as int, p.y as int, gsy);
                    assert(queue@[queue@.len() - 1] == q);
                }
            }
        }
    }

    (heat, queue)
}

/// Computes the cost field for a `size_x` by `size_y` grid: exactly the
/// field `heat_field` describes, for any source list whose cells are all in
/// bounds.
///
/// Beyond the exact field, the contract states the facts every caller of
/// the engine leans on: every source cell ends at cost zero, and a cell
/// holds a cost exactly when it is reachable from some source through
/// unblocked cells.
pub fn propagate(size_x: usize, size_y: usize, blocked: &Vec<bool>, sources: &Vec<GridPos>) -> (heat:
    Vec<Option<Cost>>)
    requires
        size_x <= 4000,
        size_y <= 4000,
        blocked@.len() == size_x * size_y,
        forall|k: int|
            0 <= k < sources@.len() ==> in_bounds_spec(
                #[trigger] sources@[k],
                size_x as int,
                size_y as int,
            ),
    ensures
        heat@.len() == size_x * size_y,
        heat@ == heat_field(size_x as int, size_y as int, blocked@, sources@),
        forall|k: int|
            0 <= k < sources@.len() ==> heat@[idx_of(size_y as int, #[trigger] sources@[k])]
                == Some(zero_cost()),
        forall|q: GridPos|
            in_bounds_spec(q, size_x as int, size_y as int) && heat@[#[trigger] idx_of(
                size_y as int,
                q,
            )] is Some ==> reachable(sources@, blocked@, size_x as int, size_y as int, q),
        forall|q: GridPos|
            in_bounds_spec(q, size_x as int, size_y as int) && reachable(
                sources@,
                blocked@,
                size_x as int,
                size_y as int,
                q,
            ) ==> heat@[#[trigger] idx_of(size_y as int, q)] is Some,
{
    let ghost gsx = size_x as int;
    let ghost gsy = size_y as int;
    assert(size_x * size_y <= 16000000) by (nonlinear_arith)
        requires
            size_x <= 4000,
            size_y <= 4000,
    ;
    let n: usize = size_x * size_y;
    let (mut heat, mut queue) = seed_sources(size_x, size_y, blocked, sources);
    let ghost seeded = HeatState { heat: heat@, queue: queue@ };
    proof {
        lemma_count_none_bounds(heat@, n as int);
    }

    let mut head: usize = 0;
    proof {
        assert(queue@.skip(0) =~= queue@);
        assert(HeatState { heat: heat@, queue: queue@.skip(0) } == seeded);
    }
    while head < queue.len()
        invariant
            size_x <= 4000,
            size_y <= 4000,
            n == size_x * size_y,
            n <= 16000000,
            gsx == size_x as int,
            gsy == size_y as int,
            blocked@.len() == n,
            forall|j: int|
                0 <= j < sources@.len() ==> in_bounds_spec(#[trigger] sources@[j], gsx, gsy),
            heat@.len() == n,
            head <= queue@.len(),
            queue@.len() <= n,
            queue@.len() == n - count_none_upto(heat@, n as int),
            forall|i: int|
                0 <= i < queue@.len() ==> in_bounds_spec(#[trigger] queue@[i], gsx, gsy)
                    && heat@[idx_of(gsy, queue@[i])] is Some,
            forall|j: int|
                0 <= j < sources@.len() ==> heat@[idx_of(gsy, #[trigger] sources@[j])] == Some(
                    zero_cost(),
                ),
            forall|q: GridPos|
                in_bounds_spec(q, gsx, gsy) && heat@[#[trigger] idx_of(gsy, q)] is Some
                    ==> reachable(sources@, blocked@, gsx, gsy, q),
            forall|q: GridPos|
                in_bounds_spec(q, gsx, gsy) && heat@[#[trigger] idx_of(gsy, q)] is Some ==> ((
                exists|i: int| head <= i < queue@.len() && queue@[i] == q) || settled(
                    heat@,
                    blocked@,
                    gsx,
                    gsy,
                    q,
                )),
            forall|i: int|
                0 <= i < n ==> (#[trigger] heat@[i] matches Some(c) ==> c.ortho + c.diag <= 8
                    * head),
            heat_run(
                gsx,
                gsy,
                blocked@,
                HeatState { heat: heat@, queue: queue@.skip(head as int) },
                (n - head) as nat,
            ) == heat_run(gsx, gsy, blocked@, seeded, n as nat),
        decreases n - head,
    {
        let p = queue[head];
        let ghost s_cur = HeatState { heat: heat@, queue: queue@.skip(head as int) };
        head = head + 1;
        proof {
            assert(s_cur.queue[0] == queue@[head - 1]);
            assert(s_cur.queue.len() == queue@.len() - (head - 1));
            assert(s_cur.queue.drop_first() =~= queue@.skip(head as int));
            assert(heat_step(gsx, gsy, blocked@, s_cur) == relax_upto(
                gsx,
                gsy,
                blocked@,
                HeatState { heat: heat@, queue: queue@.skip(head as int) },
                p,
                0,
            ));
            assert(heat_run(gsx, gsy, blocked@, s_cur, (n - head + 1) as nat) == heat_run(
                gsx,
                gsy,
                blocked@,
                heat_step(gsx, gsy, blocked@, s_cur),
                (n - head) as nat,
            ));
            assert forall|q: GridPos|
                in_bounds_spec(q, gsx, gsy) && heat@[#[trigger] idx_of(gsy, q)] is Some
                    implies ((exists|i: int| head <= i < queue@.len() && queue@[i] == q)
                    || settled(heat@, blocked@, gsx, gsy, q) || (q == p && settled_upto(
                    heat@,
                    blocked@,
                    gsx,
                    gsy,
                    p,
                    0,
                ))) by {
                if !(exists|i: int| head <= i < queue@.len() && queue@[i] == q) && !settled(
                    heat@,
                    blocked@,
                    gsx,
                    gsy,
                    q,
                ) {
                    let i = choose|i: int|
                        head - 1 <= i < queue@.len() && queue@[i] == q;
                    assert(i == head - 1);
                    assert(q == p);
                }
            }
        }
        proof {
            crate::grid::lemma_idx_bounds(p.x as int, p.y as int, gsx, gsy);
        }
        let pi = p.x * size_y + p.y;
        let mut j: usize = 0;
        while j < 8
            invariant
                j <= 8,
                size_x <= 4000,
                size_y <= 4000,
                n == size_x * size_y,
                n <= 16000000,
                gsx == size_x as int,
                gsy == size_y as int,
                blocked@.len() == n,
                forall|jj: int|
                    0 <= jj < sources@.len() ==> in_bounds_spec(#[trigger] sources@[jj], gsx, gsy),
                heat@.len() == n,
                1 <= head <= queue@.len(),
                queue@.len() <= n,
                queue@.len() == n - count_none_upto(heat@, n as int),
                in_bounds_spec(p, gsx, gsy),
                pi == idx_of(gsy, p),
                heat@[pi as int] is Some,
                forall|i: int|
                    0 <= i < queue@.len() ==> in_bounds_spec(#[trigger] queue@[i], gsx, gsy)
                        && heat@[idx_of(gsy, queue@[i])] is Some,
                forall|jj: int|
                    0 <= jj < sources@.len() ==> heat@[idx_of(gsy, #[trigger] sources@[jj])]
                        == Some(zero_cost()),
                forall|q: GridPos|
                    in_bounds_spec(q, gsx, gsy) && heat@[#[trigger] idx_of(gsy, q)] is Some
                        ==> reachable(sources@, blocked@, gsx, gsy, q),
                forall|q: GridPos|
                    in_bounds_spec(q, gsx, gsy) && heat@[#[trigger] idx_of(gsy, q)] is Some ==> ((
                    exists|i: int| head <= i < queue@.len() && queue@[i] == q) || settled(
                        heat@,
                        blocked@,
                        gsx,
                        gsy,
                        q,
                    ) || (q == p && settled_upto(heat@, blocked@, gsx, gsy, p, j as int))),
                forall|i: int|
                    0 <= i < n ==> (#[trigger] heat@[i] matches Some(c) ==> c.ortho + c.diag <= 8
                        * (head - 1) + j),
                heat_run(
                    gsx,
                    gsy,
                    blocked@,
                    relax_upto(
                        gsx,
                        gsy,
                        blocked@,
                        HeatState { heat: heat@, queue: queue@.skip(head as int) },
                        p,
                        j as int,
                    ),
                    (n - head) as nat,
                ) == heat_run(gsx, gsy, blocked@, seeded, n as nat),
            decreases 8 - j,
        {
            let (dx, dy) = offset_delta(j);
            let ghost s_old = HeatState { heat: heat@, queue: queue@.skip(head as int) };
            let ghost q_full_old = queue@;
            let nxi: i64 = p.x as i64 + dx as i64;
            let nyi: i64 = p.y as i64 + dy as i64;
            if 0 <= nxi && nxi < size_x as i64 && 0 <= nyi && nyi < size_y as i64 {
                let nx = nxi as usize;
                let ny = nyi as usize;
                proof {
                    crate::grid::lemma_idx_bounds(nx as int, ny as int, gsx, gsy);
                }
                let ni = nx * size_y + ny;
                if !blocked[ni] {
                    match heat[pi] {
                        Some(c) => {
                            let diagonal = dx != 0 && dy != 0;
                            let cand = cost_step(&c, diagonal);
                            let ghost g = GridPos { x: nx, y: ny };
                            proof {
                                assert(g.x as int == p.x + offset_dx(j as int));
                                assert(g.y as int == p.y + offset_dy(j as int));
                                assert(offset_dx(j as int) != 0 || offset_dy(j as int) != 0);
                                assert(crate::grid::adjacent(p, g));
                            }
                            match heat[ni] {
                                None => {
                                    heat.set(ni, Some(cand));
                                    queue.push(GridPos { x: nx, y: ny });
                                    proof {
                                        lemma_count_none_update(
                                            s_old.heat,
                                            ni as int,
                                            Some(cand),
                                            n as int,
                                        );
                                        lemma_reachable_step(
                                            sources@,
                                            blocked@,
                                            gsx,
                                            gsy,
                                            p,
                                            g,
                                        );
                                        assert(queue@.skip(head as int) =~= s_old.queue.push(g));
                                    }
                                },
                                Some(cur) => {
                                    if cost_lt(&cand, &cur) {
                                        heat.set(ni, Some(cand));
                                        proof {
                                            lemma_count_none_update(
                                                s_old.heat,
                                                ni as int,
                                                Some(cand),
                                                n as int,
                                            );
                                            lemma_reachable_step(
                                                sources@,
                                                blocked@,
                                                gsx,
                                                gsy,
                                                p,
                                                g,
                                            );
                                            crate::cost::lemma_zero_minimal(cand);
                                        }
                                    }
                                },
                            }
                        },
                        None => {},
                    }
                }
            }
            j = j + 1;
            proof {
                let s_new = HeatState { heat: heat@, queue: queue@.skip(head as int) };
                assert(s_new == relax_one(gsx, gsy, blocked@, s_old, p, j - 1));
                assert(relax_upto(gsx, gsy, blocked@, s_old, p, j - 1) == relax_upto(
                    gsx,
                    gsy,
                    blocked@,
                    s_new,
                    p,
                    j as int,
                ));
                assert forall|q: GridPos|
                    in_bounds_spec(q, gsx, gsy) && heat@[#[trigger] idx_of(gsy, q)] is Some
                        implies reachable(sources@, blocked@, gsx, gsy, q) by {
                    if s_old.heat[idx_of(gsy, q)] is Some {
                    } else {
                        crate::grid::lemma_idx_injective(
                            q.x as int,
                            q.y as int,
                            p.x + offset_dx(j - 1),
                            p.y + offset_dy(j - 1),
                            gsy,
                        );
                    }
                }
                assert forall|jj: int|
                    0 <= jj < sources@.len() implies heat@[idx_of(gsy, #[trigger] sources@[jj])]
                        == Some(zero_cost()) by {
                    if heat@[idx_of(gsy, sources@[jj])] != s_old.heat[idx_of(gsy, sources@[jj])] {
                        assert(false);
                    }
                }
                lemma_count_none_bounds(heat@, n as int);
                assert forall|q: GridPos|
                    in_bounds_spec(q, gsx, gsy) && heat@[#[trigger] idx_of(gsy, q)] is Some
                        implies ((exists|i: int| head <= i < queue@.len() && queue@[i] == q)
                        || settled(heat@, blocked@, gsx, gsy, q) || (q == p && settled_upto(
                        heat@,
                        blocked@,
                        gsx,
                        gsy,
                        p,
                        j as int,
                    ))) by {
                    if s_old.heat[idx_of(gsy, q)] is Some {
                        if exists|i: int| head <= i < q_full_old.len() && q_full_old[i] == q {
                            let i = choose|i: int|
                                head <= i < q_full_old.len() && q_full_old[i] == q;
                            assert(queue@[i] == q);
                        } else if settled(s_old.heat, blocked@, gsx, gsy, q) {
                            lemma_settled_upto_monotone(
                                s_old.heat,
                                heat@,
                                blocked@,
                                gsx,
                                gsy,
                                q,
                                8,
                            );
                        } else {
                            assert(q == p);
                            lemma_settled_upto_monotone(
                                s_old.heat,
                                heat@,
                                blocked@,
                                gsx,
                                gsy,
                                p,
                                j - 1,
                            );
                            assert(neighbor_assigned(heat@, blocked@, gsx, gsy, p, j - 1)) by {
                                let nx = p.x + offset_dx(j - 1);
                                let ny = p.y + offset_dy(j - 1);
                                if 0 <= nx < gsx && 0 <= ny < gsy && !blocked@[nx * gsy + ny] {
                                    crate::grid::lemma_idx_bounds(nx, ny, gsx, gsy);
                                    assert(heat@[nx * gsy + ny] is Some);
                                }
                            }
                            assert forall|kk: int|
                                0 <= kk < j as int implies #[trigger] neighbor_assigned(
                                heat@,
                                blocked@,
                                gsx,
                                gsy,
                                p,
                                kk,
                            ) by {}
                        }
                    } else {
                        crate::grid::lemma_idx_injective(
                            q.x as int,
                            q.y as int,
                            p.x + offset_dx(j - 1),
                            p.y + offset_dy(j - 1),
                            gsy,
                        );
                        assert(queue@[queue@.len() - 1] == q);
                    }
                }
            }
        }
        proof {
            lemma_count_none_bounds(heat@, n as int);
            assert forall|q: GridPos|
                in_bounds_spec(q, gsx, gsy) && heat@[#[trigger] idx_of(gsy, q)] is Some
                    implies ((exists|i: int| head <= i < queue@.len() && queue@[i] == q)
                    || settled(heat@, blocked@, gsx, gsy, q)) by {}
        }
    }
    proof {
        assert(queue@.skip(head as int) =~= Seq::<GridPos>::empty());
        assert(heat_run(
            gsx,
            gsy,
            blocked@,
            HeatState { heat: heat@, queue: queue@.skip(head as int) },
            (n - head) as nat,
        ) == HeatState { heat: heat@, queue: queue@.skip(head as int) });
        assert(heat@ == heat_field(gsx, gsy, blocked@, sources@));
        assert forall|q2: GridPos|
            in_bounds_spec(q2, gsx, gsy) && heat@[#[trigger] idx_of(gsy, q2)] is Some
                implies settled(heat@, blocked@, gsx, gsy, q2) by {}
        assert forall|q: GridPos|
            in_bounds_spec(q, gsx, gsy) && reachable(sources@, blocked@, gsx, gsy, q)
                implies heat@[#[trigger] idx_of(gsy, q)] is Some by {
            let path = choose|path: Seq<GridPos>|
                is_path(path, sources@, blocked@, gsx, gsy) && path.last() == q;
            lemma_closure_reachable(heat@, sources@, blocked@, gsx, gsy, path);
        }
    }
    heat
}

} // verus!
