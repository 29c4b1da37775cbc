//! Traversal costs, held exactly.
//!
//! Every cost the engine computes is a sum of unit steps (length `1`) and
//! diagonal steps (length `sqrt(2)`), so it is held as the pair of step
//! counts. The real value it stands for is `ortho + diag * sqrt(2)`, and the
//! ordering below compares two such values exactly, with integer arithmetic
//! only: `a1 + b1*sqrt(2) < a2 + b2*sqrt(2)` holds iff
//! `(b1 - b2)*sqrt(2) < a2 - a1`, which is decided by comparing signs and
//! squares (since `sqrt(2)` is irrational the squares never tie except at
//! zero).

use vstd::prelude::*;

verus! {

/// A traversal cost: the exact value `ortho + diag * sqrt(2)` in cell units.
#[derive(PartialEq, Eq, Structural, Clone, Copy, Debug)]
pub struct Cost {
    /// Number of orthogonal (length `1`) steps.
    pub ortho: u32,
    /// Number of diagonal (length `sqrt(2)`) steps.
    pub diag: u32,
}

/// The cost of a source cell: zero steps of either kind.
pub open spec fn zero_cost() -> Cost {
    Cost { ortho: 0, diag: 0 }
}

/// Exact comparison `a.ortho + a.diag*sqrt(2) < b.ortho + b.diag*sqrt(2)`.
///
/// With `da = b.ortho - a.ortho` and `db = a.diag - b.diag` the claim is
/// `db*sqrt(2) < da`. For `db >= 0` that needs `da > 0` and `da^2 > 2*db^2`;
/// for `db < 0` it holds whenever `da >= 0`, and otherwise iff
/// `2*db^2 > da^2`.
pub open spec fn cost_lt_spec(a: Cost, b: Cost) -> bool {
    let da = b.ortho - a.ortho;
    let db = a.diag - b.diag;
    if db >= 0 {
        da > 0 && da * da > 2 * (db * db)
    } else {
        da >= 0 || 2 * (db * db) > da * da
    }
}

/// `c` extended by one adjacent step; counts wrap at the `u32` limit, which
/// the engine's bounds keep far out of reach.
pub open spec fn cost_step_spec(c: Cost, diagonal: bool) -> Cost {
    if diagonal {
        Cost { ortho: c.ortho, diag: (c.diag + 1) as u32 }
    } else {
        Cost { ortho: (c.ortho + 1) as u32, diag: c.diag }
    }
}

/// Exact order test between two stored costs.
pub fn cost_lt(a: &Cost, b: &Cost) -> (r: bool)
    ensures
        r == cost_lt_spec(*a, *b),
{
    let da: i64 = b.ortho as i64 - a.ortho as i64;
    let db: i64 = a.diag as i64 - b.diag as i64;
    assert(0 <= da as int * da as int <= 0x1_0000_0000_0000_0000
        && 0 <= db as int * db as int <= 0x1_0000_0000_0000_0000) by (nonlinear_arith)
        requires
            -0x1_0000_0000 <= da <= 0x1_0000_0000,
            -0x1_0000_0000 <= db <= 0x1_0000_0000,
    ;
    let da2: i128 = da as i128 * da as i128;
    let db2: i128 = db as i128 * db as i128;
    if db >= 0 {
        da > 0 && da2 > 2 * db2
    } else {
        da >= 0 || 2 * db2 > da2
    }
}

/// One step added to a stored cost.
pub fn cost_step(c: &Cost, diagonal: bool) -> (r: Cost)
    requires
        c.ortho < u32::MAX,
        c.diag < u32::MAX,
    ensures
        r == cost_step_spec(*c, diagonal),
{
    if diagonal {
        Cost { ortho: c.ortho, diag: c.diag + 1 }
    } else {
        Cost { ortho: c.ortho + 1, diag: c.diag }
    }
}

/// No cost compares below the cost of a source cell: the step counts are
/// non-negative, so the value `ortho + diag * sqrt(2)` is non-negative.
pub proof fn lemma_zero_minimal(c: Cost)
    ensures
        !cost_lt_spec(c, zero_cost()),
{
}

} // verus!
