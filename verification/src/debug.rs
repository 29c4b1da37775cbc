//! Diagnostics: a compact per-cell picture of a built field.

use crate::cost::Cost;
use crate::field::FlowField;
use crate::flow::zero_flow;
use crate::grid::idx_of;
use vstd::prelude::*;

verus! {

/// Diagnostic views over the engine's state, for logging and on-screen
/// overlays outside the core.
pub struct DebugPlugin;

/// The diagnostic mark of one cell: `.` for the unreached sentinel, `s`
/// for a cost of exactly zero (a source), `+` for a positive cost with a
/// steering offset, `o` for a positive cost whose steering offset is zero.
pub open spec fn cell_mark_spec(cost: Option<Cost>, flow: crate::flow::FlowVec) -> u8 {
    match cost {
        None => 46u8,  // '.'
        Some(c) => if c.ortho == 0 && c.diag == 0 {
            115u8  // 's'
        } else if flow == zero_flow() {
            111u8  // 'o'
        } else {
            43u8  // '+'
        },
    }
}

impl DebugPlugin {
    /// One mark per cell, flat and row-major like the fields themselves.
    pub fn cell_marks(field: &FlowField) -> (r: Vec<u8>)
        requires
            field.wf(),
        ensures
            r@.len() == field.heat().len(),
            forall|i: int|
                0 <= i < r@.len() ==> r@[i] == cell_mark_spec(
                    #[trigger] field.heat()[i],
                    field.flow()[i],
                ),
    {
        let mut r: Vec<u8> = Vec::new();
        let mut i: usize = 0;
        let end: usize = field.heat_grid.len();
        while i < end
            invariant
                i <= end,
                end == field.heat_grid@.len(),
                field.flow_grid@.len() == field.heat_grid@.len(),
                r@.len() == i,
                forall|j: int|
                    0 <= j < i ==> r@[j] == cell_mark_spec(
                        #[trigger] field.heat()[j],
                        field.flow()[j],
                    ),
            decreases end - i,
        {
            let mark: u8 = match field.heat_grid[i] {
                None => 46,
                Some(c) => {
                    if c.ortho == 0 && c.diag == 0 {
                        115
                    } else {
                        let f = field.flow_grid[i];
                        if f.dx == 0 && f.dy == 0 {
                            111
                        } else {
                            43
                        }
                    }
                },
            };
            r.push(mark);
            i = i + 1;
        }
        r
    }
}

} // verus!
