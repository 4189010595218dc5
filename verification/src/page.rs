//! Page composition: a grid paginator together with the scrollbar position
//! derived from its state. It holds no invariants of its own; navigation
//! and layout pass through the paginator unchanged.

use vstd::prelude::*;

use crate::grid::GridLayout;
use crate::grid::GridPaginator;

verus! {

/// A grid page with a scrollbar: wraps a paginator and derives the
/// scrollbar position from its state on every draw.
#[derive(Debug, Clone, Copy)]
pub struct PageView {
    pub pager: GridPaginator,
}

impl PageView {
    pub fn new(cell_height: u16, min_cell_width: u16) -> (r: Self)
        requires
            cell_height >= 1,
            min_cell_width >= 1,
        ensures
            r.pager.wf(),
            r.pager.current_selection == 0,
            r.pager.row_offset == 0,
            r.pager.cell_height == cell_height,
            r.pager.min_cell_width == min_cell_width,
            forall|n: usize| r.pager.fits(n),
    {
        PageView { pager: GridPaginator::new(cell_height, min_cell_width) }
    }

    /// The scrollbar position of one draw: the selection's 1-based grid row
    /// and the total number of grid rows the list occupies.
    pub fn scroll_position(&self, layout: &GridLayout, item_count: usize) -> (r: (usize, usize))
        requires
            layout.wf(),
            self.pager.current_selection < usize::MAX,
        ensures
            r.0 as int == self.pager.current_selection as int / layout.columns as int + 1,
            r.1 as int == if item_count == 0 {
                0int
            } else {
                (item_count - 1) as int / layout.columns as int + 1
            },
    {
        let row = self.pager.current_row(layout);
        let total: usize = if item_count == 0 {
            0
        } else {
            proof {
                let ii = (item_count - 1) as int;
                let ci = layout.columns as int;
                assert(ii / ci <= ii) by (nonlinear_arith)
                    requires
                        ci >= 1,
                        0 <= ii,
                ;
            }
            (item_count - 1) / layout.columns + 1
        };
        (row, total)
    }
}

} // verus!
