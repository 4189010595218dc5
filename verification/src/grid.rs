//! Grid pagination: maps a linear item list onto a grid of fixed-footprint
//! cells inside a resizable viewport, keeping exactly one selection and
//! scrolling it into view one row at a time.
//!
//! A layout pass is a pure computation from the viewport, the item count and
//! the current state; movement operations and rendering both consume its
//! result, so nothing is mutated behind a read.

use vstd::prelude::*;

verus! {

/// An axis-aligned rectangle of terminal cells.
#[derive(Debug, Clone, Copy, PartialEq, Eq, Structural)]
pub struct Rect {
    pub x: u16,
    pub y: u16,
    pub width: u16,
    pub height: u16,
}

impl Rect {
    /// The rectangle stays within the terminal coordinate space.
    pub open spec fn wf(self) -> bool {
        self.x + self.width <= u16::MAX && self.y + self.height <= u16::MAX
    }
}

/// The direction of the last navigation step that scrolled the window.
#[derive(Debug, Clone, Copy, PartialEq, Eq, Structural)]
pub enum ScrollDirection {
    Up,
    Down,
}

/// Where the partial-row indicator strip sits for one layout pass: at the
/// edge the user most recently scrolled away from.
#[derive(Debug, Clone, Copy, PartialEq, Eq, Structural)]
pub enum RowPageLeak {
    /// an indicator strip at the top edge
    Up(Rect),
    /// an indicator strip at the bottom edge
    Down(Rect),
    /// the viewport tiles exactly; no strip
    Fit,
}

/// One layout pass: every quantity movement and rendering need, recomputed
/// for a viewport and an item count, never carried forward stale.
#[derive(Debug, Clone, Copy, PartialEq, Eq, Structural)]
pub struct GridLayout {
    /// cells per row; at least 1
    pub columns: usize,
    /// complete cell rows that fit the viewport
    pub full_rows: usize,
    /// viewport lines that do not form a complete cell row
    pub leak: u16,
    /// the area tiled with cells
    pub cards_area: Rect,
    /// the indicator strip, if any
    pub row_leak: RowPageLeak,
    /// index of the first item placed in the tiled area
    pub start_offset: usize,
}

impl GridLayout {
    /// A layout a pass can actually produce: at least one column, and both
    /// grid dimensions bounded by the terminal coordinate space.
    pub open spec fn wf(self) -> bool {
        1 <= self.columns <= u16::MAX as usize && self.full_rows <= u16::MAX as usize
    }
}

/// The selection and scroll state of a grid page, with its fixed per-cell
/// footprint: each cell occupies `cell_height` lines and at least
/// `min_cell_width` columns.
#[derive(Debug, Clone, Copy)]
pub struct GridPaginator {
    pub current_selection: usize,
    pub row_offset: usize,
    pub last_scroll: ScrollDirection,
    pub cell_height: u16,
    pub min_cell_width: u16,
}

impl GridPaginator {
    /// Configuration well-formedness: a cell occupies at least one line and
    /// one column.
    pub open spec fn wf(self) -> bool {
        self.cell_height >= 1 && self.min_cell_width >= 1
    }

    /// State well-formedness against the current item count: the selection
    /// is an index of the list (and 0 when the list is empty), and the
    /// scroll offset never runs away from the list.
    pub open spec fn fits(self, item_count: usize) -> bool {
        &&& item_count > 0 ==> self.current_selection < item_count
        &&& item_count == 0 ==> self.current_selection == 0
        &&& self.row_offset <= item_count
    }

    pub fn new(cell_height: u16, min_cell_width: u16) -> (r: Self)
        requires
            cell_height >= 1,
            min_cell_width >= 1,
        ensures
            r.wf(),
            r.current_selection == 0,
            r.row_offset == 0,
            r.last_scroll == ScrollDirection::Up,
            r.cell_height == cell_height,
            r.min_cell_width == min_cell_width,
            forall|n: usize| r.fits(n),
    {
        GridPaginator {
            current_selection: 0,
            row_offset: 0,
            last_scroll: ScrollDirection::Up,
            cell_height,
            min_cell_width,
        }
    }

    /// Cells per row: as many cells of the minimum width as fit, and never
    /// fewer than one, so column count depends only on the viewport width.
    pub open spec fn spec_columns(self, width: u16) -> int {
        let c = width as int / self.min_cell_width as int;
        if c < 1 {
            1
        } else {
            c
        }
    }

    /// Complete cell rows that fit the viewport height.
    pub open spec fn spec_full_rows(self, height: u16) -> int {
        height as int / self.cell_height as int
    }

    /// Viewport lines left over under the complete rows.
    pub open spec fn spec_leak(self, height: u16) -> int {
        height as int % self.cell_height as int
    }

    /// The area tiled with cells: the viewport, less the indicator strip.
    pub open spec fn spec_cards_area(self, viewport: Rect) -> Rect {
        let leak = self.spec_leak(viewport.height);
        if leak == 0 {
            viewport
        } else if self.last_scroll is Up {
            Rect {
                x: viewport.x,
                y: viewport.y,
                width: viewport.width,
                height: (viewport.height - leak) as u16,
            }
        } else {
            Rect {
                x: viewport.x,
                y: (viewport.y + leak) as u16,
                width: viewport.width,
                height: (viewport.height - leak) as u16,
            }
        }
    }

    /// The indicator strip: after scrolling up it sits at the bottom edge,
    /// after scrolling down at the top edge; none when the viewport tiles
    /// exactly.
    pub open spec fn spec_row_leak(self, viewport: Rect) -> RowPageLeak {
        let leak = self.spec_leak(viewport.height);
        if leak == 0 {
            RowPageLeak::Fit
        } else if self.last_scroll is Up {
            RowPageLeak::Down(
                Rect {
                    x: viewport.x,
                    y: (viewport.y + viewport.height - leak) as u16,
                    width: viewport.width,
                    height: leak as u16,
                },
            )
        } else {
            RowPageLeak::Up(
                Rect {
                    x: viewport.x,
                    y: viewport.y,
                    width: viewport.width,
                    height: leak as u16,
                },
            )
        }
    }

    /// Index of the first item of the tiled area, held within the list.
    pub open spec fn spec_start_offset(self, viewport: Rect, item_count: usize) -> int {
        let so = self.row_offset as int * self.spec_columns(viewport.width);
        if so <= item_count as int {
            so
        } else {
            item_count as int
        }
    }

    /// The layout one state computes for a viewport and an item count.
    pub open spec fn layout_spec(self, viewport: Rect, item_count: usize) -> GridLayout {
        GridLayout {
            columns: self.spec_columns(viewport.width) as usize,
            full_rows: self.spec_full_rows(viewport.height) as usize,
            leak: self.spec_leak(viewport.height) as u16,
            cards_area: self.spec_cards_area(viewport),
            row_leak: self.spec_row_leak(viewport),
            start_offset: self.spec_start_offset(viewport, item_count) as usize,
        }
    }

    /// Computes the layout of the current state: a pure read.
    pub fn compute_layout(&self, viewport: Rect, item_count: usize) -> (l: GridLayout)
        requires
            self.wf(),
            viewport.wf(),
        ensures
            l == self.layout_spec(viewport, item_count),
            l.wf(),
    {
        proof {
            vstd::arithmetic::div_mod::lemma_fundamental_div_mod(
                viewport.height as int,
                self.cell_height as int,
            );
            assert(viewport.height as int % self.cell_height as int >= 0) by (nonlinear_arith)
                requires
                    self.cell_height as int >= 1,
                    viewport.height as int >= 0,
            ;
            assert(viewport.height as int / self.cell_height as int >= 0) by (nonlinear_arith)
                requires
                    self.cell_height as int >= 1,
                    viewport.height as int >= 0,
            ;
        }
        let columns_raw = viewport.width / self.min_cell_width;
        let columns: usize = if columns_raw < 1 {
            1
        } else {
            columns_raw as usize
        };
        let full_rows: usize = (viewport.height / self.cell_height) as usize;
        let leak: u16 = viewport.height % self.cell_height;
        let (cards_area, row_leak) = if leak == 0 {
            (viewport, RowPageLeak::Fit)
        } else if matches!(self.last_scroll, ScrollDirection::Up) {
            let area = Rect {
                x: viewport.x,
                y: viewport.y,
                width: viewport.width,
                height: viewport.height - leak,
            };
            let strip = Rect {
                x: viewport.x,
                y: viewport.y + (viewport.height - leak),
                width: viewport.width,
                height: leak,
            };
            (area, RowPageLeak::Down(strip))
        } else {
            let strip = Rect {
                x: viewport.x,
                y: viewport.y,
                width: viewport.width,
                height: leak,
            };
            let area = Rect {
                x: viewport.x,
                y: viewport.y + leak,
                width: viewport.width,
                height: viewport.height - leak,
            };
            (area, RowPageLeak::Up(strip))
        };
        proof {
            assert((self.row_offset as u128) * (columns as u128) <= u128::MAX) by (nonlinear_arith)
                requires
                    self.row_offset as u128 <= u64::MAX,
                    columns as u128 <= u16::MAX + 1,
            ;
        }
        let so_wide: u128 = (self.row_offset as u128) * (columns as u128);
        let start_offset: usize = if so_wide <= item_count as u128 {
            so_wide as usize
        } else {
            item_count
        };
        GridLayout { columns, full_rows, leak, cards_area, row_leak, start_offset }
    }

    /// The window re-clamp after one movement: if the selection left the
    /// window, the window shifts by exactly one row toward it (never more)
    /// and the direction of travel is recorded for the indicator strip.
    pub open spec fn reclamped(self, layout: GridLayout) -> Self {
        let start = self.row_offset as int * layout.columns as int;
        let end = start + layout.full_rows as int * layout.columns as int;
        if self.current_selection as int >= end {
            GridPaginator {
                row_offset: (self.row_offset + 1) as usize,
                last_scroll: ScrollDirection::Down,
                ..self
            }
        } else if (self.current_selection as int) < start {
            GridPaginator {
                row_offset: if self.row_offset > 0 {
                    (self.row_offset - 1) as usize
                } else {
                    0usize
                },
                last_scroll: ScrollDirection::Up,
                ..self
            }
        } else {
            self
        }
    }

    /// The state after moving the selection to `sel` and re-clamping.
    pub open spec fn after_move(self, sel: int, layout: GridLayout) -> Self {
        (GridPaginator { current_selection: sel as usize, ..self }).reclamped(layout)
    }

    /// Re-clamping keeps the state within the list.
    proof fn lemma_reclamped_fits(self, layout: GridLayout, item_count: usize)
        requires
            layout.columns >= 1,
            item_count > 0,
            self.current_selection < item_count,
            self.row_offset <= item_count,
        ensures
            self.reclamped(layout).fits(item_count),
            self.reclamped(layout).current_selection == self.current_selection,
            self.reclamped(layout).cell_height == self.cell_height,
            self.reclamped(layout).min_cell_width == self.min_cell_width,
    {
        let start = self.row_offset as int * layout.columns as int;
        let end = start + layout.full_rows as int * layout.columns as int;
        if self.current_selection as int >= end {
            assert(self.row_offset as int <= start) by (nonlinear_arith)
                requires
                    layout.columns as int >= 1,
                    self.row_offset as int >= 0,
                    start == self.row_offset as int * layout.columns as int,
            ;
            assert(start <= end) by (nonlinear_arith)
                requires
                    layout.full_rows as int >= 0,
                    layout.columns as int >= 0,
                    end == start + layout.full_rows as int * layout.columns as int,
            ;
        }
    }

    /// Re-clamps the visible window after a movement.
    fn check_window(&mut self, layout: &GridLayout)
        requires
            layout.wf(),
            old(self).current_selection < usize::MAX,
        ensures
            *final(self) == old(self).reclamped(*layout),
    {
        proof {
            assert((self.row_offset as u128) * (layout.columns as u128) <= u64::MAX as u128 * (
            u16::MAX as u128)) by (nonlinear_arith)
                requires
                    self.row_offset as u128 <= u64::MAX,
                    layout.columns as u128 <= u16::MAX,
            ;
            assert((layout.full_rows as u128) * (layout.columns as u128) <= u16::MAX as u128 * (
            u16::MAX as u128)) by (nonlinear_arith)
                requires
                    layout.full_rows as u128 <= u16::MAX,
                    layout.columns as u128 <= u16::MAX,
            ;
        }
        let start: u128 = (self.row_offset as u128) * (layout.columns as u128);
        let end: u128 = start + (layout.full_rows as u128) * (layout.columns as u128);
        if (self.current_selection as u128) >= end {
            proof {
                assert(self.row_offset as int <= self.row_offset as int * layout.columns as int)
                    by (nonlinear_arith)
                    requires
                        layout.columns as int >= 1,
                        self.row_offset as int >= 0,
                ;
                assert(self.row_offset as int * layout.columns as int <= end as int)
                    by (nonlinear_arith)
                    requires
                        layout.full_rows as int >= 0,
                        layout.columns as int >= 0,
                        end as int == self.row_offset as int * layout.columns as int
                            + layout.full_rows as int * layout.columns as int,
                ;
            }
            self.row_offset = self.row_offset + 1;
            self.last_scroll = ScrollDirection::Down;
        } else if (self.current_selection as u128) < start {
            self.row_offset = if self.row_offset > 0 {
                self.row_offset - 1
            } else {
                0
            };
            self.last_scroll = ScrollDirection::Up;
        }
    }

    /// Moves the selection one item back, clamped at the first item; a
    /// movement on an empty list changes nothing. The selection always
    /// stays within the list.
    pub fn previous_item(&mut self, item_count: usize, layout: &GridLayout)
        requires
            old(self).fits(item_count),
            layout.wf(),
        ensures
            item_count == 0 ==> *final(self) == *old(self),
            item_count > 0 ==> *final(self) == old(self).after_move(
                if old(self).current_selection > 0 {
                    old(self).current_selection - 1
                } else {
                    0
                },
                *layout,
            ),
            final(self).fits(item_count),
    {
        if item_count == 0 {
            return ;
        }
        if self.current_selection > 0 {
            self.current_selection = self.current_selection - 1;
        }
        let ghost mid = *self;
        self.check_window(layout);
        proof {
            mid.lemma_reclamped_fits(*layout, item_count);
        }
    }

    /// Moves the selection one item forward, clamped at the last item; a
    /// movement on an empty list changes nothing. The selection always
    /// stays within the list.
    pub fn next_item(&mut self, item_count: usize, layout: &GridLayout)
        requires
            old(self).fits(item_count),
            layout.wf(),
        ensures
            item_count == 0 ==> *final(self) == *old(self),
            item_count > 0 ==> *final(self) == old(self).after_move(
                if old(self).current_selection + 1 <= item_count - 1 {
                    old(self).current_selection + 1
                } else {
                    item_count - 1
                },
                *layout,
            ),
            final(self).fits(item_count),
    {
        if item_count == 0 {
            return ;
        }
        if self.current_selection + 1 <= item_count - 1 {
            self.current_selection = self.current_selection + 1;
        } else {
            self.current_selection = item_count - 1;
        }
        let ghost mid = *self;
        self.check_window(layout);
        proof {
            mid.lemma_reclamped_fits(*layout, item_count);
        }
    }

    /// Moves the selection one grid row back, clamped at the first item; a
    /// movement on an empty list changes nothing. The selection always
    /// stays within the list.
    pub fn previous_row(&mut self, item_count: usize, layout: &GridLayout)
        requires
            old(self).fits(item_count),
            layout.wf(),
        ensures
            item_count == 0 ==> *final(self) == *old(self),
            item_count > 0 ==> *final(self) == old(self).after_move(
                if old(self).current_selection >= layout.columns {
                    old(self).current_selection - layout.columns
                } else {
                    0
                },
                *layout,
            ),
            final(self).fits(item_count),
    {
        if item_count == 0 {
            return ;
        }
        if self.current_selection >= layout.columns {
            self.current_selection = self.current_selection - layout.columns;
        } else {
            self.current_selection = 0;
        }
        let ghost mid = *self;
        self.check_window(layout);
        proof {
            mid.lemma_reclamped_fits(*layout, item_count);
        }
    }

    /// Moves the selection one grid row forward, clamped at the last item;
    /// a movement on an empty list changes nothing. The selection always
    /// stays within the list.
    pub fn next_row(&mut self, item_count: usize, layout: &GridLayout)
        requires
            old(self).fits(item_count),
            layout.wf(),
        ensures
            item_count == 0 ==> *final(self) == *old(self),
            item_count > 0 ==> *final(self) == old(self).after_move(
                if old(self).current_selection + layout.columns as int <= item_count - 1 {
                    old(self).current_selection + layout.columns as int
                } else {
                    item_count - 1
                },
                *layout,
            ),
            final(self).fits(item_count),
    {
        if item_count == 0 {
            return ;
        }
        let cand: u128 = self.current_selection as u128 + layout.columns as u128;
        if cand <= (item_count - 1) as u128 {
            self.current_selection = cand as usize;
        } else {
            self.current_selection = item_count - 1;
        }
        let ghost mid = *self;
        self.check_window(layout);
        proof {
            mid.lemma_reclamped_fits(*layout, item_count);
        }
    }

    /// The 1-based grid row of the selection, driving an external scrollbar:
    /// the ceiling of (selection + 1) / columns.
    pub fn current_row(&self, layout: &GridLayout) -> (r: usize)
        requires
            layout.wf(),
            self.current_selection < usize::MAX,
        ensures
            r as int == self.current_selection as int / layout.columns as int + 1,
    {
        proof {
            assert(self.current_selection as int / layout.columns as int
                <= self.current_selection as int) by (nonlinear_arith)
                requires
                    layout.columns as int >= 1,
                    self.current_selection as int >= 0,
            ;
        }
        self.current_selection / layout.columns + 1
    }

    /// The rectangle of the k-th cell of the tiled area: cells are laid
    /// row-major, each row `cell_height` lines tall, the row width divided
    /// evenly among the columns.
    pub open spec fn cell_rect(self, l: GridLayout, k: int) -> Rect {
        let row = k / l.columns as int;
        let col = k % l.columns as int;
        let area = l.cards_area;
        let x0 = (col * area.width as int) / l.columns as int;
        let x1 = ((col + 1) * area.width as int) / l.columns as int;
        Rect {
            x: (area.x as int + x0) as u16,
            y: (area.y as int + row * self.cell_height as int) as u16,
            width: (x1 - x0) as u16,
            height: self.cell_height,
        }
    }

    /// How many cells of a pass are visible: never more than the grid
    /// holds, never past the end of the list, and none at all in a
    /// zero-width viewport.
    pub open spec fn visible_count(l: GridLayout, item_count: usize) -> int {
        if l.cards_area.width == 0 {
            0
        } else {
            let cap = l.columns as int * l.full_rows as int;
            let avail = item_count as int - l.start_offset as int;
            if avail < 0 {
                0
            } else if avail <= cap {
                avail
            } else {
                cap
            }
        }
    }

    /// Computes the k-th cell rectangle of a pass.
    fn cell_rect_exec(&self, l: &GridLayout, k: usize) -> (r: Rect)
        requires
            self.wf(),
            l.wf(),
            l.cards_area.wf(),
            (k as int) < l.columns as int * l.full_rows as int,
            l.cards_area.height as int == l.full_rows as int * self.cell_height as int,
        ensures
            r == self.cell_rect(*l, k as int),
    {
        let row: usize = k / l.columns;
        let col: usize = k % l.columns;
        proof {
            let ki = k as int;
            let ci = l.columns as int;
            let fi = l.full_rows as int;
            let ri = row as int;
            let coli = col as int;
            assert(ri <= fi - 1 && coli <= ci - 1) by (nonlinear_arith)
                requires
                    ci >= 1,
                    fi >= 0,
                    0 <= ki,
                    ki < ci * fi,
                    ri == ki / ci,
                    coli == ki % ci,
            ;
        }
        let cw: u32 = l.cards_area.width as u32;
        let cols: u32 = l.columns as u32;
        proof {
            let coli = col as int;
            let colsi = cols as int;
            let cwi = cw as int;
            assert(0 <= coli * cwi && coli * cwi <= (coli + 1) * cwi && (coli + 1) * cwi <= colsi
                * cwi && colsi * cwi <= 0xffff_ffff) by (nonlinear_arith)
                requires
                    0 <= coli,
                    coli + 1 <= colsi,
                    colsi <= 0xffff,
                    0 <= cwi,
                    cwi <= 0xffff,
            ;
        }
        let x0: u32 = ((col as u32) * cw) / cols;
        let x1: u32 = ((col as u32) + 1) * cw / cols;
        proof {
            let coli = col as int;
            let colsi = cols as int;
            let cwi = cw as int;
            let x0i = x0 as int;
            let x1i = x1 as int;
            let ri = row as int;
            let fi = l.full_rows as int;
            let hi = self.cell_height as int;
            assert(x0i <= x1i && x1i <= cwi) by (nonlinear_arith)
                requires
                    colsi >= 1,
                    0 <= coli,
                    coli < colsi,
                    0 <= cwi,
                    x0i == (coli * cwi) / colsi,
                    x1i == ((coli + 1) * cwi) / colsi,
            ;
            assert(ri * hi + hi <= fi * hi && ri * hi >= 0) by (nonlinear_arith)
                requires
                    0 <= ri,
                    ri <= fi - 1,
                    hi >= 0,
            ;
        }
        let y: u32 = (l.cards_area.y as u32) + (row as u32) * (self.cell_height as u32);
        Rect {
            x: l.cards_area.x + (x0 as u16),
            y: y as u16,
            width: (x1 - x0) as u16,
            height: self.cell_height,
        }
    }

    /// The visible cells of one pass, row-major: the index of the item each
    /// cell shows and the cell's rectangle. The caller paints each cell;
    /// this component never reads item content. A degenerate viewport
    /// yields no cells.
    pub fn visible_cells(&self, viewport: Rect, item_count: usize) -> (r: Vec<(usize, Rect)>)
        requires
            self.wf(),
            viewport.wf(),
        ensures
            r@.len() == Self::visible_count(self.layout_spec(viewport, item_count), item_count),
            forall|k: int|
                0 <= k < r@.len() ==> (#[trigger] r@[k]).0 == self.layout_spec(
                    viewport,
                    item_count,
                ).start_offset + k && r@[k].1 == self.cell_rect(
                    self.layout_spec(viewport, item_count),
                    k,
                ),
    {
        let l = self.compute_layout(viewport, item_count);
        let mut cells: Vec<(usize, Rect)> = Vec::new();
        if l.cards_area.width == 0 {
            return cells;
        }
        proof {
            vstd::arithmetic::div_mod::lemma_fundamental_div_mod(
                viewport.height as int,
                self.cell_height as int,
            );
            assert((l.columns as u128) * (l.full_rows as u128) <= u16::MAX as u128 * (
            u16::MAX as u128)) by (nonlinear_arith)
                requires
                    l.columns as u128 <= u16::MAX,
                    l.full_rows as u128 <= u16::MAX,
            ;
        }
        let cap: u128 = (l.columns as u128) * (l.full_rows as u128);
        let avail: usize = item_count - l.start_offset;
        let count: usize = if (avail as u128) <= cap {
            avail
        } else {
            cap as usize
        };
        let mut k: usize = 0;
        while k < count
            invariant
                self.wf(),
                viewport.wf(),
                l == self.layout_spec(viewport, item_count),
                l.wf(),
                l.cards_area.wf(),
                l.cards_area.height as int == l.full_rows as int * self.cell_height as int,
                l.start_offset + count <= item_count,
                count as int <= l.columns as int * l.full_rows as int,
                count == Self::visible_count(l, item_count),
                k <= count,
                cells@.len() == k,
                forall|j: int|
                    0 <= j < k ==> (#[trigger] cells@[j]).0 == l.start_offset + j && cells@[j].1
                        == self.cell_rect(l, j),
            decreases count - k,
        {
            let rect = self.cell_rect_exec(&l, k);
            cells.push((l.start_offset + k, rect));
            k = k + 1;
        }
        cells
    }

    /// One layout pass: re-clamps the selection and the scroll offset
    /// against the (possibly new) item count, then computes the layout.
    pub fn layout(&mut self, viewport: Rect, item_count: usize) -> (l: GridLayout)
        requires
            old(self).wf(),
            viewport.wf(),
        ensures
            final(self).wf(),
            final(self).fits(item_count),
            final(self).cell_height == old(self).cell_height,
            final(self).min_cell_width == old(self).min_cell_width,
            final(self).last_scroll == old(self).last_scroll,
            final(self).current_selection == if item_count == 0 {
                0usize
            } else if old(self).current_selection < item_count {
                old(self).current_selection
            } else {
                (item_count - 1) as usize
            },
            final(self).row_offset == if old(self).row_offset <= item_count {
                old(self).row_offset
            } else {
                item_count
            },
            l == final(self).layout_spec(viewport, item_count),
            l.wf(),
    {
        if item_count == 0 {
            self.current_selection = 0;
        } else if self.current_selection >= item_count {
            self.current_selection = item_count - 1;
        }
        if self.row_offset > item_count {
            self.row_offset = item_count;
        }
        self.compute_layout(viewport, item_count)
    }
}

} // verus!

