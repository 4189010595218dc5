use proxy_board::grid::GridPaginator;
use proxy_board::grid::Rect;
use proxy_board::grid::RowPageLeak;
use proxy_board::grid::ScrollDirection;
use proxy_board::page::PageView;

fn rect(width: u16, height: u16) -> Rect {
    Rect { x: 0, y: 0, width, height }
}

#[test]
fn test_cal() {
    let card = GridPaginator::new(4, 10);

    let viewport = rect(30, 12);
    let layout = card.compute_layout(viewport, 100);
    assert_eq!(layout.start_offset, 0);

    let cells = card.visible_cells(viewport, 100);
    assert_eq!(cells.len(), 9); // 3 rows * 3 cards in a row

    match layout.row_leak {
        RowPageLeak::Fit => {} // expected since the height divides exactly
        _ => panic!("Expected RowPageLeak::Fit"),
    }

    let viewport_with_leak = rect(30, 11);
    let layout_with_leak = card.compute_layout(viewport_with_leak, 100);
    match layout_with_leak.row_leak {
        RowPageLeak::Up(_) | RowPageLeak::Down(_) => {}
        _ => panic!("Expected RowPageLeak::Up or RowPageLeak::Down"),
    }
}

#[test]
fn layout_full_viewport() {
    // viewport 30x12, cell footprint 4 lines x 10 columns:
    // 3 columns, 3 full rows, no leak, exactly 9 visible cells
    let pager = GridPaginator::new(4, 10);
    let layout = pager.compute_layout(rect(30, 12), 20);
    assert_eq!(layout.columns, 3);
    assert_eq!(layout.full_rows, 3);
    assert_eq!(layout.leak, 0);
    assert!(matches!(layout.row_leak, RowPageLeak::Fit));
    assert_eq!(pager.visible_cells(rect(30, 12), 20).len(), 9);
}

#[test]
fn layout_with_leak_keeps_columns() {
    // viewport 30x11: leak = 11 mod 4 = 3, an indicator strip is present,
    // and the column count depends only on the width: still 3
    let pager = GridPaginator::new(4, 10);
    let layout = pager.compute_layout(rect(30, 11), 20);
    assert_eq!(layout.leak, 3);
    assert_eq!(layout.columns, 3);
    assert!(!matches!(layout.row_leak, RowPageLeak::Fit));
    // a fresh pager starts in Up scroll state: the strip sits at the bottom
    match layout.row_leak {
        RowPageLeak::Down(strip) => {
            assert_eq!(strip.height, 3);
            assert_eq!(strip.y, 8);
        }
        _ => panic!("expected the strip at the bottom edge"),
    }
}

#[test]
fn zero_viewport_draws_nothing() {
    let mut pager = GridPaginator::new(4, 10);
    let layout = pager.layout(rect(0, 0), 10);
    assert_eq!(layout.full_rows, 0);
    let cells = pager.visible_cells(rect(0, 0), 10);
    assert!(cells.is_empty());
}

#[test]
fn next_row_moves_by_columns() {
    // columns = 3, item_count = 10: from 0 next_row lands on 3;
    // from the last index next_row stays put
    let mut pager = GridPaginator::new(4, 10);
    let viewport = rect(30, 40);
    let layout = pager.layout(viewport, 10);
    assert_eq!(layout.columns, 3);

    pager.next_row(10, &layout);
    assert_eq!(pager.current_selection, 3);

    while pager.current_selection < 9 {
        pager.next_item(10, &layout);
    }
    assert_eq!(pager.current_selection, 9);
    pager.next_row(10, &layout);
    assert_eq!(pager.current_selection, 9);
}

#[test]
fn item_moves_clamp_at_both_ends() {
    let mut pager = GridPaginator::new(4, 10);
    let layout = pager.layout(rect(30, 40), 4);
    pager.previous_item(4, &layout);
    assert_eq!(pager.current_selection, 0);
    pager.next_item(4, &layout);
    pager.next_item(4, &layout);
    pager.next_item(4, &layout);
    pager.next_item(4, &layout);
    assert_eq!(pager.current_selection, 3);
    pager.previous_row(4, &layout);
    assert_eq!(pager.current_selection, 0);
}

#[test]
fn selection_stays_in_range_under_any_sequence() {
    let mut pager = GridPaginator::new(4, 10);
    let viewport = rect(25, 9);
    for n in [0usize, 1, 2, 7, 10] {
        let layout = pager.layout(viewport, n);
        for step in 0..40usize {
            match step % 4 {
                0 => pager.next_row(n, &layout),
                1 => pager.next_item(n, &layout),
                2 => pager.previous_row(n, &layout),
                _ => pager.previous_item(n, &layout),
            }
            if n > 0 {
                assert!(pager.current_selection < n);
            } else {
                assert_eq!(pager.current_selection, 0);
            }
        }
    }
}

#[test]
fn window_scrolls_one_row_at_a_time() {
    // 2 columns, 2 full rows: items 0..=3 visible; moving to item 4
    // scrolls the window down by exactly one row
    let mut pager = GridPaginator::new(4, 10);
    let viewport = rect(20, 8);
    let layout = pager.layout(viewport, 10);
    assert_eq!(layout.columns, 2);
    assert_eq!(layout.full_rows, 2);

    pager.next_row(10, &layout);
    pager.next_row(10, &layout);
    assert_eq!(pager.current_selection, 4);
    assert_eq!(pager.row_offset, 1);
    assert_eq!(pager.last_scroll, ScrollDirection::Down);

    pager.previous_row(10, &layout);
    pager.previous_row(10, &layout);
    assert_eq!(pager.current_selection, 0);
    assert_eq!(pager.row_offset, 0);
    assert_eq!(pager.last_scroll, ScrollDirection::Up);
}

#[test]
fn layout_reclamps_after_shrink() {
    let mut pager = GridPaginator::new(4, 10);
    let viewport = rect(30, 12);
    let layout = pager.layout(viewport, 9);
    for _ in 0..8 {
        pager.next_item(9, &layout);
    }
    assert_eq!(pager.current_selection, 8);
    // the list shrinks: the next layout pass clamps the selection
    let _ = pager.layout(viewport, 3);
    assert_eq!(pager.current_selection, 2);
    let _ = pager.layout(viewport, 0);
    assert_eq!(pager.current_selection, 0);
}

#[test]
fn cells_carry_consecutive_indices_and_footprint() {
    let pager = GridPaginator::new(4, 10);
    let cells = pager.visible_cells(rect(30, 12), 5);
    assert_eq!(cells.len(), 5);
    for (k, (index, cell)) in cells.iter().enumerate() {
        assert_eq!(*index, k);
        assert_eq!(cell.height, 4);
        assert_eq!(cell.width, 10);
    }
    // row-major: the fourth cell starts the second row
    assert_eq!(cells[3].1.y, 4);
    assert_eq!(cells[3].1.x, 0);
}

#[test]
fn scroll_position_tracks_rows() {
    let mut view = PageView::new(4, 10);
    let viewport = rect(30, 12);
    let layout = view.pager.layout(viewport, 10);
    assert_eq!(view.scroll_position(&layout, 10), (1, 4));
    view.pager.next_row(10, &layout);
    assert_eq!(view.scroll_position(&layout, 10), (2, 4));
    assert_eq!(view.scroll_position(&layout, 0).1, 0);
}
