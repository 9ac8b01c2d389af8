use homescreen::config::GridConfig;
use homescreen::layout_manager::{GridRect, LayoutManager, LayoutMutation, LayoutPage, WidgetId};
use homescreen::solver::AndroidLayoutSolver;

#[test]
fn test_grid_rect_intersects() {
    let rect1 = GridRect { col: 0, row: 0, w: 2, h: 2 };
    let rect2 = GridRect { col: 1, row: 1, w: 2, h: 2 };
    let rect3 = GridRect { col: 3, row: 3, w: 1, h: 1 };

    // rect1 and rect2 overlap
    assert!(rect1.intersects(&rect2));
    assert!(rect2.intersects(&rect1));

    // rect1 and rect3 don't overlap
    assert!(!rect1.intersects(&rect3));
    assert!(!rect3.intersects(&rect1));
}

#[test]
fn test_grid_rect_intersects_edge_cases() {
    // Adjacent rects (touching edges) should not intersect
    let rect1 = GridRect { col: 0, row: 0, w: 2, h: 2 };
    let rect2 = GridRect { col: 2, row: 0, w: 2, h: 2 };

    assert!(!rect1.intersects(&rect2));

    // Same rect should intersect with itself
    assert!(rect1.intersects(&rect1));
}

#[test]
fn test_layout_page_add_remove_widget() {
    let mut page = LayoutPage::new(GridConfig { cols: 4, rows: 4 });

    let widget1 = WidgetId(1);
    let rect = GridRect { col: 0, row: 0, w: 2, h: 2 };

    // Add widget
    page.add_widget(widget1, rect);
    assert!(page.get_node(widget1).is_some());
    assert_eq!(page.get_node(widget1).unwrap().rect, rect);

    // Remove widget
    page.remove_widget(widget1);
    assert!(page.get_node(widget1).is_none());
}

#[test]
fn test_layout_page_is_occupied() {
    let mut page = LayoutPage::new(GridConfig { cols: 4, rows: 4 });

    let widget1 = WidgetId(1);
    page.add_widget(widget1, GridRect { col: 0, row: 0, w: 2, h: 2 });

    // Check if a rect that overlaps is occupied
    let occupied = page.is_occupied(GridRect { col: 1, row: 1, w: 1, h: 1 });
    assert_eq!(occupied, Some(widget1));

    // Check if an unoccupied rect returns None
    let not_occupied = page.is_occupied(GridRect { col: 3, row: 3, w: 1, h: 1 });
    assert_eq!(not_occupied, None);
}

#[test]
fn test_layout_page_is_occupied_excluding() {
    let mut page = LayoutPage::new(GridConfig { cols: 4, rows: 4 });

    let widget1 = WidgetId(1);
    let widget2 = WidgetId(2);

    page.add_widget(widget1, GridRect { col: 0, row: 0, w: 2, h: 2 });
    page.add_widget(widget2, GridRect { col: 2, row: 2, w: 2, h: 2 });

    // Check occupation while excluding widget1
    let test_rect = GridRect { col: 0, row: 0, w: 1, h: 1 };

    // Should find widget1 if we don't exclude it
    assert_eq!(page.is_occupied_excluding(test_rect, None), Some(widget1));

    // Should not find widget1 if we exclude it
    assert_eq!(page.is_occupied_excluding(test_rect, Some(widget1)), None);
}

#[test]
fn test_layout_page_is_in_bounds() {
    let page = LayoutPage::new(GridConfig { cols: 4, rows: 4 });

    // Rect that fits exactly
    assert!(page.is_in_bounds(GridRect { col: 0, row: 0, w: 4, h: 4 }));

    // Rect at corner
    assert!(page.is_in_bounds(GridRect { col: 3, row: 3, w: 1, h: 1 }));

    // Out of bounds (width exceeds)
    assert!(!page.is_in_bounds(GridRect { col: 0, row: 0, w: 5, h: 4 }));

    // Out of bounds (height exceeds)
    assert!(!page.is_in_bounds(GridRect { col: 0, row: 0, w: 4, h: 5 }));

    // Out of bounds (position + size exceeds)
    assert!(!page.is_in_bounds(GridRect { col: 3, row: 3, w: 2, h: 2 }));

    // Out of bounds (starting position exceeds)
    assert!(!page.is_in_bounds(GridRect { col: 4, row: 0, w: 1, h: 1 }));
}

#[test]
fn test_apply_mutation_moves() {
    let page_config = GridConfig { cols: 4, rows: 4 };
    let page = LayoutPage::new(page_config);

    let grid_config = GridConfig { cols: 4, rows: 4 };

    let mut manager = LayoutManager::<AndroidLayoutSolver>::new(vec![page], 0, grid_config);

    let widget1 = WidgetId(1);
    let widget2 = WidgetId(2);

    manager.pages[0].add_widget(widget1, GridRect { col: 0, row: 0, w: 1, h: 1 });
    manager.pages[0].add_widget(widget2, GridRect { col: 1, row: 0, w: 1, h: 1 });

    // Create a mutation that moves both widgets
    let mutation = LayoutMutation {
        moves: vec![
            (widget1, GridRect { col: 2, row: 2, w: 1, h: 1 }),
            (widget2, GridRect { col: 3, row: 3, w: 1, h: 1 }),
        ],
        page_changes: vec![],
    };

    manager.apply_mutation(mutation);

    // Verify the moves were applied
    let node1 = manager.pages[0].get_node(widget1).unwrap();
    assert_eq!(node1.rect.col, 2);
    assert_eq!(node1.rect.row, 2);
    assert_eq!(node1.rect.w, 1);
    assert_eq!(node1.rect.h, 1);

    let node2 = manager.pages[0].get_node(widget2).unwrap();
    assert_eq!(node2.rect.col, 3);
    assert_eq!(node2.rect.row, 3);
    assert_eq!(node2.rect.w, 1);
    assert_eq!(node2.rect.h, 1);
}

#[test]
fn test_apply_mutation_page_transfer() {
    let page_config = GridConfig { cols: 4, rows: 4 };
    let page1 = LayoutPage::new(page_config.clone());
    let page2 = LayoutPage::new(page_config);

    let grid_config = GridConfig { cols: 4, rows: 4 };

    let mut manager = LayoutManager::<AndroidLayoutSolver>::new(vec![page1, page2], 0, grid_config);

    let widget_id = WidgetId(1);
    manager.pages[0].add_widget(widget_id, GridRect { col: 0, row: 0, w: 1, h: 1 });

    // Create a mutation that transfers widget to page 1
    let mutation = LayoutMutation {
        moves: vec![(widget_id, GridRect { col: 1, row: 1, w: 1, h: 1 })],
        page_changes: vec![(widget_id, 1)],
    };

    manager.apply_mutation(mutation);

    // Verify widget is no longer on page 0
    assert!(manager.pages[0].get_node(widget_id).is_none());

    // Verify widget is on page 1 with correct position
    let node = manager.pages[1].get_node(widget_id).unwrap();
    assert_eq!(node.rect.col, 1);
    assert_eq!(node.rect.row, 1);
    assert_eq!(node.rect.w, 1);
    assert_eq!(node.rect.h, 1);
}

#[test]
fn test_apply_mutation_with_both_moves_and_transfers() {
    let page_config = GridConfig { cols: 4, rows: 4 };
    let page1 = LayoutPage::new(page_config.clone());
    let page2 = LayoutPage::new(page_config);

    let grid_config = GridConfig { cols: 4, rows: 4 };

    let mut manager = LayoutManager::<AndroidLayoutSolver>::new(vec![page1, page2], 0, grid_config);

    let widget1 = WidgetId(1);
    let widget2 = WidgetId(2);

    manager.pages[0].add_widget(widget1, GridRect { col: 0, row: 0, w: 1, h: 1 });
    manager.pages[0].add_widget(widget2, GridRect { col: 1, row: 0, w: 1, h: 1 });

    // Transfer widget1 to page 1 and move both widgets
    let mutation = LayoutMutation {
        moves: vec![
            (widget1, GridRect { col: 2, row: 2, w: 1, h: 1 }),
            (widget2, GridRect { col: 3, row: 3, w: 1, h: 1 }),
        ],
        page_changes: vec![(widget1, 1)],
    };

    manager.apply_mutation(mutation);

    // Verify widget1 is on page 1 with correct position
    assert!(manager.pages[0].get_node(widget1).is_none());
    let node1 = manager.pages[1].get_node(widget1).unwrap();
    assert_eq!(node1.rect.col, 2);
    assert_eq!(node1.rect.row, 2);

    // Verify widget2 is still on page 0 with updated position
    let node2 = manager.pages[0].get_node(widget2).unwrap();
    assert_eq!(node2.rect.col, 3);
    assert_eq!(node2.rect.row, 3);
}

#[test]
fn test_layout_manager_basic_setup() {
    let page_config = GridConfig { cols: 4, rows: 4 };
    let page = LayoutPage::new(page_config);

    let grid_config = GridConfig { cols: 4, rows: 4 };

    let manager = LayoutManager::<AndroidLayoutSolver>::new(vec![page], 0, grid_config);

    assert_eq!(manager.pages.len(), 1);
    assert_eq!(manager.active_page, 0);
    assert_eq!(manager.grid_config.cols, 4);
}

#[test]
fn test_set_active_page() {
    let page_config = GridConfig { cols: 4, rows: 4 };
    let page1 = LayoutPage::new(page_config.clone());
    let page2 = LayoutPage::new(page_config);

    let grid_config = GridConfig { cols: 4, rows: 4 };

    let mut manager = LayoutManager::<AndroidLayoutSolver>::new(vec![page1, page2], 0, grid_config);

    assert_eq!(manager.active_page, 0);

    manager.set_active_page(1);
    assert_eq!(manager.active_page, 1);
}
