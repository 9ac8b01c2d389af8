use homescreen::config::GridConfig;
use homescreen::layout_manager::{GridRect, LayoutPage, LayoutSolver, WidgetId};
use homescreen::solver::AndroidLayoutSolver;

fn create_test_page() -> LayoutPage {
    LayoutPage::new(GridConfig { cols: 4, rows: 6 })
}

#[test]
fn test_drag_no_collision() {
    let mut page = create_test_page();

    // Place a widget at (0,0) size 1x1
    let widget1 = WidgetId(1);
    page.add_widget(widget1, GridRect { col: 0, row: 0, w: 1, h: 1 });

    // Drag it to (2,2) - no collisions
    let target = GridRect { col: 2, row: 2, w: 1, h: 1 };
    let mutation = AndroidLayoutSolver::calculate_drag_preview(&[page], widget1, Some(0), target);

    // Should move widget1 to (2,2)
    assert_eq!(mutation.moves.len(), 1);
    assert!(mutation.moves.iter().any(|(id, rect)| *id == widget1 && *rect == target));
}

#[test]
fn test_drag_with_collision_pushes_down() {
    let mut page = create_test_page();

    // Place widget1 at (0,0) size 2x2
    let widget1 = WidgetId(1);
    page.add_widget(widget1, GridRect { col: 0, row: 0, w: 2, h: 2 });

    // Place widget2 at (0,2) size 2x2
    let widget2 = WidgetId(2);
    page.add_widget(widget2, GridRect { col: 0, row: 2, w: 2, h: 2 });

    // Drag widget1 to (0,1) - should push widget2 down
    let target = GridRect { col: 0, row: 1, w: 2, h: 2 };
    let mutation = AndroidLayoutSolver::calculate_drag_preview(&[page], widget1, Some(0), target);

    // widget1 should move to (0,1)
    assert!(mutation.moves.iter().any(|(id, rect)| *id == widget1 && rect.row == 1));

    // widget2 should be pushed down to (0,3)
    assert!(mutation.moves.iter().any(|(id, rect)| *id == widget2 && rect.row == 3));
}

#[test]
fn test_drag_chain_collision() {
    let mut page = create_test_page();

    // Create a vertical chain of widgets
    let widget1 = WidgetId(1);
    page.add_widget(widget1, GridRect { col: 0, row: 0, w: 1, h: 1 });

    let widget2 = WidgetId(2);
    page.add_widget(widget2, GridRect { col: 0, row: 1, w: 1, h: 1 });

    let widget3 = WidgetId(3);
    page.add_widget(widget3, GridRect { col: 0, row: 2, w: 1, h: 1 });

    // Drag a new widget to (0,1) - should push widget2 and widget3 down
    let new_widget = WidgetId(4);
    let target = GridRect { col: 0, row: 1, w: 1, h: 1 };
    let mutation =
        AndroidLayoutSolver::calculate_drag_preview(&[page], new_widget, Some(0), target);

    // new_widget should be at (0,1)
    assert!(mutation.moves.iter().any(|(id, rect)| *id == new_widget && rect.row == 1));

    // widget2 should be pushed to (0,2)
    assert!(mutation.moves.iter().any(|(id, rect)| *id == widget2 && rect.row == 2));

    // widget3 should be pushed to (0,3)
    assert!(mutation.moves.iter().any(|(id, rect)| *id == widget3 && rect.row == 3));
}

#[test]
fn test_resize_pushes_widgets() {
    let mut page = create_test_page();

    // Place widget1 at (0,0) size 1x1
    let widget1 = WidgetId(1);
    page.add_widget(widget1, GridRect { col: 0, row: 0, w: 1, h: 1 });

    // Place widget2 at (0,1) size 1x1
    let widget2 = WidgetId(2);
    page.add_widget(widget2, GridRect { col: 0, row: 1, w: 1, h: 1 });

    // Resize widget1 to 1x2 - should push widget2 down
    let new_size = GridRect { col: 0, row: 0, w: 1, h: 2 };
    let mutation =
        AndroidLayoutSolver::calculate_resize_preview(&[page], widget1, Some(0), new_size);

    // widget1 should be at (0,0) with new size
    assert!(mutation.moves.iter().any(|(id, rect)| *id == widget1 && rect.h == 2));

    // widget2 should be pushed to (0,2)
    assert!(mutation.moves.iter().any(|(id, rect)| *id == widget2 && rect.row == 2));
}

#[test]
fn test_compaction_moves_widgets_up() {
    let mut page = create_test_page();

    // Place widget1 at (0,0) size 1x1
    let widget1 = WidgetId(1);
    page.add_widget(widget1, GridRect { col: 0, row: 0, w: 1, h: 1 });

    // Place widget2 at (0,3) size 1x1 - there's a gap
    let widget2 = WidgetId(2);
    page.add_widget(widget2, GridRect { col: 0, row: 3, w: 1, h: 1 });

    let mutation = AndroidLayoutSolver::compaction_pass(&page);

    // widget2 should be moved up to (0,1)
    assert!(mutation.moves.iter().any(|(id, rect)| *id == widget2 && rect.row == 1));

    // widget1 should not move
    assert!(!mutation.moves.iter().any(|(id, _)| *id == widget1));
}

#[test]
fn test_compaction_with_multiple_gaps() {
    let mut page = create_test_page();

    // Place widgets with gaps
    let widget1 = WidgetId(1);
    page.add_widget(widget1, GridRect { col: 0, row: 0, w: 1, h: 1 });

    let widget2 = WidgetId(2);
    page.add_widget(widget2, GridRect { col: 1, row: 2, w: 1, h: 1 });

    let widget3 = WidgetId(3);
    page.add_widget(widget3, GridRect { col: 0, row: 4, w: 1, h: 1 });

    let mutation = AndroidLayoutSolver::compaction_pass(&page);

    // widget2 should move to row 0 (different column)
    assert!(mutation.moves.iter().any(|(id, rect)| *id == widget2 && rect.row == 0));

    // widget3 should move up to row 1
    assert!(mutation.moves.iter().any(|(id, rect)| *id == widget3 && rect.row == 1));
}

#[test]
fn test_compaction_respects_stacking() {
    let mut page = create_test_page();

    // Create a proper stack with no gaps
    let widget1 = WidgetId(1);
    page.add_widget(widget1, GridRect { col: 0, row: 0, w: 2, h: 2 });

    let widget2 = WidgetId(2);
    page.add_widget(widget2, GridRect { col: 0, row: 2, w: 2, h: 1 });

    let mutation = AndroidLayoutSolver::compaction_pass(&page);

    // No widgets should move - already compacted
    assert_eq!(mutation.moves.len(), 0);
}

#[test]
fn test_drag_out_of_bounds() {
    let mut page = create_test_page();

    let widget1 = WidgetId(1);
    page.add_widget(widget1, GridRect { col: 0, row: 0, w: 1, h: 1 });

    // Try to drag beyond page bounds
    let target = GridRect { col: 5, row: 0, w: 1, h: 1 };
    let mutation = AndroidLayoutSolver::calculate_drag_preview(&[page], widget1, Some(0), target);

    // Should return empty mutation
    assert_eq!(mutation.moves.len(), 0);
}

#[test]
fn test_resize_out_of_bounds() {
    let mut page = create_test_page();

    let widget1 = WidgetId(1);
    page.add_widget(widget1, GridRect { col: 0, row: 0, w: 1, h: 1 });

    // Try to resize beyond page bounds
    let new_size = GridRect { col: 0, row: 0, w: 5, h: 1 };
    let mutation =
        AndroidLayoutSolver::calculate_resize_preview(&[page], widget1, Some(0), new_size);

    // Should return empty mutation
    assert_eq!(mutation.moves.len(), 0);
}

#[test]
fn test_drag_with_different_sized_widgets() {
    let mut page = create_test_page();

    // Large widget at top
    let widget1 = WidgetId(1);
    page.add_widget(widget1, GridRect { col: 0, row: 0, w: 2, h: 2 });

    // Small widget below
    let widget2 = WidgetId(2);
    page.add_widget(widget2, GridRect { col: 2, row: 2, w: 1, h: 1 });

    // Drag small widget into large widget's space
    let target = GridRect { col: 0, row: 1, w: 1, h: 1 };
    let mutation = AndroidLayoutSolver::calculate_drag_preview(&[page], widget2, Some(0), target);

    // widget2 should be at target position
    assert!(mutation.moves.iter().any(|(id, rect)| *id == widget2 && *rect == target));

    // widget1 should be pushed down
    assert!(mutation.moves.iter().any(|(id, rect)| *id == widget1 && rect.row >= 1));
}

#[test]
fn test_page_change_tracked() {
    let mut page1 = create_test_page();
    let page2 = create_test_page();

    let widget1 = WidgetId(1);
    page1.add_widget(widget1, GridRect { col: 0, row: 0, w: 1, h: 1 });

    let target = GridRect { col: 1, row: 1, w: 1, h: 1 };
    let mutation =
        AndroidLayoutSolver::calculate_drag_preview(&[page1, page2], widget1, Some(1), target);

    // Should track page change
    assert_eq!(mutation.page_changes.len(), 1);
    assert_eq!(mutation.page_changes[0], (widget1, 1));
}

#[test]
fn test_large_widget_drag_with_compaction() {
    // Create a 4x6 grid to have enough space
    let mut page = LayoutPage::new(GridConfig { cols: 4, rows: 6 });

    // Large 4x3 widget at row 1 (occupies rows 1-3, full width)
    let large_widget = WidgetId(1);
    page.add_widget(large_widget, GridRect { col: 0, row: 1, w: 4, h: 3 });

    // Small 1x1 widget at row 4
    let small_widget = WidgetId(2);
    page.add_widget(small_widget, GridRect { col: 0, row: 4, w: 1, h: 1 });

    // Move large widget from row 1 to row 2 (will occupy rows 2-4)
    let target = GridRect { col: 0, row: 2, w: 4, h: 3 };
    let drag_mutation = AndroidLayoutSolver::calculate_drag_preview(
        &[page.clone()],
        large_widget,
        Some(0),
        target,
    );

    // Apply the drag mutation to a new page state
    let mut updated_page = page.clone();
    for (widget_id, new_rect) in &drag_mutation.moves {
        if let Some(node) = updated_page.get_node_mut(*widget_id) {
            node.rect = *new_rect;
        }
    }

    // Verify the drag behavior
    // The large widget should be at row 2
    assert!(
        drag_mutation.moves.iter().any(|(id, rect)| *id == large_widget && rect.row == 2),
        "Large widget should move to row 2"
    );

    // The small widget should be pushed down to row 5
    assert!(
        drag_mutation.moves.iter().any(|(id, rect)| *id == small_widget && rect.row == 5),
        "Small widget should be pushed to row 5"
    );

    // Now run compaction to fill gaps
    let compaction_mutation = AndroidLayoutSolver::compaction_pass(&updated_page);

    // After compaction, both widgets should move up to fill gaps
    assert!(
        compaction_mutation.moves.iter().any(|(id, rect)| *id == large_widget && rect.row == 0),
        "Large widget should compact to row 0, got moves: {:?}",
        compaction_mutation.moves
    );

    assert!(
        compaction_mutation.moves.iter().any(|(id, rect)| *id == small_widget && rect.row == 3),
        "Small widget should compact to row 3 (after large widget), got moves: {:?}",
        compaction_mutation.moves
    );

    // Total layout height reduced from 6 (row 5 + 1) to 4 (row 3 + 1)
    assert_eq!(compaction_mutation.moves.len(), 2, "Both widgets should move during compaction");
}

#[test]
fn test_full_width_widget_finds_space_for_displaced_widgets() {
    // Create a 4x4 grid - no extra rows, widgets must find space within bounds
    let mut page = LayoutPage::new(GridConfig { cols: 4, rows: 4 });

    // Large 4x2 widget spanning rows 1-2 (the middle)
    let large_widget = WidgetId(1);
    page.add_widget(large_widget, GridRect { col: 0, row: 1, w: 4, h: 2 });

    // Two 1x1 widgets at the bottom row (row 3)
    let small_widget1 = WidgetId(2);
    page.add_widget(small_widget1, GridRect { col: 0, row: 3, w: 1, h: 1 });

    let small_widget2 = WidgetId(3);
    page.add_widget(small_widget2, GridRect { col: 1, row: 3, w: 1, h: 1 });

    // Move large widget down to span rows 2-3
    let target = GridRect { col: 0, row: 2, w: 4, h: 2 };
    let mutation =
        AndroidLayoutSolver::calculate_drag_preview(&[page.clone()], large_widget, Some(0), target);

    // The large widget should move to row 2
    assert!(
        mutation.moves.iter().any(|(id, rect)| *id == large_widget && rect.row == 2),
        "Large widget should move to row 2, got moves: {:?}",
        mutation.moves
    );

    // Small widgets can't be pushed to row 4 (out of bounds in 4x4 grid)
    // They should be placed in available space at rows 0-1
    assert!(
        mutation.moves.iter().any(|(id, rect)| *id == small_widget1 && rect.row <= 1),
        "Small widget 1 should be moved to available space in top rows, got moves: {:?}",
        mutation.moves
    );

    assert!(
        mutation.moves.iter().any(|(id, rect)| *id == small_widget2 && rect.row <= 1),
        "Small widget 2 should be moved to available space in top rows, got moves: {:?}",
        mutation.moves
    );

    // All three widgets should have moves recorded
    assert_eq!(mutation.moves.len(), 3, "All three widgets (1 large, 2 small) should move");

    // Verify no widgets went out of bounds
    for (widget_id, rect) in &mutation.moves {
        assert!(
            page.is_in_bounds(*rect),
            "Widget {:?} moved to out-of-bounds position: {:?}",
            widget_id,
            rect
        );
    }
}

#[test]
fn test_cross_page_drag_with_rearrangement() {
    // Create two pages with 4x4 grid
    let mut page1 = LayoutPage::new(GridConfig { cols: 4, rows: 4 });
    let mut page2 = LayoutPage::new(GridConfig { cols: 4, rows: 4 });

    // Page 1: Large widget that we'll drag to page 2
    let large_widget = WidgetId(1);
    page1.add_widget(large_widget, GridRect { col: 0, row: 0, w: 4, h: 2 });

    // Page 2: Several small widgets that occupy space but can be rearranged
    let widget_a = WidgetId(2);
    page2.add_widget(widget_a, GridRect { col: 0, row: 1, w: 2, h: 1 });

    let widget_b = WidgetId(3);
    page2.add_widget(widget_b, GridRect { col: 2, row: 1, w: 1, h: 1 });

    let widget_c = WidgetId(4);
    page2.add_widget(widget_c, GridRect { col: 0, row: 2, w: 2, h: 1 });

    let widget_d = WidgetId(5);
    page2.add_widget(widget_d, GridRect { col: 3, row: 2, w: 1, h: 1 });

    // Drag the large widget from page 1 to page 2 at position (0, 0)
    let target = GridRect { col: 0, row: 0, w: 4, h: 2 };
    let mutation = AndroidLayoutSolver::calculate_drag_preview(
        &[page1.clone(), page2.clone()],
        large_widget,
        Some(1), // Moving to page 2
        target,
    );

    // The large widget should move to (0, 0) on page 2
    assert!(
        mutation.moves.iter().any(|(id, rect)| *id == large_widget && rect.row == 0 && rect.col == 0),
        "Large widget should move to target position, got moves: {:?}",
        mutation.moves
    );

    // Widget A at (0, 1) would collide with large widget at rows 0-1
    assert!(
        mutation.moves.iter().any(|(id, _)| *id == widget_a),
        "Widget A should be moved to avoid collision, got moves: {:?}",
        mutation.moves
    );

    // Widget B at (2, 1) would collide with large widget
    assert!(
        mutation.moves.iter().any(|(id, _)| *id == widget_b),
        "Widget B should be moved to avoid collision, got moves: {:?}",
        mutation.moves
    );

    // Verify all widgets stay within bounds
    for (widget_id, rect) in &mutation.moves {
        assert!(
            page2.is_in_bounds(*rect),
            "Widget {:?} moved to out-of-bounds position: {:?}",
            widget_id,
            rect
        );
    }

    // Verify the page change is tracked
    assert_eq!(mutation.page_changes.len(), 1, "Should track page change for the dragged widget");
    assert_eq!(
        mutation.page_changes[0],
        (large_widget, 1),
        "Should move large widget to page 1 (index)"
    );

    // Build the final layout to verify no overlaps
    let mut final_positions = std::collections::HashMap::new();

    // Add widgets from page 2 with their updated positions
    for node in page2.nodes.values() {
        let final_rect = mutation
            .moves
            .iter()
            .find(|(id, _)| *id == node.widget_id)
            .map(|(_, rect)| *rect)
            .unwrap_or(node.rect);
        final_positions.insert(node.widget_id, final_rect);
    }

    // Add the large widget at its new position
    if let Some((_, rect)) = mutation.moves.iter().find(|(id, _)| *id == large_widget) {
        final_positions.insert(large_widget, *rect);
    }

    // Verify no overlaps in final layout
    let positions: Vec<_> = final_positions.iter().collect();
    for i in 0..positions.len() {
        for j in (i + 1)..positions.len() {
            let (id1, rect1) = positions[i];
            let (id2, rect2) = positions[j];
            assert!(
                !rect1.intersects(rect2),
                "Widgets {:?} and {:?} overlap: {:?} and {:?}",
                id1,
                id2,
                rect1,
                rect2
            );
        }
    }
}
