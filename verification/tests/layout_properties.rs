use homescreen::config::GridConfig;
use homescreen::layout_manager::{GridRect, LayoutManager, LayoutMutation, LayoutPage, LayoutSolver, WidgetId};
use homescreen::models::default_pages;
use homescreen::navigation::{hold_step, page_after_swipe, HoldStep};
use homescreen::solver::AndroidLayoutSolver;

fn rect(col: usize, row: usize, w: usize, h: usize) -> GridRect {
    GridRect { col, row, w, h }
}

/// The page after a mutation's moves are applied to it.
fn apply_to_page(page: &LayoutPage, mutation: &LayoutMutation) -> LayoutPage {
    let mut updated = page.clone();
    for (id, r) in &mutation.moves {
        if let Some(node) = updated.get_node_mut(*id) {
            node.rect = *r;
        }
    }
    updated
}

fn assert_no_overlaps(page: &LayoutPage) {
    let nodes: Vec<_> = page.nodes.values().collect();
    for i in 0..nodes.len() {
        for j in (i + 1)..nodes.len() {
            assert!(
                !nodes[i].rect.intersects(&nodes[j].rect),
                "{:?} overlaps {:?}",
                nodes[i],
                nodes[j]
            );
        }
    }
}

fn assert_all_in_bounds(page: &LayoutPage) {
    for node in page.nodes.values() {
        assert!(page.is_in_bounds(node.rect), "{:?} out of bounds", node);
    }
}

#[test]
fn intersects_is_symmetric_and_reflexive() {
    let rects = [rect(0, 0, 2, 2), rect(1, 1, 2, 2), rect(2, 0, 1, 3), rect(3, 3, 1, 1), rect(0, 2, 4, 1)];
    for a in &rects {
        assert!(a.intersects(a));
        for b in &rects {
            assert_eq!(a.intersects(b), b.intersects(a));
        }
    }
}

#[test]
fn touching_rects_do_not_intersect() {
    // side by side
    assert!(!rect(0, 0, 2, 2).intersects(&rect(2, 0, 1, 1)));
    // one above the other
    assert!(!rect(0, 0, 2, 2).intersects(&rect(1, 2, 1, 1)));
    // sharing one cell
    assert!(rect(0, 0, 2, 2).intersects(&rect(1, 1, 1, 1)));
}

#[test]
fn intersects_with_huge_coordinates() {
    let far = rect(usize::MAX - 1, 0, usize::MAX, 1);
    assert!(far.intersects(&rect(usize::MAX - 1, 0, 1, 1)));
    assert!(!far.intersects(&rect(0, 0, 1, 1)));
}

#[test]
fn add_then_get_and_remove_then_get() {
    let mut page = LayoutPage::new(GridConfig { cols: 4, rows: 4 });
    page.add_widget(WidgetId(1), rect(0, 0, 1, 1));
    page.add_widget(WidgetId(2), rect(1, 0, 1, 1));
    // a second add replaces the first placement
    page.add_widget(WidgetId(1), rect(2, 2, 2, 2));
    assert_eq!(page.get_node(WidgetId(1)).unwrap().rect, rect(2, 2, 2, 2));
    assert_eq!(page.get_node(WidgetId(1)).unwrap().widget_id, WidgetId(1));
    assert_eq!(page.nodes.len(), 2);
    page.remove_widget(WidgetId(1));
    assert!(page.get_node(WidgetId(1)).is_none());
    assert_eq!(page.get_node(WidgetId(2)).unwrap().rect, rect(1, 0, 1, 1));
    // removing a widget the page does not hold changes nothing
    page.remove_widget(WidgetId(7));
    assert_eq!(page.nodes.len(), 1);
    assert!(page.is_well_formed());
}

#[test]
fn get_node_mut_changes_only_that_node() {
    let mut page = LayoutPage::new(GridConfig { cols: 4, rows: 4 });
    page.add_widget(WidgetId(1), rect(0, 0, 1, 1));
    page.add_widget(WidgetId(2), rect(1, 0, 1, 1));
    page.get_node_mut(WidgetId(1)).unwrap().rect = rect(3, 3, 1, 1);
    assert_eq!(page.get_node(WidgetId(1)).unwrap().rect, rect(3, 3, 1, 1));
    assert_eq!(page.get_node(WidgetId(2)).unwrap().rect, rect(1, 0, 1, 1));
    assert!(page.get_node_mut(WidgetId(9)).is_none());
}

#[test]
fn is_occupied_ignores_only_the_named_widget() {
    let mut page = LayoutPage::new(GridConfig { cols: 4, rows: 4 });
    page.add_widget(WidgetId(1), rect(0, 0, 2, 2));
    page.add_widget(WidgetId(2), rect(1, 1, 2, 2));
    let probe = rect(1, 1, 1, 1);
    let found = page.is_occupied_excluding(probe, Some(WidgetId(1)));
    assert_eq!(found, Some(WidgetId(2)));
    let any = page.is_occupied(probe);
    assert!(any == Some(WidgetId(1)) || any == Some(WidgetId(2)));
    assert_eq!(page.is_occupied(rect(3, 0, 1, 1)), None);
}

#[test]
fn is_in_bounds_with_empty_and_huge_rects() {
    let page = LayoutPage::new(GridConfig { cols: 4, rows: 4 });
    assert!(page.is_in_bounds(rect(4, 4, 0, 0)));
    assert!(!page.is_in_bounds(rect(1, 0, usize::MAX, 1)));
}

#[test]
fn drag_to_missing_page_is_refused() {
    let mut page = LayoutPage::new(GridConfig { cols: 4, rows: 4 });
    page.add_widget(WidgetId(1), rect(0, 0, 1, 1));
    let m = AndroidLayoutSolver::calculate_drag_preview(&[page], WidgetId(1), Some(3), rect(1, 1, 1, 1));
    assert!(m.moves.is_empty());
    assert!(m.page_changes.is_empty());
}

#[test]
fn drag_without_target_page_works_on_the_widgets_page() {
    let mut page0 = LayoutPage::new(GridConfig { cols: 4, rows: 4 });
    let mut page1 = LayoutPage::new(GridConfig { cols: 2, rows: 2 });
    page0.add_widget(WidgetId(1), rect(0, 0, 1, 1));
    page1.add_widget(WidgetId(2), rect(0, 0, 1, 1));
    let pages = [page0, page1];
    // (3, 3) fits the first page (4x4), not the second (2x2)
    let m = AndroidLayoutSolver::calculate_drag_preview(&pages, WidgetId(1), None, rect(3, 3, 1, 1));
    assert_eq!(m.moves, vec![(WidgetId(1), rect(3, 3, 1, 1))]);
    assert!(m.page_changes.is_empty());
    // widget 2 is on the second page, where (3, 3) does not fit
    let m = AndroidLayoutSolver::calculate_drag_preview(&pages, WidgetId(2), None, rect(3, 3, 1, 1));
    assert!(m.moves.is_empty() && m.page_changes.is_empty());
    let m = AndroidLayoutSolver::calculate_drag_preview(&pages, WidgetId(2), None, rect(1, 1, 1, 1));
    assert_eq!(m.moves, vec![(WidgetId(2), rect(1, 1, 1, 1))]);
    // a widget no page holds is dropped on the first page
    let m = AndroidLayoutSolver::calculate_drag_preview(&pages, WidgetId(9), None, rect(3, 3, 1, 1));
    assert_eq!(m.moves, vec![(WidgetId(9), rect(3, 3, 1, 1))]);
}

#[test]
fn drag_is_refused_when_a_widget_finds_no_spot() {
    // A 2x2 grid fully taken by four widgets; dropping a new 2x2 widget leaves no room.
    let mut page = LayoutPage::new(GridConfig { cols: 2, rows: 2 });
    page.add_widget(WidgetId(1), rect(0, 0, 1, 1));
    page.add_widget(WidgetId(2), rect(1, 0, 1, 1));
    page.add_widget(WidgetId(3), rect(0, 1, 1, 1));
    page.add_widget(WidgetId(4), rect(1, 1, 1, 1));
    let m = AndroidLayoutSolver::calculate_drag_preview(&[page], WidgetId(9), Some(0), rect(0, 0, 2, 2));
    assert!(m.moves.is_empty());
    assert!(m.page_changes.is_empty());
}

#[test]
fn displaced_widget_goes_to_nearest_free_spot_when_it_cannot_be_pushed_down() {
    // 3x2 grid: widget 2 at the bottom left cannot move below the dropped widget.
    let mut page = LayoutPage::new(GridConfig { cols: 3, rows: 2 });
    page.add_widget(WidgetId(1), rect(2, 0, 1, 1));
    page.add_widget(WidgetId(2), rect(0, 1, 1, 1));
    let m = AndroidLayoutSolver::calculate_drag_preview(&[page], WidgetId(1), Some(0), rect(0, 1, 2, 1));
    assert_eq!(m.moves.len(), 2);
    // nearest free spot to (0,1): (0,0) at distance 1
    assert!(m.moves.contains(&(WidgetId(2), rect(0, 0, 1, 1))));
    assert!(m.moves.contains(&(WidgetId(1), rect(0, 1, 2, 1))));
}

#[test]
fn resize_never_records_a_page_change() {
    let mut page = LayoutPage::new(GridConfig { cols: 4, rows: 4 });
    page.add_widget(WidgetId(1), rect(0, 0, 1, 1));
    let m = AndroidLayoutSolver::calculate_resize_preview(&[page], WidgetId(1), Some(0), rect(0, 0, 2, 2));
    assert_eq!(m.moves, vec![(WidgetId(1), rect(0, 0, 2, 2))]);
    assert!(m.page_changes.is_empty());
}

#[test]
fn settled_layouts_are_in_bounds_and_without_overlaps() {
    let config = GridConfig { cols: 4, rows: 6 };
    let mut page = LayoutPage::new(config);
    page.add_widget(WidgetId(1), rect(0, 0, 2, 2));
    page.add_widget(WidgetId(2), rect(2, 0, 2, 1));
    page.add_widget(WidgetId(3), rect(2, 1, 1, 1));
    page.add_widget(WidgetId(4), rect(0, 2, 4, 1));
    page.add_widget(WidgetId(5), rect(1, 3, 2, 2));
    let ids = [1u64, 2, 3, 4, 5];
    for id in ids {
        let size = page.get_node(WidgetId(id)).unwrap().rect;
        for row in 0..6 {
            for col in 0..4 {
                let target = GridRect { col, row, w: size.w, h: size.h };
                let m = AndroidLayoutSolver::calculate_drag_preview(&[page.clone()], WidgetId(id), None, target);
                if m.moves.is_empty() {
                    continue;
                }
                assert!(m.moves.contains(&(WidgetId(id), target)));
                let updated = apply_to_page(&page, &m);
                assert_no_overlaps(&updated);
                assert_all_in_bounds(&updated);
                // each widget named once
                for i in 0..m.moves.len() {
                    for j in (i + 1)..m.moves.len() {
                        assert_ne!(m.moves[i].0, m.moves[j].0);
                    }
                }
            }
        }
    }
}

#[test]
fn compaction_only_lifts_and_keeps_layout_disjoint() {
    let config = GridConfig { cols: 4, rows: 8 };
    let mut page = LayoutPage::new(config);
    page.add_widget(WidgetId(1), rect(0, 2, 2, 1));
    page.add_widget(WidgetId(2), rect(2, 4, 2, 2));
    page.add_widget(WidgetId(3), rect(1, 5, 1, 1));
    page.add_widget(WidgetId(4), rect(0, 7, 4, 1));
    let m = AndroidLayoutSolver::compaction_pass(&page);
    assert!(m.page_changes.is_empty());
    for (id, r) in &m.moves {
        let old = page.get_node(*id).unwrap().rect;
        assert_eq!((r.col, r.w, r.h), (old.col, old.w, old.h));
        assert!(r.row < old.row);
    }
    let updated = apply_to_page(&page, &m);
    assert_no_overlaps(&updated);
    assert_all_in_bounds(&updated);
    // exact result: reading order 1, 2, 3, 4
    assert!(m.moves.contains(&(WidgetId(1), rect(0, 0, 2, 1))));
    assert!(m.moves.contains(&(WidgetId(2), rect(2, 0, 2, 2))));
    assert!(m.moves.contains(&(WidgetId(3), rect(1, 1, 1, 1))));
    assert!(m.moves.contains(&(WidgetId(4), rect(0, 2, 4, 1))));
    assert_eq!(m.moves.len(), 4);
    // compacting a compacted page moves nothing
    assert!(AndroidLayoutSolver::compaction_pass(&updated).moves.is_empty());
}

#[test]
fn default_pages_hold_the_demo_widgets() {
    let pages = default_pages(GridConfig { cols: 4, rows: 6 });
    assert_eq!(pages.len(), 3);
    assert_eq!(pages[0].nodes.len(), 5);
    assert_eq!(pages[1].nodes.len(), 4);
    assert_eq!(pages[2].nodes.len(), 4);
    assert_eq!(pages[0].get_node(WidgetId(3)).unwrap().rect, rect(2, 0, 2, 2));
    assert_eq!(pages[1].get_node(WidgetId(9)).unwrap().rect, rect(2, 1, 2, 1));
    assert_eq!(pages[2].get_node(WidgetId(12)).unwrap().rect, rect(3, 0, 1, 2));
    for page in &pages {
        assert_eq!(page.config, GridConfig { cols: 4, rows: 6 });
        assert!(page.is_well_formed());
        assert_no_overlaps(page);
    }
}

fn two_page_manager() -> LayoutManager<AndroidLayoutSolver> {
    let config = GridConfig { cols: 4, rows: 4 };
    let mut page0 = LayoutPage::new(config);
    let mut page1 = LayoutPage::new(config);
    page0.add_widget(WidgetId(1), rect(0, 0, 2, 2));
    page0.add_widget(WidgetId(2), rect(2, 0, 1, 1));
    page1.add_widget(WidgetId(3), rect(0, 0, 1, 1));
    LayoutManager::new(vec![page0, page1], 0, config)
}

#[test]
fn widget_lookups() {
    let mut manager = two_page_manager();
    assert_eq!(manager.get_widget_page(WidgetId(3)), Some(1));
    assert_eq!(manager.get_widget_page(WidgetId(9)), None);
    let (idx, node) = manager.get_widget(WidgetId(2)).unwrap();
    assert_eq!(idx, 0);
    assert_eq!(node.rect, rect(2, 0, 1, 1));
    assert!(manager.get_widget(WidgetId(9)).is_none());
    {
        let (idx, node) = manager.get_widget_mut(WidgetId(3)).unwrap();
        assert_eq!(idx, 1);
        node.rect = rect(3, 3, 1, 1);
    }
    assert_eq!(manager.pages[1].get_node(WidgetId(3)).unwrap().rect, rect(3, 3, 1, 1));
    assert!(manager.get_widget_mut(WidgetId(9)).is_none());
    assert!(manager.get_page(2).is_none());
    assert_eq!(manager.get_page(1).unwrap().nodes.len(), 1);
    manager.get_page_mut(1).unwrap().remove_widget(WidgetId(3));
    assert!(manager.pages[1].nodes.is_empty());
    assert!(manager.get_page_mut(5).is_none());
    manager.set_active_page(1);
    assert_eq!(manager.get_active_page_index(), 1);
    assert!(manager.get_active_page().nodes.is_empty());
    manager.get_active_page_mut().add_widget(WidgetId(4), rect(1, 1, 1, 1));
    assert_eq!(manager.get_pages()[1].nodes.len(), 1);
    manager.set_grid_config(GridConfig { cols: 5, rows: 5 });
    assert_eq!(*manager.get_grid_config(), GridConfig { cols: 5, rows: 5 });
    assert!(manager.is_well_formed());
}

#[test]
fn drag_hover_on_same_page_previews_without_page_change() {
    let mut manager = two_page_manager();
    let m = manager.on_drag_hover_cell(None, WidgetId(2), 0, 2);
    assert_eq!(m.moves, vec![(WidgetId(2), rect(0, 2, 1, 1))]);
    assert!(m.page_changes.is_empty());
    // nothing changed in the manager
    assert_eq!(manager.pages[0].get_node(WidgetId(2)).unwrap().rect, rect(2, 0, 1, 1));
}

#[test]
fn drag_hover_across_pages_records_the_page_change() {
    let mut manager = two_page_manager();
    // widget 1 (2x2, page 0) dragged onto page 1 over widget 3 keeps its size
    let m = manager.on_drag_hover_cell(Some(1), WidgetId(1), 0, 0);
    assert_eq!(m.page_changes, vec![(WidgetId(1), 1)]);
    assert!(m.moves.contains(&(WidgetId(1), rect(0, 0, 2, 2))));
    assert!(m.moves.contains(&(WidgetId(3), rect(0, 2, 1, 1))));
    assert_eq!(m.moves.len(), 2);
}

#[test]
fn drag_hover_on_a_later_page_works_on_that_page() {
    let mut manager = two_page_manager();
    // widget 3 stays on page 1; on page 0 the cell (1, 1) is under widget 1
    let m = manager.on_drag_hover_cell(Some(1), WidgetId(3), 1, 1);
    assert_eq!(m.moves, vec![(WidgetId(3), rect(1, 1, 1, 1))]);
    assert!(m.page_changes.is_empty());
}

#[test]
fn drag_hover_onto_missing_page_is_refused() {
    let mut manager = two_page_manager();
    let m = manager.on_drag_hover_cell(Some(2), WidgetId(1), 0, 0);
    assert!(m.moves.is_empty() && m.page_changes.is_empty());
}

#[test]
fn transfer_widget_leaves_pages_as_they_were() {
    let mut manager = two_page_manager();
    let m = manager.transfer_widget(WidgetId(2), 0, 1, rect(0, 0, 1, 1));
    assert_eq!(m.page_changes, vec![(WidgetId(2), 1)]);
    assert!(m.moves.contains(&(WidgetId(2), rect(0, 0, 1, 1))));
    assert!(m.moves.contains(&(WidgetId(3), rect(0, 1, 1, 1))));
    assert_eq!(manager.pages[0].get_node(WidgetId(2)).unwrap().rect, rect(2, 0, 1, 1));
    assert!(manager.pages[1].get_node(WidgetId(2)).is_none());
    assert_eq!(manager.pages[1].nodes.len(), 1);
    // refused transfers
    assert!(manager.transfer_widget(WidgetId(2), 0, 4, rect(0, 0, 1, 1)).moves.is_empty());
    assert!(manager.transfer_widget(WidgetId(3), 0, 1, rect(0, 0, 1, 1)).moves.is_empty());
    // a transfer within one page is a same-page preview
    let same = manager.transfer_widget(WidgetId(2), 0, 0, rect(3, 3, 1, 1));
    assert_eq!(same.moves, vec![(WidgetId(2), rect(3, 3, 1, 1))]);
    assert!(same.page_changes.is_empty());
}

#[test]
fn resize_hover_clamps_to_one_cell() {
    let manager = two_page_manager();
    let m = manager.on_resize_hover_cells(WidgetId(1), 0, 0);
    assert_eq!(m.moves, vec![(WidgetId(1), rect(0, 0, 1, 1))]);
    let grown = manager.on_resize_hover_cells(WidgetId(1), 3, 2);
    assert!(grown.moves.contains(&(WidgetId(1), rect(0, 0, 3, 2))));
    // widget 2 at (2,0) is pushed below the grown widget
    assert!(grown.moves.contains(&(WidgetId(2), rect(2, 2, 1, 1))));
    assert!(manager.on_resize_hover_cells(WidgetId(9), 2, 2).moves.is_empty());
}

#[test]
fn apply_mutation_ignores_unknown_widgets_and_bad_pages() {
    let mut manager = two_page_manager();
    let mutation = LayoutMutation {
        moves: vec![(WidgetId(9), rect(3, 3, 1, 1)), (WidgetId(2), rect(3, 3, 1, 1))],
        page_changes: vec![(WidgetId(9), 1), (WidgetId(2), 7), (WidgetId(1), 0)],
    };
    manager.apply_mutation(mutation);
    assert_eq!(manager.get_widget_page(WidgetId(2)), Some(0));
    assert_eq!(manager.get_widget_page(WidgetId(1)), Some(0));
    assert_eq!(manager.pages[0].get_node(WidgetId(2)).unwrap().rect, rect(3, 3, 1, 1));
    assert!(manager.get_widget(WidgetId(9)).is_none());
    // the last move of a widget wins
    let twice = LayoutMutation {
        moves: vec![(WidgetId(3), rect(1, 1, 1, 1)), (WidgetId(3), rect(2, 2, 1, 1))],
        page_changes: vec![],
    };
    manager.apply_mutation(twice);
    assert_eq!(manager.pages[1].get_node(WidgetId(3)).unwrap().rect, rect(2, 2, 1, 1));
}

#[test]
fn applying_a_drag_preview_keeps_the_page_disjoint() {
    let mut manager = two_page_manager();
    let m = manager.on_drag_hover_cell(None, WidgetId(2), 1, 1);
    manager.apply_mutation(m);
    assert_no_overlaps(&manager.pages[0]);
    assert_all_in_bounds(&manager.pages[0]);
    assert_eq!(manager.pages[0].get_node(WidgetId(2)).unwrap().rect, rect(1, 1, 1, 1));
    // widget 1 was pushed straight down below widget 2
    assert_eq!(manager.pages[0].get_node(WidgetId(1)).unwrap().rect, rect(0, 2, 2, 2));
}

#[test]
fn applying_a_refused_drag_changes_nothing() {
    let mut manager = two_page_manager();
    let before: Vec<Vec<(u64, GridRect)>> = manager
        .pages
        .iter()
        .map(|p| {
            let mut v: Vec<(u64, GridRect)> = p.nodes.iter().map(|(k, n)| (*k, n.rect)).collect();
            v.sort_by_key(|e| e.0);
            v
        })
        .collect();
    // Out of the grid: refused, so the answer is empty.
    let mutation = manager.on_drag_hover_cell(Some(0), WidgetId(1), 3, 3);
    assert!(mutation.moves.is_empty() && mutation.page_changes.is_empty());
    manager.apply_mutation(mutation);
    let after: Vec<Vec<(u64, GridRect)>> = manager
        .pages
        .iter()
        .map(|p| {
            let mut v: Vec<(u64, GridRect)> = p.nodes.iter().map(|(k, n)| (*k, n.rect)).collect();
            v.sort_by_key(|e| e.0);
            v
        })
        .collect();
    assert_eq!(before, after);
}

#[test]
fn swipe_switches_to_a_neighbouring_page_that_exists() {
    // Far enough towards the previous page.
    assert_eq!(page_after_swipe(1, 3, true, false), Some(0));
    assert_eq!(page_after_swipe(0, 3, true, false), None);
    // Far enough towards the next page.
    assert_eq!(page_after_swipe(1, 3, false, true), Some(2));
    assert_eq!(page_after_swipe(2, 3, false, true), None);
    // Not far enough either way.
    assert_eq!(page_after_swipe(1, 3, false, false), None);
    // Both ways: the previous page wins when it exists.
    assert_eq!(page_after_swipe(1, 3, true, true), Some(0));
    assert_eq!(page_after_swipe(0, 3, true, true), Some(1));
    // No pages: nothing to switch to.
    assert_eq!(page_after_swipe(0, 0, true, false), None);
}

#[test]
fn clones_hold_the_same_layout() {
    let manager = two_page_manager();
    let copy = manager.clone();
    assert_eq!(copy.active_page, manager.active_page);
    assert_eq!(copy.grid_config, manager.grid_config);
    assert_eq!(copy.pages.len(), manager.pages.len());
    for (a, b) in copy.pages.iter().zip(manager.pages.iter()) {
        assert_eq!(a.config, b.config);
        assert_eq!(a.nodes, b.nodes);
    }
    let mutation = LayoutMutation {
        moves: vec![(WidgetId(1), rect(1, 1, 1, 1)), (WidgetId(2), rect(0, 0, 1, 1))],
        page_changes: vec![(WidgetId(1), 1)],
    };
    let copy = mutation.clone();
    assert_eq!(copy.moves, mutation.moves);
    assert_eq!(copy.page_changes, mutation.page_changes);
}

#[test]
fn second_compaction_moves_nothing() {
    let config = GridConfig { cols: 4, rows: 10 };
    let mut page = LayoutPage::new(config);
    page.add_widget(WidgetId(1), rect(1, 1, 3, 1));
    page.add_widget(WidgetId(2), rect(0, 2, 1, 4));
    page.add_widget(WidgetId(3), rect(1, 3, 2, 2));
    page.add_widget(WidgetId(4), rect(3, 6, 1, 3));
    page.add_widget(WidgetId(5), rect(0, 8, 3, 1));
    let first = AndroidLayoutSolver::compaction_pass(&page);
    assert!(!first.moves.is_empty());
    let compacted = apply_to_page(&page, &first);
    assert_no_overlaps(&compacted);
    assert!(AndroidLayoutSolver::compaction_pass(&compacted).moves.is_empty());
}

#[test]
fn compaction_is_not_final_with_a_zero_height_widget() {
    // A widget with no height stands on a row line and can still block a
    // taller widget; once it rises, a second pass can lift the taller one.
    let config = GridConfig { cols: 4, rows: 6 };
    let mut page = LayoutPage::new(config);
    page.add_widget(WidgetId(1), rect(0, 0, 1, 1));
    page.add_widget(WidgetId(2), rect(0, 2, 2, 2));
    page.add_widget(WidgetId(3), rect(1, 2, 1, 0));
    let first = AndroidLayoutSolver::compaction_pass(&page);
    assert_eq!(first.moves, vec![(WidgetId(3), rect(1, 0, 1, 0))]);
    let compacted = apply_to_page(&page, &first);
    let second = AndroidLayoutSolver::compaction_pass(&compacted);
    assert_eq!(second.moves, vec![(WidgetId(2), rect(0, 1, 2, 2))]);
}

#[test]
fn held_press_picks_up_the_widget_or_becomes_a_swipe() {
    let mut page = LayoutPage::new(GridConfig { cols: 4, rows: 4 });
    page.add_widget(WidgetId(1), rect(0, 0, 1, 1));
    assert_eq!(hold_step(&page, WidgetId(1), true, false), HoldStep::DragWidget);
    assert_eq!(hold_step(&page, WidgetId(1), true, true), HoldStep::DragWidget);
    assert_eq!(hold_step(&page, WidgetId(2), true, false), HoldStep::KeepHolding);
    assert_eq!(hold_step(&page, WidgetId(1), false, true), HoldStep::DragPage);
    assert_eq!(hold_step(&page, WidgetId(2), false, true), HoldStep::DragPage);
    assert_eq!(hold_step(&page, WidgetId(1), false, false), HoldStep::KeepHolding);
}
