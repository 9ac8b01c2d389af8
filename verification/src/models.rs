use vstd::prelude::*;

use crate::config::GridConfig;
use crate::layout_manager::{GridRect, LayoutNode, LayoutPage, WidgetId};

verus! {

/// The node of widget `id` at `(col, row)`, `w` × `h` cells.
pub open spec fn node_at(id: u64, col: usize, row: usize, w: usize, h: usize) -> LayoutNode {
    LayoutNode { widget_id: WidgetId(id), rect: GridRect { col, row, w, h } }
}

/// Where the widgets of the first start-up page stand.
pub open spec fn first_page_nodes() -> Map<u64, LayoutNode> {
    map![
        1u64 => node_at(1, 0, 0, 1, 1),
        2u64 => node_at(2, 1, 0, 1, 1),
        3u64 => node_at(3, 2, 0, 2, 2),
        4u64 => node_at(4, 0, 1, 1, 1),
        5u64 => node_at(5, 1, 1, 1, 1),
    ]
}

/// Where the widgets of the second start-up page stand.
pub open spec fn second_page_nodes() -> Map<u64, LayoutNode> {
    map![
        6u64 => node_at(6, 0, 0, 2, 2),
        7u64 => node_at(7, 2, 0, 1, 1),
        8u64 => node_at(8, 3, 0, 1, 1),
        9u64 => node_at(9, 2, 1, 2, 1),
    ]
}

/// Where the widgets of the third start-up page stand.
pub open spec fn third_page_nodes() -> Map<u64, LayoutNode> {
    map![
        10u64 => node_at(10, 0, 0, 1, 1),
        11u64 => node_at(11, 1, 0, 2, 2),
        12u64 => node_at(12, 3, 0, 1, 2),
        13u64 => node_at(13, 0, 1, 1, 1),
    ]
}

/// The three pages of the home screen at start-up, each with the given grid,
/// holding the thirteen demo widgets.
pub fn default_pages(page_config: GridConfig) -> (pages: Vec<LayoutPage>)
    ensures
        pages@.len() == 3,
        forall|i: int| 0 <= i < 3 ==> (#[trigger] pages@[i]).config == page_config && pages@[i].wf(),
        pages@[0].nodes@ == first_page_nodes(),
        pages@[1].nodes@ == second_page_nodes(),
        pages@[2].nodes@ == third_page_nodes(),
{
    let mut page1 = LayoutPage::new(page_config);
    let mut page2 = LayoutPage::new(page_config);
    let mut page3 = LayoutPage::new(page_config);

    // Widgets of page 1
    page1.add_widget(WidgetId(1), GridRect { col: 0, row: 0, w: 1, h: 1 });
    page1.add_widget(WidgetId(2), GridRect { col: 1, row: 0, w: 1, h: 1 });
    page1.add_widget(WidgetId(3), GridRect { col: 2, row: 0, w: 2, h: 2 });
    page1.add_widget(WidgetId(4), GridRect { col: 0, row: 1, w: 1, h: 1 });
    page1.add_widget(WidgetId(5), GridRect { col: 1, row: 1, w: 1, h: 1 });

    // Widgets of page 2
    page2.add_widget(WidgetId(6), GridRect { col: 0, row: 0, w: 2, h: 2 });
    page2.add_widget(WidgetId(7), GridRect { col: 2, row: 0, w: 1, h: 1 });
    page2.add_widget(WidgetId(8), GridRect { col: 3, row: 0, w: 1, h: 1 });
    page2.add_widget(WidgetId(9), GridRect { col: 2, row: 1, w: 2, h: 1 });

    // Widgets of page 3
    page3.add_widget(WidgetId(10), GridRect { col: 0, row: 0, w: 1, h: 1 });
    page3.add_widget(WidgetId(11), GridRect { col: 1, row: 0, w: 2, h: 2 });
    page3.add_widget(WidgetId(12), GridRect { col: 3, row: 0, w: 1, h: 2 });
    page3.add_widget(WidgetId(13), GridRect { col: 0, row: 1, w: 1, h: 1 });

    proof {
        assert(page1.nodes@ =~= first_page_nodes());
        assert(page2.nodes@ =~= second_page_nodes());
        assert(page3.nodes@ =~= third_page_nodes());
    }
    let mut pages: Vec<LayoutPage> = Vec::new();
    pages.push(page1);
    pages.push(page2);
    pages.push(page3);
    pages
}

} // verus!
