use std::collections::HashMap;

use vstd::prelude::*;

use crate::config::GridConfig;
use crate::layout_manager::{
    apply_moves, first_holder, holding_page, lemma_view_maps, view_maps, lemma_apply_moves_keeps_holders, lemma_apply_moves_keeps_unnamed,
    lemma_apply_moves_sets_rects, lemma_listed_len, lists_moves, map_entries, node_occupies, GridRect, LayoutMutation, LayoutNode,
    LayoutPage, LayoutSolver, PageView, WidgetId, page_views,
};

verus! {

broadcast use vstd::std_specs::hash::group_hash_axioms;

/// Android-like layout solver that handles collision detection and widget movement
#[derive(Debug, Clone, Copy)]
pub struct AndroidLayoutSolver;

// ---------------------------------------------------------------------------
// Distances and free spots
// ---------------------------------------------------------------------------

pub open spec fn abs_diff(a: int, b: int) -> int {
    if a > b {
        a - b
    } else {
        b - a
    }
}

/// Manhattan distance between the top-left cells of two rectangles.
pub open spec fn manhattan(a: GridRect, b: GridRect) -> int {
    abs_diff(a.col as int, b.col as int) + abs_diff(a.row as int, b.row as int)
}

/// `a` comes no later than `b` when the grid is read row by row, column by
/// column.
pub open spec fn row_major_le(a: GridRect, b: GridRect) -> bool {
    a.row < b.row || (a.row == b.row && a.col <= b.col)
}

/// `p` is a spot that the widget `owner`, of the size of `size`, may take:
/// its top-left cell is a cell of the grid, it fits in the grid, it meets no
/// other entry of `occupied`, and its distance from `orig` is below the
/// largest `usize`.
pub open spec fn is_free_spot(
    config: GridConfig,
    occupied: Map<u64, GridRect>,
    owner: u64,
    size: GridRect,
    orig: GridRect,
    p: GridRect,
) -> bool {
    &&& p.w == size.w && p.h == size.h
    &&& p.col < config.cols && p.row < config.rows
    &&& p.fits(config)
    &&& forall|o: u64| #[trigger]
        occupied.contains_key(o) && o != owner ==> !p.overlaps(occupied[o])
    &&& manhattan(p, orig) < usize::MAX
}

/// `p` is the free spot nearest to `orig`, the first in row-major order among
/// the nearest ones.
pub open spec fn is_closest_spot(
    config: GridConfig,
    occupied: Map<u64, GridRect>,
    owner: u64,
    size: GridRect,
    orig: GridRect,
    p: GridRect,
) -> bool {
    &&& is_free_spot(config, occupied, owner, size, orig, p)
    &&& forall|q: GridRect| #[trigger]
        is_free_spot(config, occupied, owner, size, orig, q) ==> manhattan(p, orig) < manhattan(
            q,
            orig,
        ) || (manhattan(p, orig) == manhattan(q, orig) && row_major_le(p, q))
}

/// The nearest free spot, if there is a free spot at all.
pub open spec fn closest_spot(
    config: GridConfig,
    occupied: Map<u64, GridRect>,
    owner: u64,
    size: GridRect,
    orig: GridRect,
) -> Option<GridRect> {
    if exists|p: GridRect| is_closest_spot(config, occupied, owner, size, orig, p) {
        Some(choose|p: GridRect| is_closest_spot(config, occupied, owner, size, orig, p))
    } else {
        None
    }
}

proof fn lemma_closest_spot_unique(
    config: GridConfig,
    occupied: Map<u64, GridRect>,
    owner: u64,
    size: GridRect,
    orig: GridRect,
    p: GridRect,
)
    requires
        is_closest_spot(config, occupied, owner, size, orig, p),
    ensures
        closest_spot(config, occupied, owner, size, orig) == Some(p),
{
    let c = choose|c: GridRect| is_closest_spot(config, occupied, owner, size, orig, c);
    assert(is_closest_spot(config, occupied, owner, size, orig, c));
    assert(is_free_spot(config, occupied, owner, size, orig, c));
    assert(is_free_spot(config, occupied, owner, size, orig, p));
    assert(c == p);
}


// ---------------------------------------------------------------------------
// Settling a layout after a widget is dropped
// ---------------------------------------------------------------------------

/// `rect` meets none of the placed rectangles.
pub open spec fn free_of(rect: GridRect, placed: Map<u64, GridRect>) -> bool {
    forall|f: u64| #[trigger] placed.contains_key(f) ==> !rect.overlaps(placed[f])
}

/// Widget `k` of the page has not been placed yet, and a placed rectangle
/// covers part of it.
pub open spec fn is_displaced(nodes: Map<u64, LayoutNode>, placed: Map<u64, GridRect>, k: u64) -> bool {
    &&& nodes.contains_key(k)
    &&& !placed.contains_key(k)
    &&& !free_of(nodes[k].rect, placed)
}

/// Reading order of widgets: by row, then by column, then by number.
pub open spec fn comes_before(a: GridRect, ka: u64, b: GridRect, kb: u64) -> bool {
    a.row < b.row || (a.row == b.row && (a.col < b.col || (a.col == b.col && ka < kb)))
}

/// `k` is the first displaced widget in reading order.
pub open spec fn is_next_displaced(nodes: Map<u64, LayoutNode>, placed: Map<u64, GridRect>, k: u64) -> bool {
    &&& is_displaced(nodes, placed, k)
    &&& forall|j: u64| #[trigger]
        is_displaced(nodes, placed, j) && j != k ==> comes_before(nodes[k].rect, k, nodes[j].rect, j)
}

/// Row `r` at or below `rect`'s own row takes `rect` inside the grid and clear
/// of the placed rectangles.
pub open spec fn is_push_row(config: GridConfig, placed: Map<u64, GridRect>, rect: GridRect, r: usize) -> bool {
    &&& rect.row <= r
    &&& rect.at_row(r).fits(config)
    &&& free_of(rect.at_row(r), placed)
}

/// `r` is the first row that `rect` can be pushed down to.
pub open spec fn is_first_push_row(
    config: GridConfig,
    placed: Map<u64, GridRect>,
    rect: GridRect,
    r: usize,
) -> bool {
    &&& is_push_row(config, placed, rect, r)
    &&& forall|q: usize| rect.row <= q < r ==> !#[trigger] is_push_row(config, placed, rect, q)
}

/// `rect` pushed straight down, as little as needed to clear the placed
/// rectangles, if it still fits in the grid.
pub open spec fn push_down(config: GridConfig, placed: Map<u64, GridRect>, rect: GridRect) -> Option<GridRect> {
    if exists|r: usize| is_first_push_row(config, placed, rect, r) {
        Some(rect.at_row(choose|r: usize| is_first_push_row(config, placed, rect, r)))
    } else {
        None
    }
}

/// Where every widget stands: its placed rectangle if it has one, else its
/// rectangle on the page.
pub open spec fn occupancy(nodes: Map<u64, LayoutNode>, placed: Map<u64, GridRect>) -> Map<u64, GridRect> {
    Map::new(
        |k: u64| nodes.contains_key(k) || placed.contains_key(k),
        |k: u64|
            if placed.contains_key(k) {
                placed[k]
            } else {
                nodes[k].rect
            },
    )
}

/// Where displaced widget `k` goes: pushed down if it can be, else to the
/// free spot nearest to where it stood.
pub open spec fn relocation(
    config: GridConfig,
    nodes: Map<u64, LayoutNode>,
    placed: Map<u64, GridRect>,
    k: u64,
) -> Option<GridRect> {
    match push_down(config, placed, nodes[k].rect) {
        Some(p) => Some(p),
        None => closest_spot(config, occupancy(nodes, placed), k, nodes[k].rect, nodes[k].rect),
    }
}

/// A displaced widget that cannot be pushed down goes to a free spot of its
/// own size nearest to where it stood: no free spot has a smaller number of
/// columns plus rows between its top-left cell and the widget's original one,
/// and among spots as near, none comes earlier row by row.
pub proof fn lemma_relocation_is_nearest(
    config: GridConfig,
    nodes: Map<u64, LayoutNode>,
    placed: Map<u64, GridRect>,
    k: u64,
    q: GridRect,
)
    requires
        push_down(config, placed, nodes[k].rect) is None,
        relocation(config, nodes, placed, k) is Some,
        is_free_spot(config, occupancy(nodes, placed), k, nodes[k].rect, nodes[k].rect, q),
    ensures
        ({
            let p = relocation(config, nodes, placed, k)->0;
            let o = nodes[k].rect;
            let dp = (if p.col >= o.col { p.col - o.col } else { o.col - p.col }) + (if p.row >= o.row {
                p.row - o.row
            } else {
                o.row - p.row
            });
            let dq = (if q.col >= o.col { q.col - o.col } else { o.col - q.col }) + (if q.row >= o.row {
                q.row - o.row
            } else {
                o.row - q.row
            });
            &&& p.w == o.w && p.h == o.h && p.fits(config)
            &&& forall|f: u64| #[trigger]
                placed.contains_key(f) && f != k ==> !p.overlaps(placed[f])
            &&& dp <= dq
            &&& dp == dq ==> p.row < q.row || (p.row == q.row && p.col <= q.col)
        }),
{
    let occ = occupancy(nodes, placed);
    let o = nodes[k].rect;
    let c = choose|c: GridRect| is_closest_spot(config, occ, k, o, o, c);
    assert(is_closest_spot(config, occ, k, o, o, c));
    assert forall|f: u64| #[trigger] placed.contains_key(f) && f != k implies !c.overlaps(placed[f]) by {
        assert(occ.contains_key(f));
        assert(occ[f] == placed[f]);
    }
}

/// Placing one more widget of the page leaves fewer widgets unplaced.
pub proof fn lemma_unplaced_shrinks(nodes: Set<u64>, placed: Set<u64>, k: u64)
    requires
        nodes.finite(),
        nodes.contains(k),
        !placed.contains(k),
    ensures
        nodes.difference(placed.insert(k)).len() < nodes.difference(placed).len(),
{
    assert(nodes.difference(placed.insert(k)) =~= nodes.difference(placed).remove(k));
}

/// Relocates displaced widgets one at a time, the first in reading order
/// first, until none is displaced. `None` when one of them finds no spot.
pub open spec fn settle(
    config: GridConfig,
    nodes: Map<u64, LayoutNode>,
    placed: Map<u64, GridRect>,
) -> Option<Map<u64, GridRect>>
    decreases nodes.dom().difference(placed.dom()).len(),
    when nodes.dom().finite()
{
    if exists|k: u64| is_next_displaced(nodes, placed, k) {
        let k = choose|k: u64| is_next_displaced(nodes, placed, k);
        match relocation(config, nodes, placed, k) {
            Some(p) => {
                proof {
                    lemma_unplaced_shrinks(nodes.dom(), placed.dom(), k);
                }
                settle(config, nodes, placed.insert(k, p))
            },
            None => None,
        }
    } else {
        Some(placed)
    }
}

/// The rectangles that dropping `moving` at `target` leads to on a page: the
/// dropped widget at `target`, and each widget that had to make room at its
/// new place. `None` when some widget finds no place.
pub open spec fn settled_layout(page: PageView, moving: WidgetId, target: GridRect) -> Option<
    Map<u64, GridRect>,
> {
    settle(page.config, page.nodes, map![moving.0 => target])
}


// ---------------------------------------------------------------------------
// Compaction
// ---------------------------------------------------------------------------

/// Where widget `k` stands: its moved rectangle if it has one, else its
/// rectangle on the page.
pub open spec fn standing_rect(nodes: Map<u64, LayoutNode>, moves: Map<u64, GridRect>, k: u64) -> GridRect {
    if moves.contains_key(k) {
        moves[k]
    } else {
        nodes[k].rect
    }
}

/// `rect`, moved to row `r`, meets no other widget of the page where that
/// widget now stands.
pub open spec fn row_is_clear(
    nodes: Map<u64, LayoutNode>,
    moves: Map<u64, GridRect>,
    k: u64,
    rect: GridRect,
    r: usize,
) -> bool {
    forall|o: u64| #[trigger]
        nodes.contains_key(o) && o != k ==> !rect.at_row(r).overlaps(standing_rect(nodes, moves, o))
}

/// `r` is the topmost clear row above `rect`.
pub open spec fn is_top_clear_row(
    nodes: Map<u64, LayoutNode>,
    moves: Map<u64, GridRect>,
    k: u64,
    rect: GridRect,
    r: usize,
) -> bool {
    &&& r < rect.row
    &&& row_is_clear(nodes, moves, k, rect, r)
    &&& forall|q: usize| q < r ==> !#[trigger] row_is_clear(nodes, moves, k, rect, q)
}

/// Widget `k` moved up to the topmost clear row above it, if there is one.
pub open spec fn lift(nodes: Map<u64, LayoutNode>, moves: Map<u64, GridRect>, k: u64) -> Map<
    u64,
    GridRect,
> {
    let cur = standing_rect(nodes, moves, k);
    if exists|r: usize| is_top_clear_row(nodes, moves, k, cur, r) {
        moves.insert(k, cur.at_row(choose|r: usize| is_top_clear_row(nodes, moves, k, cur, r)))
    } else {
        moves
    }
}

/// The widgets lifted one after the other, in the order given.
pub open spec fn lift_all(nodes: Map<u64, LayoutNode>, moves: Map<u64, GridRect>, order: Seq<u64>) -> Map<
    u64,
    GridRect,
>
    decreases order.len(),
{
    if order.len() == 0 {
        moves
    } else {
        lift(nodes, lift_all(nodes, moves, order.drop_last()), order.last())
    }
}

/// `order` lists every widget of the page once, in reading order of their
/// rectangles on the page.
pub open spec fn is_reading_order(nodes: Map<u64, LayoutNode>, order: Seq<u64>) -> bool {
    &&& forall|i: int| 0 <= i < order.len() ==> nodes.contains_key(#[trigger] order[i])
    &&& forall|k: u64| #[trigger] nodes.contains_key(k) ==> order.contains(k)
    &&& forall|i: int, j: int|
        0 <= i < j < order.len() ==> comes_before(
            nodes[order[i]].rect,
            order[i],
            nodes[order[j]].rect,
            order[j],
        )
}

/// The widgets of the page in reading order.
pub open spec fn reading_order(nodes: Map<u64, LayoutNode>) -> Seq<u64> {
    choose|order: Seq<u64>| is_reading_order(nodes, order)
}

/// Two lists of the widgets in reading order are the same list.
pub proof fn lemma_reading_order_unique(nodes: Map<u64, LayoutNode>, a: Seq<u64>, b: Seq<u64>)
    requires
        is_reading_order(nodes, a),
        is_reading_order(nodes, b),
    ensures
        a == b,
    decreases a.len(),
{
    if a.len() == 0 {
        if b.len() > 0 {
            assert(nodes.contains_key(b[0]));
            assert(a.contains(b[0]));
        }
        assert(a =~= b);
    } else {
        assert(nodes.contains_key(a[0]));
        assert(b.contains(a[0]));
        assert(b.len() > 0);
        assert(nodes.contains_key(b[0]));
        assert(a.contains(b[0]));
        if a[0] != b[0] {
            let i = choose|i: int| 0 <= i < a.len() && a[i] == b[0];
            let j = choose|j: int| 0 <= j < b.len() && b[j] == a[0];
            assert(comes_before(nodes[a[0]].rect, a[0], nodes[a[i]].rect, a[i]));
            assert(comes_before(nodes[b[0]].rect, b[0], nodes[b[j]].rect, b[j]));
        }
        let rest = nodes.remove(a[0]);
        let a2 = a.drop_first();
        let b2 = b.drop_first();
        assert forall|i: int| 0 <= i < a2.len() implies rest.contains_key(#[trigger] a2[i]) by {
            assert(a2[i] == a[i + 1]);
            assert(comes_before(nodes[a[0]].rect, a[0], nodes[a[i + 1]].rect, a[i + 1]));
        }
        assert forall|i: int| 0 <= i < b2.len() implies rest.contains_key(#[trigger] b2[i]) by {
            assert(b2[i] == b[i + 1]);
            assert(comes_before(nodes[b[0]].rect, b[0], nodes[b[i + 1]].rect, b[i + 1]));
        }
        assert forall|k: u64| #[trigger] rest.contains_key(k) implies a2.contains(k) by {
            let i = choose|i: int| 0 <= i < a.len() && a[i] == k;
            assert(i != 0);
            assert(a2[i - 1] == k);
        }
        assert forall|k: u64| #[trigger] rest.contains_key(k) implies b2.contains(k) by {
            let i = choose|i: int| 0 <= i < b.len() && b[i] == k;
            assert(i != 0);
            assert(b2[i - 1] == k);
        }
        assert forall|i: int, j: int| 0 <= i < j < a2.len() implies comes_before(
            rest[a2[i]].rect,
            a2[i],
            rest[a2[j]].rect,
            a2[j],
        ) by {
            assert(comes_before(nodes[a[i + 1]].rect, a[i + 1], nodes[a[j + 1]].rect, a[j + 1]));
        }
        assert forall|i: int, j: int| 0 <= i < j < b2.len() implies comes_before(
            rest[b2[i]].rect,
            b2[i],
            rest[b2[j]].rect,
            b2[j],
        ) by {
            assert(comes_before(nodes[b[i + 1]].rect, b[i + 1], nodes[b[j + 1]].rect, b[j + 1]));
        }
        lemma_reading_order_unique(rest, a2, b2);
        assert(a[0] == b[0]);
        assert forall|i: int| 0 <= i < a.len() implies a[i] == b[i] by {
            if i > 0 {
                assert(a[i] == a2[i - 1]);
                assert(b[i] == b2[i - 1]);
            }
        }
        assert(a =~= b);
    }
}

/// Every widget, in reading order, moved up as far as it goes without
/// meeting another widget where that one stands by then.
pub open spec fn compacted(nodes: Map<u64, LayoutNode>, moves: Map<u64, GridRect>) -> Map<u64, GridRect> {
    lift_all(nodes, moves, reading_order(nodes))
}

/// The entries of `moves` that change the rectangle of a widget of the page.
pub open spec fn changed_rects(nodes: Map<u64, LayoutNode>, moves: Map<u64, GridRect>) -> Map<u64, GridRect> {
    Map::new(
        |k: u64| moves.contains_key(k) && nodes.contains_key(k) && nodes[k].rect != moves[k],
        |k: u64| moves[k],
    )
}


// ---------------------------------------------------------------------------
// Laws of compaction
// ---------------------------------------------------------------------------

/// The widgets of a page can be listed in reading order.
pub proof fn lemma_reading_order_exists(nodes: Map<u64, LayoutNode>)
    requires
        nodes.dom().finite(),
    ensures
        is_reading_order(nodes, reading_order(nodes)),
    decreases nodes.dom().len(),
{
    if nodes.dom().len() == 0 {
        assert(is_reading_order(nodes, Seq::<u64>::empty())) by {
            assert forall|k: u64| #[trigger] nodes.contains_key(k) implies Seq::<u64>::empty().contains(k) by {
                assert(nodes.dom().contains(k));
                assert(nodes.dom() =~= Set::empty()) by {
                    if !(nodes.dom() =~= Set::empty()) {
                        assert(nodes.dom().len() != 0);
                    }
                }
            }
        }
    } else {
        lemma_first_in_reading_order(nodes, nodes.dom());
        let x = choose|x: u64|
            nodes.dom().contains(x) && forall|j: u64|
                nodes.dom().contains(j) && j != x ==> #[trigger] comes_before(
                    nodes[x].rect,
                    x,
                    nodes[j].rect,
                    j,
                );
        let rest = nodes.remove(x);
        assert(rest.dom() =~= nodes.dom().remove(x));
        lemma_reading_order_exists(rest);
        let tail = reading_order(rest);
        let order = seq![x] + tail;
        assert(is_reading_order(nodes, order)) by {
            assert forall|i: int| 0 <= i < order.len() implies nodes.contains_key(#[trigger] order[i]) by {
                if i > 0 {
                    assert(order[i] == tail[i - 1]);
                    assert(rest.contains_key(tail[i - 1]));
                }
            }
            assert forall|k: u64| #[trigger] nodes.contains_key(k) implies order.contains(k) by {
                if k == x {
                    assert(order[0] == x);
                } else {
                    assert(rest.contains_key(k));
                    let i = choose|i: int| 0 <= i < tail.len() && tail[i] == k;
                    assert(order[i + 1] == k);
                }
            }
            assert forall|i: int, j: int| 0 <= i < j < order.len() implies comes_before(
                nodes[order[i]].rect,
                order[i],
                nodes[order[j]].rect,
                order[j],
            ) by {
                assert(order[j] == tail[j - 1]);
                assert(rest.contains_key(tail[j - 1]));
                if i == 0 {
                    assert(order[0] == x);
                    assert(nodes.dom().contains(order[j]) && order[j] != x);
                } else {
                    assert(order[i] == tail[i - 1]);
                    assert(comes_before(
                        rest[tail[i - 1]].rect,
                        tail[i - 1],
                        rest[tail[j - 1]].rect,
                        tail[j - 1],
                    ));
                }
            }
        }
    }
}

/// What every step of compaction keeps: each moved widget is a widget of the
/// page, moved straight up from where it stood on the page; and no two
/// widgets overlap where they stand.
pub open spec fn compaction_ok(nodes: Map<u64, LayoutNode>, moves: Map<u64, GridRect>) -> bool {
    &&& forall|k: u64| #[trigger]
        moves.contains_key(k) ==> nodes.contains_key(k) && moves[k] == nodes[k].rect.at_row(moves[k].row)
            && moves[k].row <= nodes[k].rect.row
    &&& forall|a: u64, b: u64|
        nodes.contains_key(a) && nodes.contains_key(b) && a != b ==> !(#[trigger] standing_rect(
            nodes,
            moves,
            a,
        )).overlaps(#[trigger] standing_rect(nodes, moves, b))
}

proof fn lemma_lift_all_keeps_compaction_ok(
    nodes: Map<u64, LayoutNode>,
    moves: Map<u64, GridRect>,
    order: Seq<u64>,
)
    requires
        compaction_ok(nodes, moves),
        forall|i: int| 0 <= i < order.len() ==> nodes.contains_key(#[trigger] order[i]),
    ensures
        compaction_ok(nodes, lift_all(nodes, moves, order)),
    decreases order.len(),
{
    if order.len() > 0 {
        let prefix = order.drop_last();
        assert forall|i: int| 0 <= i < prefix.len() implies nodes.contains_key(#[trigger] prefix[i]) by {
            assert(prefix[i] == order[i]);
        }
        lemma_lift_all_keeps_compaction_ok(nodes, moves, prefix);
        let before = lift_all(nodes, moves, prefix);
        let k = order.last();
        assert(nodes.contains_key(k));
        let cur = standing_rect(nodes, before, k);
        if exists|r: usize| is_top_clear_row(nodes, before, k, cur, r) {
            let r = choose|r: usize| is_top_clear_row(nodes, before, k, cur, r);
            assert(is_top_clear_row(nodes, before, k, cur, r));
            let after = before.insert(k, cur.at_row(r));
            assert(lift(nodes, before, k) == after);
            assert forall|a: u64, b: u64|
                nodes.contains_key(a) && nodes.contains_key(b) && a != b implies !(
                #[trigger] standing_rect(nodes, after, a)).overlaps(
                #[trigger] standing_rect(nodes, after, b),
            ) by {
                if a == k {
                    assert(!cur.at_row(r).overlaps(standing_rect(nodes, before, b)));
                } else if b == k {
                    assert(!cur.at_row(r).overlaps(standing_rect(nodes, before, a)));
                } else {
                    assert(!standing_rect(nodes, before, a).overlaps(standing_rect(nodes, before, b)));
                }
            }
        }
    }
}

/// Compaction moves widgets straight up only, keeping column and size; and
/// when no two widgets of the page overlap, none overlap after compaction,
/// and a page whose widgets fit in its grid still has them all in the grid.
pub proof fn lemma_compaction_only_lifts(page: PageView)
    requires
        page.nodes.dom().finite(),
    ensures
        ({
            let m = compacted(page.nodes, Map::empty());
            let changed = changed_rects(page.nodes, m);
            &&& forall|k: u64| #[trigger]
                changed.contains_key(k) ==> page.nodes.contains_key(k) && changed[k]
                    == page.nodes[k].rect.at_row(changed[k].row) && changed[k].row
                    < page.nodes[k].rect.row
            &&& (forall|a: u64, b: u64|
                page.nodes.contains_key(a) && page.nodes.contains_key(b) && a != b
                    ==> !(#[trigger] page.nodes[a]).rect.overlaps((#[trigger] page.nodes[b]).rect))
                ==> forall|a: u64, b: u64|
                page.nodes.contains_key(a) && page.nodes.contains_key(b) && a != b ==> !(
                #[trigger] standing_rect(page.nodes, m, a)).overlaps(
                #[trigger] standing_rect(page.nodes, m, b),
            )
            &&& (forall|k: u64| #[trigger]
                page.nodes.contains_key(k) ==> page.nodes[k].rect.fits(page.config)) ==> forall|k: u64|
                #[trigger] page.nodes.contains_key(k) ==> standing_rect(page.nodes, m, k).fits(
                    page.config,
                )
        }),
{
    let nodes = page.nodes;
    lemma_reading_order_exists(nodes);
    let order = reading_order(nodes);
    let m = compacted(nodes, Map::empty());
    // Moves stay straight up, whatever the start.
    lemma_lift_all_moves_up(nodes, Map::empty(), order);
    if forall|a: u64, b: u64|
        nodes.contains_key(a) && nodes.contains_key(b) && a != b ==> !(#[trigger] nodes[a]).rect.overlaps(
            (#[trigger] nodes[b]).rect,
        ) {
        assert(compaction_ok(nodes, Map::empty())) by {
            assert forall|a: u64, b: u64|
                nodes.contains_key(a) && nodes.contains_key(b) && a != b implies !(
                #[trigger] standing_rect(nodes, Map::empty(), a)).overlaps(
                #[trigger] standing_rect(nodes, Map::empty(), b),
            ) by {
                assert(!nodes[a].rect.overlaps(nodes[b].rect));
            }
        }
        lemma_lift_all_keeps_compaction_ok(nodes, Map::empty(), order);
    }
    let changed = changed_rects(nodes, m);
    assert forall|k: u64| #[trigger] changed.contains_key(k) implies nodes.contains_key(k)
        && changed[k] == nodes[k].rect.at_row(changed[k].row) && changed[k].row < nodes[k].rect.row by {
        assert(m.contains_key(k));
        assert(m[k] != nodes[k].rect);
    }
    assert forall|k: u64| #[trigger] nodes.contains_key(k) && nodes[k].rect.fits(page.config) implies standing_rect(
        nodes,
        m,
        k,
    ).fits(page.config) by {
        if m.contains_key(k) {
            assert(m[k].row <= nodes[k].rect.row);
        }
    }
}

/// Every widget that lifting moves is a widget of the page, moved straight
/// up from where it stood on the page.
proof fn lemma_lift_all_moves_up(nodes: Map<u64, LayoutNode>, moves: Map<u64, GridRect>, order: Seq<u64>)
    requires
        forall|k: u64| #[trigger]
            moves.contains_key(k) ==> nodes.contains_key(k) && moves[k] == nodes[k].rect.at_row(
                moves[k].row,
            ) && moves[k].row <= nodes[k].rect.row,
        forall|i: int| 0 <= i < order.len() ==> nodes.contains_key(#[trigger] order[i]),
    ensures
        ({
            let m = lift_all(nodes, moves, order);
            forall|k: u64| #[trigger]
                m.contains_key(k) ==> nodes.contains_key(k) && m[k] == nodes[k].rect.at_row(m[k].row)
                    && m[k].row <= nodes[k].rect.row
        }),
    decreases order.len(),
{
    if order.len() > 0 {
        let prefix = order.drop_last();
        assert forall|i: int| 0 <= i < prefix.len() implies nodes.contains_key(#[trigger] prefix[i]) by {
            assert(prefix[i] == order[i]);
        }
        lemma_lift_all_moves_up(nodes, moves, prefix);
        let before = lift_all(nodes, moves, prefix);
        let k = order.last();
        assert(nodes.contains_key(k));
        let cur = standing_rect(nodes, before, k);
        if exists|r: usize| is_top_clear_row(nodes, before, k, cur, r) {
            let r = choose|r: usize| is_top_clear_row(nodes, before, k, cur, r);
            assert(is_top_clear_row(nodes, before, k, cur, r));
        }
    }
}

// ---------------------------------------------------------------------------
// The solver's answers
// ---------------------------------------------------------------------------

/// The page that a preview works on: the target page; without one, the
/// first page that holds the widget, or the first page when none does.
pub open spec fn preview_page_index(pages: Seq<PageView>, moving_id: WidgetId, target_page: Option<usize>) -> usize {
    match target_page {
        Some(i) => i,
        None => match first_holder(view_maps(pages), moving_id.0) {
            Some(i) => i as usize,
            None => 0,
        },
    }
}

/// The rectangles that a drag or a resize onto `target_pos` leads to, or
/// `None` when it is refused: the page does not exist, the rectangle does not
/// fit on it, or a displaced widget finds no spot.
pub open spec fn preview_layout(
    pages: Seq<PageView>,
    moving_id: WidgetId,
    target_page: Option<usize>,
    target_pos: GridRect,
) -> Option<Map<u64, GridRect>> {
    let idx = preview_page_index(pages, moving_id, target_page);
    if idx >= pages.len() || !target_pos.fits(pages[idx as int].config) {
        None
    } else {
        settled_layout(pages[idx as int], moving_id, target_pos)
    }
}

/// A drag: every settled rectangle, and the page change of the dragged
/// widget when a target page is named; nothing when the drag is refused.
pub open spec fn android_drag_preview(
    pages: Seq<PageView>,
    moving_id: WidgetId,
    target_page: Option<usize>,
    target_pos: GridRect,
    result: LayoutMutation,
) -> bool {
    match preview_layout(pages, moving_id, target_page, target_pos) {
        None => result.is_empty(),
        Some(m) => {
            &&& lists_moves(result.moves@, m)
            &&& result.page_changes@ == match target_page {
                Some(i) => seq![(moving_id, i)],
                None => Seq::<(WidgetId, usize)>::empty(),
            }
        },
    }
}

/// A resize: every settled rectangle; nothing when the resize is refused.
pub open spec fn android_resize_preview(
    pages: Seq<PageView>,
    resizing_id: WidgetId,
    target_page: Option<usize>,
    new_size: GridRect,
    result: LayoutMutation,
) -> bool {
    match preview_layout(pages, resizing_id, target_page, new_size) {
        None => result.is_empty(),
        Some(m) => {
            &&& lists_moves(result.moves@, m)
            &&& result.page_changes@.len() == 0
        },
    }
}

/// A compaction: the widgets that compaction moves, with their new
/// rectangles.
pub open spec fn android_compaction(page: PageView, result: LayoutMutation) -> bool {
    &&& lists_moves(result.moves@, changed_rects(page.nodes, compacted(page.nodes, Map::empty())))
    &&& result.page_changes@.len() == 0
}


// ---------------------------------------------------------------------------
// Compaction is final
// ---------------------------------------------------------------------------

/// No row above where widget `k` stands is clear for it: it cannot rise.
pub open spec fn cannot_rise(nodes: Map<u64, LayoutNode>, moves: Map<u64, GridRect>, k: u64) -> bool {
    forall|r: usize|
        r < standing_rect(nodes, moves, k).row ==> !#[trigger] row_is_clear(
            nodes,
            moves,
            k,
            standing_rect(nodes, moves, k),
            r,
        )
}

/// A clear row above a rectangle means there is a topmost one.
proof fn lemma_top_clear_row_exists(
    nodes: Map<u64, LayoutNode>,
    moves: Map<u64, GridRect>,
    k: u64,
    rect: GridRect,
    r: usize,
)
    requires
        r < rect.row,
        row_is_clear(nodes, moves, k, rect, r),
    ensures
        exists|q: usize| is_top_clear_row(nodes, moves, k, rect, q),
    decreases r,
{
    if exists|q: usize| q < r && row_is_clear(nodes, moves, k, rect, q) {
        let q = choose|q: usize| q < r && row_is_clear(nodes, moves, k, rect, q);
        lemma_top_clear_row_exists(nodes, moves, k, rect, q);
    } else {
        assert(is_top_clear_row(nodes, moves, k, rect, r));
    }
}

/// Lifting widgets in reading order leaves every lifted widget unable to
/// rise, when the widgets do not overlap and each is at least one row tall.
proof fn lemma_lift_all_cannot_rise(nodes: Map<u64, LayoutNode>, order: Seq<u64>)
    requires
        forall|i: int| 0 <= i < order.len() ==> nodes.contains_key(#[trigger] order[i]),
        forall|i: int, j: int|
            0 <= i < j < order.len() ==> comes_before(
                nodes[order[i]].rect,
                order[i],
                nodes[order[j]].rect,
                order[j],
            ),
        forall|k: u64| #[trigger] nodes.contains_key(k) ==> nodes[k].rect.h > 0,
        forall|a: u64, b: u64|
            nodes.contains_key(a) && nodes.contains_key(b) && a != b ==> !(#[trigger] nodes[a]).rect.overlaps(
                (#[trigger] nodes[b]).rect,
            ),
    ensures
        forall|k: u64| #[trigger] lift_all(nodes, Map::empty(), order).contains_key(k) ==> order.contains(k),
        forall|i: int|
            0 <= i < order.len() ==> cannot_rise(nodes, lift_all(nodes, Map::empty(), order), #[trigger] order[i]),
    decreases order.len(),
{
    if order.len() > 0 {
        let n = order.len() - 1;
        let prefix = order.drop_last();
        let w = order.last();
        assert forall|i: int| 0 <= i < prefix.len() implies nodes.contains_key(#[trigger] prefix[i]) by {
            assert(prefix[i] == order[i]);
        }
        assert forall|i: int, j: int| 0 <= i < j < prefix.len() implies comes_before(
            nodes[prefix[i]].rect,
            prefix[i],
            nodes[prefix[j]].rect,
            prefix[j],
        ) by {
            assert(prefix[i] == order[i]);
            assert(prefix[j] == order[j]);
        }
        lemma_lift_all_cannot_rise(nodes, prefix);
        lemma_lift_all_moves_up(nodes, Map::empty(), prefix);
        let before = lift_all(nodes, Map::empty(), prefix);
        let after = lift_all(nodes, Map::empty(), order);
        assert(after == lift(nodes, before, w));
        assert(!before.contains_key(w)) by {
            if before.contains_key(w) {
                let i = choose|i: int| 0 <= i < prefix.len() && prefix[i] == w;
                assert(prefix[i] == order[i]);
                assert(comes_before(nodes[order[i]].rect, order[i], nodes[order[n]].rect, order[n]));
            }
        }
        let cur = nodes[w].rect;
        assert(standing_rect(nodes, before, w) == cur);
        assert forall|o: u64| o != w implies #[trigger] standing_rect(nodes, after, o) == standing_rect(
            nodes,
            before,
            o,
        ) by {}
        assert forall|k: u64| #[trigger] after.contains_key(k) implies order.contains(k) by {
            if k == w {
                assert(order[n] == w);
            } else {
                assert(before.contains_key(k));
                let i = choose|i: int| 0 <= i < prefix.len() && prefix[i] == k;
                assert(order[i] == k);
            }
        }
        // The widget lifted last cannot rise.
        assert(cannot_rise(nodes, after, w)) by {
            let s = standing_rect(nodes, after, w);
            assert forall|r: usize| r < s.row implies !#[trigger] row_is_clear(nodes, after, w, s, r) by {
                assert(s.at_row(r) == cur.at_row(r));
                if row_is_clear(nodes, after, w, s, r) {
                    assert forall|o: u64| #[trigger]
                        nodes.contains_key(o) && o != w implies !cur.at_row(r).overlaps(
                        standing_rect(nodes, before, o),
                    ) by {
                        assert(standing_rect(nodes, after, o) == standing_rect(nodes, before, o));
                    }
                    assert(row_is_clear(nodes, before, w, cur, r));
                    if exists|q: usize| is_top_clear_row(nodes, before, w, cur, q) {
                        let q = choose|q: usize| is_top_clear_row(nodes, before, w, cur, q);
                        assert(is_top_clear_row(nodes, before, w, cur, q));
                        assert(s == cur.at_row(q));
                        assert(r < q);
                        assert(!row_is_clear(nodes, before, w, cur, r));
                    } else {
                        assert(r < cur.row);
                        lemma_top_clear_row_exists(nodes, before, w, cur, r);
                    }
                }
            }
        }
        // The widgets lifted earlier still cannot rise: the one lifted last
        // stood below them.
        assert forall|i: int| 0 <= i < order.len() implies cannot_rise(nodes, after, #[trigger] order[i]) by {
            let k = order[i];
            if i < n {
                assert(prefix[i] == k);
                assert(cannot_rise(nodes, before, k));
                assert(comes_before(nodes[order[i]].rect, order[i], nodes[order[n]].rect, order[n]));
                assert(k != w);
                let s = standing_rect(nodes, before, k);
                assert(standing_rect(nodes, after, k) == s);
                assert(s.col == nodes[k].rect.col && s.w == nodes[k].rect.w && s.h == nodes[k].rect.h
                    && s.row <= nodes[k].rect.row);
                assert forall|r: usize| r < s.row implies !#[trigger] row_is_clear(nodes, after, k, s, r) by {
                    assert(!row_is_clear(nodes, before, k, s, r));
                    let o = choose|o: u64|
                        nodes.contains_key(o) && o != k && s.at_row(r).overlaps(
                            standing_rect(nodes, before, o),
                        );
                    if o == w {
                        assert(!nodes[k].rect.overlaps(nodes[w].rect));
                        assert(nodes[w].rect.h > 0);
                        assert(false);
                    }
                    assert(standing_rect(nodes, after, o) == standing_rect(nodes, before, o));
                }
            }
        }
    }
}

/// Lifting changes nothing when no widget can rise.
proof fn lemma_lift_all_stays(nodes: Map<u64, LayoutNode>, order: Seq<u64>)
    requires
        forall|i: int| 0 <= i < order.len() ==> nodes.contains_key(#[trigger] order[i]),
        forall|k: u64| #[trigger] nodes.contains_key(k) ==> cannot_rise(nodes, Map::empty(), k),
    ensures
        lift_all(nodes, Map::empty(), order) == Map::<u64, GridRect>::empty(),
    decreases order.len(),
{
    if order.len() > 0 {
        let prefix = order.drop_last();
        assert forall|i: int| 0 <= i < prefix.len() implies nodes.contains_key(#[trigger] prefix[i]) by {
            assert(prefix[i] == order[i]);
        }
        lemma_lift_all_stays(nodes, prefix);
        let k = order.last();
        assert(nodes.contains_key(order[order.len() - 1]));
        let cur = standing_rect(nodes, Map::empty(), k);
        if exists|r: usize| is_top_clear_row(nodes, Map::empty(), k, cur, r) {
            let r = choose|r: usize| is_top_clear_row(nodes, Map::empty(), k, cur, r);
            assert(is_top_clear_row(nodes, Map::empty(), k, cur, r));
            assert(cannot_rise(nodes, Map::empty(), k));
            assert(!row_is_clear(nodes, Map::empty(), k, cur, r));
        }
    }
}

/// Compaction is final. The moves of a pass lift widgets straight up; after
/// them no widget of the page can rise any further; and on the page with
/// those moves applied, a second pass moves nothing. Said of pages whose
/// widgets do not overlap and are each at least one row tall: a widget with
/// no height lies on a row line, can block a taller widget in the first pass
/// and then rise out of its way, so a second pass may lift more.
pub proof fn lemma_compaction_is_final(
    page: PageView,
    first: LayoutMutation,
    compacted_page: PageView,
    second: LayoutMutation,
)
    requires
        page.nodes.dom().finite(),
        forall|k: u64| #[trigger] page.nodes.contains_key(k) ==> page.nodes[k].rect.h > 0,
        forall|a: u64, b: u64|
            page.nodes.contains_key(a) && page.nodes.contains_key(b) && a != b ==> !(
            #[trigger] page.nodes[a]).rect.overlaps((#[trigger] page.nodes[b]).rect),
        android_compaction(page, first),
        compacted_page.config == page.config,
        compacted_page.nodes.dom() == page.nodes.dom(),
        forall|i: int|
            0 <= i < first.moves@.len() ==> compacted_page.nodes[(#[trigger] first.moves@[i]).0.0]
                == (LayoutNode { widget_id: page.nodes[first.moves@[i].0.0].widget_id, rect: first.moves@[i].1 }),
        forall|k: u64| #[trigger]
            page.nodes.contains_key(k) && (forall|i: int|
                0 <= i < first.moves@.len() ==> (#[trigger] first.moves@[i]).0.0 != k)
                ==> compacted_page.nodes[k] == page.nodes[k],
        android_compaction(compacted_page, second),
    ensures
        forall|i: int|
            0 <= i < first.moves@.len() ==> {
                let k = (#[trigger] first.moves@[i]).0.0;
                let r = first.moves@[i].1;
                &&& page.nodes.contains_key(k)
                &&& r.col == page.nodes[k].rect.col && r.w == page.nodes[k].rect.w
                &&& r.h == page.nodes[k].rect.h && r.row < page.nodes[k].rect.row
            },
        first.page_changes@.len() == 0,
        forall|k: u64| #[trigger]
            compacted_page.nodes.contains_key(k) ==> cannot_rise(compacted_page.nodes, Map::empty(), k),
        second.moves@.len() == 0,
        second.page_changes@.len() == 0,
{
    let nodes = page.nodes;
    let nodes2 = compacted_page.nodes;
    lemma_reading_order_exists(nodes);
    let order = reading_order(nodes);
    let m = compacted(nodes, Map::empty());
    lemma_lift_all_cannot_rise(nodes, order);
    lemma_lift_all_moves_up(nodes, Map::empty(), order);
    let changed = changed_rects(nodes, m);

    // What the first pass's moves say.
    assert forall|i: int| 0 <= i < first.moves@.len() implies {
        let k = (#[trigger] first.moves@[i]).0.0;
        let r = first.moves@[i].1;
        &&& page.nodes.contains_key(k)
        &&& r.col == page.nodes[k].rect.col && r.w == page.nodes[k].rect.w
        &&& r.h == page.nodes[k].rect.h && r.row < page.nodes[k].rect.row
    } by {
        let k = first.moves@[i].0.0;
        assert(changed.contains_key(k));
        assert(m.contains_key(k));
    }

    // The compacted page holds every widget where the first pass left it.
    assert forall|k: u64| #[trigger] nodes2.contains_key(k) implies nodes2[k].rect == standing_rect(
        nodes,
        m,
        k,
    ) by {
        assert(nodes.dom().contains(k));
        if exists|i: int| 0 <= i < first.moves@.len() && first.moves@[i].0.0 == k {
            let i = choose|i: int| 0 <= i < first.moves@.len() && first.moves@[i].0.0 == k;
            assert(changed.contains_key(first.moves@[i].0.0));
        } else {
            assert(nodes2[k] == nodes[k]);
            if changed.contains_key(k) {
                let i = choose|i: int| 0 <= i < first.moves@.len() && first.moves@[i].0.0 == k;
            }
        }
    }

    // There, no widget can rise.
    assert forall|k: u64| #[trigger] nodes2.contains_key(k) implies cannot_rise(nodes2, Map::empty(), k) by {
        assert(nodes.dom().contains(k));
        assert(order.contains(k));
        let i = choose|i: int| 0 <= i < order.len() && order[i] == k;
        assert(cannot_rise(nodes, m, order[i]));
        let s = standing_rect(nodes, m, k);
        assert(standing_rect(nodes2, Map::empty(), k) == s);
        assert forall|r: usize| r < s.row implies !#[trigger] row_is_clear(nodes2, Map::empty(), k, s, r) by {
            assert(!row_is_clear(nodes, m, k, s, r));
            let o = choose|o: u64|
                nodes.contains_key(o) && o != k && s.at_row(r).overlaps(standing_rect(nodes, m, o));
            assert(nodes2.dom().contains(o));
            assert(nodes2[o].rect == standing_rect(nodes, m, o));
        }
    }

    // So a second pass moves nothing.
    lemma_reading_order_exists(nodes2);
    lemma_lift_all_stays(nodes2, reading_order(nodes2));
    assert(changed_rects(nodes2, compacted(nodes2, Map::empty())) =~= Map::<u64, GridRect>::empty());
    assert(Map::<u64, GridRect>::empty().dom() =~= Set::<u64>::empty());
}

// ---------------------------------------------------------------------------
// Laws of settling
// ---------------------------------------------------------------------------

/// Reading order is total on distinct widgets.
pub proof fn lemma_comes_before_total(a: GridRect, ka: u64, b: GridRect, kb: u64)
    requires
        ka != kb,
    ensures
        comes_before(a, ka, b, kb) || comes_before(b, kb, a, ka),
        !(comes_before(a, ka, b, kb) && comes_before(b, kb, a, ka)),
{
}

/// A finite, non-empty set of widgets has a first one in reading order.
pub proof fn lemma_first_in_reading_order(nodes: Map<u64, LayoutNode>, keys: Set<u64>)
    requires
        keys.finite(),
        keys.len() > 0,
    ensures
        exists|k: u64|
            keys.contains(k) && forall|j: u64|
                keys.contains(j) && j != k ==> #[trigger] comes_before(
                    nodes[k].rect,
                    k,
                    nodes[j].rect,
                    j,
                ),
    decreases keys.len(),
{
    let x = keys.choose();
    assert(keys.contains(x));
    let rest = keys.remove(x);
    if rest.len() == 0 {
        assert forall|j: u64| keys.contains(j) && j != x implies #[trigger] comes_before(
            nodes[x].rect,
            x,
            nodes[j].rect,
            j,
        ) by {
            assert(rest.contains(j));
        }
    } else {
        lemma_first_in_reading_order(nodes, rest);
        let y = choose|y: u64|
            rest.contains(y) && forall|j: u64|
                rest.contains(j) && j != y ==> #[trigger] comes_before(
                    nodes[y].rect,
                    y,
                    nodes[j].rect,
                    j,
                );
        lemma_comes_before_total(nodes[x].rect, x, nodes[y].rect, y);
        if comes_before(nodes[x].rect, x, nodes[y].rect, y) {
            assert forall|j: u64| keys.contains(j) && j != x implies #[trigger] comes_before(
                nodes[x].rect,
                x,
                nodes[j].rect,
                j,
            ) by {
                if j != y {
                    assert(rest.contains(j));
                    assert(comes_before(nodes[y].rect, y, nodes[j].rect, j));
                }
            }
        } else {
            assert forall|j: u64| keys.contains(j) && j != y implies #[trigger] comes_before(
                nodes[y].rect,
                y,
                nodes[j].rect,
                j,
            ) by {
                if j != x {
                    assert(rest.contains(j));
                }
            }
        }
    }
}

/// When some widget is displaced, one of them comes first in reading order.
pub proof fn lemma_next_displaced_exists(
    nodes: Map<u64, LayoutNode>,
    placed: Map<u64, GridRect>,
    k: u64,
)
    requires
        nodes.dom().finite(),
        is_displaced(nodes, placed, k),
    ensures
        exists|c: u64| is_next_displaced(nodes, placed, c),
{
    let displaced = Set::new(|j: u64| is_displaced(nodes, placed, j));
    assert(displaced.subset_of(nodes.dom()));
    vstd::set_lib::lemma_set_subset_finite(nodes.dom(), displaced);
    assert(displaced.contains(k));
    assert(displaced.len() > 0) by {
        if displaced.len() == 0 {
            assert(displaced =~= Set::empty());
        }
    }
    lemma_first_in_reading_order(nodes, displaced);
    let c = choose|c: u64|
        displaced.contains(c) && forall|j: u64|
            displaced.contains(j) && j != c ==> #[trigger] comes_before(
                nodes[c].rect,
                c,
                nodes[j].rect,
                j,
            );
    assert(is_next_displaced(nodes, placed, c)) by {
        assert forall|j: u64| #[trigger] is_displaced(nodes, placed, j) && j != c implies comes_before(
            nodes[c].rect,
            c,
            nodes[j].rect,
            j,
        ) by {
            assert(displaced.contains(j));
        }
    }
}

/// What every placement on the way to a settled layout keeps: the dropped
/// widget at its target; every other placed widget of the page, in the grid,
/// with its own size; no two placed rectangles overlapping.
pub open spec fn placement_ok(
    config: GridConfig,
    nodes: Map<u64, LayoutNode>,
    placed: Map<u64, GridRect>,
    moving: u64,
    target: GridRect,
) -> bool {
    &&& placed.contains_key(moving) && placed[moving] == target
    &&& forall|k: u64| #[trigger]
        placed.contains_key(k) && k != moving ==> nodes.contains_key(k) && placed[k].fits(config)
            && placed[k].w == nodes[k].rect.w && placed[k].h == nodes[k].rect.h
    &&& forall|a: u64, b: u64|
        placed.contains_key(a) && placed.contains_key(b) && a != b ==> !(#[trigger] placed[a]).overlaps(
            #[trigger] placed[b],
        )
}

proof fn lemma_settle_keeps_placement_ok(
    config: GridConfig,
    nodes: Map<u64, LayoutNode>,
    placed: Map<u64, GridRect>,
    moving: u64,
    target: GridRect,
)
    requires
        nodes.dom().finite(),
        placement_ok(config, nodes, placed, moving, target),
        settle(config, nodes, placed) is Some,
    ensures
        placement_ok(config, nodes, settle(config, nodes, placed)->0, moving, target),
        forall|u: u64| #[trigger]
            nodes.contains_key(u) && !settle(config, nodes, placed)->0.contains_key(u) ==> free_of(
                nodes[u].rect,
                settle(config, nodes, placed)->0,
            ),
    decreases nodes.dom().difference(placed.dom()).len(),
{
    if exists|k: u64| is_next_displaced(nodes, placed, k) {
        let k = choose|k: u64| is_next_displaced(nodes, placed, k);
        let p = relocation(config, nodes, placed, k)->0;
        let next = placed.insert(k, p);
        lemma_unplaced_shrinks(nodes.dom(), placed.dom(), k);
        let orig = nodes[k].rect;
        assert(fits_clear_of_placed(config, placed, orig, p)) by {
            match push_down(config, placed, orig) {
                Some(q) => {
                    let r = choose|r: usize| is_first_push_row(config, placed, orig, r);
                    assert(is_first_push_row(config, placed, orig, r));
                },
                None => {
                    let occ = occupancy(nodes, placed);
                    let c = choose|c: GridRect| is_closest_spot(config, occ, k, orig, orig, c);
                    assert(is_closest_spot(config, occ, k, orig, orig, c));
                    assert forall|f: u64| #[trigger] placed.contains_key(f) implies !p.overlaps(
                        placed[f],
                    ) by {
                        assert(occ.contains_key(f));
                        assert(f != k);
                    }
                },
            }
        }
        assert(placement_ok(config, nodes, next, moving, target)) by {
            assert forall|a: u64, b: u64|
                next.contains_key(a) && next.contains_key(b) && a != b implies !(#[trigger] next[a]).overlaps(
                #[trigger] next[b],
            ) by {
                if a == k {
                    assert(!p.overlaps(placed[b]));
                } else if b == k {
                    assert(!p.overlaps(placed[a]));
                } else {
                    assert(!placed[a].overlaps(placed[b]));
                }
            }
        }
        lemma_settle_keeps_placement_ok(config, nodes, next, moving, target);
    } else {
        assert forall|u: u64| #[trigger]
            nodes.contains_key(u) && !placed.contains_key(u) implies free_of(nodes[u].rect, placed) by {
            if !free_of(nodes[u].rect, placed) {
                lemma_next_displaced_exists(nodes, placed, u);
            }
        }
    }
}

/// `p` takes `rect`'s size, fits in the grid and meets no placed rectangle.
pub open spec fn fits_clear_of_placed(
    config: GridConfig,
    placed: Map<u64, GridRect>,
    rect: GridRect,
    p: GridRect,
) -> bool {
    &&& p.fits(config)
    &&& p.w == rect.w && p.h == rect.h
    &&& free_of(p, placed)
}

/// A settled layout puts the dropped widget at its target; every other
/// widget it moves is a widget of the page, inside the grid, with its own
/// size; no two moved widgets overlap; and no moved widget overlaps a widget
/// that stays where it was.
pub proof fn lemma_settled_layout_is_sound(page: PageView, moving: WidgetId, target: GridRect)
    requires
        page.nodes.dom().finite(),
        settled_layout(page, moving, target) is Some,
    ensures
        ({
            let m = settled_layout(page, moving, target)->0;
            &&& m.contains_key(moving.0) && m[moving.0] == target
            &&& forall|k: u64| #[trigger]
                m.contains_key(k) && k != moving.0 ==> page.nodes.contains_key(k) && m[k].fits(
                    page.config,
                ) && m[k].w == page.nodes[k].rect.w && m[k].h == page.nodes[k].rect.h
            &&& forall|a: u64, b: u64|
                m.contains_key(a) && m.contains_key(b) && a != b ==> !(#[trigger] m[a]).overlaps(
                    #[trigger] m[b],
                )
            &&& forall|k: u64, u: u64|
                m.contains_key(k) && page.nodes.contains_key(u) && !m.contains_key(u)
                    ==> !(#[trigger] m[k]).overlaps(#[trigger] page.nodes[u].rect)
        }),
{
    let start = map![moving.0 => target];
    assert(placement_ok(page.config, page.nodes, start, moving.0, target));
    lemma_settle_keeps_placement_ok(page.config, page.nodes, start, moving.0, target);
    let m = settled_layout(page, moving, target)->0;
    assert forall|k: u64, u: u64|
        m.contains_key(k) && page.nodes.contains_key(u) && !m.contains_key(u) implies !(
        #[trigger] m[k]).overlaps(#[trigger] page.nodes[u].rect) by {
        assert(free_of(page.nodes[u].rect, m));
        assert(!page.nodes[u].rect.overlaps(m[k]));
    }
}

/// The layout after a drop has no overlapping widgets, when the page had
/// none apart from the dropped widget: every widget stands at its settled
/// rectangle if it has one, else where it stood.
pub proof fn lemma_settled_layout_has_no_overlaps(page: PageView, moving: WidgetId, target: GridRect)
    requires
        page.nodes.dom().finite(),
        settled_layout(page, moving, target) is Some,
        forall|a: u64, b: u64|
            page.nodes.contains_key(a) && page.nodes.contains_key(b) && a != b && a != moving.0 && b
                != moving.0 ==> !(#[trigger] page.nodes[a]).rect.overlaps(
                (#[trigger] page.nodes[b]).rect,
            ),
    ensures
        ({
            let layout = occupancy(page.nodes, settled_layout(page, moving, target)->0);
            forall|a: u64, b: u64|
                layout.contains_key(a) && layout.contains_key(b) && a != b ==> !(#[trigger] layout[a]).overlaps(
                    #[trigger] layout[b],
                )
        }),
{
    lemma_settled_layout_is_sound(page, moving, target);
    let m = settled_layout(page, moving, target)->0;
    let layout = occupancy(page.nodes, m);
    assert forall|a: u64, b: u64|
        layout.contains_key(a) && layout.contains_key(b) && a != b implies !(#[trigger] layout[a]).overlaps(
        #[trigger] layout[b],
    ) by {
        if m.contains_key(a) && m.contains_key(b) {
            assert(!m[a].overlaps(m[b]));
        } else if m.contains_key(a) {
            assert(!m[a].overlaps(page.nodes[b].rect));
        } else if m.contains_key(b) {
            assert(!m[b].overlaps(page.nodes[a].rect));
        } else {
            assert(a != moving.0 && b != moving.0);
            assert(!page.nodes[a].rect.overlaps(page.nodes[b].rect));
        }
    }
}

/// Every rectangle in the answer to an accepted drag or resize lies inside
/// the target page's grid, and the answer puts the dragged widget at its
/// target.
pub proof fn lemma_preview_stays_in_bounds(
    pages: Seq<PageView>,
    moving_id: WidgetId,
    target_page: Option<usize>,
    target_pos: GridRect,
)
    requires
        preview_layout(pages, moving_id, target_page, target_pos) is Some,
        forall|i: int| 0 <= i < pages.len() ==> (#[trigger] pages[i]).nodes.dom().finite(),
    ensures
        ({
            let page = pages[preview_page_index(pages, moving_id, target_page) as int];
            let m = preview_layout(pages, moving_id, target_page, target_pos)->0;
            &&& m.contains_key(moving_id.0) && m[moving_id.0] == target_pos
            &&& forall|k: u64| #[trigger] m.contains_key(k) ==> m[k].fits(page.config)
        }),
{
    let page = pages[preview_page_index(pages, moving_id, target_page) as int];
    lemma_settled_layout_is_sound(page, moving_id, target_pos);
}

/// Applying the answer to an accepted drop on a page leaves that page without
/// overlapping widgets, when the page had none apart from the dropped widget
/// and every widget that the answer moves is held first by that page.
pub proof fn lemma_applied_drop_has_no_overlaps(
    maps: Seq<Map<u64, LayoutNode>>,
    config: GridConfig,
    p: int,
    moving: WidgetId,
    target: GridRect,
    moves: Seq<(WidgetId, GridRect)>,
)
    requires
        0 <= p < maps.len(),
        maps[p].dom().finite(),
        settle(config, maps[p], map![moving.0 => target]) is Some,
        lists_moves(moves, settle(config, maps[p], map![moving.0 => target])->0),
        forall|k: u64| #[trigger]
            settle(config, maps[p], map![moving.0 => target])->0.contains_key(k) ==> first_holder(
                maps,
                k,
            ) == Some(p),
        forall|a: u64, b: u64|
            maps[p].contains_key(a) && maps[p].contains_key(b) && a != b && a != moving.0 && b
                != moving.0 ==> !(#[trigger] maps[p][a]).rect.overlaps((#[trigger] maps[p][b]).rect),
    ensures
        ({
            let after = apply_moves(maps, moves)[p];
            forall|a: u64, b: u64|
                after.contains_key(a) && after.contains_key(b) && a != b ==> !(
                #[trigger] after[a]).rect.overlaps((#[trigger] after[b]).rect)
        }),
{
    let page = PageView { config, nodes: maps[p] };
    let m = settle(config, maps[p], map![moving.0 => target])->0;
    assert(settled_layout(page, moving, target) == Some(m));
    lemma_settled_layout_has_no_overlaps(page, moving, target);
    lemma_apply_moves_sets_rects(maps, moves);
    lemma_apply_moves_keeps_holders(maps, moves);
    let after = apply_moves(maps, moves)[p];
    let layout = occupancy(maps[p], m);
    assert forall|k: u64| #[trigger] after.contains_key(k) implies layout.contains_key(k) && after[k].rect
        == layout[k] by {
        assert(after.dom() == maps[p].dom());
        if m.contains_key(k) {
            let j = choose|j: int| 0 <= j < moves.len() && moves[j].0.0 == k;
            assert(m[moves[j].0.0] == moves[j].1);
            assert(first_holder(maps, moves[j].0.0) == Some(p));
        } else {
            assert forall|j: int| 0 <= j < moves.len() implies (#[trigger] moves[j]).0.0 != k by {
                assert(m.contains_key(moves[j].0.0));
            }
            lemma_apply_moves_keeps_unnamed(maps, moves, p, k);
        }
    }
    assert forall|a: u64, b: u64|
        after.contains_key(a) && after.contains_key(b) && a != b implies !(#[trigger] after[a]).rect.overlaps(
        (#[trigger] after[b]).rect,
    ) by {
        assert(!layout[a].overlaps(layout[b]));
    }
}

impl AndroidLayoutSolver {
    /// Reading order of widgets: by row, then by column, then by number.
    fn comes_before_exec(a: GridRect, ka: u64, b: GridRect, kb: u64) -> (r: bool)
        ensures
            r == comes_before(a, ka, b, kb),
    {
        a.row < b.row || (a.row == b.row && (a.col < b.col || (a.col == b.col && ka < kb)))
    }

    /// The first widget in reading order among those listed in `pending` that
    /// have no place in `placed` yet.
    fn next_displaced(
        page: &LayoutPage,
        pending: &Vec<WidgetId>,
        placed: &HashMap<u64, GridRect>,
    ) -> (r: Option<WidgetId>)
        requires
            page.wf(),
            forall|j: int| 0 <= j < pending@.len() ==> page.nodes@.contains_key((#[trigger] pending@[j]).0),
        ensures
            r is None ==> forall|j: int|
                0 <= j < pending@.len() ==> placed@.contains_key((#[trigger] pending@[j]).0),
            r matches Some(c) ==> {
                &&& page.nodes@.contains_key(c.0)
                &&& !placed@.contains_key(c.0)
                &&& exists|j: int| 0 <= j < pending@.len() && pending@[j].0 == c.0
                &&& forall|j: int|
                    0 <= j < pending@.len() && !placed@.contains_key((#[trigger] pending@[j]).0)
                        && pending@[j].0 != c.0 ==> comes_before(
                        page.nodes@[c.0].rect,
                        c.0,
                        page.nodes@[pending@[j].0].rect,
                        pending@[j].0,
                    )
            },
    {
        let mut best: Option<WidgetId> = None;
        let mut best_rect = GridRect { col: 0, row: 0, w: 0, h: 0 };
        let mut i: usize = 0;
        while i < pending.len()
            invariant
                page.wf(),
                0 <= i <= pending@.len(),
                forall|j: int|
                    0 <= j < pending@.len() ==> page.nodes@.contains_key((#[trigger] pending@[j]).0),
                best is None ==> forall|j: int|
                    0 <= j < i ==> placed@.contains_key((#[trigger] pending@[j]).0),
                best matches Some(c) ==> {
                    &&& page.nodes@.contains_key(c.0)
                    &&& best_rect == page.nodes@[c.0].rect
                    &&& !placed@.contains_key(c.0)
                    &&& exists|j: int| 0 <= j < pending@.len() && pending@[j].0 == c.0
                    &&& forall|j: int|
                        0 <= j < i && !placed@.contains_key((#[trigger] pending@[j]).0)
                            && pending@[j].0 != c.0 ==> comes_before(
                            page.nodes@[c.0].rect,
                            c.0,
                            page.nodes@[pending@[j].0].rect,
                            pending@[j].0,
                        )
                },
            decreases pending@.len() - i,
        {
            let id = pending[i];
            if !placed.contains_key(&id.0) {
                let rect = match page.get_node(id) {
                    Some(node) => node.rect,
                    None => {
                        assert(false);
                        best_rect
                    },
                };
                match best {
                    None => {
                        best = Some(id);
                        best_rect = rect;
                    },
                    Some(c) => {
                        if id.0 != c.0 && Self::comes_before_exec(rect, id.0, best_rect, c.0) {
                            best = Some(id);
                            best_rect = rect;
                        }
                    },
                }
            }
            i += 1;
        }
        best
    }

    /// The first row at or below `rect`'s own row that takes it inside the
    /// page and clear of the placed rectangles.
    fn find_push_down_position(
        page: &LayoutPage,
        rect: GridRect,
        placed: &HashMap<u64, GridRect>,
    ) -> (r: Option<GridRect>)
        ensures
            r == push_down(page.config, placed@, rect),
    {
        let ghost config = page.config;
        let ghost pl = placed@;
        let others = map_entries(placed);
        let mut row = rect.row;
        while row as u128 + rect.h as u128 <= page.config.rows as u128
            invariant
                config == page.config,
                pl == placed@,
                rect.row <= row,
                forall|j: int|
                    0 <= j < others@.len() ==> pl.contains_key((#[trigger] others@[j]).0)
                        && pl[others@[j].0] == others@[j].1,
                forall|k: u64| #[trigger]
                    pl.contains_key(k) ==> exists|j: int| 0 <= j < others@.len() && others@[j].0 == k,
                forall|q: usize| rect.row <= q < row ==> !#[trigger] is_push_row(config, pl, rect, q),
            decreases config.rows + 1 - row,
        {
            let test_rect = GridRect { col: rect.col, row, w: rect.w, h: rect.h };
            if page.is_in_bounds(test_rect) {
                let has_collision = Self::collides_with_any(test_rect, &others, None);
                if !has_collision {
                    proof {
                        assert forall|f: u64| #[trigger]
                            pl.contains_key(f) implies !test_rect.overlaps(pl[f]) by {
                            let j = choose|j: int| 0 <= j < others@.len() && others@[j].0 == f;
                            assert(!(Some(others@[j].0) != None::<u64> && test_rect.overlaps(
                                others@[j].1,
                            )));
                        }
                        assert(test_rect == rect.at_row(row));
                        assert(is_first_push_row(config, pl, rect, row));
                        let c = choose|c: usize| is_first_push_row(config, pl, rect, c);
                        assert(is_first_push_row(config, pl, rect, c));
                        assert(c == row);
                    }
                    return Some(test_rect);
                } else {
                    proof {
                        let j = choose|j: int|
                            0 <= j < others@.len() && Some((#[trigger] others@[j]).0) != None::<
                                u64,
                            > && test_rect.overlaps(others@[j].1);
                        assert(pl.contains_key(others@[j].0));
                        assert(!free_of(rect.at_row(row), pl));
                    }
                }
            }
            assert(!is_push_row(config, pl, rect, row));
            if row == usize::MAX {
                proof {
                    assert forall|r: usize| !is_first_push_row(config, pl, rect, r) by {
                        if is_push_row(config, pl, rect, r) && r < row {
                            assert(!is_push_row(config, pl, rect, r));
                        }
                    }
                }
                return None;
            }
            row += 1;
        }
        proof {
            assert forall|r: usize| !is_first_push_row(config, pl, rect, r) by {
                if is_push_row(config, pl, rect, r) {
                    assert(r < row);
                }
            }
        }
        None
    }

    /// Where every widget stands: its placed rectangle if it has one, else its
    /// rectangle on the page.
    fn current_positions(page: &LayoutPage, placed: &HashMap<u64, GridRect>) -> (r: HashMap<
        u64,
        GridRect,
    >)
        ensures
            r@ == occupancy(page.nodes@, placed@),
    {
        let ghost nodes = page.nodes@;
        let ghost pl = placed@;
        let entries = map_entries(&page.nodes);
        let mut positions: HashMap<u64, GridRect> = HashMap::new();
        let mut i: usize = 0;
        while i < entries.len()
            invariant
                nodes == page.nodes@,
                pl == placed@,
                0 <= i <= entries@.len(),
                forall|j: int|
                    0 <= j < entries@.len() ==> nodes.contains_key((#[trigger] entries@[j]).0)
                        && nodes[entries@[j].0] == entries@[j].1,
                forall|k: u64| #[trigger]
                    positions@.contains_key(k) <==> exists|j: int| 0 <= j < i && entries@[j].0 == k,
                forall|k: u64| #[trigger]
                    positions@.contains_key(k) ==> positions@[k] == occupancy(nodes, pl)[k],
            decreases entries@.len() - i,
        {
            let (key, node) = entries[i];
            let rect = match placed.get(&key) {
                Some(p) => *p,
                None => node.rect,
            };
            positions.insert(key, rect);
            i += 1;
        }
        let others = map_entries(placed);
        let mut j: usize = 0;
        while j < others.len()
            invariant
                nodes == page.nodes@,
                pl == placed@,
                0 <= j <= others@.len(),
                forall|a: int|
                    0 <= a < entries@.len() ==> nodes.contains_key((#[trigger] entries@[a]).0),
                forall|k: u64| #[trigger]
                    nodes.contains_key(k) ==> exists|a: int| 0 <= a < entries@.len() && entries@[a].0 == k,
                forall|a: int|
                    0 <= a < others@.len() ==> pl.contains_key((#[trigger] others@[a]).0)
                        && pl[others@[a].0] == others@[a].1,
                forall|k: u64| #[trigger]
                    pl.contains_key(k) ==> exists|a: int| 0 <= a < others@.len() && others@[a].0 == k,
                forall|k: u64| #[trigger]
                    positions@.contains_key(k) <==> (exists|a: int|
                        0 <= a < entries@.len() && entries@[a].0 == k) || (exists|a: int|
                        0 <= a < j && others@[a].0 == k),
                forall|k: u64| #[trigger]
                    positions@.contains_key(k) ==> positions@[k] == occupancy(nodes, pl)[k],
            decreases others@.len() - j,
        {
            let (key, rect) = others[j];
            positions.insert(key, rect);
            j += 1;
        }
        proof {
            assert(positions@ =~= occupancy(nodes, pl)) by {
                assert forall|k: u64| positions@.contains_key(k) <==> occupancy(
                    nodes,
                    pl,
                ).contains_key(k) by {
                    if nodes.contains_key(k) {
                        let a = choose|a: int| 0 <= a < entries@.len() && entries@[a].0 == k;
                    }
                    if pl.contains_key(k) {
                        let a = choose|a: int| 0 <= a < others@.len() && others@[a].0 == k;
                    }
                }
            }
        }
        positions
    }

    /// Resolve collisions by removing overlapping widgets and finding new positions for them
    ///
    /// The moved widget takes `new_rect`. Every widget that it now covers is
    /// relocated, and so is every widget that a relocated one comes to cover,
    /// the first in reading order first: pushed straight down as little as
    /// needed when it still fits on the page, otherwise to the free spot
    /// nearest to where it stood. `None` when a widget finds no spot.
    fn resolve_collisions(page: &LayoutPage, widget_id: WidgetId, new_rect: GridRect) -> (r: Option<
        HashMap<u64, GridRect>,
    >)
        requires
            page.wf(),
        ensures
            match r {
                Some(m) => settled_layout(page@, widget_id, new_rect) == Some(m@),
                None => settled_layout(page@, widget_id, new_rect) is None,
            },
    {
        let ghost nodes = page.nodes@;
        let ghost config = page.config;
        let mut moves: HashMap<u64, GridRect> = HashMap::new();
        // Start with the moved widget in place
        moves.insert(widget_id.0, new_rect);
        assert(moves@ =~= map![widget_id.0 => new_rect]);

        // Widgets that a placed rectangle covers
        let mut pending = Self::find_collisions(page, new_rect, Some(widget_id));
        proof {
            assert forall|k: u64| #[trigger]
                is_displaced(nodes, moves@, k) <==> (!moves@.contains_key(k) && exists|j: int|
                    0 <= j < pending@.len() && pending@[j].0 == k) by {
                if is_displaced(nodes, moves@, k) {
                    assert(nodes[k].rect.overlaps(moves@[widget_id.0]));
                    assert(node_occupies(nodes[k], new_rect, Some(widget_id)));
                }
                if !moves@.contains_key(k) && exists|j: int|
                    0 <= j < pending@.len() && pending@[j].0 == k {
                    assert(nodes.contains_key(k));
                    assert(!free_of(nodes[k].rect, moves@)) by {
                        assert(moves@.contains_key(widget_id.0));
                    }
                }
            }
        }

        loop
            invariant
                page.wf(),
                nodes == page.nodes@,
                config == page.config,
                settle(config, nodes, moves@) == settled_layout(page@, widget_id, new_rect),
                forall|j: int| 0 <= j < pending@.len() ==> nodes.contains_key((#[trigger] pending@[j]).0),
                forall|k: u64| #[trigger]
                    is_displaced(nodes, moves@, k) <==> (!moves@.contains_key(k) && exists|j: int|
                        0 <= j < pending@.len() && pending@[j].0 == k),
            decreases nodes.dom().difference(moves@.dom()).len(),
        {
            let ghost before = moves@;
            match Self::next_displaced(page, &pending, &moves) {
                None => {
                    proof {
                        assert forall|k: u64| !is_next_displaced(nodes, moves@, k) by {
                            if is_displaced(nodes, moves@, k) {
                                let j = choose|j: int| 0 <= j < pending@.len() && pending@[j].0 == k;
                                assert(moves@.contains_key(pending@[j].0));
                            }
                        }
                    }
                    return Some(moves);
                },
                Some(c) => {
                    proof {
                        assert(is_displaced(nodes, moves@, c.0));
                        assert(is_next_displaced(nodes, moves@, c.0)) by {
                            assert forall|k: u64| #[trigger]
                                is_displaced(nodes, moves@, k) && k != c.0 implies comes_before(
                                nodes[c.0].rect,
                                c.0,
                                nodes[k].rect,
                                k,
                            ) by {
                                let j = choose|j: int| 0 <= j < pending@.len() && pending@[j].0 == k;
                                assert(!moves@.contains_key(pending@[j].0));
                            }
                        }
                        let ch = choose|k: u64| is_next_displaced(nodes, moves@, k);
                        assert(is_next_displaced(nodes, moves@, ch));
                        if ch != c.0 {
                            assert(comes_before(nodes[c.0].rect, c.0, nodes[ch].rect, ch));
                            assert(comes_before(nodes[ch].rect, ch, nodes[c.0].rect, c.0));
                        }
                    }
                    let original_rect = match page.get_node(c) {
                        Some(node) => node.rect,
                        None => {
                            assert(false);
                            new_rect
                        },
                    };
                    let new_position = match Self::find_push_down_position(page, original_rect, &moves) {
                        Some(p) => p,
                        None => {
                            // Find the closest available position
                            let occupied = Self::current_positions(page, &moves);
                            match Self::find_closest_available_position(
                                page,
                                original_rect,
                                original_rect,
                                &occupied,
                                c,
                            ) {
                                Some(p) => p,
                                None => {
                                    // Can't find a position for this widget, so the move is invalid
                                    return None;
                                },
                            }
                        },
                    };
                    assert(relocation(config, nodes, before, c.0) == Some(new_position));
                    assert(settle(config, nodes, before) == settle(
                        config,
                        nodes,
                        before.insert(c.0, new_position),
                    ));
                    proof {
                        lemma_unplaced_shrinks(nodes.dom(), before.dom(), c.0);
                    }
                    moves.insert(c.0, new_position);

                    // Widgets that the relocated one now covers
                    let more = Self::find_collisions(page, new_position, Some(c));
                    let ghost old_pending = pending@;
                    assert(forall|j: int|
                        0 <= j < old_pending.len() ==> nodes.contains_key(
                            (#[trigger] old_pending[j]).0,
                        ));
                    assert(forall|k: u64| #[trigger]
                        is_displaced(nodes, before, k) <==> (!before.contains_key(k) && exists|j: int|
                            0 <= j < old_pending.len() && old_pending[j].0 == k));
                    let mut m: usize = 0;
                    while m < more.len()
                        invariant
                            0 <= m <= more@.len(),
                            pending@.len() == old_pending.len() + m,
                            forall|j: int| 0 <= j < old_pending.len() ==> pending@[j] == old_pending[j],
                            forall|j: int|
                                0 <= j < m ==> pending@[old_pending.len() + j] == more@[j],
                        decreases more@.len() - m,
                    {
                        pending.push(more[m]);
                        m += 1;
                    }
                    proof {
                        assert forall|j: int|
                            0 <= j < pending@.len() implies nodes.contains_key((#[trigger] pending@[j]).0) by {
                            if j >= old_pending.len() {
                                assert(pending@[j] == more@[j - old_pending.len()]);
                            } else {
                                assert(pending@[j] == old_pending[j]);
                            }
                        }
                        assert forall|k: u64| #[trigger]
                            is_displaced(nodes, moves@, k) <==> (!moves@.contains_key(k)
                                && exists|j: int| 0 <= j < pending@.len() && pending@[j].0 == k) by {
                            if is_displaced(nodes, moves@, k) {
                                let f = choose|f: u64|
                                    moves@.contains_key(f) && nodes[k].rect.overlaps(moves@[f]);
                                if f == c.0 {
                                    assert(node_occupies(nodes[k], new_position, Some(c)));
                                    let j = choose|j: int| 0 <= j < more@.len() && more@[j].0 == k;
                                    assert(pending@[old_pending.len() + j] == more@[j]);
                                } else {
                                    assert(before.contains_key(f));
                                    assert(is_displaced(nodes, before, k));
                                    let j = choose|j: int|
                                        0 <= j < old_pending.len() && old_pending[j].0 == k;
                                    assert(pending@[j] == old_pending[j]);
                                }
                            }
                            if !moves@.contains_key(k) && exists|j: int|
                                0 <= j < pending@.len() && pending@[j].0 == k {
                                let j = choose|j: int| 0 <= j < pending@.len() && pending@[j].0 == k;
                                if j < old_pending.len() {
                                    assert(pending@[j] == old_pending[j]);
                                    assert(is_displaced(nodes, before, k));
                                    let f = choose|f: u64|
                                        before.contains_key(f) && nodes[k].rect.overlaps(before[f]);
                                    assert(moves@.contains_key(f) && moves@[f] == before[f]);
                                } else {
                                    let jj = j - old_pending.len();
                                    assert(pending@[j] == more@[jj]);
                                    assert(node_occupies(nodes[k], new_position, Some(c)));
                                    assert(moves@[c.0] == new_position);
                                    assert(moves@.contains_key(c.0));
                                }
                                assert(!free_of(nodes[k].rect, moves@));
                            }
                        }
                    }
                },
            }
        }
    }

    /// Inserts `(key, rect)` into a list kept in reading order.
    fn insert_in_reading_order(sorted: &mut Vec<(u64, GridRect)>, key: u64, rect: GridRect)
        requires
            forall|j: int| 0 <= j < old(sorted)@.len() ==> (#[trigger] old(sorted)@[j]).0 != key,
            forall|x: int, y: int|
                0 <= x < y < old(sorted)@.len() ==> comes_before(
                    old(sorted)@[x].1,
                    old(sorted)@[x].0,
                    old(sorted)@[y].1,
                    old(sorted)@[y].0,
                ),
        ensures
            forall|x: int, y: int|
                0 <= x < y < final(sorted)@.len() ==> comes_before(
                    final(sorted)@[x].1,
                    final(sorted)@[x].0,
                    final(sorted)@[y].1,
                    final(sorted)@[y].0,
                ),
            final(sorted)@.len() == old(sorted)@.len() + 1,
            forall|j: int|
                0 <= j < final(sorted)@.len() ==> (#[trigger] final(sorted)@[j]) == (key, rect)
                    || old(sorted)@.contains(final(sorted)@[j]),
            final(sorted)@.contains((key, rect)),
            forall|j: int|
                0 <= j < old(sorted)@.len() ==> final(sorted)@.contains(#[trigger] old(sorted)@[j]),
    {
        let ghost old_sorted = sorted@;
        let mut p: usize = 0;
        while p < sorted.len() && !Self::comes_before_exec(rect, key, sorted[p].1, sorted[p].0)
            invariant
                sorted@ == old_sorted,
                0 <= p <= sorted@.len(),
                forall|j: int| 0 <= j < sorted@.len() ==> (#[trigger] sorted@[j]).0 != key,
                forall|j: int|
                    0 <= j < p ==> comes_before((#[trigger] sorted@[j]).1, sorted@[j].0, rect, key),
            decreases sorted@.len() - p,
        {
            p += 1;
        }
        sorted.insert(p, (key, rect));
        proof {
            assert forall|j: int|
                0 <= j < sorted@.len() implies (#[trigger] sorted@[j]) == (if j < p {
                    old_sorted[j]
                } else if j == p {
                    (key, rect)
                } else {
                    old_sorted[j - 1]
                }) by {}
            assert forall|x: int, y: int| 0 <= x < y < sorted@.len() implies comes_before(
                sorted@[x].1,
                sorted@[x].0,
                sorted@[y].1,
                sorted@[y].0,
            ) by {
                if x == p {
                    assert(comes_before(rect, key, old_sorted[p as int].1, old_sorted[p as int].0));
                    if y - 1 > p {
                        assert(comes_before(
                            old_sorted[p as int].1,
                            old_sorted[p as int].0,
                            old_sorted[y - 1].1,
                            old_sorted[y - 1].0,
                        ));
                    }
                } else if y == p {
                    assert(comes_before(old_sorted[x].1, old_sorted[x].0, rect, key));
                } else {
                    let ox = if x < p { x } else { x - 1 };
                    let oy = if y < p { y } else { y - 1 };
                    assert(comes_before(
                        old_sorted[ox].1,
                        old_sorted[ox].0,
                        old_sorted[oy].1,
                        old_sorted[oy].0,
                    ));
                }
            }
            assert forall|j: int| 0 <= j < sorted@.len() implies (#[trigger] sorted@[j]) == (key, rect)
                || old_sorted.contains(sorted@[j]) by {
                if j < p {
                    assert(old_sorted[j] == sorted@[j]);
                } else if j > p {
                    assert(old_sorted[j - 1] == sorted@[j]);
                }
            }
            assert(sorted@[p as int] == (key, rect));
            assert forall|j: int| 0 <= j < old_sorted.len() implies sorted@.contains(
                #[trigger] old_sorted[j],
            ) by {
                if j < p {
                    assert(sorted@[j] == old_sorted[j]);
                } else {
                    assert(sorted@[j + 1] == old_sorted[j]);
                }
            }
        }
    }

    /// The widgets of the page in reading order of their rectangles: by row,
    /// then by column, then by number.
    fn sorted_widgets(page: &LayoutPage) -> (order: Vec<u64>)
        ensures
            is_reading_order(page.nodes@, order@),
    {
        let ghost nodes = page.nodes@;
        let entries = map_entries(&page.nodes);
        let mut sorted: Vec<(u64, GridRect)> = Vec::new();
        let mut i: usize = 0;
        while i < entries.len()
            invariant
                nodes == page.nodes@,
                0 <= i <= entries@.len(),
                forall|j: int|
                    0 <= j < entries@.len() ==> nodes.contains_key((#[trigger] entries@[j]).0)
                        && nodes[entries@[j].0] == entries@[j].1,
                forall|k: u64| #[trigger]
                    nodes.contains_key(k) ==> exists|j: int| 0 <= j < entries@.len() && entries@[j].0 == k,
                forall|a: int, b: int|
                    0 <= a < b < entries@.len() ==> entries@[a].0 != entries@[b].0,
                forall|j: int|
                    0 <= j < sorted@.len() ==> exists|a: int|
                        0 <= a < i && (#[trigger] sorted@[j]) == (entries@[a].0, entries@[a].1.rect),
                forall|a: int|
                    0 <= a < i ==> sorted@.contains(((#[trigger] entries@[a]).0, entries@[a].1.rect)),
                forall|x: int, y: int|
                    0 <= x < y < sorted@.len() ==> comes_before(
                        sorted@[x].1,
                        sorted@[x].0,
                        sorted@[y].1,
                        sorted@[y].0,
                    ),
            decreases entries@.len() - i,
        {
            let (key, node) = entries[i];
            let ghost old_sorted = sorted@;
            proof {
                assert forall|j: int| 0 <= j < sorted@.len() implies (#[trigger] sorted@[j]).0 != key by {
                    let a = choose|a: int|
                        0 <= a < i && sorted@[j] == (entries@[a].0, entries@[a].1.rect);
                    assert(entries@[a].0 != entries@[i as int].0);
                }
            }
            Self::insert_in_reading_order(&mut sorted, key, node.rect);
            proof {
                assert forall|j: int| 0 <= j < sorted@.len() implies exists|a: int|
                    0 <= a < i + 1 && (#[trigger] sorted@[j]) == (entries@[a].0, entries@[a].1.rect) by {
                    if sorted@[j] != (key, node.rect) {
                        let x = choose|x: int| 0 <= x < old_sorted.len() && old_sorted[x] == sorted@[j];
                        let a = choose|a: int|
                            0 <= a < i && old_sorted[x] == (entries@[a].0, entries@[a].1.rect);
                    }
                }
                assert forall|a: int| 0 <= a < i + 1 implies sorted@.contains(
                    ((#[trigger] entries@[a]).0, entries@[a].1.rect),
                ) by {
                    if a < i {
                        let x = choose|x: int|
                            0 <= x < old_sorted.len() && old_sorted[x] == (
                                entries@[a].0,
                                entries@[a].1.rect,
                            );
                        assert(sorted@.contains(old_sorted[x]));
                    }
                }
            }
            i += 1;
        }
        let mut order: Vec<u64> = Vec::new();
        let mut j: usize = 0;
        while j < sorted.len()
            invariant
                0 <= j <= sorted@.len(),
                order@.len() == j,
                forall|x: int| 0 <= x < j ==> order@[x] == (#[trigger] sorted@[x]).0,
            decreases sorted@.len() - j,
        {
            order.push(sorted[j].0);
            j += 1;
        }
        proof {
            assert forall|x: int| 0 <= x < order@.len() implies nodes.contains_key(#[trigger] order@[x])
                && nodes[order@[x]].rect == sorted@[x].1 by {
                assert(order@[x] == sorted@[x].0);
                let a = choose|a: int|
                    0 <= a < entries@.len() && sorted@[x] == (entries@[a].0, entries@[a].1.rect);
            }
            assert forall|k: u64| #[trigger] nodes.contains_key(k) implies order@.contains(k) by {
                let a = choose|a: int| 0 <= a < entries@.len() && entries@[a].0 == k;
                assert(sorted@.contains((entries@[a].0, entries@[a].1.rect)));
                let x = choose|x: int|
                    0 <= x < sorted@.len() && sorted@[x] == (entries@[a].0, entries@[a].1.rect);
                assert(order@[x] == k);
            }
            assert forall|x: int, y: int| 0 <= x < y < order@.len() implies comes_before(
                nodes[order@[x]].rect,
                order@[x],
                nodes[order@[y]].rect,
                order@[y],
            ) by {
                assert(order@[x] == sorted@[x].0);
                assert(order@[y] == sorted@[y].0);
                assert(nodes[order@[x]].rect == sorted@[x].1);
                assert(nodes[order@[y]].rect == sorted@[y].1);
            }
        }
        order
    }

    /// Where some widget other than `widget_id` stands, if `test_rect` meets
    /// it.
    fn find_blocker(
        page: &LayoutPage,
        entries: &Vec<(u64, LayoutNode)>,
        moves: &HashMap<u64, GridRect>,
        widget_id: u64,
        test_rect: GridRect,
    ) -> (r: Option<GridRect>)
        requires
            forall|j: int|
                0 <= j < entries@.len() ==> page.nodes@.contains_key((#[trigger] entries@[j]).0)
                    && page.nodes@[entries@[j].0] == entries@[j].1,
            forall|k: u64| #[trigger]
                page.nodes@.contains_key(k) ==> exists|j: int| 0 <= j < entries@.len() && entries@[j].0 == k,
        ensures
            r is None ==> forall|o: u64| #[trigger]
                page.nodes@.contains_key(o) && o != widget_id ==> !test_rect.overlaps(
                    standing_rect(page.nodes@, moves@, o),
                ),
            r matches Some(b) ==> test_rect.overlaps(b) && exists|o: u64|
                page.nodes@.contains_key(o) && o != widget_id && standing_rect(page.nodes@, moves@, o)
                    == b,
    {
        let ghost nodes = page.nodes@;
        let mut j: usize = 0;
        while j < entries.len()
            invariant
                nodes == page.nodes@,
                0 <= j <= entries@.len(),
                forall|a: int|
                    0 <= a < entries@.len() ==> nodes.contains_key((#[trigger] entries@[a]).0)
                        && nodes[entries@[a].0] == entries@[a].1,
                forall|a: int|
                    0 <= a < j ==> (#[trigger] entries@[a]).0 == widget_id || !test_rect.overlaps(
                        standing_rect(nodes, moves@, entries@[a].0),
                    ),
            decreases entries@.len() - j,
        {
            let (other_id, other_node) = entries[j];
            if other_id != widget_id {
                let other_rect = match moves.get(&other_id) {
                    Some(r) => *r,
                    None => other_node.rect,
                };
                if test_rect.intersects(&other_rect) {
                    return Some(other_rect);
                }
            }
            j += 1;
        }
        proof {
            assert forall|o: u64| #[trigger]
                nodes.contains_key(o) && o != widget_id implies !test_rect.overlaps(
                standing_rect(nodes, moves@, o),
            ) by {
                let a = choose|a: int| 0 <= a < entries@.len() && entries@[a].0 == o;
            }
        }
        None
    }

    /// Compact widgets upward to fill gaps
    ///
    /// Widgets are taken in reading order of their rectangles on the page;
    /// each moves up to the topmost row where it meets no other widget where
    /// that one stands by then.
    fn compact_upward(page: &LayoutPage, moves: &mut HashMap<u64, GridRect>)
        requires
            page.wf(),
        ensures
            final(moves)@ == compacted(page.nodes@, old(moves)@),
    {
        let ghost nodes = page.nodes@;
        let ghost start = moves@;
        // Sort widgets by row, then by column (top-left to bottom-right)
        let sorted_widgets = Self::sorted_widgets(page);
        let entries = map_entries(&page.nodes);
        let mut idx: usize = 0;
        while idx < sorted_widgets.len()
            invariant
                nodes == page.nodes@,
                page.wf(),
                0 <= idx <= sorted_widgets@.len(),
                is_reading_order(nodes, sorted_widgets@),
                forall|j: int|
                    0 <= j < entries@.len() ==> nodes.contains_key((#[trigger] entries@[j]).0)
                        && nodes[entries@[j].0] == entries@[j].1,
                forall|k: u64| #[trigger]
                    nodes.contains_key(k) ==> exists|j: int| 0 <= j < entries@.len() && entries@[j].0 == k,
                moves@ == lift_all(nodes, start, sorted_widgets@.take(idx as int)),
            decreases sorted_widgets@.len() - idx,
        {
            let widget_id = sorted_widgets[idx];
            assert(nodes.contains_key(sorted_widgets@[idx as int]));
            let node_rect = match page.get_node(WidgetId(widget_id)) {
                Some(node) => node.rect,
                None => {
                    assert(false);
                    GridRect { col: 0, row: 0, w: 0, h: 0 }
                },
            };
            let current_rect = match moves.get(&widget_id) {
                Some(r) => *r,
                None => node_rect,
            };
            let ghost before = moves@;
            assert(current_rect == standing_rect(nodes, before, widget_id));

            // Try to move up as much as possible
            let mut target_row: usize = 0;
            let mut clear = false;
            // Find the highest position this widget can occupy
            while !clear && target_row < current_rect.row
                invariant
                    nodes == page.nodes@,
                    before == moves@,
                    forall|j: int|
                        0 <= j < entries@.len() ==> nodes.contains_key((#[trigger] entries@[j]).0)
                            && nodes[entries@[j].0] == entries@[j].1,
                    forall|k: u64| #[trigger]
                        nodes.contains_key(k) ==> exists|j: int|
                            0 <= j < entries@.len() && entries@[j].0 == k,
                    forall|q: usize|
                        q < target_row ==> !#[trigger] row_is_clear(
                            nodes,
                            before,
                            widget_id,
                            current_rect,
                            q,
                        ),
                    clear ==> target_row < current_rect.row && row_is_clear(
                        nodes,
                        before,
                        widget_id,
                        current_rect,
                        target_row,
                    ),
                decreases if target_row < current_rect.row {
                    current_rect.row - target_row + if clear {
                        0int
                    } else {
                        1int
                    }
                } else {
                    0int
                },
            {
                let test_rect = GridRect {
                    col: current_rect.col,
                    row: target_row,
                    w: current_rect.w,
                    h: current_rect.h,
                };
                assert(test_rect == current_rect.at_row(target_row));
                // Check if this position collides with any other widget
                match Self::find_blocker(page, &entries, moves, widget_id, test_rect) {
                    None => {
                        clear = true;
                    },
                    Some(other_rect) => {
                        // Move below this widget
                        let ghost old_target = target_row;
                        target_row = other_rect.row.saturating_add(other_rect.h);
                        proof {
                            let o = choose|o: u64|
                                nodes.contains_key(o) && o != widget_id && standing_rect(
                                    nodes,
                                    before,
                                    o,
                                ) == other_rect;
                            assert(target_row > old_target);
                            assert forall|q: usize| q < target_row implies !#[trigger] row_is_clear(
                                nodes,
                                before,
                                widget_id,
                                current_rect,
                                q,
                            ) by {
                                if q >= old_target {
                                    assert(current_rect.at_row(q).overlaps(
                                        standing_rect(nodes, before, o),
                                    ));
                                }
                            }
                        }
                    },
                }
            }

            // If we can move up, record the move
            if clear {
                moves.insert(
                    widget_id,
                    GridRect {
                        col: current_rect.col,
                        row: target_row,
                        w: current_rect.w,
                        h: current_rect.h,
                    },
                );
            }
            proof {
                let order = sorted_widgets@;
                assert(order.take(idx + 1).drop_last() =~= order.take(idx as int));
                assert(order.take(idx + 1).last() == widget_id);
                if clear {
                    assert(is_top_clear_row(nodes, before, widget_id, current_rect, target_row));
                    let c = choose|c: usize| is_top_clear_row(nodes, before, widget_id, current_rect, c);
                    assert(is_top_clear_row(nodes, before, widget_id, current_rect, c));
                    assert(c == target_row);
                    assert(moves@ == before.insert(widget_id, current_rect.at_row(target_row)));
                } else {
                    assert forall|r: usize|
                        !is_top_clear_row(nodes, before, widget_id, current_rect, r) by {
                        if r < current_rect.row {
                            assert(!row_is_clear(nodes, before, widget_id, current_rect, r));
                        }
                    }
                }
                assert(lift_all(nodes, start, order.take(idx + 1)) == lift(
                    nodes,
                    lift_all(nodes, start, order.take(idx as int)),
                    widget_id,
                ));
            }
            idx += 1;
        }
        proof {
            let order = sorted_widgets@;
            assert(order.take(order.len() as int) =~= order);
            lemma_reading_order_unique(nodes, order, reading_order(nodes));
        }
    }

    /// The entries of a map of moves, each once, as a list.
    fn collect_moves(moves: &HashMap<u64, GridRect>) -> (r: Vec<(WidgetId, GridRect)>)
        ensures
            lists_moves(r@, moves@),
    {
        let entries = map_entries(moves);
        let mut r: Vec<(WidgetId, GridRect)> = Vec::new();
        let mut i: usize = 0;
        while i < entries.len()
            invariant
                0 <= i <= entries@.len(),
                r@.len() == i,
                forall|j: int| 0 <= j < i ==> (#[trigger] r@[j]) == (WidgetId(entries@[j].0), entries@[j].1),
            decreases entries@.len() - i,
        {
            let (id, rect) = entries[i];
            r.push((WidgetId(id), rect));
            i += 1;
        }
        proof {
            assert forall|j: int| 0 <= j < r@.len() implies moves@.contains_key((#[trigger] r@[j]).0.0)
                && moves@[r@[j].0.0] == r@[j].1 by {
                assert(r@[j] == (WidgetId(entries@[j].0), entries@[j].1));
            }
            assert forall|k: u64| #[trigger]
                moves@.contains_key(k) implies exists|j: int| 0 <= j < r@.len() && r@[j].0.0 == k by {
                let j = choose|j: int| 0 <= j < entries@.len() && entries@[j].0 == k;
                assert(r@[j] == (WidgetId(entries@[j].0), entries@[j].1));
            }
            assert forall|a: int, b: int| 0 <= a < b < r@.len() implies r@[a].0 != r@[b].0 by {
                assert(r@[a] == (WidgetId(entries@[a].0), entries@[a].1));
                assert(r@[b] == (WidgetId(entries@[b].0), entries@[b].1));
            }
        }
        r
    }

    /// The settled layout of a drag or resize onto `target_pos`, or `None`
    /// when it is refused.
    fn preview_moves(
        pages: &[LayoutPage],
        moving_id: WidgetId,
        target_page: Option<usize>,
        target_pos: GridRect,
    ) -> (r: Option<Vec<(WidgetId, GridRect)>>)
        requires
            forall|i: int| 0 <= i < pages@.len() ==> (#[trigger] pages@[i]).wf(),
        ensures
            match preview_layout(page_views(pages@), moving_id, target_page, target_pos) {
                None => r is None,
                Some(m) => r matches Some(v) && lists_moves(v@, m),
            },
    {
        // Determine which page we're working with: without a target page,
        // the widget's own page
        proof {
            lemma_view_maps(pages@);
        }
        let page_idx = match target_page {
            Some(i) => i,
            None => match holding_page(pages, moving_id) {
                Some(i) => i,
                None => 0,
            },
        };
        if page_idx >= pages.len() {
            return None;
        }
        let page = &pages[page_idx];
        assert(page.wf());

        // Check if the target position is within bounds
        if !page.is_in_bounds(target_pos) {
            return None;
        }

        // Resolve collisions and find positions for displaced widgets
        match Self::resolve_collisions(page, moving_id, target_pos) {
            Some(moves) => Some(Self::collect_moves(&moves)),
            None => None,
        }
    }

    /// Find all widgets that collide with the given rect
    fn find_collisions(page: &LayoutPage, rect: GridRect, ignore_id: Option<WidgetId>) -> (r: Vec<
        WidgetId,
    >)
        requires
            page.wf(),
        ensures
            forall|j: int|
                0 <= j < r@.len() ==> page.nodes@.contains_key((#[trigger] r@[j]).0)
                    && node_occupies(page.nodes@[r@[j].0], rect, ignore_id),
            forall|k: u64| #[trigger]
                page.nodes@.contains_key(k) && node_occupies(page.nodes@[k], rect, ignore_id)
                    ==> exists|j: int| 0 <= j < r@.len() && r@[j].0 == k,
            forall|i: int, j: int| 0 <= i < j < r@.len() ==> r@[i] != r@[j],
    {
        let entries = map_entries(&page.nodes);
        let mut r: Vec<WidgetId> = Vec::new();
        let mut i: usize = 0;
        while i < entries.len()
            invariant
                page.wf(),
                0 <= i <= entries@.len(),
                forall|j: int|
                    0 <= j < entries@.len() ==> page.nodes@.contains_key(
                        (#[trigger] entries@[j]).0,
                    ) && page.nodes@[entries@[j].0] == entries@[j].1,
                forall|k: u64| #[trigger]
                    page.nodes@.contains_key(k) ==> exists|j: int|
                        0 <= j < entries@.len() && entries@[j].0 == k,
                forall|a: int, b: int|
                    0 <= a < b < entries@.len() ==> entries@[a].0 != entries@[b].0,
                forall|j: int|
                    0 <= j < r@.len() ==> page.nodes@.contains_key((#[trigger] r@[j]).0)
                        && node_occupies(page.nodes@[r@[j].0], rect, ignore_id),
                forall|j: int|
                    0 <= j < r@.len() ==> exists|a: int| 0 <= a < i && entries@[a].0 == (#[trigger] r@[j]).0,
                forall|a: int|
                    0 <= a < i && node_occupies((#[trigger] entries@[a]).1, rect, ignore_id)
                        ==> exists|j: int| 0 <= j < r@.len() && r@[j].0 == entries@[a].0,
                forall|x: int, y: int| 0 <= x < y < r@.len() ==> r@[x] != r@[y],
            decreases entries@.len() - i,
        {
            let (key, node) = entries[i];
            let ghost old_r = r@;
            let mut skip = false;
            if let Some(id) = ignore_id {
                if node.widget_id == id {
                    skip = true;
                }
            }
            if !skip && node.rect.intersects(&rect) {
                proof {
                    assert(page.nodes@[key].widget_id.0 == key);
                    assert forall|x: int| 0 <= x < r@.len() implies r@[x] != node.widget_id by {
                        let a = choose|a: int| 0 <= a < i && entries@[a].0 == r@[x].0;
                        assert(entries@[a].0 != entries@[i as int].0);
                    }
                }
                r.push(node.widget_id);
                assert(r@[r@.len() - 1].0 == entries@[i as int].0);
            }
            proof {
                assert forall|a: int|
                    0 <= a <= i && node_occupies((#[trigger] entries@[a]).1, rect, ignore_id)
                        implies exists|j: int| 0 <= j < r@.len() && r@[j].0 == entries@[a].0 by {
                    if a < i {
                        let j = choose|j: int| 0 <= j < old_r.len() && old_r[j].0 == entries@[a].0;
                        assert(r@[j] == old_r[j]);
                    } else {
                        assert(r@[r@.len() - 1].0 == entries@[i as int].0);
                    }
                }
            }
            i += 1;
        }
        proof {
            assert forall|k: u64| #[trigger]
                page.nodes@.contains_key(k) && node_occupies(page.nodes@[k], rect, ignore_id)
                    implies exists|j: int| 0 <= j < r@.len() && r@[j].0 == k by {
                let a = choose|a: int| 0 <= a < entries@.len() && entries@[a].0 == k;
                assert(node_occupies(entries@[a].1, rect, ignore_id));
            }
        }
        r
    }

    /// Calculate distance between two grid positions (Manhattan distance)
    /// The sum saturates at the largest `usize`.
    fn calculate_distance(rect1: GridRect, rect2: GridRect) -> (d: usize)
        ensures
            d == if manhattan(rect1, rect2) < usize::MAX {
                manhattan(rect1, rect2)
            } else {
                usize::MAX as int
            },
            ({
                let dc = if rect1.col >= rect2.col { rect1.col - rect2.col } else { rect2.col - rect1.col };
                let dr = if rect1.row >= rect2.row { rect1.row - rect2.row } else { rect2.row - rect1.row };
                &&& dc + dr < usize::MAX ==> d == dc + dr
                &&& dc + dr >= usize::MAX ==> d == usize::MAX
            }),
    {
        let col_diff = if rect1.col > rect2.col {
            rect1.col - rect2.col
        } else {
            rect2.col - rect1.col
        };
        let row_diff = if rect1.row > rect2.row {
            rect1.row - rect2.row
        } else {
            rect2.row - rect1.row
        };
        col_diff.saturating_add(row_diff)
    }

    /// Whether `rect` meets an entry of `others` whose key is not `skip`.
    fn collides_with_any(rect: GridRect, others: &Vec<(u64, GridRect)>, skip: Option<u64>) -> (r:
        bool)
        ensures
            r == exists|j: int|
                0 <= j < others@.len() && Some((#[trigger] others@[j]).0) != skip && rect.overlaps(
                    others@[j].1,
                ),
    {
        let mut j: usize = 0;
        while j < others.len()
            invariant
                0 <= j <= others@.len(),
                forall|a: int|
                    0 <= a < j ==> !(Some((#[trigger] others@[a]).0) != skip && rect.overlaps(
                        others@[a].1,
                    )),
            decreases others@.len() - j,
        {
            let (other_id, other_rect) = others[j];
            let skipped = match skip {
                Some(s) => other_id == s,
                None => false,
            };
            if !skipped && rect.intersects(&other_rect) {
                return true;
            }
            j += 1;
        }
        false
    }

    /// Find the closest available position for a widget, preferring positions near the original
    fn find_closest_available_position(
        page: &LayoutPage,
        widget_rect: GridRect,
        original_rect: GridRect,
        occupied: &HashMap<u64, GridRect>,
        widget_id: WidgetId,
    ) -> (r: Option<GridRect>)
        ensures
            r == closest_spot(page.config, occupied@, widget_id.0, widget_rect, original_rect),
    {
        let ghost config = page.config;
        let ghost occ = occupied@;
        let ghost owner = widget_id.0;
        let others = map_entries(occupied);
        let mut best_position: Option<GridRect> = None;
        let mut best_distance: usize = usize::MAX;

        // Try all possible positions, row by row, column by column
        let mut row: usize = 0;
        while row < page.config.rows
            invariant
                0 <= row <= config.rows,
                config == page.config,
                occ == occupied@,
                owner == widget_id.0,
                forall|j: int|
                    0 <= j < others@.len() ==> occ.contains_key((#[trigger] others@[j]).0)
                        && occ[others@[j].0] == others@[j].1,
                forall|k: u64| #[trigger]
                    occ.contains_key(k) ==> exists|j: int| 0 <= j < others@.len() && others@[j].0 == k,
                best_position is None ==> best_distance == usize::MAX && forall|q: GridRect|
                    #[trigger] is_free_spot(config, occ, owner, widget_rect, original_rect, q)
                        ==> q.row >= row,
                best_position matches Some(b) ==> {
                    &&& is_free_spot(config, occ, owner, widget_rect, original_rect, b)
                    &&& best_distance == manhattan(b, original_rect)
                    &&& b.row < row
                    &&& forall|q: GridRect| #[trigger]
                        is_free_spot(config, occ, owner, widget_rect, original_rect, q) && q.row
                            < row ==> manhattan(b, original_rect) < manhattan(q, original_rect) || (
                        manhattan(b, original_rect) == manhattan(q, original_rect) && row_major_le(
                            b,
                            q,
                        ))
                },
            decreases config.rows - row,
        {
            let mut col: usize = 0;
            while col < page.config.cols
                invariant
                    0 <= row < config.rows,
                    0 <= col <= config.cols,
                    config == page.config,
                    occ == occupied@,
                    owner == widget_id.0,
                    forall|j: int|
                        0 <= j < others@.len() ==> occ.contains_key((#[trigger] others@[j]).0)
                            && occ[others@[j].0] == others@[j].1,
                    forall|k: u64| #[trigger]
                        occ.contains_key(k) ==> exists|j: int|
                            0 <= j < others@.len() && others@[j].0 == k,
                    best_position is None ==> best_distance == usize::MAX && forall|q: GridRect|
                        #[trigger] is_free_spot(config, occ, owner, widget_rect, original_rect, q)
                            ==> q.row > row || (q.row == row && q.col >= col),
                    best_position matches Some(b) ==> {
                        &&& is_free_spot(config, occ, owner, widget_rect, original_rect, b)
                        &&& best_distance == manhattan(b, original_rect)
                        &&& (b.row < row || (b.row == row && b.col < col))
                        &&& forall|q: GridRect| #[trigger]
                            is_free_spot(config, occ, owner, widget_rect, original_rect, q) && (
                            q.row < row || (q.row == row && q.col < col)) ==> manhattan(
                                b,
                                original_rect,
                            ) < manhattan(q, original_rect) || (manhattan(b, original_rect)
                                == manhattan(q, original_rect) && row_major_le(b, q))
                    },
                decreases config.cols - col,
            {
                let test_rect = GridRect { col, row, w: widget_rect.w, h: widget_rect.h };
                let ghost t = test_rect;
                let ghost old_best = best_position;
                let ghost old_distance = best_distance;

                // Check if this position is in bounds and free of every occupied widget
                if page.is_in_bounds(test_rect) {
                    let has_collision = Self::collides_with_any(
                        test_rect,
                        &others,
                        Some(widget_id.0),
                    );
                    assert(has_collision == exists|j: int|
                        0 <= j < others@.len() && Some((#[trigger] others@[j]).0) != Some(owner)
                            && t.overlaps(others@[j].1));
                    if !has_collision {
                        let distance = Self::calculate_distance(test_rect, original_rect);
                        proof {
                            assert forall|o: u64| #[trigger]
                                occ.contains_key(o) && o != owner implies !t.overlaps(occ[o]) by {
                                let j = choose|j: int| 0 <= j < others@.len() && others@[j].0 == o;
                                assert(!(Some(others@[j].0) != Some(owner) && t.overlaps(
                                    others@[j].1,
                                )));
                            }
                        }
                        if distance < best_distance {
                            best_distance = distance;
                            best_position = Some(test_rect);
                        }
                    } else {
                        proof {
                            let j = choose|j: int|
                                0 <= j < others@.len() && Some((#[trigger] others@[j]).0) != Some(
                                    owner,
                                ) && t.overlaps(others@[j].1);
                            assert(occ.contains_key(others@[j].0));
                            assert(!is_free_spot(config, occ, owner, widget_rect, original_rect, t));
                        }
                    }
                }
                proof {
                    assert forall|q: GridRect|
                        is_free_spot(config, occ, owner, widget_rect, original_rect, q) && q.row
                            == row && q.col == col implies q == t by {}
                    if let Some(b) = best_position {
                        assert forall|q: GridRect| #[trigger]
                            is_free_spot(config, occ, owner, widget_rect, original_rect, q) && (q.row
                                < row || (q.row == row && q.col < col + 1)) implies manhattan(
                            b,
                            original_rect,
                        ) < manhattan(q, original_rect) || (manhattan(b, original_rect)
                            == manhattan(q, original_rect) && row_major_le(b, q)) by {
                            if q.row == row && q.col == col {
                                assert(q == t);
                            } else if old_best is Some {
                                let b0 = old_best->0;
                                assert(manhattan(b0, original_rect) < manhattan(q, original_rect) || (
                                manhattan(b0, original_rect) == manhattan(q, original_rect)
                                    && row_major_le(b0, q)));
                            }
                        }
                    }
                }
                col += 1;
            }
            row += 1;
        }
        proof {
            if let Some(b) = best_position {
                lemma_closest_spot_unique(config, occ, owner, widget_rect, original_rect, b);
            } else {
                assert forall|p: GridRect|
                    !is_closest_spot(config, occ, owner, widget_rect, original_rect, p) by {
                    if is_free_spot(config, occ, owner, widget_rect, original_rect, p) {
                        assert(p.row < config.rows);
                    }
                }
            }
        }
        best_position
    }
}


impl LayoutSolver for AndroidLayoutSolver {
    open spec fn drag_preview(
        pages: Seq<PageView>,
        moving_id: WidgetId,
        target_page: Option<usize>,
        target_pos: GridRect,
        result: LayoutMutation,
    ) -> bool {
        android_drag_preview(pages, moving_id, target_page, target_pos, result)
    }

    open spec fn resize_preview(
        pages: Seq<PageView>,
        resizing_id: WidgetId,
        target_page: Option<usize>,
        new_size: GridRect,
        result: LayoutMutation,
    ) -> bool {
        android_resize_preview(pages, resizing_id, target_page, new_size, result)
    }

    open spec fn compaction(page: PageView, result: LayoutMutation) -> bool {
        android_compaction(page, result)
    }

    fn calculate_drag_preview(
        pages: &[LayoutPage],
        moving_id: WidgetId,
        target_page: Option<usize>,
        target_pos: GridRect,
    ) -> (result: LayoutMutation) {
        let mut mutation = LayoutMutation::default();
        if let Some(moves) = Self::preview_moves(pages, moving_id, target_page, target_pos) {
            mutation.moves = moves;
            // If moving to a different page, record the page change
            if let Some(target_page_idx) = target_page {
                mutation.page_changes.push((moving_id, target_page_idx));
                assert(mutation.page_changes@ =~= seq![(moving_id, target_page_idx)]);
            } else {
                assert(mutation.page_changes@ =~= Seq::<(WidgetId, usize)>::empty());
            }
        }
        // If the move is refused, return empty mutation

        mutation
    }

    fn calculate_resize_preview(
        pages: &[LayoutPage],
        resizing_id: WidgetId,
        target_page: Option<usize>,
        new_size: GridRect,
    ) -> (result: LayoutMutation) {
        let mut mutation = LayoutMutation::default();
        if let Some(moves) = Self::preview_moves(pages, resizing_id, target_page, new_size) {
            mutation.moves = moves;
        }
        // If the resize is refused, return empty mutation

        mutation
    }

    fn compaction_pass(page: &LayoutPage) -> (result: LayoutMutation) {
        let ghost nodes = page.nodes@;
        let mut moves: HashMap<u64, GridRect> = HashMap::new();

        // Compact all widgets upward
        Self::compact_upward(page, &mut moves);
        let ghost all = moves@;
        let ghost changed = changed_rects(nodes, all);

        // Keep the widgets that actually moved
        let entries = map_entries(&moves);
        let mut kept: Vec<(WidgetId, GridRect)> = Vec::new();
        let mut i: usize = 0;
        while i < entries.len()
            invariant
                0 <= i <= entries@.len(),
                nodes == page.nodes@,
                changed == changed_rects(nodes, all),
                forall|j: int|
                    0 <= j < entries@.len() ==> all.contains_key((#[trigger] entries@[j]).0)
                        && all[entries@[j].0] == entries@[j].1,
                forall|a: int, b: int|
                    0 <= a < b < entries@.len() ==> entries@[a].0 != entries@[b].0,
                forall|j: int|
                    0 <= j < kept@.len() ==> changed.contains_key((#[trigger] kept@[j]).0.0)
                        && changed[kept@[j].0.0] == kept@[j].1,
                forall|j: int|
                    0 <= j < kept@.len() ==> exists|a: int|
                        0 <= a < i && entries@[a].0 == (#[trigger] kept@[j]).0.0,
                forall|a: int|
                    0 <= a < i && changed.contains_key((#[trigger] entries@[a]).0) ==> exists|j: int|
                        0 <= j < kept@.len() && kept@[j].0.0 == entries@[a].0,
                forall|x: int, y: int| 0 <= x < y < kept@.len() ==> kept@[x].0 != kept@[y].0,
            decreases entries@.len() - i,
        {
            let (id, rect) = entries[i];
            let ghost old_kept = kept@;
            if let Some(node) = page.get_node(WidgetId(id)) {
                if node.rect != rect {
                    proof {
                        assert forall|x: int| 0 <= x < kept@.len() implies kept@[x].0 != WidgetId(id) by {
                            let a = choose|a: int| 0 <= a < i && entries@[a].0 == kept@[x].0.0;
                            assert(entries@[a].0 != entries@[i as int].0);
                        }
                    }
                    kept.push((WidgetId(id), rect));
                }
            }
            proof {
                assert forall|a: int|
                    0 <= a < i + 1 && changed.contains_key((#[trigger] entries@[a]).0) implies exists|j: int|
                    0 <= j < kept@.len() && kept@[j].0.0 == entries@[a].0 by {
                    if a < i {
                        let j = choose|j: int| 0 <= j < old_kept.len() && old_kept[j].0.0 == entries@[a].0;
                        assert(kept@[j] == old_kept[j]);
                    } else {
                        assert(kept@[kept@.len() - 1].0.0 == entries@[a].0);
                    }
                }
                assert forall|j: int| 0 <= j < kept@.len() implies exists|a: int|
                    0 <= a < i + 1 && entries@[a].0 == (#[trigger] kept@[j]).0.0 by {
                    if j < old_kept.len() {
                        assert(kept@[j] == old_kept[j]);
                        let a = choose|a: int| 0 <= a < i && entries@[a].0 == old_kept[j].0.0;
                    } else {
                        assert(entries@[i as int].0 == kept@[j].0.0);
                    }
                }
            }
            i += 1;
        }
        proof {
            assert forall|k: u64| #[trigger]
                changed.contains_key(k) implies exists|j: int| 0 <= j < kept@.len() && kept@[j].0.0 == k by {
                assert(all.contains_key(k));
                let a = choose|a: int| 0 <= a < entries@.len() && entries@[a].0 == k;
                assert(changed.contains_key(entries@[a].0));
            }
            vstd::set_lib::lemma_set_subset_finite(all.dom(), changed.dom());
            lemma_listed_len(kept@, changed);
        }
        LayoutMutation { moves: kept, page_changes: Vec::new() }
    }
}

} // verus!
