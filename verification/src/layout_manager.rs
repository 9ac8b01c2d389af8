use std::collections::hash_map::Entry;
use std::collections::HashMap;
use std::marker::PhantomData;

use vstd::prelude::*;
use vstd::std_specs::iter::IteratorSpec;

use crate::config::GridConfig;

verus! {

broadcast use vstd::std_specs::hash::group_hash_axioms;

/// Identity of a widget on the home screen.
#[derive(Clone, Copy, Debug, PartialEq, Eq, Hash, Structural)]
pub struct WidgetId(pub u64);

/// A rectangle of grid cells: top-left cell `(col, row)`, `w` columns wide and
/// `h` rows tall.
#[derive(Clone, Copy, Debug, PartialEq, Eq, Structural)]
pub struct GridRect {
    pub col: usize,
    pub row: usize,
    pub w: usize,
    pub h: usize,
}

/// Two half-open intervals `[a, a + a_len)` and `[b, b + b_len)` share a point.
pub open spec fn spans_overlap(a: int, a_len: int, b: int, b_len: int) -> bool {
    a < b + b_len && b < a + a_len
}

impl GridRect {
    /// The two rectangles share at least one cell.
    pub open spec fn overlaps(self, other: GridRect) -> bool {
        spans_overlap(self.col as int, self.w as int, other.col as int, other.w as int)
            && spans_overlap(self.row as int, self.h as int, other.row as int, other.h as int)
    }

    /// The rectangle lies inside a grid of the given dimensions.
    pub open spec fn fits(self, config: GridConfig) -> bool {
        self.col + self.w <= config.cols && self.row + self.h <= config.rows
    }

    /// The same rectangle moved to another row.
    pub open spec fn at_row(self, row: usize) -> GridRect {
        GridRect { col: self.col, row: row, w: self.w, h: self.h }
    }

    /// Check if this rect intersects with another rect
    pub fn intersects(&self, other: &GridRect) -> (r: bool)
        ensures
            r == self.overlaps(*other),
    {
        let self_right = self.col as u128 + self.w as u128;
        let self_bottom = self.row as u128 + self.h as u128;
        let other_right = other.col as u128 + other.w as u128;
        let other_bottom = other.row as u128 + other.h as u128;

        !(self_right <= other.col as u128 || self.col as u128 >= other_right || self_bottom
            <= other.row as u128 || self.row as u128 >= other_bottom)
    }
}

/// Intersection does not depend on the order of the two rectangles.
pub proof fn lemma_intersects_symmetric(a: GridRect, b: GridRect)
    ensures
        a.overlaps(b) == b.overlaps(a),
{
}

/// A rectangle with at least one cell intersects itself.
pub proof fn lemma_intersects_self(a: GridRect)
    requires
        a.w > 0,
        a.h > 0,
    ensures
        a.overlaps(a),
{
}

/// Rectangles that only touch along an edge, side by side or one above the
/// other, do not intersect.
pub proof fn lemma_touching_rects_do_not_intersect(a: GridRect, b: GridRect)
    requires
        a.col + a.w == b.col || a.row + a.h == b.row,
    ensures
        !a.overlaps(b),
        !b.overlaps(a),
{
}

/// A widget placed on a page.
#[derive(Clone, Copy, Debug, PartialEq, Eq, Structural)]
pub struct LayoutNode {
    pub widget_id: WidgetId,
    pub rect: GridRect,
}

/// What a solver proposes: new rectangles for some widgets, and the pages
/// some widgets move to.
#[derive(Debug)]
pub struct LayoutMutation {
    pub moves: Vec<(WidgetId, GridRect)>,
    pub page_changes: Vec<(WidgetId, usize)>,
}

impl Clone for LayoutMutation {
    /// The same moves and page changes, in the same order.
    fn clone(&self) -> (m: Self)
        ensures
            m.moves@ == self.moves@,
            m.page_changes@ == self.page_changes@,
    {
        LayoutMutation { moves: copy_entries(&self.moves), page_changes: copy_entries(&self.page_changes) }
    }
}

/// A new list with the same entries in the same order.
fn copy_entries<T: Copy>(v: &Vec<T>) -> (r: Vec<T>)
    ensures
        r@ == v@,
{
    let mut r: Vec<T> = Vec::new();
    let mut i: usize = 0;
    while i < v.len()
        invariant
            0 <= i <= v@.len(),
            r@ == v@.take(i as int),
        decreases v@.len() - i,
    {
        r.push(v[i]);
        proof {
            assert(v@.take(i + 1) =~= v@.take(i as int).push(v@[i as int]));
        }
        i += 1;
    }
    proof {
        assert(v@.take(v@.len() as int) =~= v@);
    }
    r
}

impl LayoutMutation {
    /// The mutation that changes nothing.
    pub open spec fn is_empty(&self) -> bool {
        self.moves@.len() == 0 && self.page_changes@.len() == 0
    }
}

impl Default for LayoutMutation {
    /// The mutation that changes nothing.
    fn default() -> (m: LayoutMutation)
        ensures
            m.is_empty(),
    {
        LayoutMutation { moves: Vec::new(), page_changes: Vec::new() }
    }
}

/// `moves` lists each entry of the map `m` exactly once, in some order.
pub open spec fn lists_moves(moves: Seq<(WidgetId, GridRect)>, m: Map<u64, GridRect>) -> bool {
    &&& moves.len() == m.dom().len()
    &&& forall|i: int|
        0 <= i < moves.len() ==> m.contains_key((#[trigger] moves[i]).0.0) && m[moves[i].0.0]
            == moves[i].1
    &&& forall|k: u64| #[trigger]
        m.contains_key(k) ==> exists|i: int| 0 <= i < moves.len() && moves[i].0.0 == k
    &&& forall|i: int, j: int| 0 <= i < j < moves.len() ==> moves[i].0 != moves[j].0
}

/// The entries of a map keyed by widget number, each exactly once, in the
/// order in which the map is walked.
pub(crate) fn map_entries<V: Copy>(m: &HashMap<u64, V>) -> (r: Vec<(u64, V)>)
    ensures
        r@.len() == m@.dom().len(),
        forall|j: int|
            0 <= j < r@.len() ==> m@.contains_key((#[trigger] r@[j]).0) && m@[r@[j].0] == r@[j].1,
        forall|k: u64| #[trigger]
            m@.contains_key(k) ==> exists|j: int| 0 <= j < r@.len() && r@[j].0 == k,
        forall|i: int, j: int| 0 <= i < j < r@.len() ==> r@[i].0 != r@[j].0,
{
    let ghost all = vstd::std_specs::hash::spec_hash_map_iter(m).remaining();
    let mut r: Vec<(u64, V)> = Vec::new();
    for (k, v) in it: m.iter()
        invariant
            it.seq() == all,
            all.len() == m@.dom().len(),
            all.no_duplicates(),
            forall|j: int|
                0 <= j < all.len() ==> m@.contains_key(*(#[trigger] all[j]).0) && m@[*all[j].0]
                    == *all[j].1,
            forall|k: u64| #[trigger] m@.contains_key(k) ==> all.contains((&k, &m@[k])),
            r@.len() == it.index(),
            forall|j: int| 0 <= j < r@.len() ==> (#[trigger] r@[j]) == (*all[j].0, *all[j].1),
    {
        r.push((*k, *v));
    }
    proof {
        assert forall|k: u64| #[trigger]
            m@.contains_key(k) implies exists|j: int| 0 <= j < r@.len() && r@[j].0 == k by {
            let j = choose|j: int| 0 <= j < all.len() && all[j] == (&k, &m@[k]);
            assert(r@[j].0 == k);
        }
        assert forall|i: int, j: int| 0 <= i < j < r@.len() implies r@[i].0 != r@[j].0 by {
            assert(r@[i] == (*all[i].0, *all[i].1));
            assert(r@[j] == (*all[j].0, *all[j].1));
            if r@[i].0 == r@[j].0 {
                assert(all[i] == all[j]);
            }
        }
    }
    r
}

/// What a page holds: its grid, and its widgets keyed by their numbers.
pub struct PageView {
    pub config: GridConfig,
    pub nodes: Map<u64, LayoutNode>,
}

impl PageView {
    /// Every node is stored under its own widget's number.
    pub open spec fn wf(self) -> bool {
        forall|k: u64| #[trigger] self.nodes.contains_key(k) ==> self.nodes[k].widget_id.0 == k
    }
}

/// What each page of a list holds.
pub open spec fn page_views(pages: Seq<LayoutPage>) -> Seq<PageView> {
    pages.map_values(|p: LayoutPage| p@)
}

/// One page of the home screen: its grid and the widgets on it, keyed by the
/// widget's number.
#[derive(Debug)]
pub struct LayoutPage {
    pub config: GridConfig,
    pub nodes: HashMap<u64, LayoutNode>,
}

impl Clone for LayoutPage {
    /// A page with the same grid and the same widgets.
    fn clone(&self) -> (page: Self)
        ensures
            page@ == self@,
    {
        LayoutPage { config: self.config, nodes: self.nodes.clone() }
    }
}

/// The node stands in the rectangle and is not the widget to ignore.
pub open spec fn node_occupies(node: LayoutNode, rect: GridRect, ignore_id: Option<WidgetId>) -> bool {
    &&& ignore_id matches Some(id) ==> node.widget_id != id
    &&& node.rect.overlaps(rect)
}

impl View for LayoutPage {
    type V = PageView;

    open spec fn view(&self) -> PageView {
        PageView { config: self.config, nodes: self.nodes@ }
    }
}

impl LayoutPage {
    /// Every node is stored under its own widget's number.
    pub open spec fn wf(&self) -> bool {
        forall|k: u64| #[trigger] self.nodes@.contains_key(k) ==> self.nodes@[k].widget_id.0 == k
    }

    /// Whether every node is stored under its own widget's number.
    pub fn is_well_formed(&self) -> (r: bool)
        ensures
            r == self.wf(),
    {
        let entries = map_entries(&self.nodes);
        let mut i: usize = 0;
        while i < entries.len()
            invariant
                0 <= i <= entries@.len(),
                forall|j: int|
                    0 <= j < entries@.len() ==> self.nodes@.contains_key((#[trigger] entries@[j]).0)
                        && self.nodes@[entries@[j].0] == entries@[j].1,
                forall|k: u64| #[trigger]
                    self.nodes@.contains_key(k) ==> exists|j: int|
                        0 <= j < entries@.len() && entries@[j].0 == k,
                forall|j: int| 0 <= j < i ==> (#[trigger] entries@[j]).1.widget_id.0 == entries@[j].0,
            decreases entries@.len() - i,
        {
            if entries[i].1.widget_id.0 != entries[i].0 {
                return false;
            }
            i += 1;
        }
        proof {
            assert forall|k: u64| #[trigger] self.nodes@.contains_key(k) implies self.nodes@[k].widget_id.0 == k by {
                let j = choose|j: int| 0 <= j < entries@.len() && entries@[j].0 == k;
                assert(entries@[j].1.widget_id.0 == entries@[j].0);
            }
        }
        true
    }

    pub fn new(config: GridConfig) -> (page: Self)
        ensures
            page.config == config,
            page.nodes@ == Map::<u64, LayoutNode>::empty(),
            page.wf(),
    {
        Self { config, nodes: HashMap::new() }
    }

    /// Places the widget at `rect`, replacing any earlier placement of it.
    pub fn add_widget(&mut self, id: WidgetId, rect: GridRect)
        ensures
            final(self).config == old(self).config,
            final(self).nodes@ == old(self).nodes@.insert(id.0, LayoutNode { widget_id: id, rect }),
            old(self).wf() ==> final(self).wf(),
    {
        self.nodes.insert(id.0, LayoutNode { widget_id: id, rect });
    }

    /// Takes the widget off the page, if it is there.
    pub fn remove_widget(&mut self, id: WidgetId)
        ensures
            final(self).config == old(self).config,
            final(self).nodes@ == old(self).nodes@.remove(id.0),
            old(self).wf() ==> final(self).wf(),
    {
        self.nodes.remove(&id.0);
    }

    pub fn get_node(&self, id: WidgetId) -> (r: Option<&LayoutNode>)
        ensures
            r is Some <==> self.nodes@.contains_key(id.0),
            r matches Some(node) ==> *node == self.nodes@[id.0],
    {
        self.nodes.get(&id.0)
    }

    pub fn get_node_mut(&mut self, id: WidgetId) -> (r: Option<&mut LayoutNode>)
        ensures
            r is Some <==> old(self).nodes@.contains_key(id.0),
            r is Some ==> *r.unwrap() == old(self).nodes@[id.0] && final(self).nodes@
                == old(self).nodes@.insert(id.0, *final(r.unwrap())),
            r is None ==> final(self).nodes@ == old(self).nodes@,
            final(self).config == old(self).config,
    {
        match self.nodes.entry(id.0) {
            Entry::Occupied(e) => Some(e.into_mut()),
            Entry::Vacant(_) => None,
        }
    }

    /// Check if a rect is occupied by any widget
    pub fn is_occupied(&self, rect: GridRect) -> (r: Option<WidgetId>)
        ensures
            r is None <==> forall|k: u64| #[trigger]
                self.nodes@.contains_key(k) ==> !self.nodes@[k].rect.overlaps(rect),
            r matches Some(id) ==> exists|k: u64| #[trigger]
                self.nodes@.contains_key(k) && self.nodes@[k].widget_id == id
                    && self.nodes@[k].rect.overlaps(rect),
    {
        self.is_occupied_excluding(rect, None)
    }

    /// Check if a rect is occupied, optionally ignoring a specific widget
    pub fn is_occupied_excluding(&self, rect: GridRect, ignore_id: Option<WidgetId>) -> (r: Option<
        WidgetId,
    >)
        ensures
            r is None <==> forall|k: u64| #[trigger]
                self.nodes@.contains_key(k) ==> !node_occupies(self.nodes@[k], rect, ignore_id),
            r matches Some(id) ==> exists|k: u64| #[trigger]
                self.nodes@.contains_key(k) && self.nodes@[k].widget_id == id && node_occupies(
                    self.nodes@[k],
                    rect,
                    ignore_id,
                ),
    {
        let entries = map_entries(&self.nodes);
        let mut i: usize = 0;
        while i < entries.len()
            invariant
                0 <= i <= entries@.len(),
                entries@.len() == self.nodes@.dom().len(),
                forall|j: int|
                    0 <= j < entries@.len() ==> self.nodes@.contains_key((#[trigger] entries@[j]).0)
                        && self.nodes@[entries@[j].0] == entries@[j].1,
                forall|k: u64| #[trigger]
                    self.nodes@.contains_key(k) ==> exists|j: int|
                        0 <= j < entries@.len() && entries@[j].0 == k,
                forall|j: int|
                    0 <= j < i ==> !node_occupies((#[trigger] entries@[j]).1, rect, ignore_id),
            decreases entries@.len() - i,
        {
            let node = entries[i].1;
            let mut skip = false;
            if let Some(id) = ignore_id {
                if node.widget_id == id {
                    skip = true;
                }
            }
            if !skip && node.rect.intersects(&rect) {
                assert(self.nodes@.contains_key(entries@[i as int].0));
                return Some(node.widget_id);
            }
            i += 1;
        }
        proof {
            assert forall|k: u64| #[trigger]
                self.nodes@.contains_key(k) implies !node_occupies(self.nodes@[k], rect, ignore_id) by {
                let j = choose|j: int| 0 <= j < entries@.len() && entries@[j].0 == k;
                assert(!node_occupies(entries@[j].1, rect, ignore_id));
            }
        }
        None
    }

    /// Check if a rect fits within the page bounds
    pub fn is_in_bounds(&self, rect: GridRect) -> (r: bool)
        ensures
            r == rect.fits(self.config),
    {
        rect.col as u128 + rect.w as u128 <= self.config.cols as u128 && rect.row as u128
            + rect.h as u128 <= self.config.rows as u128
    }
}


/// A list that names each entry of `m` exactly once has as many entries as
/// `m`.
pub proof fn lemma_listed_len(moves: Seq<(WidgetId, GridRect)>, m: Map<u64, GridRect>)
    requires
        m.dom().finite(),
        forall|i: int| 0 <= i < moves.len() ==> m.contains_key((#[trigger] moves[i]).0.0),
        forall|k: u64| #[trigger]
            m.contains_key(k) ==> exists|i: int| 0 <= i < moves.len() && moves[i].0.0 == k,
        forall|i: int, j: int| 0 <= i < j < moves.len() ==> moves[i].0 != moves[j].0,
    ensures
        moves.len() == m.dom().len(),
{
    let keys = moves.map_values(|p: (WidgetId, GridRect)| p.0.0);
    assert(keys.no_duplicates()) by {
        assert forall|i: int, j: int| 0 <= i < keys.len() && 0 <= j < keys.len() && i != j implies keys[i]
            != keys[j] by {
            if i < j {
                assert(moves[i].0 != moves[j].0);
            } else {
                assert(moves[j].0 != moves[i].0);
            }
        }
    }
    assert(keys.to_set() =~= m.dom()) by {
        assert forall|k: u64| keys.to_set().contains(k) <==> m.contains_key(k) by {
            if m.contains_key(k) {
                let i = choose|i: int| 0 <= i < moves.len() && moves[i].0.0 == k;
                assert(keys[i] == k);
            }
            if keys.to_set().contains(k) {
                let i = choose|i: int| 0 <= i < keys.len() && keys[i] == k;
                assert(m.contains_key(moves[i].0.0));
            }
        }
    }
    keys.unique_seq_to_set();
}

/// Computes the layout changes that a drag, a resize or a compaction leads
/// to. The spec functions say which answers an implementation gives.
pub trait LayoutSolver {
    /// `result` is this solver's answer to dropping `moving_id` at
    /// `target_pos` on `target_page`; `None` when the widget stays on its
    /// page.
    spec fn drag_preview(
        pages: Seq<PageView>,
        moving_id: WidgetId,
        target_page: Option<usize>,
        target_pos: GridRect,
        result: LayoutMutation,
    ) -> bool;

    /// `result` is this solver's answer to resizing `resizing_id` to
    /// `new_size` on `target_page`; `None` when it is the widget's own page.
    spec fn resize_preview(
        pages: Seq<PageView>,
        resizing_id: WidgetId,
        target_page: Option<usize>,
        new_size: GridRect,
        result: LayoutMutation,
    ) -> bool;

    /// `result` is this solver's answer to compacting `page`.
    spec fn compaction(page: PageView, result: LayoutMutation) -> bool;

    fn calculate_drag_preview(
        pages: &[LayoutPage],
        moving_id: WidgetId,
        target_page: Option<usize>,
        target_pos: GridRect,
    ) -> (result: LayoutMutation)
        requires
            forall|i: int| 0 <= i < pages@.len() ==> (#[trigger] pages@[i]).wf(),
        ensures
            Self::drag_preview(page_views(pages@), moving_id, target_page, target_pos, result),
    ;

    fn calculate_resize_preview(
        pages: &[LayoutPage],
        resizing_id: WidgetId,
        target_page: Option<usize>,
        new_size: GridRect,
    ) -> (result: LayoutMutation)
        requires
            forall|i: int| 0 <= i < pages@.len() ==> (#[trigger] pages@[i]).wf(),
        ensures
            Self::resize_preview(page_views(pages@), resizing_id, target_page, new_size, result),
    ;

    fn compaction_pass(page: &LayoutPage) -> (result: LayoutMutation)
        requires
            page.wf(),
        ensures
            Self::compaction(page@, result),
    ;
}


/// The node maps of a list of pages.
pub open spec fn node_maps(pages: Seq<LayoutPage>) -> Seq<Map<u64, LayoutNode>> {
    pages.map_values(|p: LayoutPage| p.nodes@)
}

/// The node maps of what a list of pages holds.
pub open spec fn view_maps(views: Seq<PageView>) -> Seq<Map<u64, LayoutNode>> {
    views.map_values(|v: PageView| v.nodes)
}

/// The node maps of the pages are those of what the pages hold.
pub proof fn lemma_view_maps(pages: Seq<LayoutPage>)
    ensures
        view_maps(page_views(pages)) == node_maps(pages),
{
    assert(view_maps(page_views(pages)) =~= node_maps(pages));
}

/// The first of the pages that holds the widget, if any does.
pub(crate) fn holding_page(pages: &[LayoutPage], widget_id: WidgetId) -> (r: Option<usize>)
    ensures
        match first_holder(node_maps(pages@), widget_id.0) {
            Some(i) => r == Some(i as usize),
            None => r is None,
        },
        r matches Some(idx) ==> is_first_holder(node_maps(pages@), widget_id.0, idx as int),
{
    let ghost maps = node_maps(pages@);
    let mut idx: usize = 0;
    while idx < pages.len()
        invariant
            maps == node_maps(pages@),
            0 <= idx <= pages@.len(),
            forall|j: int| 0 <= j < idx ==> !(#[trigger] maps[j]).contains_key(widget_id.0),
        decreases pages@.len() - idx,
    {
        if pages[idx].get_node(widget_id).is_some() {
            proof {
                lemma_first_holder_is(maps, widget_id.0, idx as int);
            }
            return Some(idx);
        }
        idx += 1;
    }
    proof {
        lemma_no_holder(maps, widget_id.0);
    }
    None
}

/// Page `i` holds widget `key`, and no earlier page does.
pub open spec fn is_first_holder(maps: Seq<Map<u64, LayoutNode>>, key: u64, i: int) -> bool {
    &&& 0 <= i < maps.len()
    &&& maps[i].contains_key(key)
    &&& forall|j: int| 0 <= j < i ==> !(#[trigger] maps[j]).contains_key(key)
}

/// The first page that holds widget `key`, if any does.
pub open spec fn first_holder(maps: Seq<Map<u64, LayoutNode>>, key: u64) -> Option<int> {
    if exists|i: int| is_first_holder(maps, key, i) {
        Some(choose|i: int| is_first_holder(maps, key, i))
    } else {
        None
    }
}

/// The first holder is the one page found to be it.
pub proof fn lemma_first_holder_is(maps: Seq<Map<u64, LayoutNode>>, key: u64, i: int)
    requires
        is_first_holder(maps, key, i),
    ensures
        first_holder(maps, key) == Some(i),
{
    let c = choose|c: int| is_first_holder(maps, key, c);
    assert(is_first_holder(maps, key, c));
    if c < i {
        assert(!maps[c].contains_key(key));
    }
    if i < c {
        assert(!maps[i].contains_key(key));
    }
}

/// When no page holds widget `key`, it has no first holder.
pub proof fn lemma_no_holder(maps: Seq<Map<u64, LayoutNode>>, key: u64)
    requires
        forall|j: int| 0 <= j < maps.len() ==> !(#[trigger] maps[j]).contains_key(key),
    ensures
        first_holder(maps, key) is None,
{
}

/// One page change: the widget leaves the first page that holds it for page
/// `to`, keeping its rectangle, when `to` is another page that exists.
pub open spec fn transfer_step(maps: Seq<Map<u64, LayoutNode>>, change: (WidgetId, usize)) -> Seq<
    Map<u64, LayoutNode>,
> {
    let id = change.0;
    let to = change.1 as int;
    match first_holder(maps, id.0) {
        Some(from) => if from != to && to < maps.len() {
            let rect = maps[from][id.0].rect;
            maps.update(from, maps[from].remove(id.0)).update(
                to,
                maps[to].insert(id.0, LayoutNode { widget_id: id, rect }),
            )
        } else {
            maps
        },
        None => maps,
    }
}

/// One move: the widget takes the new rectangle on the first page that
/// holds it.
pub open spec fn move_step(maps: Seq<Map<u64, LayoutNode>>, mv: (WidgetId, GridRect)) -> Seq<
    Map<u64, LayoutNode>,
> {
    let key = mv.0.0;
    match first_holder(maps, key) {
        Some(i) => maps.update(
            i,
            maps[i].insert(key, LayoutNode { widget_id: maps[i][key].widget_id, rect: mv.1 }),
        ),
        None => maps,
    }
}

/// The page changes applied one after the other.
pub open spec fn apply_transfers(
    maps: Seq<Map<u64, LayoutNode>>,
    changes: Seq<(WidgetId, usize)>,
) -> Seq<Map<u64, LayoutNode>>
    decreases changes.len(),
{
    if changes.len() == 0 {
        maps
    } else {
        transfer_step(apply_transfers(maps, changes.drop_last()), changes.last())
    }
}

/// The moves applied one after the other.
pub open spec fn apply_moves(maps: Seq<Map<u64, LayoutNode>>, moves: Seq<(WidgetId, GridRect)>) -> Seq<
    Map<u64, LayoutNode>,
>
    decreases moves.len(),
{
    if moves.len() == 0 {
        maps
    } else {
        move_step(apply_moves(maps, moves.drop_last()), moves.last())
    }
}

/// A mutation applied to the node maps of the pages: first every page
/// change, then every move.
pub open spec fn applied(maps: Seq<Map<u64, LayoutNode>>, mutation: LayoutMutation) -> Seq<
    Map<u64, LayoutNode>,
> {
    apply_moves(apply_transfers(maps, mutation.page_changes@), mutation.moves@)
}

/// The rectangle that a drag of `widget_id` proposes with its top-left cell at
/// `(col, row)`: the widget keeps its size while it is dragged, on its own page
/// or onto another, taken from the first page that holds it; 1×1 when no page
/// holds it.
pub open spec fn proposed_rect(maps: Seq<Map<u64, LayoutNode>>, widget_id: WidgetId, col: usize, row: usize) -> GridRect {
    match first_holder(maps, widget_id.0) {
        Some(i) => GridRect {
            col,
            row,
            w: maps[i][widget_id.0].rect.w,
            h: maps[i][widget_id.0].rect.h,
        },
        None => GridRect { col, row, w: 1, h: 1 },
    }
}

/// The target page handed to the solver: `None` when the widget stays on its
/// page.
pub open spec fn preview_target(from_page: usize, to_page: usize) -> Option<usize> {
    if from_page == to_page {
        None
    } else {
        Some(to_page)
    }
}

/// The pages as a cross-page transfer shows them to the solver: the widget
/// taken off page `from_page` and placed at `rect` on page `to_page`.
pub open spec fn transfer_views(
    views: Seq<PageView>,
    widget_id: WidgetId,
    from_page: int,
    to_page: int,
    rect: GridRect,
) -> Seq<PageView> {
    let without = views.update(
        from_page,
        PageView { config: views[from_page].config, nodes: views[from_page].nodes.remove(widget_id.0) },
    );
    without.update(
        to_page,
        PageView {
            config: without[to_page].config,
            nodes: without[to_page].nodes.insert(widget_id.0, LayoutNode { widget_id, rect }),
        },
    )
}

/// `rect` resized to `w` × `h` cells, at least one cell each way, keeping its
/// top-left cell.
pub open spec fn resized_rect(rect: GridRect, w: usize, h: usize) -> GridRect {
    GridRect {
        col: rect.col,
        row: rect.row,
        w: if w < 1 {
            1
        } else {
            w
        },
        h: if h < 1 {
            1
        } else {
            h
        },
    }
}

/// After a widget is added, the page holds it at the given rectangle, and
/// every other widget as before.
pub proof fn lemma_add_then_get(nodes: Map<u64, LayoutNode>, id: WidgetId, rect: GridRect, other: u64)
    ensures
        ({
            let after = nodes.insert(id.0, LayoutNode { widget_id: id, rect });
            &&& after.contains_key(id.0)
            &&& after[id.0].rect == rect
            &&& after[id.0].widget_id == id
            &&& other != id.0 ==> (after.contains_key(other) == nodes.contains_key(other) && (
            nodes.contains_key(other) ==> after[other] == nodes[other]))
        }),
{
}

/// After a widget is removed, the page no longer holds it, and holds every
/// other widget as before.
pub proof fn lemma_remove_then_get(nodes: Map<u64, LayoutNode>, id: WidgetId, other: u64)
    ensures
        ({
            let after = nodes.remove(id.0);
            &&& !after.contains_key(id.0)
            &&& other != id.0 ==> (after.contains_key(other) == nodes.contains_key(other) && (
            nodes.contains_key(other) ==> after[other] == nodes[other]))
        }),
{
}

/// Removing a widget that was just added leaves the page as it was before,
/// when the page did not hold it.
pub proof fn lemma_add_then_remove(nodes: Map<u64, LayoutNode>, id: WidgetId, rect: GridRect)
    requires
        !nodes.contains_key(id.0),
    ensures
        nodes.insert(id.0, LayoutNode { widget_id: id, rect }).remove(id.0) == nodes,
{
    assert(nodes.insert(id.0, LayoutNode { widget_id: id, rect }).remove(id.0) =~= nodes);
}

/// A move changes only the rectangle of the moved widget, on the first page
/// that holds it; every page holds the same widgets as before.
pub proof fn lemma_move_step(maps: Seq<Map<u64, LayoutNode>>, mv: (WidgetId, GridRect))
    ensures
        ({
            let after = move_step(maps, mv);
            &&& after.len() == maps.len()
            &&& forall|i: int| 0 <= i < maps.len() ==> (#[trigger] after[i]).dom() == maps[i].dom()
            &&& match first_holder(maps, mv.0.0) {
                Some(i) => after[i][mv.0.0] == LayoutNode {
                    widget_id: maps[i][mv.0.0].widget_id,
                    rect: mv.1,
                } && forall|j: int, k: u64|
                    0 <= j < maps.len() && (j != i || k != mv.0.0) && maps[j].contains_key(k)
                        ==> #[trigger] after[j][k] == maps[j][k],
                None => after == maps,
            }
        }),
{
    let key = mv.0.0;
    if let Some(i) = first_holder(maps, key) {
        let c = choose|c: int| is_first_holder(maps, key, c);
        assert(is_first_holder(maps, key, c));
        let after = move_step(maps, mv);
        assert forall|j: int| 0 <= j < maps.len() implies (#[trigger] after[j]).dom() == maps[j].dom() by {
            if j == i {
                assert(after[j].dom() =~= maps[j].dom());
            }
        }
    }
}

/// Moves keep every page holding the same widgets.
pub proof fn lemma_apply_moves_keeps_holders(
    maps: Seq<Map<u64, LayoutNode>>,
    moves: Seq<(WidgetId, GridRect)>,
)
    ensures
        apply_moves(maps, moves).len() == maps.len(),
        forall|i: int| 0 <= i < maps.len() ==> (#[trigger] apply_moves(maps, moves)[i]).dom() == maps[i].dom(),
    decreases moves.len(),
{
    if moves.len() > 0 {
        lemma_apply_moves_keeps_holders(maps, moves.drop_last());
        lemma_move_step(apply_moves(maps, moves.drop_last()), moves.last());
        let before = apply_moves(maps, moves.drop_last());
        assert forall|i: int| 0 <= i < maps.len() implies (#[trigger] apply_moves(maps, moves)[i]).dom()
            == maps[i].dom() by {
            assert(before[i].dom() == maps[i].dom());
        }
    }
}

/// Pages that hold the same widgets have the same first holder of each.
proof fn lemma_same_holders(a: Seq<Map<u64, LayoutNode>>, b: Seq<Map<u64, LayoutNode>>, key: u64)
    requires
        a.len() == b.len(),
        forall|i: int| 0 <= i < a.len() ==> (#[trigger] a[i]).dom() == b[i].dom(),
    ensures
        first_holder(a, key) == first_holder(b, key),
{
    assert forall|i: int| is_first_holder(a, key, i) implies is_first_holder(b, key, i) by {
        assert(a[i].dom() == b[i].dom());
        assert(a[i].dom().contains(key));
        assert forall|j: int| 0 <= j < i implies !(#[trigger] b[j]).contains_key(key) by {
            assert(a[j].dom() == b[j].dom());
            assert(!a[j].contains_key(key));
            assert(!a[j].dom().contains(key));
        }
    }
    assert forall|i: int| is_first_holder(b, key, i) implies is_first_holder(a, key, i) by {
        assert(a[i].dom() == b[i].dom());
        assert(b[i].dom().contains(key));
        assert forall|j: int| 0 <= j < i implies !(#[trigger] a[j]).contains_key(key) by {
            assert(a[j].dom() == b[j].dom());
            assert(!b[j].contains_key(key));
            assert(!b[j].dom().contains(key));
        }
    }
}

/// Applying moves that name each widget at most once gives every moved
/// widget its new rectangle on the first page that holds it.
pub proof fn lemma_apply_moves_sets_rects(
    maps: Seq<Map<u64, LayoutNode>>,
    moves: Seq<(WidgetId, GridRect)>,
)
    requires
        forall|x: int, y: int| 0 <= x < y < moves.len() ==> moves[x].0 != moves[y].0,
    ensures
        forall|j: int|
            0 <= j < moves.len() ==> match first_holder(maps, (#[trigger] moves[j]).0.0) {
                Some(i) => apply_moves(maps, moves)[i][moves[j].0.0].rect == moves[j].1,
                None => true,
            },
    decreases moves.len(),
{
    if moves.len() > 0 {
        let prefix = moves.drop_last();
        let last = moves.last();
        lemma_apply_moves_sets_rects(maps, prefix);
        lemma_apply_moves_keeps_holders(maps, prefix);
        let before = apply_moves(maps, prefix);
        lemma_move_step(before, last);
        assert forall|j: int| 0 <= j < moves.len() implies match first_holder(
            maps,
            (#[trigger] moves[j]).0.0,
        ) {
            Some(i) => apply_moves(maps, moves)[i][moves[j].0.0].rect == moves[j].1,
            None => true,
        } by {
            let key = moves[j].0.0;
            lemma_same_holders(before, maps, key);
            if let Some(i) = first_holder(maps, key) {
                let c = choose|c: int| is_first_holder(maps, key, c);
                assert(is_first_holder(maps, key, c));
                assert(maps[i].contains_key(key));
                assert(before[i].contains_key(key));
                if j < moves.len() - 1 {
                    assert(prefix[j] == moves[j]);
                    assert(moves[j].0 != last.0);
                    assert(key != last.0.0);
                    assert(before[i][key].rect == moves[j].1);
                }
            }
        }
    }
}

/// A widget that no move names keeps its node.
pub proof fn lemma_apply_moves_keeps_unnamed(
    maps: Seq<Map<u64, LayoutNode>>,
    moves: Seq<(WidgetId, GridRect)>,
    i: int,
    k: u64,
)
    requires
        0 <= i < maps.len(),
        maps[i].contains_key(k),
        forall|j: int| 0 <= j < moves.len() ==> (#[trigger] moves[j]).0.0 != k,
    ensures
        apply_moves(maps, moves)[i][k] == maps[i][k],
    decreases moves.len(),
{
    if moves.len() > 0 {
        let prefix = moves.drop_last();
        assert forall|j: int| 0 <= j < prefix.len() implies (#[trigger] prefix[j]).0.0 != k by {
            assert(prefix[j] == moves[j]);
        }
        lemma_apply_moves_keeps_unnamed(maps, prefix, i, k);
        lemma_apply_moves_keeps_holders(maps, prefix);
        let before = apply_moves(maps, prefix);
        assert(before[i].dom() == maps[i].dom());
        lemma_move_step(before, moves.last());
        assert(moves.last().0.0 != k);
    }
}

/// A page change takes the widget off the first page that holds it and
/// puts it, with the same rectangle, on the target page, when that is
/// another page that exists.
pub proof fn lemma_transfer_step(maps: Seq<Map<u64, LayoutNode>>, change: (WidgetId, usize))
    ensures
        ({
            let after = transfer_step(maps, change);
            let id = change.0;
            let to = change.1 as int;
            match first_holder(maps, id.0) {
                Some(from) => if from != to && to < maps.len() {
                    &&& !after[from].contains_key(id.0)
                    &&& after[from] == maps[from].remove(id.0)
                    &&& after[to].contains_key(id.0)
                    &&& after[to][id.0] == LayoutNode { widget_id: id, rect: maps[from][id.0].rect }
                    &&& after[to].remove(id.0) == maps[to].remove(id.0)
                    &&& forall|j: int| 0 <= j < maps.len() && j != from && j != to ==> #[trigger] after[j]
                        == maps[j]
                } else {
                    after == maps
                },
                None => after == maps,
            }
        }),
{
    let id = change.0;
    let to = change.1 as int;
    if let Some(from) = first_holder(maps, id.0) {
        if from != to && to < maps.len() {
            let after = transfer_step(maps, change);
            assert(after[to].remove(id.0) =~= maps[to].remove(id.0));
        }
    }
}

/// Applying one page change, and no move, to pages where `from` is the first
/// page that holds the widget: the widget leaves `from`, which keeps every
/// other widget; it joins page `to` with its rectangle, and every widget
/// that page held stays where it was; no other page changes.
pub proof fn lemma_apply_one_page_change(
    maps: Seq<Map<u64, LayoutNode>>,
    mutation: LayoutMutation,
    id: WidgetId,
    from: int,
    to: usize,
)
    requires
        mutation.moves@.len() == 0,
        mutation.page_changes@ == seq![(id, to)],
        0 <= from < maps.len(),
        maps[from].contains_key(id.0),
        forall|j: int| 0 <= j < from ==> !(#[trigger] maps[j]).contains_key(id.0),
        from != to as int,
        to < maps.len(),
    ensures
        ({
            let after = applied(maps, mutation);
            &&& after.len() == maps.len()
            &&& forall|k: u64| #[trigger] after[from].contains_key(k) <==> maps[from].contains_key(k) && k != id.0
            &&& forall|k: u64| after[from].contains_key(k) ==> #[trigger] after[from][k] == maps[from][k]
            &&& after[to as int].contains_key(id.0)
            &&& after[to as int][id.0].rect == maps[from][id.0].rect
            &&& forall|k: u64| k != id.0 ==> (#[trigger] after[to as int].contains_key(k) <==> maps[to as int].contains_key(k))
            &&& forall|k: u64| k != id.0 && maps[to as int].contains_key(k) ==> #[trigger] after[to as int][k] == maps[to as int][k]
            &&& forall|j: int| 0 <= j < maps.len() && j != from && j != to as int ==> #[trigger] after[j] == maps[j]
        }),
{
    lemma_first_holder_is(maps, id.0, from);
    let changes = mutation.page_changes@;
    assert(changes.drop_last() =~= Seq::<(WidgetId, usize)>::empty());
    assert(apply_transfers(maps, changes.drop_last()) == maps);
    assert(changes.last() == (id, to));
    let moved = transfer_step(maps, (id, to));
    assert(apply_transfers(maps, changes) == moved);
    assert(apply_moves(moved, mutation.moves@) == moved);
    lemma_transfer_step(maps, (id, to));
    let after = applied(maps, mutation);
    assert(after == moved);
    assert(after[from] == maps[from].remove(id.0));
    assert forall|k: u64| #[trigger] after[from].contains_key(k) <==> maps[from].contains_key(k) && k != id.0 by {
        assert(maps[from].remove(id.0).contains_key(k) <==> maps[from].contains_key(k) && k != id.0);
    }
    assert forall|k: u64| k != id.0 && maps[to as int].contains_key(k) implies #[trigger] after[to as int][k] == maps[to as int][k] by {
        assert(after[to as int].remove(id.0).contains_key(k));
        assert(after[to as int].remove(id.0)[k] == after[to as int][k]);
    }
    assert forall|k: u64| k != id.0 implies (#[trigger] after[to as int].contains_key(k) <==> maps[to as int].contains_key(k)) by {
        assert(after[to as int].remove(id.0).contains_key(k) == after[to as int].contains_key(k));
        assert(maps[to as int].remove(id.0).contains_key(k) == maps[to as int].contains_key(k));
    }
}

/// A dragged widget keeps its size: the rectangle proposed for it has the
/// width and height of its node on the first page that holds it, and the
/// given top-left cell; 1×1 when no page holds it.
pub proof fn lemma_drag_keeps_size(
    maps: Seq<Map<u64, LayoutNode>>,
    widget_id: WidgetId,
    col: usize,
    row: usize,
    i: int,
)
    ensures
        0 <= i < maps.len() && maps[i].contains_key(widget_id.0) && (forall|j: int|
            0 <= j < i ==> !(#[trigger] maps[j]).contains_key(widget_id.0)) ==> {
            let r = proposed_rect(maps, widget_id, col, row);
            &&& r.col == col && r.row == row
            &&& r.w == maps[i][widget_id.0].rect.w
            &&& r.h == maps[i][widget_id.0].rect.h
        },
        (forall|j: int| 0 <= j < maps.len() ==> !(#[trigger] maps[j]).contains_key(widget_id.0))
            ==> proposed_rect(maps, widget_id, col, row) == (GridRect { col, row, w: 1, h: 1 }),
{
    if 0 <= i < maps.len() && maps[i].contains_key(widget_id.0) && (forall|j: int|
        0 <= j < i ==> !(#[trigger] maps[j]).contains_key(widget_id.0)) {
        lemma_first_holder_is(maps, widget_id.0, i);
    }
    if forall|j: int| 0 <= j < maps.len() ==> !(#[trigger] maps[j]).contains_key(widget_id.0) {
        lemma_no_holder(maps, widget_id.0);
    }
}

/// A resize keeps the widget's top-left cell and takes the asked width and
/// height, each at least one cell.
pub proof fn lemma_resize_keeps_corner(rect: GridRect, w: usize, h: usize)
    ensures
        ({
            let r = resized_rect(rect, w, h);
            &&& r.col == rect.col && r.row == rect.row
            &&& w >= 1 ==> r.w == w
            &&& w == 0 ==> r.w == 1
            &&& h >= 1 ==> r.h == h
            &&& h == 0 ==> r.h == 1
        }),
{
}

/// Applying the empty mutation, the answer to every refused drag or resize,
/// leaves every page as it was.
pub proof fn lemma_apply_empty_mutation(maps: Seq<Map<u64, LayoutNode>>, mutation: LayoutMutation)
    requires
        mutation.is_empty(),
    ensures
        applied(maps, mutation) == maps,
{
    assert(apply_transfers(maps, mutation.page_changes@) == maps);
}

#[derive(Debug)]
pub struct LayoutManager<S: LayoutSolver> {
    pub pages: Vec<LayoutPage>,
    pub active_page: usize,
    pub grid_config: GridConfig,
    /// The solver type; it holds no data.
    pub solver: PhantomData<S>,
}

impl<S: LayoutSolver> Clone for LayoutManager<S> {
    /// A manager with pages that hold the same, the same active page and the
    /// same grid.
    fn clone(&self) -> (manager: Self)
        ensures
            page_views(manager.pages@) == page_views(self.pages@),
            manager.active_page == self.active_page,
            manager.grid_config == self.grid_config,
    {
        let pages = self.pages.clone();
        proof {
            assert forall|i: int| 0 <= i < pages@.len() implies (#[trigger] pages@[i])@ == self.pages@[i]@ by {
                assert(cloned::<LayoutPage>(self.pages[i], pages[i]));
            }
            assert(page_views(pages@) =~= page_views(self.pages@));
        }
        LayoutManager { pages, active_page: self.active_page, grid_config: self.grid_config, solver: PhantomData }
    }
}

impl<S: LayoutSolver> LayoutManager<S> {
    /// Every page is well formed.
    pub open spec fn wf(&self) -> bool {
        forall|i: int| 0 <= i < self.pages@.len() ==> (#[trigger] self.pages@[i]).wf()
    }

    /// The same pages, configuration and active page.
    pub open spec fn same_as(&self, other: &Self) -> bool {
        &&& self.pages@ == other.pages@
        &&& self.active_page == other.active_page
        &&& self.grid_config == other.grid_config
    }

    /// Whether every page is well formed.
    pub fn is_well_formed(&self) -> (r: bool)
        ensures
            r == self.wf(),
    {
        let mut i: usize = 0;
        while i < self.pages.len()
            invariant
                0 <= i <= self.pages@.len(),
                forall|j: int| 0 <= j < i ==> (#[trigger] self.pages@[j]).wf(),
            decreases self.pages@.len() - i,
        {
            if !self.pages[i].is_well_formed() {
                return false;
            }
            i += 1;
        }
        true
    }

    pub fn new(pages: Vec<LayoutPage>, active_page: usize, grid_config: GridConfig) -> (manager: Self)
        ensures
            manager.pages@ == pages@,
            manager.active_page == active_page,
            manager.grid_config == grid_config,
    {
        Self { pages, active_page, grid_config, solver: PhantomData }
    }

    pub fn set_grid_config(&mut self, grid_config: GridConfig)
        ensures
            final(self).grid_config == grid_config,
            final(self).pages@ == old(self).pages@,
            final(self).active_page == old(self).active_page,
    {
        self.grid_config = grid_config
    }

    pub fn set_active_page(&mut self, index: usize)
        ensures
            final(self).active_page == index,
            final(self).pages@ == old(self).pages@,
            final(self).grid_config == old(self).grid_config,
    {
        self.active_page = index
    }

    // Getter functions for pages
    pub fn get_page(&self, index: usize) -> (r: Option<&LayoutPage>)
        ensures
            r is Some <==> index < self.pages@.len(),
            r matches Some(page) ==> *page == self.pages@[index as int],
    {
        if index < self.pages.len() {
            Some(&self.pages[index])
        } else {
            None
        }
    }

    pub fn get_page_mut(&mut self, index: usize) -> (r: Option<&mut LayoutPage>)
        ensures
            r is Some <==> index < old(self).pages@.len(),
            r is Some ==> *r.unwrap() == old(self).pages@[index as int] && final(self).pages@
                == old(self).pages@.update(index as int, *final(r.unwrap())),
            r is None ==> final(self).pages@ == old(self).pages@,
            final(self).active_page == old(self).active_page,
            final(self).grid_config == old(self).grid_config,
    {
        if index < self.pages.len() {
            Some(&mut self.pages[index])
        } else {
            None
        }
    }

    pub fn get_active_page(&self) -> (page: &LayoutPage)
        requires
            self.active_page < self.pages@.len(),
        ensures
            *page == self.pages@[self.active_page as int],
    {
        &self.pages[self.active_page]
    }

    pub fn get_active_page_mut(&mut self) -> (page: &mut LayoutPage)
        requires
            old(self).active_page < old(self).pages@.len(),
        ensures
            *page == old(self).pages@[old(self).active_page as int],
            final(self).pages@ == old(self).pages@.update(old(self).active_page as int, *final(page)),
            final(self).active_page == old(self).active_page,
            final(self).grid_config == old(self).grid_config,
    {
        &mut self.pages[self.active_page]
    }

    pub fn get_active_page_index(&self) -> (index: usize)
        ensures
            index == self.active_page,
    {
        self.active_page
    }

    pub fn get_pages(&self) -> (pages: &[LayoutPage])
        ensures
            pages@ == self.pages@,
    {
        self.pages.as_slice()
    }

    pub fn get_widget_page(&self, widget_id: WidgetId) -> (r: Option<usize>)
        ensures
            match first_holder(node_maps(self.pages@), widget_id.0) {
                Some(i) => r == Some(i as usize),
                None => r is None,
            },
            r matches Some(idx) ==> is_first_holder(node_maps(self.pages@), widget_id.0, idx as int),
    {
        holding_page(self.pages.as_slice(), widget_id)
    }

    // Getter functions for widgets
    pub fn get_widget(&self, widget_id: WidgetId) -> (r: Option<(usize, &LayoutNode)>)
        ensures
            match first_holder(node_maps(self.pages@), widget_id.0) {
                Some(i) => r matches Some((idx, node)) && idx == i && *node == self.pages@[i].nodes@[widget_id.0],
                None => r is None,
            },
    {
        let ghost maps = node_maps(self.pages@);
        match self.get_widget_page(widget_id) {
            Some(idx) => match {
                proof {
                    assert(is_first_holder(maps, widget_id.0, idx as int));
                    assert(maps[idx as int] == self.pages@[idx as int].nodes@);
                }
                self.pages[idx].get_node(widget_id)
            } {
                Some(node) => Some((idx, node)),
                None => None,
            },
            None => None,
        }
    }

    pub fn get_widget_mut(&mut self, widget_id: WidgetId) -> (r: Option<(usize, &mut LayoutNode)>)
        ensures
            match first_holder(node_maps(old(self).pages@), widget_id.0) {
                Some(i) => r is Some && r.unwrap().0 == i && *r.unwrap().1 == old(self).pages@[i].nodes@[widget_id.0]
                    && final(self).pages@.len() == old(self).pages@.len()
                    && (forall|j: int| 0 <= j < old(self).pages@.len() && j != i ==> final(self).pages@[j] == old(self).pages@[j])
                    && final(self).pages@[i].config == old(self).pages@[i].config
                    && final(self).pages@[i].nodes@ == old(self).pages@[i].nodes@.insert(widget_id.0, *final(r.unwrap().1)),
                None => r is None && final(self).pages@ == old(self).pages@,
            },
            final(self).active_page == old(self).active_page,
            final(self).grid_config == old(self).grid_config,
    {
        let ghost maps = node_maps(self.pages@);
        match self.get_widget_page(widget_id) {
            Some(idx) => match {
                proof {
                    assert(is_first_holder(maps, widget_id.0, idx as int));
                    assert(maps[idx as int] == self.pages@[idx as int].nodes@);
                }
                self.pages[idx].get_node_mut(widget_id)
            } {
                Some(node) => Some((idx, node)),
                None => None,
            },
            None => None,
        }
    }

    /// Drag handling on the grid, same page or across pages: the widget's top
    /// left cell proposed at `(col, row)` of page `page_number` (the active
    /// page when `None`). The widget keeps its size; a drag that stays on the
    /// widget's page is previewed on that page.
    pub fn on_drag_hover_cell(
        &mut self,
        page_number: Option<usize>,
        widget_id: WidgetId,
        col: usize,
        row: usize,
    ) -> (mutation: LayoutMutation)
        requires
            old(self).wf(),
        ensures
            final(self).same_as(old(self)),
            ({
                let pages = old(self).pages@;
                let to_page = match page_number {
                    Some(p) => p,
                    None => old(self).active_page,
                };
                let from_page = match first_holder(node_maps(pages), widget_id.0) {
                    Some(i) => i as usize,
                    None => old(self).active_page,
                };
                if to_page >= pages.len() {
                    mutation.is_empty()
                } else {
                    S::drag_preview(
                        page_views(pages),
                        widget_id,
                        preview_target(from_page, to_page),
                        proposed_rect(node_maps(pages), widget_id, col, row),
                        mutation,
                    )
                }
            }),
    {
        // Determine which page we're dragging to
        let to_page = match page_number {
            Some(p) => p,
            None => self.active_page,
        };

        // Find which page the widget is currently on; the widget keeps its
        // size during the drag, 1x1 if no page holds it
        let ghost maps = node_maps(self.pages@);
        let (from_page, widget_w, widget_h) = match self.get_widget(widget_id) {
            Some((i, node)) => (i, node.rect.w, node.rect.h),
            None => (self.active_page, 1, 1),
        };

        // Get the target page
        if to_page >= self.pages.len() {
            return LayoutMutation::default();
        }

        let proposed = GridRect { col, row, w: widget_w, h: widget_h };
        assert(proposed == proposed_rect(maps, widget_id, col, row));

        // Preview the drag operation
        self.preview_drag(from_page, to_page, widget_id, proposed)
    }

    fn preview_drag(
        &mut self,
        from_page: usize,
        to_page: usize,
        widget_id: WidgetId,
        proposed_rect: GridRect,
    ) -> (mutation: LayoutMutation)
        requires
            old(self).wf(),
        ensures
            final(self).same_as(old(self)),
            S::drag_preview(
                page_views(old(self).pages@),
                widget_id,
                preview_target(from_page, to_page),
                proposed_rect,
                mutation,
            ),
    {
        // The solver handles collision detection and widget displacement
        let target_page = if from_page == to_page {
            None
        } else {
            Some(to_page)
        };
        S::calculate_drag_preview(self.pages.as_slice(), widget_id, target_page, proposed_rect)
    }

    /// The solver's answer to moving the widget from page `from_page` to
    /// `target_rect` on page `to_page`. The pages are left as they were.
    pub fn transfer_widget(
        &mut self,
        widget_id: WidgetId,
        from_page: usize,
        to_page: usize,
        target_rect: GridRect,
    ) -> (mutation: LayoutMutation)
        requires
            old(self).wf(),
        ensures
            final(self).active_page == old(self).active_page,
            final(self).grid_config == old(self).grid_config,
            final(self).wf(),
            ({
                let pages = old(self).pages@;
                if from_page >= pages.len() || to_page >= pages.len() {
                    mutation.is_empty() && final(self).pages@ == pages
                } else if from_page == to_page {
                    S::drag_preview(page_views(pages), widget_id, None, target_rect, mutation)
                        && final(self).pages@ == pages
                } else if !pages[from_page as int].nodes@.contains_key(widget_id.0) {
                    mutation.is_empty() && final(self).pages@ == pages
                } else {
                    &&& S::drag_preview(
                        transfer_views(
                            page_views(pages),
                            widget_id,
                            from_page as int,
                            to_page as int,
                            target_rect,
                        ),
                        widget_id,
                        Some(to_page),
                        target_rect,
                        mutation,
                    )
                    &&& page_views(final(self).pages@) == page_views(pages).update(
                        to_page as int,
                        PageView {
                            config: pages[to_page as int].config,
                            nodes: pages[to_page as int].nodes@.remove(widget_id.0),
                        },
                    )
                }
            }),
    {
        let ghost pages = self.pages@;
        // Validate page indices
        if from_page >= self.pages.len() || to_page >= self.pages.len() {
            return LayoutMutation::default();
        }

        // If transferring to the same page, just preview the drag
        if from_page == to_page {
            return self.preview_drag(from_page, to_page, widget_id, target_rect);
        }

        // Get the widget from the source page
        let widget_node = match self.pages[from_page].get_node(widget_id) {
            Some(node) => *node,
            None => {
                return LayoutMutation::default();
            },
        };

        // Remove from source page
        self.pages[from_page].remove_widget(widget_id);

        // Add to target page temporarily to get the mutation
        self.pages[to_page].add_widget(widget_id, target_rect);
        proof {
            assert(self.wf()) by {
                assert forall|i: int| 0 <= i < self.pages@.len() implies (#[trigger] self.pages@[i]).wf() by {
                    assert(pages[i].wf());
                }
            }
            assert(page_views(self.pages@) =~= transfer_views(
                page_views(pages),
                widget_id,
                from_page as int,
                to_page as int,
                target_rect,
            ));
        }

        // Calculate the drag preview for the target page
        let mutation = S::calculate_drag_preview(
            self.pages.as_slice(),
            widget_id,
            Some(to_page),
            target_rect,
        );

        // Remove from target page (we'll add it back when apply_mutation is called)
        self.pages[to_page].remove_widget(widget_id);

        // Restore to source page
        self.pages[from_page].add_widget(widget_id, widget_node.rect);
        proof {
            assert(pages[from_page as int].wf());
            assert(self.pages@[from_page as int].nodes@ =~= pages[from_page as int].nodes@);
            assert(self.pages@[to_page as int].nodes@ =~= pages[to_page as int].nodes@.remove(
                widget_id.0,
            ));
            assert(self.wf()) by {
                assert forall|i: int| 0 <= i < self.pages@.len() implies (#[trigger] self.pages@[i]).wf() by {
                    assert(pages[i].wf());
                }
            }
            assert(page_views(self.pages@) =~= page_views(pages).update(
                to_page as int,
                PageView {
                    config: pages[to_page as int].config,
                    nodes: pages[to_page as int].nodes@.remove(widget_id.0),
                },
            ));
        }

        mutation
    }

    /// Resize handling on the grid: the widget resized to `new_w_cells` ×
    /// `new_h_cells` cells, at least one each way, on the first page that holds
    /// it.
    pub fn on_resize_hover_cells(&self, widget_id: WidgetId, new_w_cells: usize, new_h_cells: usize) -> (mutation:
        LayoutMutation)
        requires
            self.wf(),
        ensures
            match first_holder(node_maps(self.pages@), widget_id.0) {
                None => mutation.is_empty(),
                Some(i) => S::resize_preview(
                    page_views(self.pages@),
                    widget_id,
                    Some(i as usize),
                    resized_rect(self.pages@[i].nodes@[widget_id.0].rect, new_w_cells, new_h_cells),
                    mutation,
                ),
            },
    {
        // Find which page the widget is on
        let (page_idx, current_rect) = match self.get_widget(widget_id) {
            Some((idx, node)) => (idx, node.rect),
            None => {
                return LayoutMutation::default();
            },
        };

        // Clamp to at least 1x1
        let new_w_cells = if new_w_cells < 1 {
            1
        } else {
            new_w_cells
        };
        let new_h_cells = if new_h_cells < 1 {
            1
        } else {
            new_h_cells
        };

        // Create new rect with the resized dimensions
        let new_rect = GridRect {
            col: current_rect.col,
            row: current_rect.row,
            w: new_w_cells,
            h: new_h_cells,
        };

        // Use the solver to calculate resize preview
        S::calculate_resize_preview(self.pages.as_slice(), widget_id, Some(page_idx), new_rect)
    }

    /// Applies a solver's answer: first every page change, then every move.
    pub fn apply_mutation(&mut self, mutation: LayoutMutation)
        ensures
            node_maps(final(self).pages@) == applied(node_maps(old(self).pages@), mutation),
            final(self).pages@.len() == old(self).pages@.len(),
            forall|i: int|
                0 <= i < old(self).pages@.len() ==> (#[trigger] final(self).pages@[i]).config
                    == old(self).pages@[i].config,
            final(self).active_page == old(self).active_page,
            final(self).grid_config == old(self).grid_config,
            old(self).wf() ==> final(self).wf(),
    {
        let ghost start = node_maps(self.pages@);
        let ghost was_wf = self.wf();
        let ghost old_pages = self.pages@;
        // Apply page changes first (widget transfers between pages)
        let mut c: usize = 0;
        while c < mutation.page_changes.len()
            invariant
                0 <= c <= mutation.page_changes@.len(),
                node_maps(self.pages@) == apply_transfers(start, mutation.page_changes@.take(c as int)),
                self.pages@.len() == old_pages.len(),
                forall|i: int|
                    0 <= i < old_pages.len() ==> (#[trigger] self.pages@[i]).config
                        == old_pages[i].config,
                self.active_page == old(self).active_page,
                self.grid_config == old(self).grid_config,
                was_wf ==> self.wf(),
            decreases mutation.page_changes@.len() - c,
        {
            let (widget_id, to_page_idx) = mutation.page_changes[c];
            let ghost maps = node_maps(self.pages@);
            proof {
                assert(mutation.page_changes@.take(c + 1).drop_last() =~= mutation.page_changes@.take(
                    c as int,
                ));
            }
            // Find which page the widget is currently on
            if let Some(from_idx) = self.get_widget_page(widget_id) {
                if from_idx != to_page_idx && to_page_idx < self.pages.len() {
                    // Get the widget's node before removing
                    assert(maps[from_idx as int] == self.pages@[from_idx as int].nodes@);
                    if let Some(node) = self.pages[from_idx].get_node(widget_id) {
                        let rect = node.rect;
                        let ghost pages0 = self.pages@;

                        // Remove from source page
                        self.pages[from_idx].remove_widget(widget_id);

                        // Add to target page (will be updated by moves below)
                        self.pages[to_page_idx].add_widget(widget_id, rect);
                        proof {
                            lemma_first_holder_is(maps, widget_id.0, from_idx as int);
                            assert(node_maps(self.pages@) =~= transfer_step(
                                maps,
                                (widget_id, to_page_idx),
                            ));
                            if was_wf {
                                assert forall|i: int| 0 <= i < self.pages@.len() implies (
                                #[trigger] self.pages@[i]).wf() by {
                                    assert(pages0[i].wf());
                                }
                            }
                        }
                    }
                } else {
                    proof {
                        lemma_first_holder_is(maps, widget_id.0, from_idx as int);
                    }
                }
            }
            c += 1;
        }
        proof {
            assert(mutation.page_changes@.take(mutation.page_changes@.len() as int)
                =~= mutation.page_changes@);
        }
        let ghost moved_from = node_maps(self.pages@);
        let ghost mid_pages = self.pages@;

        // Apply position/size changes
        let mut m: usize = 0;
        while m < mutation.moves.len()
            invariant
                0 <= m <= mutation.moves@.len(),
                node_maps(self.pages@) == apply_moves(moved_from, mutation.moves@.take(m as int)),
                self.pages@.len() == old_pages.len(),
                forall|i: int|
                    0 <= i < old_pages.len() ==> (#[trigger] self.pages@[i]).config
                        == old_pages[i].config,
                self.active_page == old(self).active_page,
                self.grid_config == old(self).grid_config,
                was_wf ==> self.wf(),
            decreases mutation.moves@.len() - m,
        {
            let (widget_id, new_rect) = mutation.moves[m];
            let ghost maps = node_maps(self.pages@);
            let ghost pages0 = self.pages@;
            proof {
                assert(mutation.moves@.take(m + 1).drop_last() =~= mutation.moves@.take(m as int));
            }
            // Find which page the widget is on
            if let Some((_, node)) = self.get_widget_mut(widget_id) {
                node.rect = new_rect;
            }
            proof {
                assert(node_maps(self.pages@) =~= move_step(maps, (widget_id, new_rect)));
                if was_wf {
                    assert forall|i: int| 0 <= i < self.pages@.len() implies (
                    #[trigger] self.pages@[i]).wf() by {
                        assert(pages0[i].wf());
                    }
                }
            }
            m += 1;
        }
        proof {
            assert(mutation.moves@.take(mutation.moves@.len() as int) =~= mutation.moves@);
        }
    }

    // Getter functions for configuration
    pub fn get_grid_config(&self) -> (config: &GridConfig)
        ensures
            *config == self.grid_config,
    {
        &self.grid_config
    }
}

} // verus!
