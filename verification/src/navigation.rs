use vstd::prelude::*;

use crate::layout_manager::{LayoutPage, WidgetId};

verus! {

/// The page that a finished swipe makes active.
///
/// `past_previous`: the swipe went far enough towards the previous page;
/// `past_next`: far enough towards the next page. The previous page wins
/// when it exists; `None` when the active page stays.
pub open spec fn swipe_target(current_page: usize, num_pages: usize, past_previous: bool, past_next: bool) -> Option<
    usize,
> {
    if past_previous && current_page > 0 {
        Some((current_page - 1) as usize)
    } else if past_next && current_page + 1 < num_pages {
        Some((current_page + 1) as usize)
    } else {
        None
    }
}

/// Which page a page swipe switches to, if any: one back when the swipe went
/// far enough that way and the active page is not the first, else one forward
/// when it went far enough that way and the active page is not the last.
pub fn page_after_swipe(current_page: usize, num_pages: usize, past_previous: bool, past_next: bool) -> (r:
    Option<usize>)
    requires
        past_next ==> num_pages > 0,
    ensures
        r == swipe_target(current_page, num_pages, past_previous, past_next),
{
    let should_switch_previous = past_previous && current_page > 0;
    let should_switch_next = past_next && current_page < num_pages - 1;
    if should_switch_previous {
        Some(current_page - 1)
    } else if should_switch_next {
        Some(current_page + 1)
    } else {
        None
    }
}

/// How a swipe picks its page. Far enough towards the previous page, from
/// any page but the first, it goes one page back, however many pages there
/// are. Otherwise, far enough towards the next page with a page after the
/// active one, it goes one page forward. A swipe that went far enough
/// neither way, or has no page to go to, keeps the active page.
pub proof fn lemma_swipe_choice(current_page: usize, num_pages: usize, past_previous: bool, past_next: bool)
    ensures
        past_previous && current_page > 0 ==> swipe_target(current_page, num_pages, past_previous, past_next)
            == Some((current_page - 1) as usize),
        !(past_previous && current_page > 0) && past_next && current_page + 1 < num_pages ==> swipe_target(
            current_page,
            num_pages,
            past_previous,
            past_next,
        ) == Some((current_page + 1) as usize),
        !past_previous && !past_next ==> swipe_target(current_page, num_pages, past_previous, past_next) is None,
        swipe_target(current_page, num_pages, past_previous, past_next) is None ==> !(past_previous
            && current_page > 0) && !(past_next && current_page + 1 < num_pages),
{
}

/// A swipe never leaves the range of pages: the page it switches to exists.
pub proof fn lemma_swipe_stays_on_pages(current_page: usize, num_pages: usize, past_previous: bool, past_next: bool)
    requires
        current_page < num_pages,
    ensures
        swipe_target(current_page, num_pages, past_previous, past_next) matches Some(p) ==> p < num_pages
            && (p == current_page - 1 || p == current_page + 1),
{
}

/// What a pointer move does to a press held on a widget.
#[derive(Clone, Copy, Debug, PartialEq, Eq, Structural)]
pub enum HoldStep {
    /// The widget is picked up and follows the pointer.
    DragWidget,
    /// The press turns into a page swipe.
    DragPage,
    /// The press keeps holding.
    KeepHolding,
}

/// The step that a pointer move takes for a press held on `widget_id` of the
/// active page `page`: once the press has lasted long enough, the widget is
/// picked up if the page holds it (else the press keeps holding); before
/// that, a press that wandered too far becomes a page swipe.
pub fn hold_step(page: &LayoutPage, widget_id: WidgetId, held_long_enough: bool, moved_too_far: bool) -> (r:
    HoldStep)
    ensures
        r == if held_long_enough {
            if page.nodes@.contains_key(widget_id.0) {
                HoldStep::DragWidget
            } else {
                HoldStep::KeepHolding
            }
        } else if moved_too_far {
            HoldStep::DragPage
        } else {
            HoldStep::KeepHolding
        },
{
    if held_long_enough {
        match page.get_node(widget_id) {
            Some(_) => HoldStep::DragWidget,
            None => HoldStep::KeepHolding,
        }
    } else if moved_too_far {
        HoldStep::DragPage
    } else {
        HoldStep::KeepHolding
    }
}

} // verus!
