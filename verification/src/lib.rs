//! Grid layout engine of the home screen: widget rectangles on pages of a
//! cell grid, a collision-resolving solver for drags and resizes, upward
//! compaction, the bookkeeping that applies a solver's answer, the page a
//! swipe leads to and what a held press turns into.

pub mod clock;
pub mod config;
pub mod layout_manager;
pub mod models;
pub mod navigation;
pub mod solver;
