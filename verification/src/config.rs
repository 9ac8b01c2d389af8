use vstd::prelude::*;

verus! {

/// Dimensions of a page's cell grid.
#[derive(Clone, Copy, Debug, PartialEq, Eq, Structural)]
pub struct GridConfig {
    pub cols: usize,
    pub rows: usize,
}

} // verus!
