use vstd::prelude::*;

verus! {

/// The launcher's clock face: the date line and the time line it shows.
#[derive(Debug)]
pub struct Clock {
    pub date: String,
    pub time: String,
}

} // verus!
