//! The display backend for platforms without a gamma-ramp API: there is no
//! display to find, nothing to read and every write is refused.

use vstd::prelude::*;
use crate::color::Ramp;
use crate::engine::Display;

verus! {

/// The displays whose ramps can be read: none here.
pub fn displays() -> (found: Vec<Display>)
    ensures
        found@.len() == 0,
{
    Vec::new()
}

/// Reads the current ramp of `display`: nothing can be read here.
pub fn get(display: &Display) -> (ramp: Option<Ramp>)
    ensures
        ramp is None,
{
    None
}

/// Writes `ramp` to `display`, reporting whether it was taken: never here.
pub fn set(display: &Display, ramp: &Ramp) -> (accepted: bool)
    ensures
        !accepted,
{
    false
}

} // verus!
