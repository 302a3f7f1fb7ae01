//! Run-at-startup for platforms without a per-user Run registry key: the
//! switch cannot be read as on, and cannot be thrown.

use vstd::prelude::*;

verus! {

/// Whether the program is set to start with the session: never here.
pub fn enabled() -> (on: bool)
    ensures
        !on,
{
    false
}

/// Turns starting with the session on or off, reporting whether the change
/// was made: it cannot be made here.
pub fn set(on: bool) -> (done: bool)
    ensures
        !done,
{
    false
}

} // verus!
