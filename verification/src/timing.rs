use vstd::prelude::*;

verus! {

/// Physics steps taken for every frame drawn.
pub const PHYSICS_SUB_STEPS: u32 = 20;

/// How long the event loop may stay idle, in milliseconds, before it asks
/// for a redraw on its own.
pub const IDLE_REDRAW_MILLIS: u128 = 8000;

/// Whether the event loop, idle for `elapsed_millis` whole milliseconds since
/// its last forced redraw, asks for a new one.
pub fn redraw_due(elapsed_millis: u128) -> (due: bool)
    ensures
        due == (elapsed_millis >= IDLE_REDRAW_MILLIS),
{
    elapsed_millis >= IDLE_REDRAW_MILLIS
}

} // verus!
