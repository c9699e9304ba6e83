//! The lowest address the guest may use on the stack.
//!
//! The boundary is an estimate: it is taken once, near the entry of the task
//! that owns the guest, and lies a fixed margin below the sampled address.

use vstd::prelude::*;

verus! {

/// Bytes kept free between the sampled address and the boundary.
pub const STACK_SAFETY_MARGIN: usize = 8192;

/// The recorded boundary. It reads as zero until an address is registered.
pub struct StackBoundary {
    boundary: usize,
}

impl View for StackBoundary {
    type V = usize;

    closed spec fn view(&self) -> usize {
        self.boundary
    }
}

/// The boundary that belongs to a sampled stack address: the margin below it,
/// or zero where the address is smaller than the margin.
pub open spec fn boundary_below(stack_start: usize) -> usize {
    if stack_start >= STACK_SAFETY_MARGIN {
        (stack_start - STACK_SAFETY_MARGIN) as usize
    } else {
        0
    }
}

impl StackBoundary {
    /// A tracker on which nothing has been registered yet.
    pub fn new() -> (tracker: Self)
        ensures
            tracker@ == 0,
    {
        StackBoundary { boundary: 0 }
    }
}

/// Records the boundary for `stack_start`, an address near the top of the
/// current call stack. A later registration replaces an earlier one.
pub fn register_stack_boundary(tracker: &mut StackBoundary, stack_start: usize)
    ensures
        final(tracker)@ == boundary_below(stack_start),
{
    tracker.boundary = stack_start.saturating_sub(STACK_SAFETY_MARGIN);
}

/// The address below which the guest must not go: the value last registered,
/// zero before any registration.
pub fn os_thread_get_stack_boundary(tracker: &StackBoundary) -> (boundary: usize)
    ensures
        boundary == tracker@,
{
    tracker.boundary
}

} // verus!
