//! The state of the counting allocator that measures heap allocations of the
//! evaluation hot path: allocations and reallocations are counted only
//! while counting is enabled.
use vstd::prelude::*;

verus! {

/// Whether allocations are being counted, and how many were counted.
pub struct CountingAllocator {
    enabled: bool,
    allocations: usize,
}

impl CountingAllocator {
    /// Whether counting is enabled.
    pub closed spec fn enabled_view(&self) -> bool {
        self.enabled
    }

    /// The number of allocations counted.
    pub closed spec fn allocations_view(&self) -> usize {
        self.allocations
    }

    /// A counter that is not counting and has counted nothing.
    pub fn new() -> (counter: Self)
        ensures
            !counter.enabled_view(),
            counter.allocations_view() == 0,
    {
        CountingAllocator { enabled: false, allocations: 0 }
    }

    /// Records one allocation or reallocation: counted (modulo the `usize`
    /// range) only while counting is enabled.
    pub fn record_allocation(&mut self)
        ensures
            final(self).enabled_view() == old(self).enabled_view(),
            final(self).allocations_view() == (if old(self).enabled_view() {
                vstd::wrapping::usize_specs::wrapping_add(old(self).allocations_view(), 1)
            } else {
                old(self).allocations_view()
            }),
    {
        if self.enabled {
            self.allocations = self.allocations.wrapping_add(1);
        }
    }

    /// Whether counting is enabled.
    pub fn is_enabled(&self) -> (enabled: bool)
        ensures
            enabled == self.enabled_view(),
    {
        self.enabled
    }
}

/// Resets the count and starts counting.
pub fn start(counter: &mut CountingAllocator)
    ensures
        final(counter).enabled_view(),
        final(counter).allocations_view() == 0,
{
    counter.allocations = 0;
    counter.enabled = true;
}

/// Stops counting and returns the number of allocations counted since
/// `start`.
pub fn stop(counter: &mut CountingAllocator) -> (allocations: usize)
    ensures
        !final(counter).enabled_view(),
        final(counter).allocations_view() == old(counter).allocations_view(),
        allocations == old(counter).allocations_view(),
{
    counter.enabled = false;
    counter.allocations
}

} // verus!
