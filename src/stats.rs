//! Read and capacity statistics of a storage cache.

use vstd::prelude::*;

verus! {

/// `x + y`, wrapping around at 2^64 as an atomic add does.
pub open spec fn wrapped_sum(x: u64, y: u64) -> u64 {
    if x + y > u64::MAX {
        (x + y - 18446744073709551616) as u64
    } else {
        (x + y) as u64
    }
}

/// Counters of reads and misses, the capacity bound, and how much of it is in use.
#[derive(Debug)]
pub struct AtomicIntCacheStats {
    total_reads: u64,
    total_misses: u64,
    max_capacity: u64,
    capacity_usage: u64,
}

impl AtomicIntCacheStats {
    pub closed spec fn reads(&self) -> u64 {
        self.total_reads
    }

    pub closed spec fn misses(&self) -> u64 {
        self.total_misses
    }

    pub closed spec fn capacity(&self) -> u64 {
        self.max_capacity
    }

    pub closed spec fn used(&self) -> u64 {
        self.capacity_usage
    }

    /// All counters at zero.
    pub fn new() -> (r: Self)
        ensures
            r.reads() == 0 && r.misses() == 0 && r.capacity() == 0 && r.used() == 0,
    {
        AtomicIntCacheStats { total_misses: 0, total_reads: 0, max_capacity: 0, capacity_usage: 0 }
    }

    pub fn total_misses(&self) -> (r: u64)
        ensures
            r == self.misses(),
    {
        self.total_misses
    }

    pub fn total_reads(&self) -> (r: u64)
        ensures
            r == self.reads(),
    {
        self.total_reads
    }

    /// Counts one more read.
    pub fn inc_total_reads(&mut self)
        ensures
            final(self).reads() == wrapped_sum(old(self).reads(), 1),
            final(self).misses() == old(self).misses(),
            final(self).capacity() == old(self).capacity(),
            final(self).used() == old(self).used(),
    {
        self.total_reads = self.total_reads.wrapping_add(1);
    }

    /// Counts one more miss.
    pub fn inc_total_misses(&mut self)
        ensures
            final(self).misses() == wrapped_sum(old(self).misses(), 1),
            final(self).reads() == old(self).reads(),
            final(self).capacity() == old(self).capacity(),
            final(self).used() == old(self).used(),
    {
        self.total_misses = self.total_misses.wrapping_add(1);
    }

    pub fn max_capacity(&self) -> (r: u64)
        ensures
            r == self.capacity(),
    {
        self.max_capacity
    }

    pub fn set_max_capacity(&mut self, val: u64)
        ensures
            final(self).capacity() == val,
            final(self).reads() == old(self).reads(),
            final(self).misses() == old(self).misses(),
            final(self).used() == old(self).used(),
    {
        self.max_capacity = val;
    }

    pub fn usage(&self) -> (r: u64)
        ensures
            r == self.used(),
    {
        self.capacity_usage
    }

    pub fn set_usage(&mut self, val: u64)
        ensures
            final(self).used() == val,
            final(self).reads() == old(self).reads(),
            final(self).misses() == old(self).misses(),
            final(self).capacity() == old(self).capacity(),
    {
        self.capacity_usage = val;
    }

    /// Adds to the usage, wrapping around at 2^64.
    pub fn inc_usage(&mut self, val: u64)
        ensures
            final(self).used() == wrapped_sum(old(self).used(), val),
            final(self).reads() == old(self).reads(),
            final(self).misses() == old(self).misses(),
            final(self).capacity() == old(self).capacity(),
    {
        self.capacity_usage = self.capacity_usage.wrapping_add(val);
    }

    /// Takes from the usage; a decrement larger than the usage is refused and leaves it as
    /// it was. Returns whether the decrement was applied.
    pub fn sub_usage(&mut self, val: u64) -> (applied: bool)
        ensures
            applied == (val <= old(self).used()),
            final(self).used() == (if applied {
                (old(self).used() - val) as u64
            } else {
                old(self).used()
            }),
            final(self).reads() == old(self).reads(),
            final(self).misses() == old(self).misses(),
            final(self).capacity() == old(self).capacity(),
    {
        if self.capacity_usage < val {
            false
        } else {
            self.capacity_usage = self.capacity_usage - val;
            true
        }
    }
}

impl Default for AtomicIntCacheStats {
    fn default() -> (r: Self)
        ensures
            r.reads() == 0 && r.misses() == 0 && r.capacity() == 0 && r.used() == 0,
    {
        Self::new()
    }
}

} // verus!
