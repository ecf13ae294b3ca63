use vstd::prelude::*;

use crate::slab::stripes_for;

verus! {

/// Settings of an allocator: the stripe size (the smallest amount carved from
/// a slab), the request size from which requests bypass the slabs, the
/// optional cap on the bytes held in slabs, and the byte length of each slab.
#[derive(Debug, Clone)]
pub struct Config {
    pub minimum_allocation_size: usize,
    pub maximum_allocation_size: usize,
    pub memory_limit: Option<usize>,
    pub slab_size: usize,
}

impl Default for Config {
    /// Stripes of 16 bytes, requests under 16 KiB from slabs of 256 KiB, no
    /// cap.
    fn default() -> (r: Self)
        ensures
            r.minimum_allocation_size == 16,
            r.maximum_allocation_size == 16 * 1024,
            r.memory_limit.is_none(),
            r.slab_size == 256 * 1024,
    {
        Config {
            minimum_allocation_size: 16,
            maximum_allocation_size: 16 * 1024,
            memory_limit: None,
            slab_size: 256 * 1024,
        }
    }
}

/// The slabs may grow to `count + 1` when `count` slabs of `slab_size` bytes
/// stay under the cap, or when there is no cap.
pub open spec fn may_grow(count: int, slab_size: int, limit: Option<usize>) -> bool {
    match limit {
        None => true,
        Some(l) => count * slab_size < l,
    }
}

impl Config {
    /// Sets the request size from which requests bypass the slabs.
    pub fn maximum_allocation_size(self, maximum_allocation_size: usize) -> (r: Self)
        ensures
            r.maximum_allocation_size == maximum_allocation_size,
            r.minimum_allocation_size == self.minimum_allocation_size,
            r.memory_limit == self.memory_limit,
            r.slab_size == self.slab_size,
    {
        Config { maximum_allocation_size, ..self }
    }

    /// Sets the stripe size.
    pub fn minimum_allocation_size(self, minimum_allocation_size: usize) -> (r: Self)
        ensures
            r.minimum_allocation_size == minimum_allocation_size,
            r.maximum_allocation_size == self.maximum_allocation_size,
            r.memory_limit == self.memory_limit,
            r.slab_size == self.slab_size,
    {
        Config { minimum_allocation_size, ..self }
    }

    /// Caps the bytes held in slabs.
    pub fn memory_limit(self, memory_limit: usize) -> (r: Self)
        ensures
            r.memory_limit == Some(memory_limit),
            r.minimum_allocation_size == self.minimum_allocation_size,
            r.maximum_allocation_size == self.maximum_allocation_size,
            r.slab_size == self.slab_size,
    {
        Config { memory_limit: Some(memory_limit), ..self }
    }

    /// Sets the byte length of each slab.
    pub fn batch_allocation_size(self, batch_allocation_size: usize) -> (r: Self)
        ensures
            r.slab_size == batch_allocation_size,
            r.minimum_allocation_size == self.minimum_allocation_size,
            r.maximum_allocation_size == self.maximum_allocation_size,
            r.memory_limit == self.memory_limit,
    {
        Config { slab_size: batch_allocation_size, ..self }
    }

    /// The same settings with the bypass size lowered to the slab size where
    /// it was larger.
    pub fn clamped(self) -> (r: Self)
        ensures
            r.maximum_allocation_size == if self.slab_size < self.maximum_allocation_size {
                self.slab_size
            } else {
                self.maximum_allocation_size
            },
            r.minimum_allocation_size == self.minimum_allocation_size,
            r.memory_limit == self.memory_limit,
            r.slab_size == self.slab_size,
    {
        if self.slab_size < self.maximum_allocation_size {
            Config { maximum_allocation_size: self.slab_size, ..self }
        } else {
            self
        }
    }

    /// A request of `length` bytes is for the slabs: it is under the bypass
    /// size.
    pub fn serves_from_slabs(&self, length: usize) -> (r: bool)
        ensures
            r == (length < self.maximum_allocation_size),
    {
        length < self.maximum_allocation_size
    }

    /// Another slab may be made while `count` slabs exist.
    pub fn may_add_slab(&self, count: usize) -> (r: bool)
        ensures
            r == may_grow(count as int, self.slab_size as int, self.memory_limit),
    {
        match self.memory_limit {
            None => true,
            Some(limit) => match count.checked_mul(self.slab_size) {
                Some(bytes) => bytes < limit,
                None => false,
            },
        }
    }

    /// A request of `length` bytes fits a slab whose stripes are all free.
    pub fn fits_empty_slab(&self, length: usize) -> (r: bool)
        requires
            self.minimum_allocation_size > 0,
        ensures
            r == (0 < self.slab_size / self.minimum_allocation_size && stripes_for(
                length as int,
                self.minimum_allocation_size as int,
            ) <= self.slab_size / self.minimum_allocation_size),
    {
        let s = self.minimum_allocation_size;
        let total = self.slab_size / s;
        let whole = length / s;
        if total == 0 || whole > total {
            false
        } else if length % s == 0 {
            whole <= total
        } else {
            whole < total
        }
    }
}

} // verus!
