//! Descriptors of the contiguous memory spans that an allocator manages.

use crate::boundary_tag::HEADER_SIZE;
use vstd::prelude::*;

verus! {

/// Mathematical model of a memory region: `length` bytes starting at `base`.
pub struct Span {
    pub base: int,
    pub length: int,
}

impl Span {
    /// The address of the first byte behind the span.
    pub open spec fn end(self) -> int {
        self.base + self.length
    }

    /// A span can be managed when it lies within the address space and has
    /// room for one header and at least one usable byte.
    pub open spec fn is_valid(self) -> bool {
        &&& 0 <= self.base
        &&& HEADER_SIZE < self.length
        &&& self.end() <= usize::MAX
    }
}

/// A contiguous span of backing memory, given by its base address and its
/// length in bytes. It is supplied from outside and never changed. Every
/// region has room for one header and at least one usable byte and lies
/// within the address space.
#[derive(Clone, Copy, Debug, PartialEq, Eq)]
pub struct MemoryRegion {
    addr: usize,
    size: usize,
}

impl View for MemoryRegion {
    type V = Span;

    closed spec fn view(&self) -> Span {
        Span { base: self.addr as int, length: self.size as int }
    }
}

impl MemoryRegion {
    /// What holds of every region: its span can be managed.
    #[verifier::type_invariant]
    pub open spec fn is_valid(&self) -> bool {
        self@.is_valid()
    }

    /// Describes the region of `size` bytes that starts at `addr`.
    pub fn new(addr: usize, size: usize) -> (region: MemoryRegion)
        requires
            HEADER_SIZE < size,
            addr + size <= usize::MAX,
        ensures
            region@ == (Span { base: addr as int, length: size as int }),
            region.is_valid(),
    {
        MemoryRegion { addr: addr, size: size }
    }

    /// The base address of the region.
    pub fn addr(&self) -> (addr: usize)
        ensures
            addr == self@.base,
    {
        self.addr
    }

    /// The length of the region in bytes.
    pub fn size(&self) -> (size: usize)
        ensures
            size == self@.length,
    {
        self.size
    }
}

} // verus!
