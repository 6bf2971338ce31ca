use vstd::prelude::*;

verus! {

/// A byte address in the machine's physical address space.
#[derive(Debug, Clone, Copy, PartialEq, Eq, Structural)]
pub struct PhysicalAddress(pub u64);

/// A byte address that is meaningful relative to one page-table root.
#[derive(Debug, Clone, Copy, PartialEq, Eq, Structural)]
pub struct VirtualAddress(pub u64);

impl PhysicalAddress {
    pub fn new(addr: u64) -> (r: Self)
        ensures
            r.0 == addr,
    {
        PhysicalAddress(addr)
    }

    /// The address as an integer that can be turned into a pointer.
    pub fn as_ptr(self) -> (r: usize)
        requires
            self.0 <= usize::MAX,
        ensures
            r == self.0,
    {
        self.0 as usize
    }

    pub fn as_usize(self) -> (r: usize)
        requires
            self.0 <= usize::MAX,
        ensures
            r == self.0,
    {
        self.0 as usize
    }

    /// The address as an integer that can be turned into a mutable pointer.
    pub fn as_mut_ptr(self) -> (r: usize)
        requires
            self.0 <= usize::MAX,
        ensures
            r == self.0,
    {
        self.0 as usize
    }

    pub fn offset(self, offset: u64) -> (r: Self)
        requires
            self.0 + offset <= u64::MAX,
        ensures
            r.0 == self.0 + offset,
    {
        PhysicalAddress(self.0 + offset)
    }
}

impl VirtualAddress {
    pub fn new(addr: u64) -> (r: Self)
        ensures
            r.0 == addr,
    {
        VirtualAddress(addr)
    }

    pub fn as_usize(self) -> (r: usize)
        requires
            self.0 <= usize::MAX,
        ensures
            r == self.0,
    {
        self.0 as usize
    }

    pub fn offset(self, offset: u64) -> (r: Self)
        requires
            self.0 + offset <= u64::MAX,
        ensures
            r.0 == self.0 + offset,
    {
        VirtualAddress(self.0 + offset)
    }
}

} // verus!
