use vstd::prelude::*;

verus! {

/// A process-local handle to a kernel object.
#[derive(Debug, Clone, Copy, PartialEq, Eq, Structural)]
pub struct CapabilityPtr(pub usize);

/// The sentinel handle of a private allocation, which cannot be shared.
pub const PRIVATE_CAPABILITY: usize = usize::MAX;

impl CapabilityPtr {
    pub fn new(value: usize) -> (r: Self)
        ensures
            r.0 == value,
    {
        CapabilityPtr(value)
    }

    pub fn value(&self) -> (r: usize)
        ensures
            r == self.0,
    {
        self.0
    }
}

/// What the holder of a capability may do with it, as a bit set.
#[derive(Debug, Clone, Copy, PartialEq, Eq, Structural)]
pub struct CapabilityRights(pub u8);

pub const RIGHT_READ: u8 = 1;

pub const RIGHT_WRITE: u8 = 2;

pub const RIGHT_GRANT: u8 = 4;

impl CapabilityRights {
    pub fn new(bits: u8) -> (r: Self)
        ensures
            r.0 == bits,
    {
        CapabilityRights(bits)
    }

    pub fn read_write() -> (r: Self)
        ensures
            r.0 == RIGHT_READ | RIGHT_WRITE,
    {
        CapabilityRights(RIGHT_READ | RIGHT_WRITE)
    }

    pub fn write() -> (r: Self)
        ensures
            r.0 == RIGHT_WRITE,
    {
        CapabilityRights(RIGHT_WRITE)
    }

    pub fn bits(&self) -> (r: u8)
        ensures
            r == self.0,
    {
        self.0
    }
}

} // verus!
